use vstd::prelude::*;
use vstd::string::StringExecFns;

verus! {

/// The name of the lock file of the store `dbname`.
pub fn lock_file_name(dbname: String) -> (name: String)
    ensures
        name@ == dbname@ + "/LOC"@,
{
    dbname.concat("/LOC")
}

} // verus!
