use vstd::prelude::*;

verus! {

/// Outcome class of an operation.
#[derive(Clone, Copy, Debug, PartialEq, Eq, Structural)]
pub enum Code {
    KOk,
    KCorruption,
    KIOError,
}

/// Result of an operation: a code and two message parts.
#[derive(Debug)]
pub struct State {
    code: Code,
    msg: String,
    msg2: String,
}

impl State {
    pub closed spec fn code(&self) -> Code {
        self.code
    }

    /// The first part of the message.
    pub closed spec fn text(&self) -> String {
        self.msg
    }

    /// The second part of the message.
    pub closed spec fn detail(&self) -> String {
        self.msg2
    }

    #[verifier::when_used_as_spec(spec_is_ok)]
    pub fn is_ok(&self) -> (b: bool)
        ensures
            b == self.spec_is_ok(),
    {
        self.code == Code::KOk
    }

    pub open spec fn spec_is_ok(&self) -> bool {
        self.code() == Code::KOk
    }

    /// The outcome class.
    pub fn get_code(&self) -> (c: Code)
        ensures
            c == self.code(),
    {
        self.code
    }

    /// What went wrong, in words.
    pub fn message(&self) -> (m: &String)
        ensures
            *m == self.text(),
    {
        &self.msg
    }

    /// All is well, and there is nothing to say.
    pub fn ok() -> (s: State)
        ensures
            s.code() == Code::KOk,
            s.text()@ == Seq::<char>::empty(),
            s.detail()@ == Seq::<char>::empty(),
    {
        State { code: Code::KOk, msg: String::new(), msg2: String::new() }
    }

    pub fn new(code: Code, msg: String, msg2: String) -> (s: State)
        ensures
            s.code() == code,
            s.text() == msg,
            s.detail() == msg2,
    {
        State { code, msg, msg2 }
    }
}

} // verus!
