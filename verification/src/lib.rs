//! A write-ahead log: records are framed into blocks with checksums, written
//! through a buffered file writer, and read back under a mode of recovery.

pub mod db;
pub mod env;
pub mod storage;
pub mod util;
