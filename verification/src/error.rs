//! The error type shared by every operation of the store.

use vstd::prelude::*;
use vstd::std_specs::convert::FromSpecImpl;

verus! {

/// `std::io::Error`, carried through unread: what a failed filesystem call
/// reported.
#[verifier::external_type_specification]
#[verifier::external_body]
pub struct ExIoError(std::io::Error);

/// Why an operation of the store failed.
#[derive(Debug)]
pub enum KvError {
    /// A filesystem call failed.
    Io(std::io::Error),
    /// The store's path exists and is not a directory.
    InvalidDir,
    /// A record header is malformed, or a record does not fit in its segment.
    Corrupt,
    /// An invariant of the store no longer holds.
    Internal,
}

impl From<std::io::Error> for KvError {
    fn from(err: std::io::Error) -> (out: KvError) {
        KvError::Io(err)
    }
}

impl FromSpecImpl<std::io::Error> for KvError {
    open spec fn obeys_from_spec() -> bool {
        true
    }

    open spec fn from_spec(err: std::io::Error) -> KvError {
        KvError::Io(err)
    }
}

impl KvError {
    /// A short description of the error.
    pub fn message(&self) -> (out: &'static str)
        ensures
            out@ == (match *self {
                KvError::Io(_) => "i/o error"@,
                KvError::InvalidDir => "path is not a directory"@,
                KvError::Corrupt => "corrupt record"@,
                KvError::Internal => "internal inconsistency"@,
            }),
    {
        match self {
            KvError::Io(_) => "i/o error",
            KvError::InvalidDir => "path is not a directory",
            KvError::Corrupt => "corrupt record",
            KvError::Internal => "internal inconsistency",
        }
    }
}

} // verus!
