//! The error kinds that the engine reports.

use vstd::prelude::*;

verus! {

/// What went wrong, with a fixed message saying where.
#[derive(Debug, Clone, Copy)]
pub enum Error {
    /// The caller handed in a malformed value.
    BadRequest(&'static str),
    /// A stored value breaks the format that its keyspace promises.
    BadDatabase(&'static str),
}

pub type Result<T> = std::result::Result<T, Error>;

/// The kind of an error, without its message.
#[derive(Debug, Clone, Copy, PartialEq, Eq, Structural)]
pub enum ErrorKind {
    BadRequest,
    BadDatabase,
}

impl Error {
    /// The kind of the error.
    pub open spec fn spec_kind(&self) -> ErrorKind {
        match *self {
            Error::BadRequest(_) => ErrorKind::BadRequest,
            Error::BadDatabase(_) => ErrorKind::BadDatabase,
        }
    }

    /// The kind of the error.
    #[verifier::when_used_as_spec(spec_kind)]
    pub fn kind(&self) -> (k: ErrorKind)
        ensures
            k == self.spec_kind(),
    {
        match self {
            Error::BadRequest(_) => ErrorKind::BadRequest,
            Error::BadDatabase(_) => ErrorKind::BadDatabase,
        }
    }

    /// The fixed message carried by the error.
    pub fn message(&self) -> (m: &'static str)
        ensures
            m == match *self {
                Error::BadRequest(s) => s,
                Error::BadDatabase(s) => s,
            },
    {
        match *self {
            Error::BadRequest(s) => s,
            Error::BadDatabase(s) => s,
        }
    }
}

} // verus!
