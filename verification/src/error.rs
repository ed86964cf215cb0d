//! The error type shared by the whole library.

use vstd::prelude::*;

verus! {

/// What went wrong, without the message.
#[derive(Debug, Clone, Copy, PartialEq, Eq, Structural)]
pub enum ErrorKind {
    Io,
    Corrupt,
    Unsupported,
    InvalidArgument,
    Arrow,
    Codec,
}

/// Every way an operation of this library can fail.
#[derive(Debug)]
pub enum Error {
    /// Reading or writing the underlying storage failed.
    Io(String),
    /// The bytes are not what the pinned codec says they should be: bad
    /// magic, bad checksum, truncated file, out-of-range value.
    Corrupt(String),
    /// The data is valid but outside the supported scope.
    Unsupported(String),
    /// A request or plan is internally inconsistent (caller error).
    InvalidArgument(String),
    /// Columnar-side failure (schema mismatch, buffer construction).
    Arrow(String),
    /// Underlying codec library failure, as text.
    Codec(String),
}

/// Crate-wide result alias.
pub type Result<T> = std::result::Result<T, Error>;

impl Error {
    /// The kind of this error.
    pub open spec fn kind(&self) -> ErrorKind {
        match self {
            Error::Io(_) => ErrorKind::Io,
            Error::Corrupt(_) => ErrorKind::Corrupt,
            Error::Unsupported(_) => ErrorKind::Unsupported,
            Error::InvalidArgument(_) => ErrorKind::InvalidArgument,
            Error::Arrow(_) => ErrorKind::Arrow,
            Error::Codec(_) => ErrorKind::Codec,
        }
    }

    /// The text that says what happened.
    pub open spec fn text(&self) -> Seq<char> {
        match self {
            Error::Io(m) => m@,
            Error::Corrupt(m) => m@,
            Error::Unsupported(m) => m@,
            Error::InvalidArgument(m) => m@,
            Error::Arrow(m) => m@,
            Error::Codec(m) => m@,
        }
    }

    pub fn corrupt(msg: &str) -> (r: Error)
        ensures
            r.kind() == ErrorKind::Corrupt,
            r.text() == msg@,
    {
        Error::Corrupt(msg.to_owned())
    }

    pub fn unsupported(msg: &str) -> (r: Error)
        ensures
            r.kind() == ErrorKind::Unsupported,
            r.text() == msg@,
    {
        Error::Unsupported(msg.to_owned())
    }

    pub fn invalid(msg: &str) -> (r: Error)
        ensures
            r.kind() == ErrorKind::InvalidArgument,
            r.text() == msg@,
    {
        Error::InvalidArgument(msg.to_owned())
    }
}

} // verus!
