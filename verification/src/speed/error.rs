//! The ways in which a connection can end.

use vstd::prelude::*;
use vstd::string::*;

verus! {

/// The kinds of read and write errors that are told apart.
#[derive(Clone, Copy, Debug, PartialEq, Eq, Structural)]
pub enum IoKind {
    /// The data ended in the middle of something.
    UnexpectedEof,
    /// The operation was interrupted, and can be tried again.
    Interrupted,
    /// The operation would have to wait, and can be tried again.
    WouldBlock,
    /// Anything else.
    Other,
}

/// An OS-level read or write error.
#[derive(Debug, PartialEq, Eq)]
pub struct IoError {
    pub kind: IoKind,
    pub text: String,
}

/// What went wrong with a client.
#[derive(Debug, PartialEq, Eq)]
pub enum Error {
    /// The client has disconnected.
    Eof,
    /// There was an actual OS-level read/write error.
    IOError(IoError),
    /// The client has not kept to the protocol.
    ClientError(String),
    /// The server itself has failed.
    ServerError(String),
}

impl From<IoError> for Error {
    fn from(e: IoError) -> (r: Self) {
        if e.kind == IoKind::UnexpectedEof {
            Error::Eof
        } else {
            Error::IOError(e)
        }
    }
}

impl vstd::std_specs::convert::FromSpecImpl<IoError> for Error {
    open spec fn obeys_from_spec() -> bool {
        true
    }

    open spec fn from_spec(e: IoError) -> Self {
        if e.kind == IoKind::UnexpectedEof {
            Error::Eof
        } else {
            Error::IOError(e)
        }
    }
}

impl Error {
    /// The error where something could not be sent to another task; `what` is
    /// how it prints.
    pub fn unsent(what: &str) -> (r: Error)
        ensures
            r is ServerError,
            r->ServerError_0@ == "error sending "@ + what@,
    {
        let mut text = String::from_str("error sending ");
        text.append(what);
        Error::ServerError(text)
    }
}

} // verus!
