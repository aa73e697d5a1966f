//! Failures of a registry request.
use vstd::prelude::*;

verus! {

/// Why a request to the registry did not succeed.
#[derive(Clone, Copy, Debug, PartialEq, Eq, Structural)]
pub enum Error {
    /// The requested name is already bound to another key.
    AlreadyExisting,
    /// The registry had shut down before the request could be queued.
    GoneOnSend,
    /// The registry dropped the request before answering it.
    GoneOnRecv,
}

impl Error {
    /// Human-readable description of the failure.
    pub fn message(&self) -> (s: &'static str)
        ensures
            s@ == match self {
                Error::AlreadyExisting => "name already registered"@,
                Error::GoneOnSend => "gone on send"@,
                Error::GoneOnRecv => "gone on recv"@,
            },
    {
        match self {
            Error::AlreadyExisting => "name already registered",
            Error::GoneOnSend => "gone on send",
            Error::GoneOnRecv => "gone on recv",
        }
    }
}

} // verus!
