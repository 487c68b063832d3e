//! The error taxonomy of the directory.

use vstd::prelude::*;

verus! {

/// Everything that a directory operation or the protocol around it can fail
/// with.
#[derive(Clone, Copy, Debug, PartialEq, Eq, Structural)]
pub enum Error {
    /// The caller failed the trust decision.
    UnauthorizedError,
    /// A referenced node identity has no row in the store.
    NoSuchNodeError,
    /// A uniqueness constraint was violated on create.
    ConflictError,
    /// Malformed or undecodable command or response bytes.
    CodecError,
    /// A channel-level failure.
    TransportError,
    /// An underlying store failure not covered above.
    StorageError,
}

impl Error {
    /// A one-line description, for reporting at the process edge.
    pub fn describe(&self) -> (r: &'static str)
        ensures
            r@.len() > 0,
    {
        let r = match self {
            Error::UnauthorizedError => "unauthorized",
            Error::NoSuchNodeError => "no such node",
            Error::ConflictError => "conflict",
            Error::CodecError => "codec failure",
            Error::TransportError => "transport failure",
            Error::StorageError => "storage failure",
        };
        proof {
            reveal_strlit("unauthorized");
            reveal_strlit("no such node");
            reveal_strlit("conflict");
            reveal_strlit("codec failure");
            reveal_strlit("transport failure");
            reveal_strlit("storage failure");
        }
        r
    }
}

} // verus!
