//! The error taxonomy of the engine.

use vstd::prelude::*;

verus! {

/// Every failure the engine can surface to a caller.
#[derive(Clone, Copy, PartialEq, Eq, Structural, Debug)]
pub enum GitError {
    /// A read missed: the requested object is not in the store.
    ObjectNotFound,
    /// A pack or object stream failed a checksum or size check.
    CorruptPack,
    /// A reference name did not resolve.
    RefNotFound,
    /// A symbolic reference chain was longer than one hop.
    RefCycle,
    /// A compare-and-swap reference update lost a race.
    RefConflict,
    /// A transfer session failed at the transport level.
    TransferFailed,
}

impl GitError {
    /// A short diagnostic label for the error.
    pub fn describe(&self) -> (r: &'static str)
    {
        match self {
            GitError::ObjectNotFound => "object not found",
            GitError::CorruptPack => "corrupt pack",
            GitError::RefNotFound => "ref not found",
            GitError::RefCycle => "ref cycle",
            GitError::RefConflict => "ref conflict",
            GitError::TransferFailed => "transfer failed",
        }
    }
}

} // verus!
