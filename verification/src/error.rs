//! The errors that encoding reports.
use vstd::prelude::*;

verus! {

/// What can go wrong while a pack is encoded.
#[derive(Debug)]
pub enum GitError {
    /// The pack cannot be encoded, for the reason given.
    PackEncodeError(String),
}

impl GitError {
    /// The reason that the error carries.
    pub open spec fn reason(self) -> Seq<char> {
        match self {
            GitError::PackEncodeError(reason) => reason@,
        }
    }

    /// An encoding error with a fixed reason.
    pub(crate) fn pack_encode(reason: &str) -> (error: GitError)
        ensures
            error.reason() == reason@,
    {
        GitError::PackEncodeError(reason.to_owned())
    }

    /// An encoding error whose reason quotes a name between two texts.
    pub(crate) fn pack_encode_quoting(before: &str, name: &str, after: &str) -> (error: GitError)
        ensures
            error.reason() == before@ + name@ + after@,
    {
        let mut reason: String = before.to_owned();
        reason.append(name);
        reason.append(after);
        GitError::PackEncodeError(reason)
    }
}

} // verus!
