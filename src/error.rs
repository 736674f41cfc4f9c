use vstd::prelude::*;

verus! {

/// Why an operation of the repository failed.
#[derive(Clone, Copy, Debug, PartialEq, Eq, Structural)]
pub enum VcsError {
    /// A ref, branch or object that is not there.
    NotFound,
    /// A branch name that is taken.
    AlreadyExists,
    /// Stored bytes that are not a valid object, or a history that does not hold together.
    Integrity,
    /// An operation that the repository's state does not allow.
    InvalidState,
}

} // verus!
