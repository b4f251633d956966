//! The kinds of failure that a repository reports.

use vstd::prelude::*;

verus! {

#[derive(Clone, Copy, Debug, PartialEq, Eq, Structural)]
pub enum RepoError {
    /// The requested entity has no leaf.
    NotFound,
    /// The leaf to be written is already there.
    AlreadyExists,
    /// A stored name or line is not what it should be the text of.
    Parse,
    /// The storage below the repository failed.
    Io,
    /// What is stored contradicts the layout of a repository.
    InvariantViolation,
}

} // verus!
