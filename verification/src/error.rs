//! The ways in which a call on the ledger is turned down.

use vstd::prelude::*;

verus! {

/// Why a call was rejected. A rejected call changes nothing.
#[derive(Clone, Copy, Debug, PartialEq, Eq, Structural)]
pub enum Error {
    /// The match, or the question within it, does not exist.
    NotFound,
    /// The caller does not hold the role the operation asks for.
    Unauthorized,
    /// The caller has already answered this question.
    AlreadyAnswered,
    /// The question no longer accepts answers.
    AlreadyEnded,
    /// The question is still open.
    NotEnded,
}

} // verus!
