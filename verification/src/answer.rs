//! A participant's recorded reply to a question.

use vstd::prelude::*;
use crate::address::Address;

verus! {

/// One reply: who gave it and which side they chose.
#[derive(Clone, Copy, Debug, PartialEq, Eq)]
pub struct Answer {
    /// The identity that answered.
    pub who: Address,
    /// The side it chose: yes or no.
    pub choice: bool,
}

} // verus!
