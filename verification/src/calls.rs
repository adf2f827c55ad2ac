//! Calls on a ledger as values, and what a series of them does to it.
//!
//! This is the vocabulary in which the laws of the ledger are stated: a call
//! names an operation with its caller and arguments, applying it gives the
//! ledger that the operation leaves behind (the same ledger if the operation
//! is refused), and running a series of calls applies them one after another.

use vstd::prelude::*;
use crate::address::Address;
use crate::error::Error;
use crate::ledger::StateView;

verus! {

/// One call on the ledger, with the identity that makes it.
pub enum Call {
    /// `caller` creates a match whose answers stake `player_stake` each.
    CreateMatch { caller: Address, details: Seq<char>, player_stake: u64 },
    /// `caller` starts the game of a match.
    StartGame { caller: Address, match_id: u64 },
    /// `caller` puts a question to a match.
    CreateQuestion { caller: Address, match_id: u64, text: Seq<char> },
    /// `caller` answers a question.
    AnswerQuestion { caller: Address, match_id: u64, question_id: u64, answer: bool },
    /// `caller` ends a question.
    EndQuestion { caller: Address, match_id: u64, question_id: u64 },
    /// `caller` declares the correct answer of a question.
    DeclareAnswer { caller: Address, match_id: u64, question_id: u64, correct_answer: bool },
    /// Somebody asks for a question to be paid out.
    PayoutWinners { match_id: u64, question_id: u64 },
}

/// The ledger that an operation leaves behind: the new one if it was
/// accepted, the one before if it was refused.
pub open spec fn left_by(outcome: Result<StateView, Error>, before: StateView) -> StateView {
    match outcome {
        Ok(next) => next,
        Err(_) => before,
    }
}

impl StateView {
    /// The ledger after `call`.
    pub open spec fn apply(self, call: Call) -> StateView {
        match call {
            Call::CreateMatch { caller, details, player_stake } => self.create_match(
                caller,
                details,
                player_stake as nat,
            ),
            Call::StartGame { caller, match_id } => left_by(
                self.start_game(caller, match_id as nat),
                self,
            ),
            Call::CreateQuestion { caller, match_id, text } => left_by(
                self.create_question(caller, match_id as nat, text),
                self,
            ),
            Call::AnswerQuestion { caller, match_id, question_id, answer } => left_by(
                self.answer_question(caller, match_id as nat, question_id as nat, answer),
                self,
            ),
            Call::EndQuestion { caller, match_id, question_id } => left_by(
                self.end_question(caller, match_id as nat, question_id as nat),
                self,
            ),
            Call::DeclareAnswer { caller, match_id, question_id, correct_answer } => left_by(
                self.declare_answer(caller, match_id as nat, question_id as nat, correct_answer),
                self,
            ),
            Call::PayoutWinners { match_id, question_id } => left_by(
                self.payout_winners(match_id as nat, question_id as nat),
                self,
            ),
        }
    }

    /// The ledger after the calls of `calls`, made in order.
    pub open spec fn run(self, calls: Seq<Call>) -> StateView
        decreases calls.len(),
    {
        if calls.len() == 0 {
            self
        } else {
            self.run(calls.drop_last()).apply(calls.last())
        }
    }
}

} // verus!
