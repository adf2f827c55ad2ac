//! A ledger of prediction matches.
//!
//! A match is owned by the identity that created it. Participants other than
//! the owner put yes/no questions to a match, anyone may answer an open
//! question once, and the owner ends a question, declares its correct answer
//! and thereby makes the stake committed on it payable to those who answered
//! correctly.
//!
//! Every operation names the calling identity explicitly, validates it against
//! the record it touches and either commits its whole effect or leaves the
//! ledger as it was.
//!
//! # Layout
//!
//! - [`ledger`] holds [`ledger::State`], the root of all records, and the
//!   operations that callers invoke on it.
//! - [`game`] and [`question`] hold the records of one match and of one
//!   question, with the rules that each applies on its own.
//! - [`payout`] divides the stake of a resolved question among its winners.
//! - [`address`], [`answer`] and [`error`] hold the plain values that pass
//!   between the ledger and its callers.
//! - [`calls`], [`growth`] and [`laws`] hold no executable code: they state
//!   and prove what is true of every ledger after any series of calls.
//!
//! # Models
//!
//! Each record has a mathematical view (`StateView`, `MatchView`,
//! `QuestionView`) with a well-formedness predicate `wf`. The outcome of each
//! operation is a function on views, and the contract of the operation says
//! that it returns and leaves behind exactly what that function gives.
//! Constructors establish `wf`, operations require and preserve it.

pub mod address;
pub mod answer;
pub mod calls;
pub mod error;
pub mod game;
pub mod growth;
pub mod laws;
pub mod ledger;
pub mod payout;
pub mod question;
