//! One match: its owner, its stake per answer and its questions.
//!
//! The identity that creates a match owns it for good. Only the owner starts
//! the game, ends questions and declares their answers; only others may put
//! questions. Questions are numbered from zero in the order of their creation
//! and are never removed. Every answer to a question of the match commits the
//! match's stake per answer, so that an unpaid question always holds that
//! stake times the number of its answers.

use vstd::prelude::*;
use crate::address::Address;
use crate::error::Error;
use crate::payout::{total_paid, Payout};
use crate::question::{Question, QuestionView};

verus! {

/// The mathematical content of a [`Match`].
pub struct MatchView {
    /// The identifier of the match within its ledger.
    pub id: nat,
    /// A pointer to the description of the match, kept off the ledger.
    pub details: Seq<char>,
    /// The identity that created the match.
    pub owner: Address,
    /// The stake that each answer to a question of this match commits.
    pub player_stake: nat,
    /// The stake committed by spectators; nothing moves it yet.
    pub user_stake: nat,
    /// Whether the game has been started.
    pub started: bool,
    /// The questions, each at the position that is its identifier.
    pub questions: Seq<QuestionView>,
    /// The identifier that the next question will receive.
    pub next_question_id: nat,
}

impl MatchView {
    /// The invariant of a match.
    ///
    /// The next question identifier is the number of questions, so it lies
    /// above every identifier in use; each question is well formed; and each
    /// question that has not been paid out holds the stake per answer times
    /// the number of its answers.
    pub open spec fn wf(self) -> bool {
        &&& self.player_stake <= u64::MAX
        &&& self.next_question_id == self.questions.len()
        &&& forall|q: int| 0 <= q < self.questions.len() ==> (#[trigger] self.questions[q]).wf()
        &&& forall|q: int|
            0 <= q < self.questions.len() && !(#[trigger] self.questions[q]).paid_out
                ==> self.questions[q].total_staked == self.questions[q].answers.len()
                * self.player_stake
    }

    /// A newly created match: not started, without questions or spectator stake.
    pub open spec fn created(id: nat, details: Seq<char>, owner: Address, player_stake: nat) -> MatchView {
        MatchView {
            id,
            details,
            owner,
            player_stake,
            user_stake: 0,
            started: false,
            questions: Seq::empty(),
            next_question_id: 0,
        }
    }

    /// Whether `caller` is the owner of the match. The owner alone starts
    /// the game, ends questions and declares answers, and the owner alone is
    /// barred from putting questions.
    pub open spec fn is_owner(self, caller: Address) -> bool {
        caller == self.owner
    }

    /// Whether the match is complete: every one of its questions has been
    /// paid out.
    pub open spec fn is_complete(self) -> bool {
        forall|q: int| 0 <= q < self.questions.len() ==> (#[trigger] self.questions[q]).paid_out
    }

    /// Whether the match has a question with this identifier.
    pub open spec fn has_question(self, question_id: nat) -> bool {
        question_id < self.questions.len()
    }

    /// The match with the question `question_id` replaced by `question`.
    pub open spec fn with_question(self, question_id: nat, question: QuestionView) -> MatchView {
        MatchView { questions: self.questions.update(question_id as int, question), ..self }
    }

    /// The outcome of `caller` starting the game: refused with `Unauthorized`
    /// unless `caller` owns the match, otherwise the match is started.
    pub open spec fn start_game(self, caller: Address) -> Result<MatchView, Error> {
        if !self.is_owner(caller) {
            Err(Error::Unauthorized)
        } else {
            Ok(MatchView { started: true, ..self })
        }
    }

    /// The outcome of `caller` putting a question: refused with `Unauthorized`
    /// if `caller` owns the match, otherwise an open question with this text
    /// is appended under the next identifier.
    pub open spec fn create_question(self, caller: Address, text: Seq<char>) -> Result<MatchView, Error> {
        if self.is_owner(caller) {
            Err(Error::Unauthorized)
        } else {
            Ok(
                MatchView {
                    questions: self.questions.push(QuestionView::opened(text)),
                    next_question_id: self.next_question_id + 1,
                    ..self
                },
            )
        }
    }

    /// The outcome of `caller` answering a question: refused with `NotFound`
    /// if the question does not exist, otherwise as the question decides, the
    /// answer committing the match's stake per answer.
    pub open spec fn answer_question(self, caller: Address, question_id: nat, choice: bool) -> Result<
        MatchView,
        Error,
    > {
        if !self.has_question(question_id) {
            Err(Error::NotFound)
        } else {
            match self.questions[question_id as int].answer(caller, choice, self.player_stake) {
                Ok(question) => Ok(self.with_question(question_id, question)),
                Err(e) => Err(e),
            }
        }
    }

    /// The outcome of `caller` ending a question: refused with `NotFound` if
    /// the question does not exist, else with `Unauthorized` unless `caller`
    /// owns the match; otherwise the question is ended.
    pub open spec fn end_question(self, caller: Address, question_id: nat) -> Result<MatchView, Error> {
        if !self.has_question(question_id) {
            Err(Error::NotFound)
        } else if !self.is_owner(caller) {
            Err(Error::Unauthorized)
        } else {
            Ok(self.with_question(question_id, self.questions[question_id as int].end()))
        }
    }

    /// The outcome of `caller` declaring the correct answer of a question:
    /// refused with `NotFound` if the question does not exist, else with
    /// `Unauthorized` unless `caller` owns the match, else as the question
    /// decides.
    pub open spec fn declare_answer(self, caller: Address, question_id: nat, correct: bool) -> Result<
        MatchView,
        Error,
    > {
        if !self.has_question(question_id) {
            Err(Error::NotFound)
        } else if !self.is_owner(caller) {
            Err(Error::Unauthorized)
        } else {
            match self.questions[question_id as int].declare(correct) {
                Ok(question) => Ok(self.with_question(question_id, question)),
                Err(e) => Err(e),
            }
        }
    }

    /// The payments that a payout of the question makes now: to the winners
    /// alone if there are any, to the owner of the match if there are none.
    pub open spec fn payouts_due(self, question_id: nat) -> Seq<Payout> {
        if self.has_question(question_id) {
            self.questions[question_id as int].payouts(self.owner)
        } else {
            Seq::empty()
        }
    }

    /// The outcome of paying out a question: refused with `NotFound` if the
    /// question does not exist, else as the question decides.
    pub open spec fn payout_winners(self, question_id: nat) -> Result<MatchView, Error> {
        if !self.has_question(question_id) {
            Err(Error::NotFound)
        } else {
            match self.questions[question_id as int].pay_out() {
                Ok(question) => Ok(self.with_question(question_id, question)),
                Err(e) => Err(e),
            }
        }
    }
}

/// A match and its questions.
#[derive(Debug)]
pub struct Match {
    id: u64,
    details: String,
    owner: Address,
    player_stake: u64,
    user_stake: u64,
    started: bool,
    questions: Vec<Question>,
    next_question_id: u64,
}

impl View for Match {
    type V = MatchView;

    closed spec fn view(&self) -> MatchView {
        MatchView {
            id: self.id as nat,
            details: self.details@,
            owner: self.owner,
            player_stake: self.player_stake as nat,
            user_stake: self.user_stake as nat,
            started: self.started,
            questions: self.questions@.map_values(|q: Question| q@),
            next_question_id: self.next_question_id as nat,
        }
    }
}

/// One more answer at the common stake keeps the total at stake times count.
proof fn lemma_stake_accrues(count: nat, stake: nat)
    ensures
        (count + 1) * stake == count * stake + stake,
{
    assert((count + 1) * stake == count * stake + stake) by (nonlinear_arith);
}

impl Match {
    /// Creates the match `id`, owned by `owner`, whose answers stake
    /// `player_stake` each. It is not started and has no questions.
    pub fn new(id: u64, details: String, owner: Address, player_stake: u64) -> (m: Match)
        ensures
            m@ == MatchView::created(id as nat, details@, owner, player_stake as nat),
            m@.wf(),
    {
        let m = Match {
            id,
            details,
            owner,
            player_stake,
            user_stake: 0,
            started: false,
            questions: Vec::new(),
            next_question_id: 0,
        };
        assert(m@.questions =~= Seq::empty());
        m
    }

    /// Rebuilds a match from its parts, as they were read back from storage,
    /// if they make a well-formed match. The questions take the identifiers
    /// of their positions.
    ///
    /// The parts are refused if some question that is not paid out holds
    /// anything but `player_stake` times the number of its answers.
    pub fn restore(
        id: u64,
        details: String,
        owner: Address,
        player_stake: u64,
        user_stake: u64,
        started: bool,
        questions: Vec<Question>,
    ) -> (r: Option<Match>)
        requires
            forall|q: int| 0 <= q < questions@.len() ==> (#[trigger] questions@[q])@.wf(),
        ensures
            ({
                let parts = MatchView {
                    id: id as nat,
                    details: details@,
                    owner,
                    player_stake: player_stake as nat,
                    user_stake: user_stake as nat,
                    started,
                    questions: questions@.map_values(|q: Question| q@),
                    next_question_id: questions@.len(),
                };
                match r {
                    Some(m) => m@ == parts && parts.wf(),
                    None => !parts.wf(),
                }
            }),
    {
        let count = questions.len();
        let mut at: usize = 0;
        while at < count
            invariant
                count == questions@.len(),
                at <= count,
                forall|q: int|
                    0 <= q < at && !(#[trigger] questions@[q])@.paid_out ==> questions@[q]@.total_staked
                        == questions@[q]@.answers.len() * player_stake,
            decreases count - at,
        {
            let question = &questions[at];
            if !question.is_paid_out() {
                let answered = question.answers().len();
                assert(answered * player_stake <= u128::MAX) by (nonlinear_arith)
                    requires
                        answered <= u64::MAX,
                        player_stake <= u64::MAX,
                ;
                if question.total_staked() != (answered as u128) * (player_stake as u128) {
                    proof {
                        let view = questions@.map_values(|q: Question| q@);
                        assert(view[at as int] == questions@[at as int]@);
                    }
                    return None;
                }
            }
            at = at + 1;
        }
        let m = Match {
            id,
            details,
            owner,
            player_stake,
            user_stake,
            started,
            questions,
            next_question_id: count as u64,
        };
        proof {
            assert forall|q: int| 0 <= q < m@.questions.len() implies (#[trigger] m@.questions[q]).wf() by {
                assert(m@.questions[q] == m.questions@[q]@);
            }
            assert forall|q: int|
                0 <= q < m@.questions.len() && !(#[trigger] m@.questions[q]).paid_out implies {
                m@.questions[q].total_staked == m@.questions[q].answers.len() * m@.player_stake
            } by {
                assert(m@.questions[q] == m.questions@[q]@);
            }
        }
        Some(m)
    }

    /// Whether `caller` is the owner of the match.
    pub fn is_owner(&self, caller: Address) -> (r: bool)
        ensures
            r == self@.is_owner(caller),
    {
        caller == self.owner
    }

    /// Finds the position of the question `question_id`, if the match has it.
    fn locate(&self, question_id: u64) -> (r: Option<usize>)
        requires
            self@.wf(),
        ensures
            match r {
                Some(at) => {
                    &&& self@.has_question(question_id as nat)
                    &&& at == question_id
                    &&& at < self.questions@.len()
                    &&& self.questions@[at as int]@ == self@.questions[at as int]
                },
                None => !self@.has_question(question_id as nat),
            },
    {
        if question_id < self.questions.len() as u64 {
            Some(question_id as usize)
        } else {
            None
        }
    }

    /// Starts the game on behalf of `caller`.
    ///
    /// Fails with `Unauthorized`, changing nothing, unless `caller` owns the
    /// match. The owner always succeeds, whether or not the game was started
    /// before.
    pub fn start_game(&mut self, caller: Address) -> (r: Result<(), Error>)
        requires
            old(self)@.wf(),
        ensures
            final(self)@.wf(),
            match old(self)@.start_game(caller) {
                Ok(next) => r is Ok && final(self)@ == next,
                Err(e) => r == Err::<(), Error>(e) && final(self)@ == old(self)@,
            },
    {
        if !self.is_owner(caller) {
            return Err(Error::Unauthorized);
        }
        self.started = true;
        Ok(())
    }

    /// Puts a question to the match on behalf of `caller` and returns its
    /// identifier.
    ///
    /// Fails with `Unauthorized`, changing nothing, if `caller` owns the
    /// match. Otherwise the question is open and unanswered, and its
    /// identifier is the one that was next.
    pub fn create_question(&mut self, caller: Address, text: String) -> (r: Result<u64, Error>)
        requires
            old(self)@.wf(),
        ensures
            final(self)@.wf(),
            match old(self)@.create_question(caller, text@) {
                Ok(next) => r is Ok && r->Ok_0 == old(self)@.next_question_id && final(self)@ == next,
                Err(e) => r == Err::<u64, Error>(e) && final(self)@ == old(self)@,
            },
    {
        if self.is_owner(caller) {
            return Err(Error::Unauthorized);
        }
        let question_id = self.next_question_id;
        self.questions.push(Question::new(text));
        self.next_question_id = self.questions.len() as u64;
        proof {
            assert(self@.questions =~= old(self)@.questions.push(QuestionView::opened(text@)));
            assert(0 * self@.player_stake == 0) by (nonlinear_arith);
        }
        Ok(question_id)
    }

    /// Records the answer of `caller` to a question, committing the match's
    /// stake per answer.
    ///
    /// Fails with `NotFound` if the question does not exist, else with
    /// `AlreadyEnded` if it is ended, else with `AlreadyAnswered` if `caller`
    /// has answered it before. A failed call changes nothing.
    pub fn answer_question(&mut self, caller: Address, question_id: u64, choice: bool) -> (r: Result<
        (),
        Error,
    >)
        requires
            old(self)@.wf(),
        ensures
            final(self)@.wf(),
            match old(self)@.answer_question(caller, question_id as nat, choice) {
                Ok(next) => r is Ok && final(self)@ == next,
                Err(e) => r == Err::<(), Error>(e) && final(self)@ == old(self)@,
            },
    {
        let at = match self.locate(question_id) {
            Some(at) => at,
            None => {
                return Err(Error::NotFound);
            },
        };
        let stake = self.player_stake;
        let r = self.questions[at].answer(caller, choice, stake);
        proof {
            let before = old(self)@.questions[at as int];
            let after = self@.questions[at as int];
            assert(self@.questions =~= old(self)@.questions.update(at as int, after));
            if r is Ok {
                lemma_stake_accrues(before.answers.len(), stake as nat);
            } else {
                assert(self@.questions =~= old(self)@.questions);
            }
        }
        r
    }

    /// Ends a question on behalf of `caller`.
    ///
    /// Fails with `NotFound` if the question does not exist, else with
    /// `Unauthorized` unless `caller` owns the match. A failed call changes
    /// nothing. Ending is irreversible; ending an ended question changes
    /// nothing.
    pub fn end_question(&mut self, caller: Address, question_id: u64) -> (r: Result<(), Error>)
        requires
            old(self)@.wf(),
        ensures
            final(self)@.wf(),
            match old(self)@.end_question(caller, question_id as nat) {
                Ok(next) => r is Ok && final(self)@ == next,
                Err(e) => r == Err::<(), Error>(e) && final(self)@ == old(self)@,
            },
    {
        let at = match self.locate(question_id) {
            Some(at) => at,
            None => {
                return Err(Error::NotFound);
            },
        };
        if !self.is_owner(caller) {
            return Err(Error::Unauthorized);
        }
        self.questions[at].end();
        proof {
            let after = self@.questions[at as int];
            assert(self@.questions =~= old(self)@.questions.update(at as int, after));
        }
        Ok(())
    }

    /// Declares the correct answer of a question on behalf of `caller`.
    ///
    /// Fails with `NotFound` if the question does not exist, else with
    /// `Unauthorized` unless `caller` owns the match, else with `NotEnded`
    /// while the question is open. A failed call changes nothing. A later
    /// declaration replaces an earlier one.
    pub fn declare_answer(&mut self, caller: Address, question_id: u64, correct: bool) -> (r: Result<
        (),
        Error,
    >)
        requires
            old(self)@.wf(),
        ensures
            final(self)@.wf(),
            match old(self)@.declare_answer(caller, question_id as nat, correct) {
                Ok(next) => r is Ok && final(self)@ == next,
                Err(e) => r == Err::<(), Error>(e) && final(self)@ == old(self)@,
            },
    {
        let at = match self.locate(question_id) {
            Some(at) => at,
            None => {
                return Err(Error::NotFound);
            },
        };
        if !self.is_owner(caller) {
            return Err(Error::Unauthorized);
        }
        let r = self.questions[at].declare(correct);
        proof {
            let after = self@.questions[at as int];
            assert(self@.questions =~= old(self)@.questions.update(at as int, after));
            if r is Err {
                assert(self@.questions =~= old(self)@.questions);
            }
        }
        r
    }

    /// Pays out a question.
    ///
    /// Fails with `NotFound` if the question does not exist, else with
    /// `NotEnded` while it is open. A failed call changes nothing. Otherwise
    /// returns the payments to make. If the correct answer is declared and
    /// the question has not been paid before, they divide its whole stake
    /// among the winners and pay nobody else, or hand it to the owner of the
    /// match if nobody won, and the question is left paid and without stake.
    /// Otherwise there are no payments and nothing changes; in particular a
    /// repeated payout is accepted and pays nothing.
    pub fn payout_winners(&mut self, question_id: u64) -> (r: Result<Vec<Payout>, Error>)
        requires
            old(self)@.wf(),
        ensures
            final(self)@.wf(),
            match old(self)@.payout_winners(question_id as nat) {
                Ok(next) => r is Ok && r->Ok_0@ == old(self)@.payouts_due(question_id as nat)
                    && final(self)@ == next,
                Err(e) => r == Err::<Vec<Payout>, Error>(e) && final(self)@ == old(self)@,
            },
            r matches Ok(payouts) ==> total_paid(payouts@)
                + final(self)@.questions[question_id as int].total_staked
                == old(self)@.questions[question_id as int].total_staked,
            r matches Ok(payouts) ==> forall|i: int|
                0 <= i < payouts@.len() ==> if old(self)@.questions[question_id as int].has_winner() {
                    old(self)@.questions[question_id as int].is_winner((#[trigger] payouts@[i]).to)
                } else {
                    payouts@[i].to == old(self)@.owner
                },
    {
        let at = match self.locate(question_id) {
            Some(at) => at,
            None => {
                return Err(Error::NotFound);
            },
        };
        let owner = self.owner;
        let r = self.questions[at].pay_out(owner);
        proof {
            let after = self@.questions[at as int];
            assert(self@.questions =~= old(self)@.questions.update(at as int, after));
            if r is Err || !old(self)@.questions[at as int].payable() {
                assert(self@.questions =~= old(self)@.questions);
            }
        }
        r
    }

    /// The identifier of the match within its ledger.
    pub fn id(&self) -> (id: u64)
        ensures
            id == self@.id,
    {
        self.id
    }

    /// The pointer to the description of the match.
    pub fn details(&self) -> (details: &String)
        ensures
            details@ == self@.details,
    {
        &self.details
    }

    /// The identity that created the match.
    pub fn owner(&self) -> (owner: Address)
        ensures
            owner == self@.owner,
    {
        self.owner
    }

    /// The stake that each answer to a question of this match commits.
    pub fn player_stake(&self) -> (stake: u64)
        ensures
            stake == self@.player_stake,
    {
        self.player_stake
    }

    /// The stake committed by spectators.
    pub fn user_stake(&self) -> (stake: u64)
        ensures
            stake == self@.user_stake,
    {
        self.user_stake
    }

    /// Whether the game has been started.
    pub fn is_started(&self) -> (started: bool)
        ensures
            started == self@.started,
    {
        self.started
    }

    /// The identifier that the next question will receive, which is also
    /// the number of questions.
    pub fn next_question_id(&self) -> (next: u64)
        ensures
            next == self@.next_question_id,
    {
        self.next_question_id
    }

    /// Whether every question of the match has been paid out.
    pub fn is_complete(&self) -> (complete: bool)
        ensures
            complete == self@.is_complete(),
    {
        let mut at: usize = 0;
        while at < self.questions.len()
            invariant
                at <= self.questions@.len(),
                forall|q: int| 0 <= q < at ==> (#[trigger] self@.questions[q]).paid_out,
            decreases self.questions@.len() - at,
        {
            assert(self@.questions[at as int] == self.questions@[at as int]@);
            if !self.questions[at].is_paid_out() {
                return false;
            }
            at = at + 1;
        }
        true
    }

    /// Gives read access to a question.
    ///
    /// Fails with `NotFound` if the question does not exist.
    pub fn question(&self, question_id: u64) -> (r: Result<&Question, Error>)
        requires
            self@.wf(),
        ensures
            match r {
                Ok(question) => self@.has_question(question_id as nat) && question@
                    == self@.questions[question_id as int],
                Err(e) => e == Error::NotFound && !self@.has_question(question_id as nat),
            },
    {
        match self.locate(question_id) {
            Some(at) => Ok(&self.questions[at]),
            None => Err(Error::NotFound),
        }
    }
}

} // verus!
