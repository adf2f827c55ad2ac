//! The ledger: every match, under the identifier it was created with.
//!
//! Identifiers are handed out consecutively from zero and never retired, so
//! the matches form a sequence in which each stands at the position that is
//! its identifier, and the next identifier lies above all that are in use.
//!
//! The operations below are the only way to change a ledger. Each names the
//! calling identity, looks up the match (and question) it concerns, and then
//! applies the rule of the match. A call that is refused reports why and
//! leaves the ledger exactly as it was.

use vstd::prelude::*;
use crate::address::Address;
use crate::answer::Answer;
use crate::error::Error;
use crate::game::{Match, MatchView};
use crate::payout::{total_paid, Payout};
use crate::question::{lemma_answer_of_entry, QuestionView};

verus! {

/// The mathematical content of a [`State`].
pub struct StateView {
    /// The matches, each at the position that is its identifier.
    pub matches: Seq<MatchView>,
    /// The identifier that the next match will receive.
    pub next_match_id: nat,
}

impl StateView {
    /// The invariant of a ledger.
    ///
    /// The next match identifier is the number of matches, so it lies above
    /// every identifier in use; each match is well formed and carries the
    /// identifier of its position.
    pub open spec fn wf(self) -> bool {
        &&& self.next_match_id == self.matches.len()
        &&& forall|m: int| 0 <= m < self.matches.len() ==> (#[trigger] self.matches[m]).wf()
        &&& forall|m: int| 0 <= m < self.matches.len() ==> (#[trigger] self.matches[m]).id == m
    }

    /// The ledger without matches.
    pub open spec fn empty() -> StateView {
        StateView { matches: Seq::empty(), next_match_id: 0 }
    }

    /// Whether the ledger has a match with this identifier.
    pub open spec fn has_match(self, match_id: nat) -> bool {
        match_id < self.matches.len()
    }

    /// Whether the ledger has this match and the match has this question.
    pub open spec fn has_question(self, match_id: nat, question_id: nat) -> bool {
        self.has_match(match_id) && self.matches[match_id as int].has_question(question_id)
    }

    /// The question `question_id` of the match `match_id`.
    pub open spec fn question(self, match_id: nat, question_id: nat) -> QuestionView
        recommends
            self.has_question(match_id, question_id),
    {
        self.matches[match_id as int].questions[question_id as int]
    }

    /// The ledger with the match `match_id` replaced by `record`.
    pub open spec fn with_match(self, match_id: nat, record: MatchView) -> StateView {
        StateView { matches: self.matches.update(match_id as int, record), ..self }
    }

    /// Carries the outcome of an operation on the match `match_id` over to
    /// the ledger: a new record takes the place of the old one, a refusal
    /// stays a refusal.
    pub open spec fn commit(self, match_id: nat, outcome: Result<MatchView, Error>) -> Result<
        StateView,
        Error,
    > {
        match outcome {
            Ok(record) => Ok(self.with_match(match_id, record)),
            Err(e) => Err(e),
        }
    }

    /// The ledger after `caller` creates a match: the new match is appended
    /// under the next identifier, owned by `caller`.
    pub open spec fn create_match(self, caller: Address, details: Seq<char>, player_stake: nat) -> StateView {
        StateView {
            matches: self.matches.push(
                MatchView::created(self.next_match_id, details, caller, player_stake),
            ),
            next_match_id: self.next_match_id + 1,
        }
    }

    /// The outcome of `caller` starting the game of a match: refused with
    /// `NotFound` if the match does not exist, else as the match decides.
    pub open spec fn start_game(self, caller: Address, match_id: nat) -> Result<StateView, Error> {
        if !self.has_match(match_id) {
            Err(Error::NotFound)
        } else {
            self.commit(match_id, self.matches[match_id as int].start_game(caller))
        }
    }

    /// The outcome of `caller` putting a question to a match: refused with
    /// `NotFound` if the match does not exist, else as the match decides.
    pub open spec fn create_question(self, caller: Address, match_id: nat, text: Seq<char>) -> Result<
        StateView,
        Error,
    > {
        if !self.has_match(match_id) {
            Err(Error::NotFound)
        } else {
            self.commit(match_id, self.matches[match_id as int].create_question(caller, text))
        }
    }

    /// The outcome of `caller` answering a question: refused with `NotFound`
    /// if the match does not exist, else as the match decides.
    pub open spec fn answer_question(
        self,
        caller: Address,
        match_id: nat,
        question_id: nat,
        choice: bool,
    ) -> Result<StateView, Error> {
        if !self.has_match(match_id) {
            Err(Error::NotFound)
        } else {
            self.commit(
                match_id,
                self.matches[match_id as int].answer_question(caller, question_id, choice),
            )
        }
    }

    /// The outcome of `caller` ending a question: refused with `NotFound` if
    /// the match does not exist, else as the match decides.
    pub open spec fn end_question(self, caller: Address, match_id: nat, question_id: nat) -> Result<
        StateView,
        Error,
    > {
        if !self.has_match(match_id) {
            Err(Error::NotFound)
        } else {
            self.commit(match_id, self.matches[match_id as int].end_question(caller, question_id))
        }
    }

    /// The outcome of `caller` declaring the correct answer of a question:
    /// refused with `NotFound` if the match does not exist, else as the match
    /// decides.
    pub open spec fn declare_answer(
        self,
        caller: Address,
        match_id: nat,
        question_id: nat,
        correct: bool,
    ) -> Result<StateView, Error> {
        if !self.has_match(match_id) {
            Err(Error::NotFound)
        } else {
            self.commit(
                match_id,
                self.matches[match_id as int].declare_answer(caller, question_id, correct),
            )
        }
    }

    /// The payments that a payout of the question makes now.
    pub open spec fn payouts_due(self, match_id: nat, question_id: nat) -> Seq<Payout> {
        if self.has_match(match_id) {
            self.matches[match_id as int].payouts_due(question_id)
        } else {
            Seq::empty()
        }
    }

    /// The outcome of paying out a question: refused with `NotFound` if the
    /// match does not exist, else as the match decides.
    pub open spec fn payout_winners(self, match_id: nat, question_id: nat) -> Result<StateView, Error> {
        if !self.has_match(match_id) {
            Err(Error::NotFound)
        } else {
            self.commit(match_id, self.matches[match_id as int].payout_winners(question_id))
        }
    }
}

/// The ledger of all matches.
#[derive(Debug)]
pub struct State {
    matches: Vec<Match>,
    next_match_id: u64,
}

impl View for State {
    type V = StateView;

    closed spec fn view(&self) -> StateView {
        StateView {
            matches: self.matches@.map_values(|m: Match| m@),
            next_match_id: self.next_match_id as nat,
        }
    }
}

impl State {
    /// Creates a ledger without matches.
    pub fn new() -> (s: State)
        ensures
            s@ == StateView::empty(),
            s@.wf(),
    {
        let s = State { matches: Vec::new(), next_match_id: 0 };
        assert(s@.matches =~= Seq::empty());
        s
    }

    /// Rebuilds a ledger from its matches, as they were read back from
    /// storage, if they make a well-formed ledger.
    ///
    /// The matches are refused if one of them does not carry the identifier
    /// of its position.
    pub fn restore(matches: Vec<Match>) -> (r: Option<State>)
        requires
            forall|m: int| 0 <= m < matches@.len() ==> (#[trigger] matches@[m])@.wf(),
        ensures
            ({
                let parts = StateView {
                    matches: matches@.map_values(|m: Match| m@),
                    next_match_id: matches@.len(),
                };
                match r {
                    Some(s) => s@ == parts && parts.wf(),
                    None => !parts.wf(),
                }
            }),
    {
        let count = matches.len();
        let mut at: usize = 0;
        while at < count
            invariant
                count == matches@.len(),
                at <= count,
                forall|m: int| 0 <= m < at ==> (#[trigger] matches@[m])@.id == m,
            decreases count - at,
        {
            if matches[at].id() != at as u64 {
                proof {
                    let view = matches@.map_values(|m: Match| m@);
                    assert(view[at as int] == matches@[at as int]@);
                }
                return None;
            }
            at = at + 1;
        }
        let s = State { matches, next_match_id: count as u64 };
        proof {
            assert forall|m: int| 0 <= m < s@.matches.len() implies (#[trigger] s@.matches[m]).wf() by {
                assert(s@.matches[m] == s.matches@[m]@);
            }
            assert forall|m: int| 0 <= m < s@.matches.len() implies (#[trigger] s@.matches[m]).id
                == m by {
                assert(s@.matches[m] == s.matches@[m]@);
            }
        }
        Some(s)
    }

    /// The identifier that the next match will receive, which is also the
    /// number of matches.
    pub fn next_match_id(&self) -> (next: u64)
        ensures
            next == self@.next_match_id,
    {
        self.next_match_id
    }

    /// Finds the position of the match `match_id`, if the ledger has it.
    fn locate(&self, match_id: u64) -> (r: Option<usize>)
        requires
            self@.wf(),
        ensures
            match r {
                Some(at) => {
                    &&& self@.has_match(match_id as nat)
                    &&& at == match_id
                    &&& at < self.matches@.len()
                    &&& self.matches@[at as int]@ == self@.matches[at as int]
                },
                None => !self@.has_match(match_id as nat),
            },
    {
        if match_id < self.matches.len() as u64 {
            Some(match_id as usize)
        } else {
            None
        }
    }

    /// Creates a match owned by `caller` and returns its identifier.
    ///
    /// The match is not started, has no questions, and each answer to one of
    /// its questions will stake `player_stake`. Its identifier is the one
    /// that was next; every existing match stays as it was.
    pub fn create_match(&mut self, caller: Address, details: String, player_stake: u64) -> (id: u64)
        requires
            old(self)@.wf(),
        ensures
            final(self)@.wf(),
            id == old(self)@.next_match_id,
            final(self)@ == old(self)@.create_match(caller, details@, player_stake as nat),
            final(self)@.has_match(id as nat),
            final(self)@.matches[id as int].owner == caller,
            final(self)@.matches[id as int].player_stake == player_stake,
            forall|m: int|
                0 <= m < old(self)@.matches.len() ==> final(self)@.matches[m] == old(self)@.matches[m],
    {
        let id = self.next_match_id;
        self.matches.push(Match::new(id, details, caller, player_stake));
        self.next_match_id = self.matches.len() as u64;
        proof {
            assert(self@.matches =~= old(self)@.matches.push(
                MatchView::created(id as nat, details@, caller, player_stake as nat),
            ));
        }
        id
    }

    /// The stake that each answer to a question of the match commits.
    ///
    /// Fails with `NotFound` if the match does not exist.
    pub fn player_stake(&self, match_id: u64) -> (r: Result<u64, Error>)
        requires
            self@.wf(),
        ensures
            match r {
                Ok(stake) => self@.has_match(match_id as nat) && stake
                    == self@.matches[match_id as int].player_stake,
                Err(e) => e == Error::NotFound && !self@.has_match(match_id as nat),
            },
    {
        match self.locate(match_id) {
            Some(at) => Ok(self.matches[at].player_stake()),
            None => Err(Error::NotFound),
        }
    }

    /// Starts the game of a match on behalf of `caller`.
    ///
    /// Fails with `NotFound` if the match does not exist, else with
    /// `Unauthorized` unless `caller` owns it. A failed call changes nothing.
    /// The owner always succeeds, whether or not the game was started before.
    pub fn start_game(&mut self, caller: Address, match_id: u64) -> (r: Result<(), Error>)
        requires
            old(self)@.wf(),
        ensures
            final(self)@.wf(),
            match old(self)@.start_game(caller, match_id as nat) {
                Ok(next) => r is Ok && final(self)@ == next,
                Err(e) => r == Err::<(), Error>(e) && final(self)@ == old(self)@,
            },
            r == Err::<(), Error>(Error::NotFound) <==> !old(self)@.has_match(match_id as nat),
            r == Err::<(), Error>(Error::Unauthorized) <==> old(self)@.has_match(match_id as nat)
                && !old(self)@.matches[match_id as int].is_owner(caller),
            r is Ok <==> old(self)@.has_match(match_id as nat) && old(
                self,
            )@.matches[match_id as int].is_owner(caller),
            r is Ok ==> final(self)@.matches[match_id as int].started,
    {
        let at = match self.locate(match_id) {
            Some(at) => at,
            None => {
                return Err(Error::NotFound);
            },
        };
        let r = self.matches[at].start_game(caller);
        proof {
            self.lemma_replaced(old(self), at as int);
        }
        r
    }

    /// Gives read access to a match.
    ///
    /// Fails with `NotFound` if the match does not exist. The ledger is not
    /// changed.
    pub fn watch_game(&self, match_id: u64) -> (r: Result<&Match, Error>)
        requires
            self@.wf(),
        ensures
            match r {
                Ok(record) => self@.has_match(match_id as nat) && record@
                    == self@.matches[match_id as int],
                Err(e) => e == Error::NotFound && !self@.has_match(match_id as nat),
            },
    {
        match self.locate(match_id) {
            Some(at) => Ok(&self.matches[at]),
            None => Err(Error::NotFound),
        }
    }

    /// Puts a question to a match on behalf of `caller` and returns its
    /// identifier within the match.
    ///
    /// Fails with `NotFound` if the match does not exist, else with
    /// `Unauthorized` if `caller` owns it. A failed call changes nothing.
    /// Otherwise the question is open and unanswered, and its identifier is
    /// the one that was next in the match.
    pub fn create_question(&mut self, caller: Address, match_id: u64, text: String) -> (r: Result<
        u64,
        Error,
    >)
        requires
            old(self)@.wf(),
        ensures
            final(self)@.wf(),
            match old(self)@.create_question(caller, match_id as nat, text@) {
                Ok(next) => r is Ok && r->Ok_0 == old(self)@.matches[match_id as int].next_question_id
                    && final(self)@ == next,
                Err(e) => r == Err::<u64, Error>(e) && final(self)@ == old(self)@,
            },
            r == Err::<u64, Error>(Error::NotFound) <==> !old(self)@.has_match(match_id as nat),
            r == Err::<u64, Error>(Error::Unauthorized) <==> old(self)@.has_match(match_id as nat)
                && old(self)@.matches[match_id as int].is_owner(caller),
            r is Ok <==> old(self)@.has_match(match_id as nat) && !old(
                self,
            )@.matches[match_id as int].is_owner(caller),
            r matches Ok(question_id) ==> {
                &&& question_id == old(self)@.matches[match_id as int].next_question_id
                &&& final(self)@.matches[match_id as int].next_question_id == question_id + 1
                &&& final(self)@.has_question(match_id as nat, question_id as nat)
                &&& final(self)@.question(match_id as nat, question_id as nat) == QuestionView::opened(
                    text@,
                )
            },
    {
        let at = match self.locate(match_id) {
            Some(at) => at,
            None => {
                return Err(Error::NotFound);
            },
        };
        let r = self.matches[at].create_question(caller, text);
        proof {
            self.lemma_replaced(old(self), at as int);
        }
        r
    }

    /// Records the answer of `caller` to a question, committing the stake
    /// per answer of the match.
    ///
    /// Fails with `NotFound` if the match or the question does not exist,
    /// else with `AlreadyEnded` if the question is ended, else with
    /// `AlreadyAnswered` if `caller` has answered it before. A failed call
    /// changes nothing; in particular the first answer of `caller` stands.
    pub fn answer_question(
        &mut self,
        caller: Address,
        match_id: u64,
        question_id: u64,
        answer: bool,
    ) -> (r: Result<(), Error>)
        requires
            old(self)@.wf(),
        ensures
            final(self)@.wf(),
            match old(self)@.answer_question(caller, match_id as nat, question_id as nat, answer) {
                Ok(next) => r is Ok && final(self)@ == next,
                Err(e) => r == Err::<(), Error>(e) && final(self)@ == old(self)@,
            },
            r == Err::<(), Error>(Error::NotFound) <==> !old(self)@.has_question(
                match_id as nat,
                question_id as nat,
            ),
            r == Err::<(), Error>(Error::AlreadyEnded) <==> old(self)@.has_question(
                match_id as nat,
                question_id as nat,
            ) && old(self)@.question(match_id as nat, question_id as nat).is_ended,
            r == Err::<(), Error>(Error::AlreadyAnswered) <==> old(self)@.has_question(
                match_id as nat,
                question_id as nat,
            ) && !old(self)@.question(match_id as nat, question_id as nat).is_ended && old(
                self,
            )@.question(match_id as nat, question_id as nat).has_answered(caller),
            r is Ok ==> {
                &&& final(self)@.question(match_id as nat, question_id as nat).answer_of(caller)
                    == Some(answer)
                &&& final(self)@.question(match_id as nat, question_id as nat).total_staked == old(
                    self,
                )@.question(match_id as nat, question_id as nat).total_staked + old(
                    self,
                )@.matches[match_id as int].player_stake
            },
    {
        let at = match self.locate(match_id) {
            Some(at) => at,
            None => {
                return Err(Error::NotFound);
            },
        };
        let r = self.matches[at].answer_question(caller, question_id, answer);
        proof {
            self.lemma_replaced(old(self), at as int);
            if r is Ok {
                let before = old(self)@.question(match_id as nat, question_id as nat);
                let after = self@.question(match_id as nat, question_id as nat);
                assert(self@.matches[match_id as int].wf());
                assert(self@.matches[match_id as int].questions[question_id as int].wf());
                assert(after.answers[before.answers.len() as int] == Answer {
                    who: caller,
                    choice: answer,
                });
                lemma_answer_of_entry(after, before.answers.len() as int);
            }
        }
        r
    }

    /// Ends a question on behalf of `caller`.
    ///
    /// Fails with `NotFound` if the match or the question does not exist,
    /// else with `Unauthorized` unless `caller` owns the match. A failed call
    /// changes nothing. Ending is irreversible.
    pub fn end_question(&mut self, caller: Address, match_id: u64, question_id: u64) -> (r: Result<
        (),
        Error,
    >)
        requires
            old(self)@.wf(),
        ensures
            final(self)@.wf(),
            match old(self)@.end_question(caller, match_id as nat, question_id as nat) {
                Ok(next) => r is Ok && final(self)@ == next,
                Err(e) => r == Err::<(), Error>(e) && final(self)@ == old(self)@,
            },
            r == Err::<(), Error>(Error::NotFound) <==> !old(self)@.has_question(
                match_id as nat,
                question_id as nat,
            ),
            r == Err::<(), Error>(Error::Unauthorized) <==> old(self)@.has_question(
                match_id as nat,
                question_id as nat,
            ) && !old(self)@.matches[match_id as int].is_owner(caller),
            r is Ok ==> final(self)@.question(match_id as nat, question_id as nat).is_ended,
    {
        let at = match self.locate(match_id) {
            Some(at) => at,
            None => {
                return Err(Error::NotFound);
            },
        };
        let r = self.matches[at].end_question(caller, question_id);
        proof {
            self.lemma_replaced(old(self), at as int);
        }
        r
    }

    /// Declares the correct answer of a question on behalf of `caller`.
    ///
    /// Fails with `NotFound` if the match or the question does not exist,
    /// else with `Unauthorized` unless `caller` owns the match, else with
    /// `NotEnded` while the question is open. A failed call changes nothing.
    /// A later declaration replaces an earlier one.
    pub fn declare_answer(
        &mut self,
        caller: Address,
        match_id: u64,
        question_id: u64,
        correct_answer: bool,
    ) -> (r: Result<(), Error>)
        requires
            old(self)@.wf(),
        ensures
            final(self)@.wf(),
            match old(self)@.declare_answer(
                caller,
                match_id as nat,
                question_id as nat,
                correct_answer,
            ) {
                Ok(next) => r is Ok && final(self)@ == next,
                Err(e) => r == Err::<(), Error>(e) && final(self)@ == old(self)@,
            },
            r == Err::<(), Error>(Error::NotFound) <==> !old(self)@.has_question(
                match_id as nat,
                question_id as nat,
            ),
            r == Err::<(), Error>(Error::Unauthorized) <==> old(self)@.has_question(
                match_id as nat,
                question_id as nat,
            ) && !old(self)@.matches[match_id as int].is_owner(caller),
            r == Err::<(), Error>(Error::NotEnded) <==> old(self)@.has_question(
                match_id as nat,
                question_id as nat,
            ) && old(self)@.matches[match_id as int].is_owner(caller) && !old(self)@.question(
                match_id as nat,
                question_id as nat,
            ).is_ended,
            r is Ok ==> final(self)@.question(match_id as nat, question_id as nat).correct_answer
                == Some(correct_answer),
    {
        let at = match self.locate(match_id) {
            Some(at) => at,
            None => {
                return Err(Error::NotFound);
            },
        };
        let r = self.matches[at].declare_answer(caller, question_id, correct_answer);
        proof {
            self.lemma_replaced(old(self), at as int);
        }
        r
    }

    /// Pays out a question and returns the payments to make.
    ///
    /// Fails with `NotFound` if the match or the question does not exist,
    /// else with `NotEnded` while the question is open. A failed call changes
    /// nothing. If the correct answer is declared and the question has not
    /// been paid before, the payments divide its whole stake among those who
    /// gave the correct answer, in the order of their answers, and pay nobody
    /// else: each winner receives the stake divided by the number of winners,
    /// rounded down, and the units that this leaves over go one each to the
    /// winners who answered first. Only if nobody gave the correct answer
    /// does the owner of the match receive the stake. The question is left
    /// paid and without stake. Otherwise there are no payments and nothing
    /// changes: a payout before the answer is declared pays nothing, and so
    /// does a repeated payout.
    pub fn payout_winners(&mut self, match_id: u64, question_id: u64) -> (r: Result<
        Vec<Payout>,
        Error,
    >)
        requires
            old(self)@.wf(),
        ensures
            final(self)@.wf(),
            match old(self)@.payout_winners(match_id as nat, question_id as nat) {
                Ok(next) => r is Ok && r->Ok_0@ == old(self)@.payouts_due(
                    match_id as nat,
                    question_id as nat,
                ) && final(self)@ == next,
                Err(e) => r == Err::<Vec<Payout>, Error>(e) && final(self)@ == old(self)@,
            },
            r == Err::<Vec<Payout>, Error>(Error::NotFound) <==> !old(self)@.has_question(
                match_id as nat,
                question_id as nat,
            ),
            r == Err::<Vec<Payout>, Error>(Error::NotEnded) <==> old(self)@.has_question(
                match_id as nat,
                question_id as nat,
            ) && !old(self)@.question(match_id as nat, question_id as nat).is_ended,
            r is Ok <==> old(self)@.has_question(match_id as nat, question_id as nat) && old(
                self,
            )@.question(match_id as nat, question_id as nat).is_ended,
            r is Ok ==> !final(self)@.question(match_id as nat, question_id as nat).payable(),
            r matches Ok(payouts) ==> total_paid(payouts@) + final(self)@.question(
                match_id as nat,
                question_id as nat,
            ).total_staked == old(self)@.question(match_id as nat, question_id as nat).total_staked,
            r matches Ok(payouts) ==> forall|i: int|
                0 <= i < payouts@.len() ==> if old(self)@.question(
                    match_id as nat,
                    question_id as nat,
                ).has_winner() {
                    old(self)@.question(match_id as nat, question_id as nat).is_winner(
                        (#[trigger] payouts@[i]).to,
                    )
                } else {
                    payouts@[i].to == old(self)@.matches[match_id as int].owner
                },
    {
        let at = match self.locate(match_id) {
            Some(at) => at,
            None => {
                return Err(Error::NotFound);
            },
        };
        let r = self.matches[at].payout_winners(question_id);
        proof {
            self.lemma_replaced(old(self), at as int);
        }
        r
    }

    /// After an operation on the match at `at` alone, the ledger's content is
    /// the earlier content with that match replaced.
    proof fn lemma_replaced(&self, before: &State, at: int)
        requires
            0 <= at < before.matches@.len(),
            self.next_match_id == before.next_match_id,
            self.matches@ == before.matches@.update(at, self.matches@[at]),
        ensures
            self@ == before@.with_match(at as nat, self.matches@[at]@),
            self.matches@[at]@ == before.matches@[at]@ ==> self@ == before@,
    {
        assert(self@.matches =~= before@.matches.update(at, self.matches@[at]@));
        if self.matches@[at]@ == before.matches@[at]@ {
            assert(self@.matches =~= before@.matches);
        }
    }
}

} // verus!
