//! One yes/no question: its text, the answers recorded on it and the stake
//! those answers committed.
//!
//! A question is open until it is ended. While it is open, any identity may
//! answer it once, and each answer adds its stake to the question's total.
//! Ending is irreversible. Once a question is ended its correct answer can be
//! declared, and once that is declared the total becomes payable: it is paid
//! out a single time, after which the question holds no stake.

use vstd::prelude::*;
use crate::address::Address;
use crate::answer::Answer;
use crate::error::Error;
use crate::payout::{
    distribute,
    distribution,
    lemma_correct_answers_win,
    lemma_winners_answered_correctly,
    total_paid,
    winners,
    Payout,
};

verus! {

/// The mathematical content of a [`Question`].
pub struct QuestionView {
    /// The proposition that is put to the participants.
    pub text: Seq<char>,
    /// Whether the question has stopped accepting answers.
    pub is_ended: bool,
    /// The correct answer, once declared.
    pub correct_answer: Option<bool>,
    /// The recorded answers, in the order in which they arrived.
    pub answers: Seq<Answer>,
    /// The stake committed by the answers and not yet paid out.
    pub total_staked: nat,
    /// Whether the stake has been paid out.
    pub paid_out: bool,
}

impl QuestionView {
    /// The invariant of a question.
    ///
    /// No identity has more than one recorded answer; a correct answer is
    /// declared only on an ended question; stake is paid out only after the
    /// correct answer is declared, and none is left afterwards; and no answer
    /// has staked more than a 64-bit amount.
    pub open spec fn wf(self) -> bool {
        &&& distinct_authors(self.answers)
        &&& self.correct_answer is Some ==> self.is_ended
        &&& self.paid_out ==> self.correct_answer is Some
        &&& self.paid_out ==> self.total_staked == 0
        &&& self.total_staked <= self.answers.len() * u64::MAX
    }

    /// A newly created question: open, unanswered, with nothing staked.
    pub open spec fn opened(text: Seq<char>) -> QuestionView {
        QuestionView {
            text,
            is_ended: false,
            correct_answer: None,
            answers: Seq::empty(),
            total_staked: 0,
            paid_out: false,
        }
    }

    /// Whether `who` has a recorded answer.
    pub open spec fn has_answered(self, who: Address) -> bool {
        exists|i: int| 0 <= i < self.answers.len() && self.answers[i].who == who
    }

    /// The answer recorded for `who`, if there is one.
    pub open spec fn answer_of(self, who: Address) -> Option<bool> {
        if self.has_answered(who) {
            let i = choose|i: int| 0 <= i < self.answers.len() && self.answers[i].who == who;
            Some(self.answers[i].choice)
        } else {
            None
        }
    }

    /// The outcome of `who` answering `choice` with `stake`: refused with
    /// `AlreadyEnded` on an ended question, else with `AlreadyAnswered` if
    /// `who` has answered before; otherwise the answer is appended and the
    /// stake added to the total.
    pub open spec fn answer(self, who: Address, choice: bool, stake: nat) -> Result<QuestionView, Error> {
        if self.is_ended {
            Err(Error::AlreadyEnded)
        } else if self.has_answered(who) {
            Err(Error::AlreadyAnswered)
        } else {
            Ok(
                QuestionView {
                    answers: self.answers.push(Answer { who, choice }),
                    total_staked: self.total_staked + stake,
                    ..self
                },
            )
        }
    }

    /// The question with answering closed.
    pub open spec fn end(self) -> QuestionView {
        QuestionView { is_ended: true, ..self }
    }

    /// The outcome of declaring `correct` as the correct answer: refused with
    /// `NotEnded` while the question is open, otherwise recorded, replacing
    /// any earlier declaration.
    pub open spec fn declare(self, correct: bool) -> Result<QuestionView, Error> {
        if !self.is_ended {
            Err(Error::NotEnded)
        } else {
            Ok(QuestionView { correct_answer: Some(correct), ..self })
        }
    }

    /// Whether somebody holds a recorded answer that is the declared one.
    pub open spec fn has_winner(self) -> bool {
        exists|i: int|
            0 <= i < self.answers.len() && Some(self.answers[i].choice) == self.correct_answer
    }

    /// Whether `who` holds a recorded answer that is the declared one.
    pub open spec fn is_winner(self, who: Address) -> bool {
        self.correct_answer is Some && self.answer_of(who) == self.correct_answer
    }

    /// Whether stake is due: the question is ended, its correct answer is
    /// declared and nothing has been paid out yet.
    pub open spec fn payable(self) -> bool {
        self.is_ended && self.correct_answer is Some && !self.paid_out
    }

    /// The payments that a payout makes now: to the winners alone if there
    /// are any, to `owner` if there are none. Nothing is paid unless stake
    /// is due.
    pub open spec fn payouts(self, owner: Address) -> Seq<Payout> {
        if self.payable() {
            distribution(self.answers, self.correct_answer->0, self.total_staked, owner)
        } else {
            Seq::empty()
        }
    }

    /// The outcome of a payout: refused with `NotEnded` while the question is
    /// open. Otherwise, if stake is due the question is marked paid and left
    /// without stake, and if none is due the question stays as it is.
    pub open spec fn pay_out(self) -> Result<QuestionView, Error> {
        if !self.is_ended {
            Err(Error::NotEnded)
        } else if self.payable() {
            Ok(QuestionView { paid_out: true, total_staked: 0, ..self })
        } else {
            Ok(self)
        }
    }
}

/// The answer that a well-formed question holds for the author of one of
/// its entries is the choice of that entry.
pub proof fn lemma_answer_of_entry(q: QuestionView, i: int)
    requires
        q.wf(),
        0 <= i < q.answers.len(),
    ensures
        q.has_answered(q.answers[i].who),
        q.answer_of(q.answers[i].who) == Some(q.answers[i].choice),
{
}

/// A question with a declared answer has a winner exactly when the list of
/// winners of its answers is not empty.
pub proof fn lemma_has_winner(q: QuestionView)
    requires
        q.correct_answer is Some,
    ensures
        q.has_winner() <==> winners(q.answers, q.correct_answer->0).len() > 0,
{
    let correct = q.correct_answer->0;
    if q.has_winner() {
        let i = choose|i: int|
            0 <= i < q.answers.len() && Some(q.answers[i].choice) == q.correct_answer;
        lemma_correct_answers_win(q.answers, correct, i);
    }
    if winners(q.answers, correct).len() > 0 {
        lemma_winners_answered_correctly(q.answers, correct, 0);
        let entry = Answer { who: winners(q.answers, correct)[0], choice: correct };
        let j = choose|j: int| 0 <= j < q.answers.len() && q.answers[j] == entry;
        assert(Some(q.answers[j].choice) == q.correct_answer);
    }
}

/// Whether no identity occurs twice among the authors of `answers`.
pub open spec fn distinct_authors(answers: Seq<Answer>) -> bool {
    forall|i: int, j: int| 0 <= i < j < answers.len() ==> answers[i].who != answers[j].who
}

/// Decides whether no identity occurs twice among the authors of `answers`.
pub fn all_distinct(answers: &Vec<Answer>) -> (r: bool)
    ensures
        r == distinct_authors(answers@),
{
    let mut j: usize = 0;
    while j < answers.len()
        invariant
            j <= answers@.len(),
            forall|a: int, b: int| 0 <= a < b < j ==> answers@[a].who != answers@[b].who,
        decreases answers@.len() - j,
    {
        let mut i: usize = 0;
        while i < j
            invariant
                i <= j < answers@.len(),
                forall|a: int| 0 <= a < i ==> answers@[a].who != answers@[j as int].who,
            decreases j - i,
        {
            if answers[i].who == answers[j].who {
                return false;
            }
            i = i + 1;
        }
        j = j + 1;
    }
    true
}

/// A yes/no question within a match.
#[derive(Debug)]
pub struct Question {
    text: String,
    is_ended: bool,
    correct_answer: Option<bool>,
    answers: Vec<Answer>,
    total_staked: u128,
    paid_out: bool,
}

impl View for Question {
    type V = QuestionView;

    closed spec fn view(&self) -> QuestionView {
        QuestionView {
            text: self.text@,
            is_ended: self.is_ended,
            correct_answer: self.correct_answer,
            answers: self.answers@,
            total_staked: self.total_staked as nat,
            paid_out: self.paid_out,
        }
    }
}

impl Question {
    /// Creates an open question with the given text.
    pub fn new(text: String) -> (q: Question)
        ensures
            q@ == QuestionView::opened(text@),
            q@.wf(),
    {
        Question {
            text,
            is_ended: false,
            correct_answer: None,
            answers: Vec::new(),
            total_staked: 0,
            paid_out: false,
        }
    }

    /// Rebuilds a question from its parts, as they were read back from
    /// storage, if they make a well-formed question.
    ///
    /// The parts are refused if an identity occurs twice among the answers,
    /// if a correct answer is given for an open question, if the question is
    /// marked paid without a correct answer or with stake left, or if the
    /// stake exceeds what that many answers can have committed.
    pub fn restore(
        text: String,
        is_ended: bool,
        correct_answer: Option<bool>,
        answers: Vec<Answer>,
        total_staked: u128,
        paid_out: bool,
    ) -> (r: Option<Question>)
        ensures
            ({
                let parts = QuestionView {
                    text: text@,
                    is_ended,
                    correct_answer,
                    answers: answers@,
                    total_staked: total_staked as nat,
                    paid_out,
                };
                match r {
                    Some(q) => q@ == parts && parts.wf(),
                    None => !parts.wf(),
                }
            }),
    {
        if correct_answer.is_some() && !is_ended {
            return None;
        }
        if paid_out && (correct_answer.is_none() || total_staked != 0) {
            return None;
        }
        let count = answers.len();
        assert(count * u64::MAX <= u128::MAX) by (nonlinear_arith)
            requires
                count <= u64::MAX,
        ;
        if total_staked > (count as u128) * (u64::MAX as u128) {
            return None;
        }
        if !all_distinct(&answers) {
            return None;
        }
        Some(Question { text, is_ended, correct_answer, answers, total_staked, paid_out })
    }

    /// The proposition that is put to the participants.
    pub fn text(&self) -> (text: &String)
        ensures
            text@ == self@.text,
    {
        &self.text
    }

    /// Whether the question has stopped accepting answers.
    pub fn is_ended(&self) -> (ended: bool)
        ensures
            ended == self@.is_ended,
    {
        self.is_ended
    }

    /// The correct answer, once declared.
    pub fn correct_answer(&self) -> (correct: Option<bool>)
        ensures
            correct == self@.correct_answer,
    {
        self.correct_answer
    }

    /// The recorded answers, in the order in which they arrived.
    pub fn answers(&self) -> (answers: &Vec<Answer>)
        ensures
            answers@ == self@.answers,
    {
        &self.answers
    }

    /// The stake committed by the answers and not yet paid out.
    pub fn total_staked(&self) -> (total: u128)
        ensures
            total == self@.total_staked,
    {
        self.total_staked
    }

    /// Whether the stake has been paid out.
    pub fn is_paid_out(&self) -> (paid: bool)
        ensures
            paid == self@.paid_out,
    {
        self.paid_out
    }

    /// Finds the position of the answer recorded for `who`.
    fn position_of(&self, who: Address) -> (r: Option<usize>)
        ensures
            match r {
                Some(i) => i < self.answers@.len() && self.answers@[i as int].who == who,
                None => forall|j: int| 0 <= j < self.answers@.len() ==> self.answers@[j].who != who,
            },
    {
        let mut i: usize = 0;
        while i < self.answers.len()
            invariant
                i <= self.answers@.len(),
                forall|j: int| 0 <= j < i ==> self.answers@[j].who != who,
            decreases self.answers@.len() - i,
        {
            if self.answers[i].who == who {
                return Some(i);
            }
            i = i + 1;
        }
        None
    }

    /// Looks up the answer recorded for `who`.
    pub fn answer_of(&self, who: Address) -> (r: Option<bool>)
        requires
            self@.wf(),
        ensures
            r == self@.answer_of(who),
    {
        match self.position_of(who) {
            Some(i) => Some(self.answers[i].choice),
            None => None,
        }
    }

    /// Records that `who` answers `choice` and commits `stake`.
    ///
    /// Fails with `AlreadyEnded` if the question is ended, else with
    /// `AlreadyAnswered` if `who` has answered before. A failed call leaves
    /// the question unchanged.
    pub fn answer(&mut self, who: Address, choice: bool, stake: u64) -> (r: Result<(), Error>)
        requires
            old(self)@.wf(),
        ensures
            final(self)@.wf(),
            match old(self)@.answer(who, choice, stake as nat) {
                Ok(next) => r is Ok && final(self)@ == next,
                Err(e) => r == Err::<(), Error>(e) && final(self)@ == old(self)@,
            },
    {
        if self.is_ended {
            return Err(Error::AlreadyEnded);
        }
        if self.position_of(who).is_some() {
            return Err(Error::AlreadyAnswered);
        }
        self.answers.push(Answer { who, choice });
        // The answers fit in a machine word, each with at most a 64-bit
        // stake, so the total fits in 128 bits.
        assert(self.answers@.len() == self.answers.len());
        self.total_staked = self.total_staked + stake as u128;
        Ok(())
    }

    /// Closes the question to further answers. Ending an ended question
    /// changes nothing.
    pub fn end(&mut self)
        requires
            old(self)@.wf(),
        ensures
            final(self)@.wf(),
            final(self)@ == old(self)@.end(),
    {
        self.is_ended = true;
    }

    /// Declares the correct answer.
    ///
    /// Fails with `NotEnded`, changing nothing, while the question is open.
    /// A later declaration replaces an earlier one.
    pub fn declare(&mut self, correct: bool) -> (r: Result<(), Error>)
        requires
            old(self)@.wf(),
        ensures
            final(self)@.wf(),
            match old(self)@.declare(correct) {
                Ok(next) => r is Ok && final(self)@ == next,
                Err(e) => r == Err::<(), Error>(e) && final(self)@ == old(self)@,
            },
    {
        if !self.is_ended {
            return Err(Error::NotEnded);
        }
        self.correct_answer = Some(correct);
        Ok(())
    }

    /// Pays out the stake.
    ///
    /// Fails with `NotEnded`, changing nothing, while the question is open.
    /// Otherwise returns the payments to make. If the correct answer is
    /// declared and the stake has not been paid before, these divide the
    /// whole stake among the winners and pay nobody else, or hand it to
    /// `owner` if nobody won, and the question is left paid and without
    /// stake. If no answer is declared yet, or the stake was paid before,
    /// there are no payments and the question is unchanged.
    pub fn pay_out(&mut self, owner: Address) -> (r: Result<Vec<Payout>, Error>)
        requires
            old(self)@.wf(),
        ensures
            final(self)@.wf(),
            match old(self)@.pay_out() {
                Ok(next) => r is Ok && r->Ok_0@ == old(self)@.payouts(owner) && final(self)@ == next,
                Err(e) => r == Err::<Vec<Payout>, Error>(e) && final(self)@ == old(self)@,
            },
            r matches Ok(payouts) ==> total_paid(payouts@) + final(self)@.total_staked == old(
                self,
            )@.total_staked,
            r matches Ok(payouts) ==> forall|i: int|
                0 <= i < payouts@.len() ==> if old(self)@.has_winner() {
                    old(self)@.is_winner((#[trigger] payouts@[i]).to)
                } else {
                    payouts@[i].to == owner
                },
    {
        if !self.is_ended {
            return Err(Error::NotEnded);
        }
        if self.paid_out {
            return Ok(Vec::new());
        }
        match self.correct_answer {
            None => Ok(Vec::new()),
            Some(correct) => {
                let payouts = distribute(&self.answers, correct, self.total_staked, owner);
                proof {
                    lemma_has_winner(self@);
                    assert forall|i: int| 0 <= i < payouts@.len() && self@.has_winner() implies self@.is_winner(
                        (#[trigger] payouts@[i]).to,
                    ) by {
                        let entry = Answer { who: payouts@[i].to, choice: correct };
                        let at = choose|at: int| 0 <= at < self@.answers.len() && self@.answers[at] == entry;
                        lemma_answer_of_entry(self@, at);
                    }
                }
                self.paid_out = true;
                self.total_staked = 0;
                Ok(payouts)
            },
        }
    }
}

} // verus!
