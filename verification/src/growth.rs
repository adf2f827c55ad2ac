//! The one direction in which records move.
//!
//! The records of a ledger only ever grow: matches and questions are added
//! and never removed, answers are appended and never altered, an ended
//! question takes no more answers, and the flags of a question and of a match
//! are raised and never lowered. This module says what it is for one stage of
//! a record to come after another, and proves that every operation, and so
//! every series of calls, leads from a stage to a later one and keeps a
//! well-formed ledger well formed.

use vstd::prelude::*;
use crate::address::Address;
use crate::calls::Call;
use crate::error::Error;
use crate::game::MatchView;
use crate::ledger::StateView;
use crate::question::QuestionView;

verus! {

impl QuestionView {
    /// Whether `later` can be a later stage of this question: the text is the
    /// same, the recorded answers are still there in their places, an ended
    /// question is still ended and has no new answers, a declared answer is
    /// still declared, and paid stake stays paid.
    pub open spec fn grows_to(self, later: QuestionView) -> bool {
        &&& later.text == self.text
        &&& self.answers.len() <= later.answers.len()
        &&& forall|i: int| 0 <= i < self.answers.len() ==> later.answers[i] == self.answers[i]
        &&& self.is_ended ==> later.is_ended && later.answers == self.answers
        &&& self.correct_answer is Some ==> later.correct_answer is Some
        &&& self.paid_out ==> later.paid_out
    }
}

impl MatchView {
    /// Whether `later` can be a later stage of this match: identifier, owner,
    /// description and stakes are the same, a started game is still started,
    /// and every question is still there, at a later stage of its own.
    pub open spec fn grows_to(self, later: MatchView) -> bool {
        &&& later.id == self.id
        &&& later.owner == self.owner
        &&& later.details == self.details
        &&& later.player_stake == self.player_stake
        &&& later.user_stake == self.user_stake
        &&& self.started ==> later.started
        &&& self.next_question_id <= later.next_question_id
        &&& self.questions.len() <= later.questions.len()
        &&& forall|q: int|
            0 <= q < self.questions.len() ==> (#[trigger] self.questions[q]).grows_to(
                later.questions[q],
            )
    }
}

impl StateView {
    /// Whether `later` can be a later stage of this ledger: every match is
    /// still there, at a later stage of its own.
    pub open spec fn grows_to(self, later: StateView) -> bool {
        &&& self.next_match_id <= later.next_match_id
        &&& self.matches.len() <= later.matches.len()
        &&& forall|m: int|
            0 <= m < self.matches.len() ==> (#[trigger] self.matches[m]).grows_to(later.matches[m])
    }
}

/// A question is a later stage of itself.
pub proof fn lemma_question_grows_reflexive(q: QuestionView)
    ensures
        q.grows_to(q),
{
}

/// Later stages of later stages are later stages.
pub proof fn lemma_question_grows_transitive(a: QuestionView, b: QuestionView, c: QuestionView)
    requires
        a.grows_to(b),
        b.grows_to(c),
    ensures
        a.grows_to(c),
{
}

/// A match is a later stage of itself.
pub proof fn lemma_match_grows_reflexive(m: MatchView)
    ensures
        m.grows_to(m),
{
}

/// Later stages of later stages are later stages.
pub proof fn lemma_match_grows_transitive(a: MatchView, b: MatchView, c: MatchView)
    requires
        a.grows_to(b),
        b.grows_to(c),
    ensures
        a.grows_to(c),
{
    assert forall|q: int| 0 <= q < a.questions.len() implies (#[trigger] a.questions[q]).grows_to(
        c.questions[q],
    ) by {
        assert(a.questions[q].grows_to(b.questions[q]));
        assert(b.questions[q].grows_to(c.questions[q]));
        lemma_question_grows_transitive(a.questions[q], b.questions[q], c.questions[q]);
    }
}

/// A ledger is a later stage of itself.
pub proof fn lemma_ledger_grows_reflexive(s: StateView)
    ensures
        s.grows_to(s),
{
    assert forall|m: int| 0 <= m < s.matches.len() implies (#[trigger] s.matches[m]).grows_to(
        s.matches[m],
    ) by {
        lemma_match_grows_reflexive(s.matches[m]);
    }
}

/// Later stages of later stages are later stages.
pub proof fn lemma_ledger_grows_transitive(a: StateView, b: StateView, c: StateView)
    requires
        a.grows_to(b),
        b.grows_to(c),
    ensures
        a.grows_to(c),
{
    assert forall|m: int| 0 <= m < a.matches.len() implies (#[trigger] a.matches[m]).grows_to(
        c.matches[m],
    ) by {
        assert(a.matches[m].grows_to(b.matches[m]));
        assert(b.matches[m].grows_to(c.matches[m]));
        lemma_match_grows_transitive(a.matches[m], b.matches[m], c.matches[m]);
    }
}

/// Whatever is done to a question leaves a later stage of it.
proof fn lemma_question_steps_grow(q: QuestionView, who: Address, choice: bool, stake: nat, correct: bool)
    ensures
        q.answer(who, choice, stake) matches Ok(next) ==> q.grows_to(next),
        q.grows_to(q.end()),
        q.declare(correct) matches Ok(next) ==> q.grows_to(next),
        q.pay_out() matches Ok(next) ==> q.grows_to(next),
{
}

/// Whatever is done to a well-formed question leaves it well formed.
proof fn lemma_question_steps_keep_wf(
    q: QuestionView,
    who: Address,
    choice: bool,
    stake: nat,
    correct: bool,
)
    requires
        q.wf(),
        stake <= u64::MAX,
    ensures
        q.answer(who, choice, stake) matches Ok(next) ==> next.wf(),
        q.end().wf(),
        q.declare(correct) matches Ok(next) ==> next.wf(),
        q.pay_out() matches Ok(next) ==> next.wf(),
{
}

/// Replacing a question by a later stage of it gives a later stage of the match.
proof fn lemma_with_question_grows(m: MatchView, question_id: nat, next: QuestionView)
    requires
        m.has_question(question_id),
        m.questions[question_id as int].grows_to(next),
    ensures
        m.grows_to(m.with_question(question_id, next)),
{
    let later = m.with_question(question_id, next);
    assert forall|q: int| 0 <= q < m.questions.len() implies (#[trigger] m.questions[q]).grows_to(
        later.questions[q],
    ) by {
        if q != question_id {
            lemma_question_grows_reflexive(m.questions[q]);
        }
    }
}

/// Replacing a question of a well-formed match by a well-formed one that
/// keeps the stake in step with the answers gives a well-formed match.
proof fn lemma_with_question_keeps_wf(m: MatchView, question_id: nat, next: QuestionView)
    requires
        m.wf(),
        m.has_question(question_id),
        next.wf(),
        !next.paid_out ==> next.total_staked == next.answers.len() * m.player_stake,
    ensures
        m.with_question(question_id, next).wf(),
{
    let later = m.with_question(question_id, next);
    assert forall|q: int| 0 <= q < later.questions.len() implies (#[trigger] later.questions[q]).wf() by {
        if q != question_id {
            assert(m.questions[q].wf());
        }
    }
    assert forall|q: int|
        0 <= q < later.questions.len() && !(#[trigger] later.questions[q]).paid_out implies {
        later.questions[q].total_staked == later.questions[q].answers.len() * later.player_stake
    } by {
        if q != question_id {
            assert(!m.questions[q].paid_out);
        }
    }
}

/// Whatever is done to a match leaves a later stage of it.
proof fn lemma_match_steps_grow(
    m: MatchView,
    caller: Address,
    question_id: nat,
    text: Seq<char>,
    flag: bool,
)
    ensures
        m.start_game(caller) matches Ok(next) ==> m.grows_to(next),
        m.create_question(caller, text) matches Ok(next) ==> m.grows_to(next),
        m.answer_question(caller, question_id, flag) matches Ok(next) ==> m.grows_to(next),
        m.end_question(caller, question_id) matches Ok(next) ==> m.grows_to(next),
        m.declare_answer(caller, question_id, flag) matches Ok(next) ==> m.grows_to(next),
        m.payout_winners(question_id) matches Ok(next) ==> m.grows_to(next),
{
    lemma_match_grows_reflexive(m);
    if m.create_question(caller, text) is Ok {
        let next = m.create_question(caller, text)->Ok_0;
        assert forall|q: int| 0 <= q < m.questions.len() implies (#[trigger] m.questions[q]).grows_to(
            next.questions[q],
        ) by {
            lemma_question_grows_reflexive(m.questions[q]);
        }
    }
    if m.has_question(question_id) {
        let q = m.questions[question_id as int];
        lemma_question_steps_grow(q, caller, flag, m.player_stake, flag);
        if q.answer(caller, flag, m.player_stake) is Ok {
            let next = q.answer(caller, flag, m.player_stake)->Ok_0;
            lemma_with_question_grows(m, question_id, next);
        }
        lemma_with_question_grows(m, question_id, q.end());
        if q.declare(flag) is Ok {
            let next = q.declare(flag)->Ok_0;
            lemma_with_question_grows(m, question_id, next);
        }
        if q.pay_out() is Ok {
            let next = q.pay_out()->Ok_0;
            lemma_with_question_grows(m, question_id, next);
        }
    }
}

/// Whatever is done to a well-formed match leaves it well formed.
proof fn lemma_match_steps_keep_wf(
    m: MatchView,
    caller: Address,
    question_id: nat,
    text: Seq<char>,
    flag: bool,
)
    requires
        m.wf(),
    ensures
        m.start_game(caller) matches Ok(next) ==> next.wf(),
        m.create_question(caller, text) matches Ok(next) ==> next.wf(),
        m.answer_question(caller, question_id, flag) matches Ok(next) ==> next.wf(),
        m.end_question(caller, question_id) matches Ok(next) ==> next.wf(),
        m.declare_answer(caller, question_id, flag) matches Ok(next) ==> next.wf(),
        m.payout_winners(question_id) matches Ok(next) ==> next.wf(),
{
    if m.create_question(caller, text) is Ok {
        let next = m.create_question(caller, text)->Ok_0;
        assert(0 * m.player_stake == 0) by (nonlinear_arith);
        assert forall|q: int| 0 <= q < next.questions.len() implies (#[trigger] next.questions[q]).wf() by {
            if q < m.questions.len() {
                assert(m.questions[q].wf());
            }
        }
        assert forall|q: int|
            0 <= q < next.questions.len() && !(#[trigger] next.questions[q]).paid_out implies {
            next.questions[q].total_staked == next.questions[q].answers.len() * next.player_stake
        } by {
            if q < m.questions.len() {
                assert(!m.questions[q].paid_out);
            }
        }
    }
    if m.has_question(question_id) {
        let q = m.questions[question_id as int];
        assert(q.wf());
        lemma_question_steps_keep_wf(q, caller, flag, m.player_stake, flag);
        if q.answer(caller, flag, m.player_stake) is Ok {
            let next = q.answer(caller, flag, m.player_stake)->Ok_0;
            assert(!q.paid_out);
            assert((q.answers.len() + 1) * m.player_stake == q.answers.len() * m.player_stake
                + m.player_stake) by (nonlinear_arith);
            lemma_with_question_keeps_wf(m, question_id, next);
        }
        lemma_with_question_keeps_wf(m, question_id, q.end());
        if q.declare(flag) is Ok {
            let next = q.declare(flag)->Ok_0;
            lemma_with_question_keeps_wf(m, question_id, next);
        }
        if q.pay_out() is Ok {
            let next = q.pay_out()->Ok_0;
            lemma_with_question_keeps_wf(m, question_id, next);
        }
    }
}

/// Replacing a match by a later stage of it gives a later stage of the ledger.
proof fn lemma_with_match_grows(s: StateView, match_id: nat, next: MatchView)
    requires
        s.has_match(match_id),
        s.matches[match_id as int].grows_to(next),
    ensures
        s.grows_to(s.with_match(match_id, next)),
{
    let later = s.with_match(match_id, next);
    assert forall|m: int| 0 <= m < s.matches.len() implies (#[trigger] s.matches[m]).grows_to(
        later.matches[m],
    ) by {
        if m != match_id {
            lemma_match_grows_reflexive(s.matches[m]);
        }
    }
}

/// Replacing a match of a well-formed ledger by a well-formed later stage of
/// it gives a well-formed ledger.
proof fn lemma_with_match_keeps_wf(s: StateView, match_id: nat, next: MatchView)
    requires
        s.wf(),
        s.has_match(match_id),
        next.wf(),
        next.id == s.matches[match_id as int].id,
    ensures
        s.with_match(match_id, next).wf(),
{
    let later = s.with_match(match_id, next);
    assert forall|m: int| 0 <= m < later.matches.len() implies (#[trigger] later.matches[m]).wf() by {
        if m != match_id {
            assert(s.matches[m].wf());
        }
    }
    assert forall|m: int| 0 <= m < later.matches.len() implies (#[trigger] later.matches[m]).id
        == m by {
        assert(s.matches[m].id == m);
    }
}

/// Carrying the outcome of an operation on a match over to the ledger gives
/// a later stage of the ledger, well formed if the ledger was.
proof fn lemma_commit(s: StateView, match_id: nat, outcome: Result<MatchView, Error>)
    requires
        s.has_match(match_id),
        outcome matches Ok(next) ==> s.matches[match_id as int].grows_to(next),
        outcome matches Ok(next) ==> (s.matches[match_id as int].wf() ==> next.wf()),
    ensures
        s.commit(match_id, outcome) matches Ok(next) ==> s.grows_to(next) && (s.wf() ==> next.wf()),
{
    if outcome is Ok {
        let next = outcome->Ok_0;
        lemma_with_match_grows(s, match_id, next);
        if s.wf() {
            assert(s.matches[match_id as int].wf());
            lemma_with_match_keeps_wf(s, match_id, next);
        }
    }
}

/// Whatever is done to a match of a ledger leaves a later stage of the
/// ledger, well formed if the ledger was.
pub proof fn lemma_steps(
    s: StateView,
    caller: Address,
    match_id: nat,
    question_id: nat,
    text: Seq<char>,
    flag: bool,
)
    ensures
        s.start_game(caller, match_id) matches Ok(next) ==> s.grows_to(next) && (s.wf()
            ==> next.wf()),
        s.create_question(caller, match_id, text) matches Ok(next) ==> s.grows_to(next) && (s.wf()
            ==> next.wf()),
        s.answer_question(caller, match_id, question_id, flag) matches Ok(next) ==> s.grows_to(next)
            && (s.wf() ==> next.wf()),
        s.end_question(caller, match_id, question_id) matches Ok(next) ==> s.grows_to(next) && (
        s.wf() ==> next.wf()),
        s.declare_answer(caller, match_id, question_id, flag) matches Ok(next) ==> s.grows_to(next)
            && (s.wf() ==> next.wf()),
        s.payout_winners(match_id, question_id) matches Ok(next) ==> s.grows_to(next) && (s.wf()
            ==> next.wf()),
{
    if s.has_match(match_id) {
        let m = s.matches[match_id as int];
        lemma_match_steps_grow(m, caller, question_id, text, flag);
        if m.wf() {
            lemma_match_steps_keep_wf(m, caller, question_id, text, flag);
        }
        lemma_commit(s, match_id, m.start_game(caller));
        lemma_commit(s, match_id, m.create_question(caller, text));
        lemma_commit(s, match_id, m.answer_question(caller, question_id, flag));
        lemma_commit(s, match_id, m.end_question(caller, question_id));
        lemma_commit(s, match_id, m.declare_answer(caller, question_id, flag));
        lemma_commit(s, match_id, m.payout_winners(question_id));
    }
}

/// Creating a match leaves a later stage of the ledger, well formed if the
/// ledger was and the stake per answer is a 64-bit amount.
pub proof fn lemma_create_match_step(
    s: StateView,
    caller: Address,
    details: Seq<char>,
    player_stake: nat,
)
    ensures
        s.grows_to(s.create_match(caller, details, player_stake)),
        s.wf() && player_stake <= u64::MAX ==> s.create_match(caller, details, player_stake).wf(),
{
    let next = s.create_match(caller, details, player_stake);
    assert forall|m: int| 0 <= m < s.matches.len() implies (#[trigger] s.matches[m]).grows_to(
        next.matches[m],
    ) by {
        lemma_match_grows_reflexive(s.matches[m]);
    }
    if s.wf() && player_stake <= u64::MAX {
        assert forall|m: int| 0 <= m < next.matches.len() implies (#[trigger] next.matches[m]).wf() by {
            if m < s.matches.len() {
                assert(s.matches[m].wf());
            }
        }
        assert forall|m: int| 0 <= m < next.matches.len() implies (#[trigger] next.matches[m]).id
            == m by {
            if m < s.matches.len() {
                assert(s.matches[m].id == m);
            }
        }
    }
}

/// No call takes anything back, and every call leaves a well-formed ledger
/// well formed: the ledger after a call is a later stage of the ledger
/// before it.
pub proof fn law_call_extends(s: StateView, call: Call)
    ensures
        s.grows_to(s.apply(call)),
        s.wf() ==> s.apply(call).wf(),
{
    lemma_ledger_grows_reflexive(s);
    match call {
        Call::CreateMatch { caller, details, player_stake } => {
            lemma_create_match_step(s, caller, details, player_stake as nat);
        },
        Call::StartGame { caller, match_id } => {
            lemma_steps(s, caller, match_id as nat, 0, Seq::empty(), true);
        },
        Call::CreateQuestion { caller, match_id, text } => {
            lemma_steps(s, caller, match_id as nat, 0, text, true);
        },
        Call::AnswerQuestion { caller, match_id, question_id, answer } => {
            lemma_steps(s, caller, match_id as nat, question_id as nat, Seq::empty(), answer);
        },
        Call::EndQuestion { caller, match_id, question_id } => {
            lemma_steps(s, caller, match_id as nat, question_id as nat, Seq::empty(), true);
        },
        Call::DeclareAnswer { caller, match_id, question_id, correct_answer } => {
            lemma_steps(
                s,
                caller,
                match_id as nat,
                question_id as nat,
                Seq::empty(),
                correct_answer,
            );
        },
        Call::PayoutWinners { match_id, question_id } => {
            lemma_steps(
                s,
                arbitrary(),
                match_id as nat,
                question_id as nat,
                Seq::empty(),
                true,
            );
        },
    }
}

/// No series of calls takes anything back, and every series of calls leaves
/// a well-formed ledger well formed: the ledger after the calls is a later
/// stage of the ledger before them.
pub proof fn law_calls_extend(s: StateView, calls: Seq<Call>)
    ensures
        s.grows_to(s.run(calls)),
        s.wf() ==> s.run(calls).wf(),
    decreases calls.len(),
{
    if calls.len() == 0 {
        lemma_ledger_grows_reflexive(s);
    } else {
        let before = s.run(calls.drop_last());
        law_calls_extend(s, calls.drop_last());
        law_call_extends(before, calls.last());
        lemma_ledger_grows_transitive(s, before, before.apply(calls.last()));
    }
}

} // verus!
