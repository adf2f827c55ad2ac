//! What holds of every ledger, whatever calls are made on it.
//!
//! Each law is stated over the ledger's mathematical content and the outcome
//! of its operations, the very functions in which the operations' own
//! contracts are written. Where a law speaks of calls made in between, any
//! series of calls by anyone is meant.

use vstd::prelude::*;
use crate::address::Address;
use crate::answer::Answer;
use crate::calls::Call;
use crate::error::Error;
use crate::growth::{law_calls_extend, lemma_steps};
use crate::ledger::StateView;
use crate::payout::{
    law_distribution_conserves,
    law_distribution_pays_every_winner,
    law_distribution_pays_only_winners,
    portion,
    total_paid,
    winners,
    Payout,
};
use crate::question::{lemma_answer_of_entry, lemma_has_winner};

verus! {

/// The owner of a match never changes: whatever calls are made, the match
/// is still there and still owned by the same identity.
pub proof fn law_owner_never_changes(s: StateView, calls: Seq<Call>, match_id: nat)
    requires
        s.has_match(match_id),
    ensures
        s.run(calls).has_match(match_id),
        s.run(calls).matches[match_id as int].owner == s.matches[match_id as int].owner,
{
    law_calls_extend(s, calls);
    assert(s.matches[match_id as int].grows_to(s.run(calls).matches[match_id as int]));
}

/// Whoever creates a match owns it from then on, whatever calls follow.
pub proof fn law_creator_owns_for_good(
    s: StateView,
    caller: Address,
    details: Seq<char>,
    player_stake: nat,
    calls: Seq<Call>,
)
    requires
        s.wf(),
    ensures
        s.create_match(caller, details, player_stake).run(calls).has_match(s.next_match_id),
        s.create_match(caller, details, player_stake).run(calls).matches[s.next_match_id as int].owner
            == caller,
{
    law_owner_never_changes(s.create_match(caller, details, player_stake), calls, s.next_match_id);
}

/// Question identifiers strictly increase within a match: a question
/// created after another, with any calls in between, receives a greater
/// identifier, the identifier of each being the one that was next in the
/// match when it was created.
pub proof fn law_question_ids_increase(
    s: StateView,
    match_id: nat,
    first_caller: Address,
    first_text: Seq<char>,
    between: Seq<Call>,
    second_caller: Address,
    second_text: Seq<char>,
)
    requires
        s.create_question(first_caller, match_id, first_text) is Ok,
        s.create_question(first_caller, match_id, first_text)->Ok_0.run(between).create_question(
            second_caller,
            match_id,
            second_text,
        ) is Ok,
    ensures
        s.matches[match_id as int].next_question_id < s.create_question(
            first_caller,
            match_id,
            first_text,
        )->Ok_0.run(between).matches[match_id as int].next_question_id,
{
    let first = s.create_question(first_caller, match_id, first_text)->Ok_0;
    law_calls_extend(first, between);
    assert(first.matches[match_id as int].grows_to(first.run(between).matches[match_id as int]));
}

/// No identity has more than one recorded answer to a question.
pub proof fn law_one_answer_per_identity(
    s: StateView,
    match_id: nat,
    question_id: nat,
    i: int,
    j: int,
)
    requires
        s.wf(),
        s.has_question(match_id, question_id),
        0 <= i < s.question(match_id, question_id).answers.len(),
        0 <= j < s.question(match_id, question_id).answers.len(),
        s.question(match_id, question_id).answers[i].who == s.question(
            match_id,
            question_id,
        ).answers[j].who,
    ensures
        i == j,
{
    let m = s.matches[match_id as int];
    assert(m.wf());
    assert(m.questions[question_id as int].wf());
}

/// Once an identity has answered a question, its answer stands: whatever
/// calls follow, the question still holds that first answer for it, and
/// another answer from it is refused, with `AlreadyAnswered` while the
/// question is open and with `AlreadyEnded` once it is ended.
pub proof fn law_first_answer_stands(
    s: StateView,
    caller: Address,
    match_id: nat,
    question_id: nat,
    first: bool,
    between: Seq<Call>,
    second: bool,
)
    requires
        s.wf(),
        s.answer_question(caller, match_id, question_id, first) is Ok,
    ensures
        ({
            let later = s.answer_question(caller, match_id, question_id, first)->Ok_0.run(between);
            let q = later.question(match_id, question_id);
            &&& later.has_question(match_id, question_id)
            &&& q.answer_of(caller) == Some(first)
            &&& later.answer_question(caller, match_id, question_id, second) == Err::<
                StateView,
                Error,
            >(if q.is_ended {
                Error::AlreadyEnded
            } else {
                Error::AlreadyAnswered
            })
        }),
{
    let answered = s.answer_question(caller, match_id, question_id, first)->Ok_0;
    let later = answered.run(between);
    let q0 = s.question(match_id, question_id);
    let q1 = answered.question(match_id, question_id);
    let q2 = later.question(match_id, question_id);
    lemma_steps(s, caller, match_id, question_id, Seq::empty(), first);
    law_calls_extend(answered, between);
    assert(answered.matches[match_id as int].grows_to(later.matches[match_id as int]));
    assert(answered.matches[match_id as int].questions[question_id as int].grows_to(q2));
    assert(later.matches[match_id as int].wf());
    assert(later.matches[match_id as int].questions[question_id as int].wf());
    let at = q0.answers.len() as int;
    assert(q1.answers[at] == Answer { who: caller, choice: first });
    assert(q2.answers[at] == q1.answers[at]);
    lemma_answer_of_entry(q2, at);
}

/// A second answer that follows the first at once is refused with
/// `AlreadyAnswered`.
pub proof fn law_second_answer_is_refused(
    s: StateView,
    caller: Address,
    match_id: nat,
    question_id: nat,
    first: bool,
    second: bool,
)
    requires
        s.wf(),
        s.answer_question(caller, match_id, question_id, first) is Ok,
    ensures
        s.answer_question(caller, match_id, question_id, first)->Ok_0.answer_question(
            caller,
            match_id,
            question_id,
            second,
        ) == Err::<StateView, Error>(Error::AlreadyAnswered),
{
    law_first_answer_stands(s, caller, match_id, question_id, first, Seq::empty(), second);
}

/// Ending is final: once a question is ended, every later answer to it is
/// refused with `AlreadyEnded`, whoever gives it and whatever calls were
/// made in between.
pub proof fn law_no_answer_after_end(
    s: StateView,
    owner: Address,
    match_id: nat,
    question_id: nat,
    between: Seq<Call>,
    who: Address,
    choice: bool,
)
    requires
        s.end_question(owner, match_id, question_id) is Ok,
    ensures
        s.end_question(owner, match_id, question_id)->Ok_0.run(between).answer_question(
            who,
            match_id,
            question_id,
            choice,
        ) == Err::<StateView, Error>(Error::AlreadyEnded),
{
    let ended = s.end_question(owner, match_id, question_id)->Ok_0;
    let later = ended.run(between);
    law_calls_extend(ended, between);
    assert(ended.matches[match_id as int].grows_to(later.matches[match_id as int]));
    assert(ended.matches[match_id as int].questions[question_id as int].grows_to(
        later.matches[match_id as int].questions[question_id as int],
    ));
}

/// A payout of a question on which no stake is due is accepted once the
/// question is ended, and then pays nothing and changes nothing.
pub proof fn law_idle_payout(s: StateView, match_id: nat, question_id: nat)
    requires
        s.has_question(match_id, question_id),
        s.question(match_id, question_id).is_ended,
        !s.question(match_id, question_id).payable(),
    ensures
        s.payouts_due(match_id, question_id) == Seq::<Payout>::empty(),
        s.payout_winners(match_id, question_id) == Ok::<StateView, Error>(s),
{
    let m = s.matches[match_id as int];
    let q = m.questions[question_id as int];
    assert(m.questions.update(question_id as int, q) =~= m.questions);
    assert(m.with_question(question_id, q) == m);
    assert(s.matches.update(match_id as int, m) =~= s.matches);
    assert(s.with_match(match_id, m) == s);
}

/// A payout repeated at once is accepted, pays nothing and changes nothing.
pub proof fn law_repeated_payout_pays_nothing(s: StateView, match_id: nat, question_id: nat)
    requires
        s.payout_winners(match_id, question_id) is Ok,
    ensures
        s.payout_winners(match_id, question_id)->Ok_0.payouts_due(match_id, question_id) == Seq::<
            Payout,
        >::empty(),
        s.payout_winners(match_id, question_id)->Ok_0.payout_winners(match_id, question_id)
            == s.payout_winners(match_id, question_id),
{
    law_idle_payout(s.payout_winners(match_id, question_id)->Ok_0, match_id, question_id);
}

/// A question is paid once: after a payout that found the correct answer
/// declared, every later payout is accepted, pays nothing and changes
/// nothing, whatever calls were made in between.
pub proof fn law_paid_once(s: StateView, match_id: nat, question_id: nat, between: Seq<Call>)
    requires
        s.payout_winners(match_id, question_id) is Ok,
        s.question(match_id, question_id).correct_answer is Some,
    ensures
        ({
            let later = s.payout_winners(match_id, question_id)->Ok_0.run(between);
            &&& later.payouts_due(match_id, question_id) == Seq::<Payout>::empty()
            &&& later.payout_winners(match_id, question_id) == Ok::<StateView, Error>(later)
        }),
{
    let paid = s.payout_winners(match_id, question_id)->Ok_0;
    let later = paid.run(between);
    law_calls_extend(paid, between);
    assert(paid.matches[match_id as int].grows_to(later.matches[match_id as int]));
    assert(paid.matches[match_id as int].questions[question_id as int].grows_to(
        later.matches[match_id as int].questions[question_id as int],
    ));
    law_idle_payout(later, match_id, question_id);
}

/// A question that has not been paid out holds the stake per answer of its
/// match times the number of its answers, and a payout of it hands out
/// exactly that, provided the stake fits in the 128 bits of an amount.
pub proof fn law_payout_conserves_stake(s: StateView, match_id: nat, question_id: nat)
    requires
        s.wf(),
        s.has_question(match_id, question_id),
        s.question(match_id, question_id).payable(),
        s.question(match_id, question_id).total_staked <= u128::MAX,
    ensures
        s.question(match_id, question_id).total_staked == s.question(
            match_id,
            question_id,
        ).answers.len() * s.matches[match_id as int].player_stake,
        total_paid(s.payouts_due(match_id, question_id)) == s.question(
            match_id,
            question_id,
        ).total_staked,
{
    let m = s.matches[match_id as int];
    let q = m.questions[question_id as int];
    assert(m.wf());
    assert(q.wf());
    law_distribution_conserves(q.answers, q.correct_answer->0, q.total_staked, m.owner);
}

/// A payout pays winners only: where somebody holds a recorded answer that
/// is the declared one, every payment goes to such an identity, and the
/// owner of the match receives nothing on the strength of owning it. Only
/// where nobody does are the payments made to the owner.
pub proof fn law_payout_goes_to_winners(s: StateView, match_id: nat, question_id: nat, i: int)
    requires
        s.wf(),
        s.has_question(match_id, question_id),
        0 <= i < s.payouts_due(match_id, question_id).len(),
    ensures
        if s.question(match_id, question_id).has_winner() {
            s.question(match_id, question_id).is_winner(s.payouts_due(match_id, question_id)[i].to)
        } else {
            s.payouts_due(match_id, question_id)[i].to == s.matches[match_id as int].owner
        },
{
    let m = s.matches[match_id as int];
    let q = m.questions[question_id as int];
    assert(m.wf());
    assert(q.wf());
    let correct = q.correct_answer->0;
    let to = s.payouts_due(match_id, question_id)[i].to;
    lemma_has_winner(q);
    if q.has_winner() {
        law_distribution_pays_only_winners(q.answers, correct, q.total_staked, m.owner, i);
        let entry = Answer { who: to, choice: correct };
        let at = choose|at: int| 0 <= at < q.answers.len() && q.answers[at] == entry;
        lemma_answer_of_entry(q, at);
    }
}

/// A payout reaches every winner: whoever holds a recorded answer that is
/// the declared one is paid, at the returned position among the payments,
/// the portion of that position, which is the stake of the question divided
/// by the number of winners, rounded down, or one unit more.
pub proof fn law_payout_reaches_every_winner(
    s: StateView,
    match_id: nat,
    question_id: nat,
    j: int,
) -> (k: int)
    requires
        s.has_question(match_id, question_id),
        s.question(match_id, question_id).payable(),
        0 <= j < s.question(match_id, question_id).answers.len(),
        Some(s.question(match_id, question_id).answers[j].choice) == s.question(
            match_id,
            question_id,
        ).correct_answer,
    ensures
        0 <= k < s.payouts_due(match_id, question_id).len(),
        s.payouts_due(match_id, question_id)[k].to == s.question(
            match_id,
            question_id,
        ).answers[j].who,
        s.payouts_due(match_id, question_id)[k].amount == portion(
            s.question(match_id, question_id).total_staked,
            winners(
                s.question(match_id, question_id).answers,
                s.question(match_id, question_id).correct_answer->0,
            ).len(),
            k as nat,
        ) as u128,
{
    let q = s.question(match_id, question_id);
    law_distribution_pays_every_winner(
        q.answers,
        q.correct_answer->0,
        q.total_staked,
        s.matches[match_id as int].owner,
        j,
    )
}

} // verus!
