//! Dividing the stake of a resolved question among those who answered it
//! correctly.
//!
//! Only winners are paid. Every correct answer earns the equal share: the
//! staked total divided by the number of correct answers, rounded down. The
//! units that the division leaves over, fewer than there are winners, go one
//! each to the winners who answered first, so that no two winners differ by
//! more than one unit and nothing stays behind. The owner of the match is
//! paid only when nobody answered correctly, and then receives the whole
//! total. Nothing is created and nothing is lost: the amounts handed out add
//! up to the total.

use vstd::prelude::*;
use crate::address::Address;
use crate::answer::Answer;

verus! {

/// An amount owed to an identity.
#[derive(Clone, Copy, Debug, PartialEq, Eq)]
pub struct Payout {
    /// Who is to be paid.
    pub to: Address,
    /// How much.
    pub amount: u128,
}

/// The identities whose answer is `correct`, in the order in which they answered.
pub open spec fn winners(answers: Seq<Answer>, correct: bool) -> Seq<Address> {
    answers.filter(|a: Answer| a.choice == correct).map_values(|a: Answer| a.who)
}

/// The equal share of each of `heads` winners in `total`, rounded down.
pub open spec fn share(total: nat, heads: nat) -> nat {
    if heads == 0 {
        0
    } else {
        total / heads
    }
}

/// The units of `total` that equal shares for `heads` winners leave over.
pub open spec fn leftover(total: nat, heads: nat) -> nat {
    if heads == 0 {
        0
    } else {
        total % heads
    }
}

/// What the winner at `position` among `heads` winners receives out of
/// `total`: the equal share, and one unit more for as many of the first
/// winners as there are units left over.
pub open spec fn portion(total: nat, heads: nat, position: nat) -> nat {
    if position < leftover(total, heads) {
        share(total, heads) + 1
    } else {
        share(total, heads)
    }
}

/// One payment to each of `heads`, in their order, each receiving the
/// portion of its position among `count` winners.
pub open spec fn portions(heads: Seq<Address>, total: nat, count: nat) -> Seq<Payout> {
    Seq::new(
        heads.len(),
        |i: int| Payout { to: heads[i], amount: portion(total, count, i as nat) as u128 },
    )
}

/// The payments that settle a question. If somebody answered correctly, the
/// winners are paid their portions, in the order of their answers, and
/// nobody else is paid. If nobody did, the whole total goes to `owner`.
pub open spec fn distribution(
    answers: Seq<Answer>,
    correct: bool,
    total: nat,
    owner: Address,
) -> Seq<Payout> {
    let heads = winners(answers, correct);
    if heads.len() > 0 {
        portions(heads, total, heads.len())
    } else if total > 0 {
        seq![Payout { to: owner, amount: total as u128 }]
    } else {
        Seq::empty()
    }
}

/// The sum of the amounts of a list of payments.
pub open spec fn total_paid(payouts: Seq<Payout>) -> nat
    decreases payouts.len(),
{
    if payouts.len() == 0 {
        0
    } else {
        total_paid(payouts.drop_last()) + payouts.last().amount as nat
    }
}

/// Taking one more answer into account appends its author to the winners
/// exactly when the answer is correct.
proof fn lemma_winners_step(answers: Seq<Answer>, correct: bool, i: int)
    requires
        0 <= i < answers.len(),
    ensures
        winners(answers.take(i + 1), correct) == if answers[i].choice == correct {
            winners(answers.take(i), correct).push(answers[i].who)
        } else {
            winners(answers.take(i), correct)
        },
{
    let chosen = |a: Answer| a.choice == correct;
    let author = |a: Answer| a.who;
    let before = answers.take(i).filter(chosen);
    assert(answers.take(i + 1) =~= answers.take(i).push(answers[i]));
    answers.take(i).lemma_filter_push(answers[i], chosen);
    if answers[i].choice == correct {
        assert(before.push(answers[i]).map_values(author) =~= before.map_values(author).push(
            answers[i].who,
        ));
    }
}

/// Counts the answers that chose `correct`.
fn count_winners(answers: &Vec<Answer>, correct: bool) -> (heads: usize)
    ensures
        heads == winners(answers@, correct).len(),
{
    let mut heads: usize = 0;
    let mut i: usize = 0;
    while i < answers.len()
        invariant
            i <= answers.len(),
            heads <= i,
            heads == winners(answers@.take(i as int), correct).len(),
        decreases answers.len() - i,
    {
        proof {
            lemma_winners_step(answers@, correct, i as int);
        }
        if answers[i].choice == correct {
            heads = heads + 1;
        }
        i = i + 1;
    }
    proof {
        assert(answers@.take(answers.len() as int) =~= answers@);
    }
    heads
}

/// Appending a payment adds its amount to the sum.
proof fn lemma_total_paid_push(payouts: Seq<Payout>, last: Payout)
    ensures
        total_paid(payouts.push(last)) == total_paid(payouts) + last.amount,
{
    assert(payouts.push(last).drop_last() =~= payouts);
}

/// The shares and the leftover make up the total, and no portion exceeds it.
proof fn lemma_portion_bound(total: nat, heads: nat, position: nat)
    requires
        heads > 0,
    ensures
        heads * share(total, heads) + leftover(total, heads) == total,
        leftover(total, heads) < heads,
        portion(total, heads, position) <= total,
{
    vstd::arithmetic::div_mod::lemma_fundamental_div_mod(total as int, heads as int);
    let each = share(total, heads);
    assert(heads * each >= each) by (nonlinear_arith)
        requires
            heads >= 1,
            each >= 0,
    ;
}

/// The portions of the first winners add up to their equal shares and one
/// unit for each of them that precedes the end of the leftover.
proof fn lemma_total_paid_portions(heads: Seq<Address>, total: nat, count: nat)
    requires
        count > 0,
        total <= u128::MAX,
    ensures
        total_paid(portions(heads, total, count)) == heads.len() * share(total, count) + if heads.len()
            < leftover(total, count) {
            heads.len()
        } else {
            leftover(total, count)
        },
    decreases heads.len(),
{
    let each = share(total, count);
    if heads.len() == 0 {
        assert(heads.len() * each == 0) by (nonlinear_arith)
            requires
                heads.len() == 0,
        ;
    } else {
        let earlier = heads.drop_last();
        let last = Payout {
            to: heads.last(),
            amount: portion(total, count, earlier.len()) as u128,
        };
        lemma_total_paid_portions(earlier, total, count);
        lemma_portion_bound(total, count, earlier.len());
        assert(portions(heads, total, count) =~= portions(earlier, total, count).push(last));
        lemma_total_paid_push(portions(earlier, total, count), last);
        assert(heads.len() * each == earlier.len() * each + each) by (nonlinear_arith)
            requires
                heads.len() == earlier.len() + 1,
        ;
    }
}

/// Every winner is the author of a recorded answer that chose `correct`.
pub proof fn lemma_winners_answered_correctly(answers: Seq<Answer>, correct: bool, i: int)
    requires
        0 <= i < winners(answers, correct).len(),
    ensures
        answers.contains((Answer { who: winners(answers, correct)[i], choice: correct })),
{
    let chosen = |a: Answer| a.choice == correct;
    let kept = answers.filter(chosen);
    answers.lemma_filter_pred(chosen, i);
    assert(kept.contains(kept[i]));
    answers.lemma_filter_contains_rev(chosen, kept[i]);
}

/// Every recorded answer that chose `correct` makes its author a winner.
pub proof fn lemma_correct_answers_win(answers: Seq<Answer>, correct: bool, j: int)
    requires
        0 <= j < answers.len(),
        answers[j].choice == correct,
    ensures
        winners(answers, correct).contains(answers[j].who),
{
    let chosen = |a: Answer| a.choice == correct;
    let kept = answers.filter(chosen);
    answers.lemma_filter_contains(chosen, j);
    let k = choose|k: int| 0 <= k < kept.len() && kept[k] == answers[j];
    assert(winners(answers, correct)[k] == answers[j].who);
}

/// Settlement hands out exactly what was staked: the amounts of the payments
/// add up to the total.
pub proof fn law_distribution_conserves(
    answers: Seq<Answer>,
    correct: bool,
    total: nat,
    owner: Address,
)
    requires
        total <= u128::MAX,
    ensures
        total_paid(distribution(answers, correct, total, owner)) == total,
{
    let heads = winners(answers, correct);
    if heads.len() > 0 {
        lemma_total_paid_portions(heads, total, heads.len());
        lemma_portion_bound(total, heads.len(), 0);
    } else if total > 0 {
        lemma_total_paid_push(Seq::empty(), Payout { to: owner, amount: total as u128 });
        assert(seq![Payout { to: owner, amount: total as u128 }] =~= Seq::<Payout>::empty().push(
            Payout { to: owner, amount: total as u128 },
        ));
    }
}

/// Where somebody answered correctly, only winners are paid: every payment
/// of the settlement goes to the author of a recorded answer that chose
/// `correct`. The owner receives nothing on the strength of owning the match.
pub proof fn law_distribution_pays_only_winners(
    answers: Seq<Answer>,
    correct: bool,
    total: nat,
    owner: Address,
    i: int,
)
    requires
        winners(answers, correct).len() > 0,
        0 <= i < distribution(answers, correct, total, owner).len(),
    ensures
        answers.contains(
            (Answer { who: distribution(answers, correct, total, owner)[i].to, choice: correct }),
        ),
{
    lemma_winners_answered_correctly(answers, correct, i);
}

/// Where nobody answered correctly, the whole total goes to the owner, in a
/// single payment, and there is no payment if there is no total.
pub proof fn law_distribution_without_winners(
    answers: Seq<Answer>,
    correct: bool,
    total: nat,
    owner: Address,
)
    requires
        winners(answers, correct).len() == 0,
    ensures
        distribution(answers, correct, total, owner) == if total > 0 {
            seq![(Payout { to: owner, amount: total as u128 })]
        } else {
            Seq::empty()
        },
{
}

/// Every correct answer is paid: for each recorded answer that chose
/// `correct`, the settlement holds, at the returned position, a payment to
/// its author of the portion of that position, which is the equal share or
/// one unit more.
pub proof fn law_distribution_pays_every_winner(
    answers: Seq<Answer>,
    correct: bool,
    total: nat,
    owner: Address,
    j: int,
) -> (k: int)
    requires
        0 <= j < answers.len(),
        answers[j].choice == correct,
    ensures
        0 <= k < distribution(answers, correct, total, owner).len(),
        distribution(answers, correct, total, owner)[k].to == answers[j].who,
        distribution(answers, correct, total, owner)[k].amount == portion(
            total,
            winners(answers, correct).len(),
            k as nat,
        ) as u128,
        share(total, winners(answers, correct).len()) <= portion(
            total,
            winners(answers, correct).len(),
            k as nat,
        ) <= share(total, winners(answers, correct).len()) + 1,
{
    let heads = winners(answers, correct);
    lemma_correct_answers_win(answers, correct, j);
    choose|k: int| 0 <= k < heads.len() && heads[k] == answers[j].who
}

/// Computes the payments that settle a question on which `total` was staked.
///
/// If some answers chose `correct`, their authors are paid and nobody else:
/// each receives `total` divided by the number of such answers, rounded
/// down, and the units that this leaves over go one each to those who
/// answered first. The payments come in the order of the answers. If no
/// answer chose `correct`, a single payment hands `total` to `owner`, unless
/// it is zero. Either way the payments add up to `total`.
pub fn distribute(answers: &Vec<Answer>, correct: bool, total: u128, owner: Address) -> (payouts: Vec<Payout>)
    ensures
        payouts@ == distribution(answers@, correct, total as nat, owner),
        total_paid(payouts@) == total,
        winners(answers@, correct).len() > 0 ==> forall|i: int|
            0 <= i < payouts@.len() ==> answers@.contains(
                (Answer { who: (#[trigger] payouts@[i]).to, choice: correct }),
            ),
        winners(answers@, correct).len() == 0 ==> forall|i: int|
            0 <= i < payouts@.len() ==> (#[trigger] payouts@[i]).to == owner,
{
    let heads = count_winners(answers, correct);
    let mut payouts: Vec<Payout> = Vec::new();
    proof {
        law_distribution_conserves(answers@, correct, total as nat, owner);
    }
    if heads == 0 {
        if total > 0 {
            payouts.push(Payout { to: owner, amount: total });
        }
        assert(payouts@ =~= distribution(answers@, correct, total as nat, owner));
        return payouts;
    }
    let each: u128 = total / (heads as u128);
    let extra: u128 = total % (heads as u128);
    proof {
        lemma_portion_bound(total as nat, heads as nat, 0);
    }
    let mut i: usize = 0;
    while i < answers.len()
        invariant
            i <= answers.len(),
            heads > 0,
            each == share(total as nat, heads as nat),
            extra == leftover(total as nat, heads as nat),
            extra > 0 ==> each < total,
            payouts@ == portions(
                winners(answers@.take(i as int), correct),
                total as nat,
                heads as nat,
            ),
        decreases answers.len() - i,
    {
        proof {
            lemma_winners_step(answers@, correct, i as int);
        }
        if answers[i].choice == correct {
            let place = payouts.len();
            let amount: u128 = if (place as u128) < extra {
                each + 1
            } else {
                each
            };
            payouts.push(Payout { to: answers[i].who, amount });
            assert(payouts@ =~= portions(
                winners(answers@.take(i + 1), correct),
                total as nat,
                heads as nat,
            ));
        }
        i = i + 1;
    }
    proof {
        assert(answers@.take(answers.len() as int) =~= answers@);
        assert forall|k: int| 0 <= k < payouts@.len() implies answers@.contains(
            (Answer { who: (#[trigger] payouts@[k]).to, choice: correct }),
        ) by {
            law_distribution_pays_only_winners(answers@, correct, total as nat, owner, k);
        }
    }
    payouts
}

} // verus!
