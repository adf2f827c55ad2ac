use match_ledger::address::Address;
use match_ledger::answer::Answer;
use match_ledger::payout::{distribute, Payout};

fn a(n: u128) -> Address {
    let mut bytes = [0u8; 20];
    bytes[4..].copy_from_slice(&n.to_be_bytes());
    Address::new(bytes)
}

fn yes(n: u128) -> Answer {
    Answer { who: a(n), choice: true }
}

fn no(n: u128) -> Answer {
    Answer { who: a(n), choice: false }
}

fn sum(payouts: &[Payout]) -> u128 {
    payouts.iter().map(|p| p.amount).sum()
}

#[test]
fn distribute_divides_evenly() {
    let answers = vec![yes(1), no(2), yes(3)];
    assert_eq!(
        distribute(&answers, true, 300, a(9)),
        vec![
            Payout { to: a(1), amount: 150 },
            Payout { to: a(3), amount: 150 },
        ]
    );
}

#[test]
fn distribute_pays_the_other_side_when_false_is_correct() {
    let answers = vec![yes(1), no(2), yes(3)];
    assert_eq!(
        distribute(&answers, false, 300, a(9)),
        vec![Payout { to: a(2), amount: 300 }]
    );
}

#[test]
fn distribute_hands_leftover_units_to_the_first_winners() {
    let answers = vec![yes(1), no(7), yes(2), yes(3)];
    assert_eq!(
        distribute(&answers, true, 100, a(9)),
        vec![
            Payout { to: a(1), amount: 34 },
            Payout { to: a(2), amount: 33 },
            Payout { to: a(3), amount: 33 },
        ]
    );
    assert_eq!(
        distribute(&answers, true, 101, a(9)),
        vec![
            Payout { to: a(1), amount: 34 },
            Payout { to: a(2), amount: 34 },
            Payout { to: a(3), amount: 33 },
        ]
    );
    assert_eq!(
        distribute(&answers, true, 102, a(9)),
        vec![
            Payout { to: a(1), amount: 34 },
            Payout { to: a(2), amount: 34 },
            Payout { to: a(3), amount: 34 },
        ]
    );
}

#[test]
fn distribute_pays_only_winners_when_there_are_any() {
    let owner = a(9);
    for total in 0..40u128 {
        for winners in 1..6u128 {
            let mut answers = vec![no(100)];
            for w in 0..winners {
                answers.push(yes(w));
                answers.push(no(200 + w));
            }
            let payouts = distribute(&answers, true, total, owner);
            assert_eq!(payouts.len() as u128, winners);
            for (place, due) in payouts.iter().enumerate() {
                assert_eq!(due.to, a(place as u128));
                let extra = if (place as u128) < total % winners { 1 } else { 0 };
                assert_eq!(due.amount, total / winners + extra);
            }
        }
    }
}

#[test]
fn distribute_without_winners_pays_owner_everything() {
    let answers = vec![no(1), no(2)];
    assert_eq!(
        distribute(&answers, true, 70, a(9)),
        vec![Payout { to: a(9), amount: 70 }]
    );
}

#[test]
fn distribute_nothing_among_nobody() {
    let answers: Vec<Answer> = vec![];
    assert_eq!(distribute(&answers, true, 0, a(9)), vec![]);
    assert_eq!(
        distribute(&answers, false, 5, a(9)),
        vec![Payout { to: a(9), amount: 5 }]
    );
}

#[test]
fn distribute_total_smaller_than_winner_count() {
    let answers = vec![yes(1), yes(2), yes(3)];
    assert_eq!(
        distribute(&answers, true, 2, a(9)),
        vec![
            Payout { to: a(1), amount: 1 },
            Payout { to: a(2), amount: 1 },
            Payout { to: a(3), amount: 0 },
        ]
    );
}

#[test]
fn distribute_owner_may_also_be_a_winner() {
    let answers = vec![yes(9), yes(2)];
    assert_eq!(
        distribute(&answers, true, 5, a(9)),
        vec![
            Payout { to: a(9), amount: 3 },
            Payout { to: a(2), amount: 2 },
        ]
    );
}

#[test]
fn distribute_hands_out_exactly_the_total() {
    for total in [0u128, 1, 2, 99, 100, 101, u128::MAX] {
        for winners in 0..5u128 {
            let mut answers = vec![no(100), no(101)];
            for w in 0..winners {
                answers.push(yes(w));
            }
            let payouts = distribute(&answers, true, total, a(9));
            let mut paid: u128 = 0;
            for p in &payouts {
                paid = paid.checked_add(p.amount).unwrap();
            }
            assert_eq!(paid, total);
            assert_eq!(sum(&payouts), total);
        }
    }
}

#[test]
fn distribute_at_the_largest_total() {
    let answers = vec![yes(1), yes(2)];
    assert_eq!(
        distribute(&answers, true, u128::MAX, a(9)),
        vec![
            Payout { to: a(1), amount: u128::MAX / 2 + 1 },
            Payout { to: a(2), amount: u128::MAX / 2 },
        ]
    );
}
