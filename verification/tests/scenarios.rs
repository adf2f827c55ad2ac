use match_ledger::address::Address;
use match_ledger::error::Error;
use match_ledger::ledger::State;
use match_ledger::payout::Payout;

fn who(n: u128) -> Address {
    let mut bytes = [0u8; 20];
    bytes[4..].copy_from_slice(&n.to_be_bytes());
    Address::new(bytes)
}

#[test]
fn stake_goes_to_the_caller_who_answered_true() {
    let owner = who(1);
    let asker = who(2);
    let alice = who(3);
    let bob = who(4);
    let mut ledger = State::new();

    let m = ledger.create_match(owner, String::from("ipfs://match"), 100);
    let q = ledger
        .create_question(asker, m, String::from("Will it rain?"))
        .unwrap();
    assert_eq!(ledger.answer_question(alice, m, q, true), Ok(()));
    assert_eq!(ledger.answer_question(bob, m, q, false), Ok(()));
    assert_eq!(
        ledger.watch_game(m).unwrap().question(q).unwrap().total_staked(),
        200
    );
    assert_eq!(ledger.end_question(owner, m, q), Ok(()));
    assert_eq!(ledger.declare_answer(owner, m, q, true), Ok(()));

    let payouts = ledger.payout_winners(m, q).unwrap();
    assert_eq!(payouts, vec![Payout { to: alice, amount: 200 }]);

    let question = ledger.watch_game(m).unwrap().question(q).unwrap();
    assert!(question.is_paid_out());
    assert_eq!(question.total_staked(), 0);
    assert_eq!(question.text().as_str(), "Will it rain?");
}

#[test]
fn non_owner_cannot_start_game() {
    let owner = who(1);
    let stranger = who(2);
    let mut ledger = State::new();
    let m = ledger.create_match(owner, String::from("d"), 100);

    assert_eq!(ledger.start_game(stranger, m), Err(Error::Unauthorized));
    assert!(!ledger.watch_game(m).unwrap().is_started());
}

#[test]
fn second_answer_fails_already_answered() {
    let owner = who(1);
    let asker = who(2);
    let alice = who(3);
    let mut ledger = State::new();
    let m = ledger.create_match(owner, String::from("d"), 100);
    let q = ledger.create_question(asker, m, String::from("q")).unwrap();

    assert_eq!(ledger.answer_question(alice, m, q, true), Ok(()));
    assert_eq!(
        ledger.answer_question(alice, m, q, false),
        Err(Error::AlreadyAnswered)
    );
    assert_eq!(
        ledger.answer_question(alice, m, q, true),
        Err(Error::AlreadyAnswered)
    );

    let question = ledger.watch_game(m).unwrap().question(q).unwrap();
    assert_eq!(question.answer_of(alice), Some(true));
    assert_eq!(question.answers().len(), 1);
    assert_eq!(question.total_staked(), 100);
}
