use match_ledger::address::Address;
use match_ledger::error::Error;
use match_ledger::game::Match;
use match_ledger::payout::Payout;
use match_ledger::question::Question;

fn identity(high: u32, low: u128) -> Address {
    let mut bytes = [0u8; 20];
    bytes[..4].copy_from_slice(&high.to_be_bytes());
    bytes[4..].copy_from_slice(&low.to_be_bytes());
    Address::new(bytes)
}

fn id(n: u128) -> Address {
    identity(0, n)
}

#[test]
fn address_is_its_twenty_bytes() {
    let mut bytes = [0u8; 20];
    for (at, byte) in bytes.iter_mut().enumerate() {
        *byte = 0xa0 + at as u8;
    }
    let a = Address::new(bytes);
    assert_eq!(a.bytes, bytes);
    assert_eq!(a, Address { bytes });
    assert!(a == Address::new(bytes));
}

#[test]
fn addresses_that_differ_in_one_byte_are_different() {
    let base = Address::new([0x11; 20]);
    for at in 0..20 {
        let mut bytes = [0x11u8; 20];
        bytes[at] = 0x12;
        assert_ne!(base, Address::new(bytes));
        assert!(!(Address::new(bytes) == base));
    }
    assert_eq!(base, Address::new([0x11; 20]));
}

#[test]
fn question_answers_accumulate_the_given_stakes() {
    let mut q = Question::new(String::from("q"));
    assert_eq!(q.answer(id(1), true, 5), Ok(()));
    assert_eq!(q.answer(id(2), false, 7), Ok(()));
    assert_eq!(q.answer(id(1), false, 9), Err(Error::AlreadyAnswered));
    assert_eq!(q.total_staked(), 12);
    assert_eq!(q.answer_of(id(1)), Some(true));
    assert_eq!(q.answer_of(id(2)), Some(false));
    assert_eq!(q.answer_of(id(3)), None);
}

#[test]
fn question_goes_through_its_stages_in_order() {
    let mut q = Question::new(String::from("q"));
    assert_eq!(q.declare(true), Err(Error::NotEnded));
    assert_eq!(q.pay_out(id(9)), Err(Error::NotEnded));
    assert_eq!(q.answer(id(1), true, 5), Ok(()));
    assert_eq!(q.answer(id(2), true, 6), Ok(()));
    q.end();
    assert!(q.is_ended());
    assert_eq!(q.answer(id(3), true, 5), Err(Error::AlreadyEnded));
    assert_eq!(q.pay_out(id(9)), Ok(vec![]));
    assert_eq!(q.total_staked(), 11);
    assert_eq!(q.declare(true), Ok(()));
    assert_eq!(
        q.pay_out(id(9)),
        Ok(vec![
            Payout { to: id(1), amount: 6 },
            Payout { to: id(2), amount: 5 },
        ])
    );
    assert!(q.is_paid_out());
    assert_eq!(q.total_staked(), 0);
    assert_eq!(q.pay_out(id(9)), Ok(vec![]));
    assert_eq!(q.answer(id(3), true, 5), Err(Error::AlreadyEnded));
}

#[test]
fn match_applies_its_rules_without_a_ledger() {
    let owner = id(1);
    let mut m = Match::new(4, String::from("d"), owner, 3);
    assert_eq!(m.id(), 4);
    assert_eq!(m.start_game(id(2)), Err(Error::Unauthorized));
    assert_eq!(m.start_game(owner), Ok(()));
    assert_eq!(m.create_question(owner, String::from("q")), Err(Error::Unauthorized));
    assert_eq!(m.create_question(id(2), String::from("q")), Ok(0));
    assert_eq!(m.answer_question(id(2), 1, true), Err(Error::NotFound));
    assert_eq!(m.answer_question(id(2), 0, true), Ok(()));
    assert_eq!(m.answer_question(owner, 0, false), Ok(()));
    assert_eq!(m.end_question(id(2), 0), Err(Error::Unauthorized));
    assert_eq!(m.end_question(owner, 1), Err(Error::NotFound));
    assert_eq!(m.end_question(owner, 0), Ok(()));
    assert_eq!(m.declare_answer(id(2), 0, true), Err(Error::Unauthorized));
    assert_eq!(m.declare_answer(owner, 0, false), Ok(()));
    assert_eq!(m.payout_winners(1), Err(Error::NotFound));
    assert_eq!(m.payout_winners(0), Ok(vec![Payout { to: owner, amount: 6 }]));
    assert_eq!(m.payout_winners(0), Ok(vec![]));
}

#[test]
fn match_is_complete_when_every_question_is_paid() {
    let owner = id(1);
    let mut m = Match::new(0, String::from("d"), owner, 3);
    assert!(m.is_complete());
    assert_eq!(m.create_question(id(2), String::from("a")), Ok(0));
    assert_eq!(m.create_question(id(2), String::from("b")), Ok(1));
    assert!(!m.is_complete());
    for q in 0..2 {
        assert_eq!(m.answer_question(id(3), q, true), Ok(()));
        assert_eq!(m.end_question(owner, q), Ok(()));
        assert_eq!(m.declare_answer(owner, q, true), Ok(()));
    }
    assert_eq!(m.payout_winners(0), Ok(vec![Payout { to: id(3), amount: 3 }]));
    assert!(!m.is_complete());
    assert_eq!(m.payout_winners(1), Ok(vec![Payout { to: id(3), amount: 3 }]));
    assert!(m.is_complete());
}

#[test]
fn only_the_creator_is_owner() {
    let m = Match::new(0, String::from("d"), id(1), 3);
    assert!(m.is_owner(id(1)));
    assert!(!m.is_owner(id(2)));
    assert!(!m.is_owner(identity(1, 1)));
}
