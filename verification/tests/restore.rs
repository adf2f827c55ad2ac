use match_ledger::address::Address;
use match_ledger::answer::Answer;
use match_ledger::error::Error;
use match_ledger::game::Match;
use match_ledger::ledger::State;
use match_ledger::payout::Payout;
use match_ledger::question::{all_distinct, Question};

fn identity(high: u32, low: u128) -> Address {
    let mut bytes = [0u8; 20];
    bytes[..4].copy_from_slice(&high.to_be_bytes());
    bytes[4..].copy_from_slice(&low.to_be_bytes());
    Address::new(bytes)
}

fn id(n: u128) -> Address {
    identity(0, n)
}

fn entry(n: u128, choice: bool) -> Answer {
    Answer { who: id(n), choice }
}

#[test]
fn all_distinct_accepts_distinct_authors() {
    assert!(all_distinct(&vec![]));
    assert!(all_distinct(&vec![entry(1, true)]));
    assert!(all_distinct(&vec![entry(1, true), entry(2, true), entry(3, false)]));
    assert!(all_distinct(&vec![
        Answer { who: identity(1, 1), choice: true },
        Answer { who: identity(2, 1), choice: true },
    ]));
}

#[test]
fn all_distinct_rejects_a_repeated_author() {
    assert!(!all_distinct(&vec![entry(1, true), entry(1, true)]));
    assert!(!all_distinct(&vec![entry(1, true), entry(2, true), entry(1, false)]));
    assert!(!all_distinct(&vec![entry(3, true), entry(2, true), entry(2, false)]));
}

#[test]
fn question_restore_gives_back_the_parts() {
    let q = Question::restore(
        String::from("Will it rain?"),
        true,
        Some(false),
        vec![entry(1, true), entry(2, false)],
        40,
        false,
    )
    .unwrap();
    assert_eq!(q.text().as_str(), "Will it rain?");
    assert!(q.is_ended());
    assert_eq!(q.correct_answer(), Some(false));
    assert_eq!(q.answers(), &vec![entry(1, true), entry(2, false)]);
    assert_eq!(q.total_staked(), 40);
    assert!(!q.is_paid_out());
    assert_eq!(q.answer_of(id(2)), Some(false));
}

#[test]
fn question_restore_refuses_inconsistent_parts() {
    let text = || String::from("t");
    // an identity twice
    assert!(Question::restore(text(), false, None, vec![entry(1, true), entry(1, false)], 2, false).is_none());
    // declared while open
    assert!(Question::restore(text(), false, Some(true), vec![], 0, false).is_none());
    // paid without a declared answer
    assert!(Question::restore(text(), true, None, vec![], 0, true).is_none());
    // paid with stake left
    assert!(Question::restore(text(), true, Some(true), vec![entry(1, true)], 1, true).is_none());
    // stake without answers
    assert!(Question::restore(text(), false, None, vec![], 1, false).is_none());
    // more stake than one answer can carry
    assert!(Question::restore(text(), false, None, vec![entry(1, true)], u64::MAX as u128 + 1, false).is_none());
    // the most that one answer can carry
    assert!(Question::restore(text(), false, None, vec![entry(1, true)], u64::MAX as u128, false).is_some());
    // paid and empty
    assert!(Question::restore(text(), true, Some(true), vec![entry(1, true)], 0, true).is_some());
}

#[test]
fn match_restore_checks_stake_against_answers() {
    let open = |stake: u128| {
        Question::restore(String::from("q"), false, None, vec![entry(1, true), entry(2, false)], stake, false).unwrap()
    };
    let paid = Question::restore(String::from("p"), true, Some(true), vec![entry(1, true)], 0, true).unwrap();

    let m = Match::restore(3, String::from("d"), id(9), 10, 0, true, vec![open(20), paid]).unwrap();
    assert_eq!(m.id(), 3);
    assert_eq!(m.owner(), id(9));
    assert_eq!(m.player_stake(), 10);
    assert!(m.is_started());
    assert_eq!(m.next_question_id(), 2);
    assert_eq!(m.question(0).unwrap().total_staked(), 20);
    assert!(m.question(1).unwrap().is_paid_out());

    assert!(Match::restore(3, String::from("d"), id(9), 10, 0, true, vec![open(19)]).is_none());
    assert!(Match::restore(3, String::from("d"), id(9), 11, 0, true, vec![open(20)]).is_none());
    assert!(Match::restore(3, String::from("d"), id(9), 0, 0, false, vec![]).is_some());
}

#[test]
fn state_restore_checks_identifiers_against_positions() {
    let record = |n: u64| Match::restore(n, String::from("d"), id(1), 5, 0, false, vec![]).unwrap();
    let ledger = State::restore(vec![record(0), record(1), record(2)]).unwrap();
    assert_eq!(ledger.next_match_id(), 3);
    assert_eq!(ledger.watch_game(2).unwrap().id(), 2);
    assert!(State::restore(vec![record(0), record(2)]).is_none());
    assert!(State::restore(vec![record(1)]).is_none());
    assert_eq!(State::restore(vec![]).unwrap().next_match_id(), 0);
}

#[test]
fn restored_ledger_carries_on_where_it_was() {
    let mut ledger = State::new();
    let m = ledger.create_match(id(1), String::from("d"), 8);
    let q = ledger.create_question(id(2), m, String::from("q")).unwrap();
    assert_eq!(ledger.answer_question(id(3), m, q, true), Ok(()));
    assert_eq!(ledger.answer_question(id(4), m, q, false), Ok(()));
    assert_eq!(ledger.end_question(id(1), m, q), Ok(()));

    let mut records = Vec::new();
    for at in 0..ledger.next_match_id() {
        let record = ledger.watch_game(at).unwrap();
        let mut questions = Vec::new();
        for n in 0..record.next_question_id() {
            let question = record.question(n).unwrap();
            questions.push(
                Question::restore(
                    question.text().clone(),
                    question.is_ended(),
                    question.correct_answer(),
                    question.answers().clone(),
                    question.total_staked(),
                    question.is_paid_out(),
                )
                .unwrap(),
            );
        }
        records.push(
            Match::restore(
                record.id(),
                record.details().clone(),
                record.owner(),
                record.player_stake(),
                record.user_stake(),
                record.is_started(),
                questions,
            )
            .unwrap(),
        );
    }
    let mut again = State::restore(records).unwrap();

    assert_eq!(again.answer_question(id(5), m, q, true), Err(Error::AlreadyEnded));
    assert_eq!(again.declare_answer(id(1), m, q, false), Ok(()));
    assert_eq!(
        again.payout_winners(m, q),
        Ok(vec![Payout { to: id(4), amount: 16 }])
    );
    assert_eq!(again.create_match(id(7), String::from("e"), 1), 1);
    assert_eq!(again.create_question(id(2), m, String::from("r")), Ok(1));
}
