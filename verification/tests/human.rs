use gofish::cards::Cards;
use gofish::cards::Refusal;
use gofish::human::reads_letter;
use gofish::human::HumanPlayer;
use gofish::human::MoveReply;

#[test]
fn read_move_takes_two_numbers() {
    let cards = Cards::new(3);
    assert_eq!(HumanPlayer::read_move("1", "2", &cards, 0), MoveReply::Move(1, 2));
    assert_eq!(HumanPlayer::read_move("2", "0", &cards, 1), MoveReply::Move(2, 0));
    assert_eq!(HumanPlayer::read_move("+2", "+1", &cards, 0), MoveReply::Move(2, 1));
    assert_eq!(HumanPlayer::read_move("02", "01", &cards, 0), MoveReply::Move(2, 1));
}

#[test]
fn read_move_quits_on_q() {
    let cards = Cards::new(3);
    assert_eq!(HumanPlayer::read_move("q", "2", &cards, 0), MoveReply::Quit);
    assert_eq!(HumanPlayer::read_move("1", "Q", &cards, 0), MoveReply::Quit);
    assert_eq!(HumanPlayer::read_move("Q", "q", &cards, 0), MoveReply::Quit);
    assert_eq!(HumanPlayer::read_move("qq", "2", &cards, 0), MoveReply::Again(Refusal::PlayerOutOfRange));
}

#[test]
fn read_move_asks_again_for_each_reason() {
    let mut cards = Cards::new(3);
    cards.hands[0].known_voids.insert(1);
    assert_eq!(HumanPlayer::read_move("0", "2", &cards, 0), MoveReply::Again(Refusal::SamePlayer));
    assert_eq!(HumanPlayer::read_move("3", "2", &cards, 0), MoveReply::Again(Refusal::PlayerOutOfRange));
    assert_eq!(HumanPlayer::read_move("x", "2", &cards, 0), MoveReply::Again(Refusal::PlayerOutOfRange));
    assert_eq!(HumanPlayer::read_move("", "2", &cards, 0), MoveReply::Again(Refusal::PlayerOutOfRange));
    assert_eq!(HumanPlayer::read_move("-1", "2", &cards, 0), MoveReply::Again(Refusal::PlayerOutOfRange));
    assert_eq!(HumanPlayer::read_move("1", "3", &cards, 0), MoveReply::Again(Refusal::SuitOutOfRange));
    assert_eq!(HumanPlayer::read_move("1", "-1", &cards, 0), MoveReply::Again(Refusal::SuitOutOfRange));
    assert_eq!(HumanPlayer::read_move("1", "two", &cards, 0), MoveReply::Again(Refusal::SuitOutOfRange));
    assert_eq!(HumanPlayer::read_move("1", "200", &cards, 0), MoveReply::Again(Refusal::SuitOutOfRange));
    assert_eq!(HumanPlayer::read_move("1", "1", &cards, 0), MoveReply::Again(Refusal::SuitNotHeld));
}

#[test]
fn weigh_move_takes_the_numbers_as_given() {
    let cards = Cards::new(2);
    assert_eq!(HumanPlayer::weigh_move("a", "b", Some(1), Some(0), &cards, 0), MoveReply::Move(1, 0));
    assert_eq!(HumanPlayer::weigh_move("a", "b", None, Some(0), &cards, 0), MoveReply::Again(Refusal::PlayerOutOfRange));
    assert_eq!(HumanPlayer::weigh_move("1", "0", Some(1), None, &cards, 0), MoveReply::Again(Refusal::SuitOutOfRange));
    assert_eq!(HumanPlayer::weigh_move("q", "0", Some(1), Some(0), &cards, 0), MoveReply::Quit);
}

#[test]
fn why_not_legal_gives_the_first_reason() {
    let cards = Cards::new(2);
    assert_eq!(cards.why_not_legal(1, 0, 0), None);
    assert_eq!(cards.why_not_legal(5, 9, 5), Some(Refusal::SamePlayer));
    assert_eq!(cards.why_not_legal(5, 9, 0), Some(Refusal::PlayerOutOfRange));
    assert_eq!(cards.why_not_legal(0, 9, 5), Some(Refusal::PlayerOutOfRange));
    assert_eq!(cards.why_not_legal(1, 2, 0), Some(Refusal::SuitOutOfRange));
}

#[test]
fn read_answer_takes_y_and_n() {
    assert_eq!(HumanPlayer::read_answer("Y"), Some(true));
    assert_eq!(HumanPlayer::read_answer("y"), Some(true));
    assert_eq!(HumanPlayer::read_answer("N"), Some(false));
    assert_eq!(HumanPlayer::read_answer("n"), Some(false));
    assert_eq!(HumanPlayer::read_answer("yes"), None);
    assert_eq!(HumanPlayer::read_answer(""), None);
    assert_eq!(HumanPlayer::read_answer(" y"), None);
    assert_eq!(HumanPlayer::read_answer("q"), None);
}

#[test]
fn reads_letter_wants_just_one_letter() {
    assert!(reads_letter("q", 'q', 'Q'));
    assert!(reads_letter("Q", 'q', 'Q'));
    assert!(!reads_letter("", 'q', 'Q'));
    assert!(!reads_letter("qQ", 'q', 'Q'));
    assert!(!reads_letter("r", 'q', 'Q'));
}

#[test]
fn read_move_reads_decimal_numbers_only() {
    let cards = Cards::new(5);
    assert_eq!(HumanPlayer::read_move("4", "3", &cards, 0), MoveReply::Move(4, 3));
    assert_eq!(HumanPlayer::read_move("0004", "+003", &cards, 0), MoveReply::Move(4, 3));
    assert_eq!(HumanPlayer::read_move("1", "-0", &cards, 0), MoveReply::Move(1, 0));
    assert_eq!(HumanPlayer::read_move("-0", "1", &cards, 1), MoveReply::Again(Refusal::PlayerOutOfRange));
    assert_eq!(HumanPlayer::read_move("+", "1", &cards, 1), MoveReply::Again(Refusal::PlayerOutOfRange));
    assert_eq!(HumanPlayer::read_move("1 ", "1", &cards, 0), MoveReply::Again(Refusal::PlayerOutOfRange));
    assert_eq!(HumanPlayer::read_move("1_0", "1", &cards, 0), MoveReply::Again(Refusal::PlayerOutOfRange));
    assert_eq!(HumanPlayer::read_move("1", "-", &cards, 0), MoveReply::Again(Refusal::SuitOutOfRange));
    assert_eq!(HumanPlayer::read_move("1", "128", &cards, 0), MoveReply::Again(Refusal::SuitOutOfRange));
    assert_eq!(HumanPlayer::read_move("1", "1.0", &cards, 0), MoveReply::Again(Refusal::SuitOutOfRange));
    assert_eq!(HumanPlayer::read_move("99999999999999999999999999", "1", &cards, 0), MoveReply::Again(Refusal::PlayerOutOfRange));
}
