//! A player at the keyboard: what the lines that the player types mean.
//! Reading the lines is left to the program.
use crate::cards::refusal;
use crate::cards::Cards;
use crate::cards::Refusal;
use vstd::prelude::*;
use vstd::string::StrSliceExecFns;

verus! {

/// A player whose moves and answers are typed in.
pub struct HumanPlayer {}

/// What the two lines mean that a player has typed for a move.
#[derive(Clone, Copy, Debug, PartialEq, Eq)]
pub enum MoveReply {
    /// The player wants to leave the game.
    Quit,
    /// The lines give no legal move, for this reason: the player is asked
    /// again.
    Again(Refusal),
    /// The player asked and the suit asked for.
    Move(usize, i8),
}

/// The value of a decimal digit, `None` for any other character.
pub open spec fn digit_value(c: char) -> Option<int> {
    if c == '0' {
        Some(0)
    } else if c == '1' {
        Some(1)
    } else if c == '2' {
        Some(2)
    } else if c == '3' {
        Some(3)
    } else if c == '4' {
        Some(4)
    } else if c == '5' {
        Some(5)
    } else if c == '6' {
        Some(6)
    } else if c == '7' {
        Some(7)
    } else if c == '8' {
        Some(8)
    } else if c == '9' {
        Some(9)
    } else {
        None
    }
}

/// The number that the characters of `text` from place `from` up to place
/// `upto` write in decimal; `None` where one of them is no digit.
pub open spec fn digits_value(text: Seq<char>, from: int, upto: int) -> Option<int>
    decreases upto - from,
{
    if upto <= from {
        Some(0)
    } else {
        match (digits_value(text, from, upto - 1), digit_value(text[upto - 1])) {
            (Some(before), Some(digit)) => Some(before * 10 + digit),
            _ => None,
        }
    }
}

/// The number that a text writes in decimal: a plus or, where `signed`, a
/// minus may come first, and digits and nothing else must follow, one at
/// least. `None` for any other text.
pub open spec fn decimal(text: Seq<char>, signed: bool) -> Option<int> {
    let len = text.len() as int;
    if len == 0 {
        None
    } else if text[0] == '+' {
        if len == 1 {
            None
        } else {
            digits_value(text, 1, len)
        }
    } else if signed && text[0] == '-' {
        if len == 1 {
            None
        } else {
            match digits_value(text, 1, len) {
                Some(value) => Some(-value),
                None => None,
            }
        }
    } else {
        digits_value(text, 0, len)
    }
}

/// The number of a player that a text writes: a plus, if any, and then
/// digits only; `None` for any other text and for a number that a `usize`
/// cannot hold.
pub open spec fn player_number(text: Seq<char>) -> Option<usize> {
    match decimal(text, false) {
        Some(value) if value <= usize::MAX => Some(value as usize),
        _ => None,
    }
}

/// The number of a suit that a text writes: a plus or a minus, if any, and
/// then digits only; `None` for any other text and for a number that an
/// `i8` cannot hold.
pub open spec fn suit_number(text: Seq<char>) -> Option<i8> {
    match decimal(text, true) {
        Some(value) if i8::MIN <= value <= i8::MAX => Some(value as i8),
        _ => None,
    }
}

/// Reads the number of a player: `usize::from_str_radix` in base ten. It
/// takes an optional plus and then decimal digits only, and fails on an
/// empty text, on a sign alone, on any other character and on a number too
/// large for a `usize`.
#[verifier::external_body]
fn parse_player(text: &str) -> (number: Option<usize>)
    ensures
        number == player_number(text@),
{
    usize::from_str_radix(text, 10).ok()
}

/// Reads the number of a suit: `i8::from_str_radix` in base ten. It takes
/// an optional plus or minus and then decimal digits only, and fails on an
/// empty text, on a sign alone, on any other character and on a number
/// that an `i8` cannot hold.
#[verifier::external_body]
fn parse_suit(text: &str) -> (number: Option<i8>)
    ensures
        number == suit_number(text@),
{
    i8::from_str_radix(text, 10).ok()
}

/// The text is the one letter `small` or the one letter `capital`.
pub open spec fn is_letter(text: Seq<char>, small: char, capital: char) -> bool {
    text.len() == 1 && (text[0] == small || text[0] == capital)
}

/// True if the text is the one letter `small` or the one letter `capital`.
pub fn reads_letter(text: &str, small: char, capital: char) -> (yes: bool)
    ensures
        yes == is_letter(text@, small, capital),
{
    if text.unicode_len() != 1 {
        return false;
    }
    let c = text.get_char(0);
    c == small || c == capital
}

/// What two lines mean as a move of player `this`, given the numbers read
/// from them: a `q` in either line means to quit; lines that give no number
/// stand for a player and a suit that there are not; and the move counts
/// where it is legal.
pub open spec fn move_reply(
    other_input: Seq<char>,
    suit_input: Seq<char>,
    other: Option<usize>,
    suit: Option<i8>,
    hands: Seq<crate::hand::HandView>,
    this: int,
) -> MoveReply {
    if is_letter(other_input, 'q', 'Q') || is_letter(suit_input, 'q', 'Q') {
        MoveReply::Quit
    } else {
        let player = match other {
            Some(p) => p,
            None => usize::MAX,
        };
        let asked = match suit {
            Some(s) => s,
            None => -1i8,
        };
        match refusal(hands, player as int, asked, this) {
            None => MoveReply::Move(player, asked),
            Some(reason) => MoveReply::Again(reason),
        }
    }
}

impl HumanPlayer {
    /// A player at the keyboard.
    pub fn new() -> HumanPlayer {
        HumanPlayer {  }
    }

    /// What the two lines mean that player `this` has typed for a move, given
    /// the numbers read from them, see [`move_reply`].
    pub fn weigh_move(
        other_input: &str,
        suit_input: &str,
        other: Option<usize>,
        suit: Option<i8>,
        cards: &Cards,
        this: usize,
    ) -> (reply: MoveReply)
        requires
            cards@.len() <= i8::MAX,
        ensures
            reply == move_reply(other_input@, suit_input@, other, suit, cards@, this as int),
    {
        if reads_letter(other_input, 'q', 'Q') || reads_letter(suit_input, 'q', 'Q') {
            return MoveReply::Quit;
        }
        let player = match other {
            Some(p) => p,
            None => usize::MAX,
        };
        let asked = match suit {
            Some(s) => s,
            None => -1,
        };
        match cards.why_not_legal(player, asked, this) {
            None => MoveReply::Move(player, asked),
            Some(reason) => MoveReply::Again(reason),
        }
    }

    /// What the two lines mean that player `this` has typed for a move: the
    /// first names the player asked, the second the suit, both as numbers.
    pub fn read_move(other_input: &str, suit_input: &str, cards: &Cards, this: usize) -> (reply:
        MoveReply)
        requires
            cards@.len() <= i8::MAX,
        ensures
            reply == move_reply(
                other_input@,
                suit_input@,
                player_number(other_input@),
                suit_number(suit_input@),
                cards@,
                this as int,
            ),
    {
        let other = parse_player(other_input);
        let suit = parse_suit(suit_input);
        HumanPlayer::weigh_move(other_input, suit_input, other, suit, cards, this)
    }

    /// What the line means that a player has typed for an answer: `Y` or
    /// `y` is yes, `N` or `n` is no, and anything else no answer.
    pub fn read_answer(reply: &str) -> (answer: Option<bool>)
        ensures
            answer == if is_letter(reply@, 'y', 'Y') {
                Some(true)
            } else if is_letter(reply@, 'n', 'N') {
                Some(false)
            } else {
                None
            },
    {
        if reads_letter(reply, 'y', 'Y') {
            Some(true)
        } else if reads_letter(reply, 'n', 'N') {
            Some(false)
        } else {
            None
        }
    }
}

} // verus!
