//! The table as text. A hand is written as its known cards, each as the
//! number of its suit, in rising order of the suits; then a question mark
//! for each undetermined card; then, where suits are excluded, an `x` and
//! the numbers of these suits. `000/22?/111???x0` is a table of three hands.
use crate::cards::Cards;
use crate::hand::Hand;
use crate::hand::HandView;
use vstd::prelude::*;
use vstd::string::StringExecFns;

verus! {

broadcast use vstd::std_specs::hash::group_hash_axioms;

/// The ten digits.
pub open spec fn digits() -> Seq<char> {
    seq!['0', '1', '2', '3', '4', '5', '6', '7', '8', '9']
}

/// A number that is not negative, in decimal.
pub open spec fn number_text(n: int) -> Seq<char>
    decreases n,
{
    if n < 10 {
        seq![digits()[n]]
    } else {
        number_text(n / 10).push(digits()[n % 10])
    }
}

/// The number of a suit, in decimal.
pub open spec fn suit_text(suit: i8) -> Seq<char> {
    if suit < 0 {
        seq!['-'] + number_text(-(suit as int))
    } else {
        number_text(suit as int)
    }
}

/// `text`, `times` times.
pub open spec fn repeat(text: Seq<char>, times: int) -> Seq<char>
    decreases times,
{
    if times <= 0 {
        Seq::empty()
    } else {
        repeat(text, times - 1) + text
    }
}

/// What marks the hand of the player who is next.
pub open spec fn next_mark() -> Seq<char> {
    seq![
        ' ',
        ' ',
        ' ',
        '<',
        '<',
        '<',
        '<',
        ' ',
        'n',
        'e',
        'x',
        't',
        ' ',
        'p',
        'l',
        'a',
        'y',
        'e',
        'r',
    ]
}

impl HandView {
    /// The known cards of the suits below `upto`.
    pub open spec fn known_text(self, upto: int) -> Seq<char>
        decreases upto - i8::MIN,
    {
        if upto <= i8::MIN {
            Seq::empty()
        } else {
            self.known_text(upto - 1) + repeat(
                suit_text((upto - 1) as i8),
                self.count((upto - 1) as i8),
            )
        }
    }

    /// The excluded suits below `upto`.
    pub open spec fn voids_text(self, upto: int) -> Seq<char>
        decreases upto - i8::MIN,
    {
        if upto <= i8::MIN {
            Seq::empty()
        } else {
            self.voids_text(upto - 1) + if self.voids.contains((upto - 1) as i8) {
                suit_text((upto - 1) as i8)
            } else {
                Seq::empty()
            }
        }
    }

    /// The hand as text.
    pub open spec fn text(self) -> Seq<char> {
        self.known_text(i8::MAX + 1) + repeat(seq!['?'], self.unknown as int) + if self.voids.is_empty() {
            Seq::empty()
        } else {
            seq!['x'] + self.voids_text(i8::MAX + 1)
        }
    }

    /// The line that shows the hand.
    pub open spec fn line(self, is_next_player: bool) -> Seq<char> {
        self.text() + if is_next_player {
            next_mark()
        } else {
            Seq::empty()
        }
    }
}

/// The first `k` hands as text, with a stroke between them.
pub open spec fn table_text(hands: Seq<HandView>, k: int) -> Seq<char>
    decreases k,
{
    if k <= 0 {
        Seq::empty()
    } else if k == 1 {
        hands[0].text()
    } else {
        table_text(hands, k - 1) + seq!['/'] + hands[k - 1].text()
    }
}

/// The lines that show the first `k` hands, each with its end of line.
pub open spec fn table_lines(hands: Seq<HandView>, next_player: int, k: int) -> Seq<char>
    decreases k,
{
    if k <= 0 {
        Seq::empty()
    } else {
        table_lines(hands, next_player, k - 1) + hands[k - 1].line(k - 1 == next_player) + seq!['\n']
    }
}

/// Writes the digit `d`.
fn push_digit(line: &mut String, d: u8)
    requires
        d < 10,
    ensures
        final(line)@ == old(line)@.push(digits()[d as int]),
{
    proof {
        reveal_strlit("0");
        reveal_strlit("1");
        reveal_strlit("2");
        reveal_strlit("3");
        reveal_strlit("4");
        reveal_strlit("5");
        reveal_strlit("6");
        reveal_strlit("7");
        reveal_strlit("8");
        reveal_strlit("9");
    }
    if d == 0 {
        line.append("0");
    } else if d == 1 {
        line.append("1");
    } else if d == 2 {
        line.append("2");
    } else if d == 3 {
        line.append("3");
    } else if d == 4 {
        line.append("4");
    } else if d == 5 {
        line.append("5");
    } else if d == 6 {
        line.append("6");
    } else if d == 7 {
        line.append("7");
    } else if d == 8 {
        line.append("8");
    } else {
        line.append("9");
    }
    assert(line@ =~= old(line)@.push(digits()[d as int]));
}

/// Writes a number in decimal.
pub(crate) fn push_number(line: &mut String, n: usize)
    ensures
        final(line)@ == old(line)@ + number_text(n as int),
    decreases n,
{
    if n >= 10 {
        push_number(line, n / 10);
    }
    push_digit(line, (n % 10) as u8);
    assert(line@ =~= old(line)@ + number_text(n as int));
}

/// Writes a minus.
fn push_minus(line: &mut String)
    ensures
        final(line)@ == old(line)@.push('-'),
{
    proof {
        reveal_strlit("-");
    }
    line.append("-");
    assert(line@ =~= old(line)@.push('-'));
}

/// Writes the mark of an undetermined card.
fn push_unknown(line: &mut String)
    ensures
        final(line)@ == old(line)@.push('?'),
{
    proof {
        reveal_strlit("?");
    }
    line.append("?");
    assert(line@ =~= old(line)@.push('?'));
}

/// Writes the mark that the excluded suits follow.
fn push_cross(line: &mut String)
    ensures
        final(line)@ == old(line)@.push('x'),
{
    proof {
        reveal_strlit("x");
    }
    line.append("x");
    assert(line@ =~= old(line)@.push('x'));
}

/// Writes the stroke between two hands.
fn push_stroke(line: &mut String)
    ensures
        final(line)@ == old(line)@.push('/'),
{
    proof {
        reveal_strlit("/");
    }
    line.append("/");
    assert(line@ =~= old(line)@.push('/'));
}

/// Writes the end of a line.
fn push_line_end(line: &mut String)
    ensures
        final(line)@ == old(line)@.push('\n'),
{
    proof {
        reveal_strlit("\n");
    }
    line.append("\n");
    assert(line@ =~= old(line)@.push('\n'));
}

/// Writes the number of a suit.
fn push_suit(line: &mut String, suit: i8)
    ensures
        final(line)@ == old(line)@ + suit_text(suit),
{
    let ghost start = line@;
    let size: u8 = if suit < 0 {
        push_minus(line);
        (-(suit as i16)) as u8
    } else {
        suit as u8
    };
    let ghost signed = line@;
    proof {
        reveal_with_fuel(number_text, 3);
    }
    if size >= 100 {
        push_digit(line, size / 100);
        push_digit(line, (size / 10) % 10);
        push_digit(line, size % 10);
        assert((size as int / 10) / 10 == size as int / 100);
        assert(line@ =~= signed + number_text(size as int));
    } else if size >= 10 {
        push_digit(line, size / 10);
        push_digit(line, size % 10);
        assert(line@ =~= signed + number_text(size as int));
    } else {
        push_digit(line, size);
        assert(line@ =~= signed + number_text(size as int));
    }
    assert(line@ =~= start + suit_text(suit));
}

/// Writes the mark of the player who is next.
fn push_next_mark(line: &mut String)
    ensures
        final(line)@ == old(line)@ + next_mark(),
{
    proof {
        reveal_strlit("   <<<< next player");
    }
    line.append("   <<<< next player");
    assert(line@ =~= old(line)@ + next_mark());
}

impl Hand {
    /// Writes the hand, see [`HandView::text`].
    pub fn write(&self, line: &mut String)
        requires
            self@.wf(),
        ensures
            final(line)@ == old(line)@ + self@.text(),
    {
        let ghost start = line@;
        let mut next: i16 = -128;
        assert(line@ =~= start + self@.known_text(-128));
        while next < 128
            invariant
                self@.wf(),
                -128 <= next <= 128,
                line@ == start + self@.known_text(next as int),
            decreases 128 - next,
        {
            let suit = next as i8;
            let count = self.known_count(suit);
            let ghost before = line@;
            let mut copies: i8 = 0;
            assert(0 <= count) by {
                if self@.known.contains_key(suit) {
                    assert(self@.known[suit] >= 1);
                }
            }
            assert(line@ =~= before + repeat(suit_text(suit), 0));
            while copies < count
                invariant
                    0 <= copies <= count,
                    line@ == before + repeat(suit_text(suit), copies as int),
                decreases count - copies,
            {
                push_suit(line, suit);
                copies += 1;
                assert(line@ =~= before + repeat(suit_text(suit), copies as int));
            }
            next += 1;
            assert(line@ =~= start + self@.known_text(next as int));
        }
        let ghost known = line@;
        let mut marks: i8 = 0;
        assert(line@ =~= known + repeat(seq!['?'], 0));
        while marks < self.number_of_unknown_cards
            invariant
                0 <= marks <= self@.unknown,
                line@ == known + repeat(seq!['?'], marks as int),
            decreases self@.unknown - marks,
        {
            push_unknown(line);
            marks += 1;
            assert(line@ =~= known + repeat(seq!['?'], marks as int));
        }
        let ghost counted = line@;
        if !self.known_voids.is_empty() {
            push_cross(line);
            let ghost crossed = line@;
            let mut next: i16 = -128;
            assert(line@ =~= crossed + self@.voids_text(-128));
            while next < 128
                invariant
                    -128 <= next <= 128,
                    line@ == crossed + self@.voids_text(next as int),
                decreases 128 - next,
            {
                let suit = next as i8;
                if self.known_voids.contains(&suit) {
                    push_suit(line, suit);
                }
                next += 1;
                assert(line@ =~= crossed + self@.voids_text(next as int));
            }
            assert(line@ =~= start + self@.text());
        } else {
            assert(line@ =~= start + self@.text());
        }
    }

    /// The hand as text, see [`HandView::text`].
    pub fn text(&self) -> (text: String)
        requires
            self@.wf(),
        ensures
            text@ == self@.text(),
    {
        let mut line = String::new();
        self.write(&mut line);
        assert(line@ =~= self@.text());
        line
    }

    /// The line that shows the hand, with a mark where the player is next.
    pub fn show(&self, is_next_player: bool) -> (text: String)
        requires
            self@.wf(),
        ensures
            text@ == self@.line(is_next_player),
    {
        let mut line = String::new();
        self.write(&mut line);
        if is_next_player {
            push_next_mark(&mut line);
        }
        assert(line@ =~= self@.line(is_next_player));
        line
    }
}

impl Cards {
    /// The table as text: the hands with a stroke between them.
    pub fn text(&self) -> (text: String)
        requires
            self.wf(),
        ensures
            text@ == table_text(self@, self@.len() as int),
    {
        let mut line = String::new();
        let mut p: usize = 0;
        while p < self.hands.len()
            invariant
                self.wf(),
                p <= self@.len(),
                self@.len() == self.hands@.len(),
                line@ == table_text(self@, p as int),
            decreases self@.len() - p,
        {
            if p > 0 {
                push_stroke(&mut line);
            }
            let ghost before = line@;
            assert(self@[p as int].wf());
            self.hands[p].write(&mut line);
            p += 1;
            assert(line@ =~= table_text(self@, p as int));
        }
        line
    }

    /// The lines that show the hands, one for each, with a mark at the hand
    /// of `next_player`. A number that is no player's marks no hand.
    pub fn show(&self, next_player: usize) -> (text: String)
        requires
            self.wf(),
        ensures
            text@ == table_lines(self@, next_player as int, self@.len() as int),
    {
        let mut lines = String::new();
        let mut p: usize = 0;
        while p < self.hands.len()
            invariant
                self.wf(),
                p <= self@.len(),
                self@.len() == self.hands@.len(),
                lines@ == table_lines(self@, next_player as int, p as int),
            decreases self@.len() - p,
        {
            let ghost before = lines@;
            assert(self@[p as int].wf());
            self.hands[p].write(&mut lines);
            if p == next_player {
                push_next_mark(&mut lines);
            }
            push_line_end(&mut lines);
            p += 1;
            assert(lines@ =~= table_lines(self@, next_player as int, p as int));
        }
        lines
    }
}

} // verus!
