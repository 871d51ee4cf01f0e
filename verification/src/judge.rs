//! What the table says of the game: whether somebody has won, and whether a
//! player must hold a card.
use crate::cards::no_transfer_ok;
use crate::cards::no_transfer_table;
use crate::cards::seat;
use crate::cards::transfer_ok;
use crate::cards::transfer_table;
use crate::cards::Cards;
use crate::cards::ILLEGAL_CARDS;
use crate::cards::NO_WINNER;
use crate::hand::HandView;
use crate::inference::closes_to;
use crate::inference::contradictory;
use crate::inference::totals_of;
use crate::inference::verdict;
use crate::inference::within_limit;
use crate::inference::Verdict;
use crate::laws::only_learned;
use vstd::prelude::*;

verus! {

/// No hand has undetermined cards.
pub open spec fn all_determined(hands: Seq<HandView>) -> bool {
    forall|p: int| 0 <= p < hands.len() ==> (#[trigger] hands[p]).unknown == 0
}

/// The first player, `from` or more places after `last` round the table, who
/// holds all four cards of a suit, or -1 where no player does.
pub open spec fn first_four(hands: Seq<HandView>, last: int, from: int) -> int
    decreases hands.len() - from,
{
    if from < 0 || from >= hands.len() {
        -1
    } else if hands[seat(hands, last, from)].has_four_of_a_kind() {
        seat(hands, last, from)
    } else {
        first_four(hands, last, from + 1)
    }
}

/// The winner on a table on which all conclusions are drawn, after player
/// `last` has moved: with every card determined the game is over and `last`
/// has won; else the first player from `last` on who holds all four cards of
/// a suit has; else nobody has yet (-1).
pub open spec fn winner_of(hands: Seq<HandView>, last: int) -> int {
    if all_determined(hands) {
        last
    } else {
        first_four(hands, last, 0)
    }
}

/// What [`Cards::test_winner`] says of a table after player `last` has
/// moved: -2 where the hands contradict each other, else the winner on the
/// table with all conclusions drawn, see [`winner_of`].
pub open spec fn winner_after(hands: Seq<HandView>, last: int) -> int {
    match verdict(hands) {
        Verdict::Contradiction => -2,
        Verdict::Consistent(closed) => winner_of(closed, last),
    }
}

/// Whether player `this` holds a card of `suit` that player `other` asks
/// for: first whether that is settled, then the answer where it is. It is
/// settled by the hand itself, or because one of the two answers leads to a
/// contradiction.
pub open spec fn table_has_card(hands: Seq<HandView>, suit: i8, this: int, other: int) -> (
    bool,
    bool,
) {
    if hands[this].has_card_forced(suit) {
        (true, hands[this].known.contains_key(suit))
    } else if !no_transfer_ok(hands, suit, this, other) || contradictory(
        no_transfer_table(hands, suit, this, other),
    ) {
        (true, true)
    } else if !transfer_ok(hands, suit, this, other) || contradictory(
        transfer_table(hands, suit, this, other),
    ) {
        (true, false)
    } else {
        (false, false)
    }
}

impl Cards {
    /// Draws all conclusions, then says who has won after `last_player`
    /// has moved: the player's number, [`NO_WINNER`] where nobody has won
    /// yet, or [`ILLEGAL_CARDS`] where the hands contradict each other.
    pub fn test_winner(&mut self, last_player: usize) -> (winner: i64)
        requires
            old(self).wf(),
            last_player < old(self)@.len(),
        ensures
            winner == winner_after(old(self)@, last_player as int),
            winner == ILLEGAL_CARDS <==> contradictory(old(self)@),
            only_learned(final(self)@, old(self)@),
            winner != ILLEGAL_CARDS ==> {
                &&& verdict(old(self)@) == Verdict::Consistent(final(self)@)
                &&& closes_to(old(self)@, Verdict::Consistent(final(self)@))
                &&& within_limit(totals_of(final(self)@))
                &&& winner == winner_of(final(self)@, last_player as int)
                &&& -1 <= winner < old(self)@.len()
            },
    {
        if !self.shake_down() {
            return ILLEGAL_CARDS;
        }
        let ghost closed = self@;
        let n = self.hands.len();
        let mut all = true;
        let mut p: usize = 0;
        while p < n
            invariant
                self@ == closed,
                n == closed.len(),
                n == self.hands@.len(),
                p <= n,
                all ==> forall|q: int| 0 <= q < p ==> (#[trigger] closed[q]).unknown == 0,
                !all ==> !all_determined(closed),
            decreases n - p,
        {
            if !self.hands[p].is_determined() {
                assert(closed[p as int].unknown != 0);
                all = false;
            }
            p += 1;
        }
        if all {
            return last_player as i64;
        }
        let mut i: usize = 0;
        while i < n
            invariant
                self@ == closed,
                n == closed.len(),
                n == self.hands@.len(),
                n <= i8::MAX,
                last_player < n,
                i <= n,
                !all_determined(closed),
                !contradictory(old(self)@),
                verdict(old(self)@) == Verdict::Consistent(closed),
                closes_to(old(self)@, Verdict::Consistent(closed)),
                only_learned(closed, old(self)@),
                within_limit(totals_of(closed)),
                first_four(closed, last_player as int, 0) == first_four(
                    closed,
                    last_player as int,
                    i as int,
                ),
            decreases n - i,
        {
            let player = (i + last_player) % n;
            let ghost prior = self@;
            if self.hands[player].has_four_of_a_kind() {
                assert(self@ =~= prior);
                return player as i64;
            }
            assert(self@ =~= prior);
            i += 1;
        }
        assert(first_four(closed, last_player as int, n as int) == -1);
        NO_WINNER
    }

    /// Whether player `this` holds a card of `suit` that player `other`
    /// asks for, see [`table_has_card`]. The first component says whether that
    /// is settled, the second what the answer is then.
    pub fn has_card(&self, suit: i8, this: usize, other: usize) -> (answer: (bool, bool))
        requires
            self.wf(),
            this < self@.len(),
            !self@[this as int].has_card_forced(suit) ==> {
                &&& other < self@.len()
                &&& 0 <= suit < self@.len()
                &&& self@[other as int].can_settle(suit)
                &&& self@[other as int].count(suit) < i8::MAX
            },
        ensures
            answer == table_has_card(self@, suit, this as int, other as int),
    {
        let (forced, has) = self.hands[this].has_card(suit);
        if forced {
            return (forced, has);
        }
        let mut copied = self.duplicate();
        if !copied.no_transfer(suit, this, other, true) || !copied.shake_down() {
            return (true, true);
        }
        copied = self.duplicate();
        if !copied.transfer(suit, this, other, true) || !copied.shake_down() {
            return (true, false);
        }
        (false, false)
    }
}

} // verus!
