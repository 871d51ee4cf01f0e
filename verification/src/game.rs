//! One turn of the game: what the table and the history of positions make
//! of a move and its answer.
use crate::cards::legal_move;
use crate::cards::no_transfer_table;
use crate::cards::transfer_table;
use crate::cards::Cards;
use crate::cards::ILLEGAL_CARDS;
use crate::cards::NO_WINNER;
use crate::hand::HandView;
use crate::inference::closes_to;
use crate::inference::contradictory;
use crate::inference::Verdict;
use crate::judge::winner_of;
use crate::laws::only_learned;
use crate::player::lemma_no_winner_is_playable;
use crate::player::lemma_playable_is_small;
use crate::player::playable;
use crate::position::identity;
use crate::position::lemma_small_table_fits;
use crate::position::position_number;
use std::collections::HashSet;
use vstd::prelude::*;

verus! {

broadcast use vstd::std_specs::hash::group_hash_axioms;

/// How a turn has ended.
#[derive(Clone, Copy, Debug, PartialEq, Eq)]
pub enum TurnEnd {
    /// The move and its answer contradict what is known: the game cannot
    /// go on.
    Illegal,
    /// This player has won.
    Won(i64),
    /// The position has been met before: the game is a draw.
    Drawn,
    /// The game goes on.
    Open,
}

/// The table after player `this` has asked player `other` for a card of
/// `suit` and has been answered.
pub open spec fn moved_table(hands: Seq<HandView>, other: int, suit: i8, this: int, has: bool) -> Seq<
    HandView,
> {
    if has {
        transfer_table(hands, suit, other, this)
    } else {
        no_transfer_table(hands, suit, other, this)
    }
}

/// The answer does not contradict what the hand that answers is known to
/// hold.
pub open spec fn fair_answer(hand: HandView, suit: i8, has: bool) -> bool {
    hand.has_card_forced(suit) ==> has == hand.known.contains_key(suit)
}

/// Makes the move of player `this`, who has asked player `other` for a card
/// of `suit` and has been told `has`: the card changes hands or the refusal
/// is recorded, all conclusions are drawn, and the winner is tested. Where
/// nobody has won, the position is looked up in `history`: a position met
/// before ends the game in a draw, a new one joins the history.
pub fn settle_move(
    cards: &mut Cards,
    history: &mut HashSet<i128>,
    this: usize,
    other: usize,
    suit: i8,
    has: bool,
) -> (end: TurnEnd)
    requires
        playable(old(cards)@),
        legal_move(old(cards)@, other as int, suit, this as int),
        fair_answer(old(cards)@[other as int], suit, has),
    ensures
        end is Illegal <==> contradictory(
            moved_table(old(cards)@, other as int, suit, this as int, has),
        ),
        end is Illegal ==> final(history)@ == old(history)@,
        only_learned(
            final(cards)@,
            moved_table(old(cards)@, other as int, suit, this as int, has),
        ),
        !(end is Illegal) ==> {
            let closed = final(cards)@;
            let winner = winner_of(closed, this as int);
            let position = position_number(closed, identity(closed.len() as int), this as int, false);
            &&& closes_to(
                moved_table(old(cards)@, other as int, suit, this as int, has),
                Verdict::Consistent(closed),
            )
            &&& closed.len() == old(cards)@.len()
            &&& winner != NO_WINNER ==> end == TurnEnd::Won(winner as i64) && final(history)@ == old(
                history,
            )@
            &&& winner == NO_WINNER && old(history)@.contains(position as i128) ==> end
                == TurnEnd::Drawn && final(history)@ == old(history)@
            &&& winner == NO_WINNER && !old(history)@.contains(position as i128) ==> end
                == TurnEnd::Open && final(history)@ == old(history)@.insert(position as i128)
            &&& winner == NO_WINNER ==> playable(closed)
        },
{
    proof {
        lemma_playable_is_small(cards@);
        assert(cards@[this as int].count(suit) < 4);
    }
    if has {
        cards.transfer(suit, other, this, false);
    } else {
        cards.no_transfer(suit, other, this, false);
    }
    let winner = cards.test_winner(this);
    if winner == ILLEGAL_CARDS {
        return TurnEnd::Illegal;
    }
    if winner != NO_WINNER {
        return TurnEnd::Won(winner);
    }
    proof {
        lemma_no_winner_is_playable(cards@, this as int);
        lemma_playable_is_small(cards@);
        lemma_small_table_fits(cards@, identity(cards@.len() as int), this as int, false);
    }
    let position = cards.position(this);
    if history.contains(&position) {
        return TurnEnd::Drawn;
    }
    history.insert(position);
    TurnEnd::Open
}

} // verus!
