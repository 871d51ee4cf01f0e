//! Players: what the game asks of a player, and a player that looks ahead.
use crate::cards::legal_move;
use crate::cards::seat;
use crate::cards::table_wf;
use crate::cards::Cards;
use crate::cards::NO_WINNER;
use crate::hand::HandView;
use crate::inference::totals_of;
use crate::inference::within_limit;
use crate::judge::first_four;
use crate::judge::winner_of;
use crate::position::small_table;
use crate::shake::lemma_total_bounds;
use std::collections::HashSet;
use vstd::prelude::*;
use vstd::std_specs::iter::IteratorSpec;

verus! {

broadcast use vstd::std_specs::hash::group_hash_axioms;

/// A game can go on from this table: it is well formed, has from two to five
/// players, no suit has more than four known cards, and no hand holds all
/// four cards of a suit.
pub open spec fn playable(hands: Seq<HandView>) -> bool {
    &&& table_wf(hands)
    &&& 2 <= hands.len() <= 5
    &&& within_limit(totals_of(hands))
    &&& forall|p: int| 0 <= p < hands.len() ==> !(#[trigger] hands[p]).has_four_of_a_kind()
}

/// A playable table is small, see [`small_table`].
pub proof fn lemma_playable_is_small(hands: Seq<HandView>)
    requires
        playable(hands),
    ensures
        small_table(hands),
{
    assert forall|p: int, s: i8| 0 <= p < hands.len() implies #[trigger] hands[p].count(s) < 4 by {
        if hands[p].known.contains_key(s) {
            assert(0 <= s < hands.len());
            lemma_total_bounds(hands, s, hands.len() as int);
            assert(totals_of(hands)[s as int] <= 4);
            assert(!hands[p].has_four_of_a_kind());
            assert(hands[p].known[s] != 4);
        }
    }
}

/// A table on which all conclusions are drawn and nobody has won is
/// playable.
pub proof fn lemma_no_winner_is_playable(hands: Seq<HandView>, last: int)
    requires
        table_wf(hands),
        2 <= hands.len() <= 5,
        0 <= last < hands.len(),
        within_limit(totals_of(hands)),
        winner_of(hands, last) == NO_WINNER,
    ensures
        playable(hands),
{
    let n = hands.len() as int;
    lemma_first_four_none(hands, last, 0);
    assert forall|p: int| 0 <= p < n implies !(#[trigger] hands[p]).has_four_of_a_kind() by {
        let k = if p >= last {
            p - last
        } else {
            p - last + n
        };
        assert(seat(hands, last, k) == p) by {
            if p >= last {
                assert((last + k) % n == p) by (nonlinear_arith)
                    requires
                        last + k == p,
                        0 <= p < n,
                ;
            } else {
                assert((last + k) % n == p) by (nonlinear_arith)
                    requires
                        last + k == p + n,
                        0 <= p < n,
                ;
            }
        }
    }
}

/// Where `first_four` finds nobody, nobody from `from` on holds four of a
/// kind.
pub proof fn lemma_first_four_none(hands: Seq<HandView>, last: int, from: int)
    requires
        0 <= from,
        0 <= last < hands.len(),
        first_four(hands, last, from) == -1,
    ensures
        forall|k: int| from <= k < hands.len() ==> !hands[seat(hands, last, k)].has_four_of_a_kind(),
    decreases hands.len() - from,
{
    if from < hands.len() {
        let n = hands.len() as int;
        assert(0 <= seat(hands, last, from) < n) by (nonlinear_arith)
            requires
                seat(hands, last, from) == (last + from) % n,
                0 <= last,
                0 <= from,
                0 < n,
        ;
        lemma_first_four_none(hands, last, from + 1);
    }
}

/// A move with what it leads to.
#[derive(Clone, Copy)]
pub struct Choice {
    /// The player asked.
    pub other: usize,
    /// The suit asked for.
    pub suit: i8,
    /// The winner that the move leads to with best play, or -1 where it
    /// leads to a draw or the search went no further.
    pub result: i64,
    /// The repeated position that makes the draw, or -1.
    pub draw_position: i128,
}

/// The first place of `suit` among the first `n` suits of `order`.
pub open spec fn suit_place(order: Seq<i8>, suit: i8, n: int) -> Option<usize>
    decreases n,
{
    if n <= 0 {
        None
    } else {
        match suit_place(order, suit, n - 1) {
            Some(i) => Some(i),
            None => if order[n - 1] == suit {
                Some((n - 1) as usize)
            } else {
                None
            },
        }
    }
}

/// What `suit_place` finds below `n` it finds below any larger bound, and it
/// is a place of the suit; where it finds nothing, the suit is not there.
pub proof fn lemma_suit_place(order: Seq<i8>, suit: i8, n: int, m: int)
    requires
        0 <= n <= m <= order.len() <= usize::MAX,
    ensures
        suit_place(order, suit, n) matches Some(i) ==> i < n && order[i as int] == suit
            && suit_place(order, suit, m) == Some(i),
        suit_place(order, suit, n) is None ==> forall|j: int| 0 <= j < n ==> order[j] != suit,
    decreases m,
{
    if n < m {
        lemma_suit_place(order, suit, n, m - 1);
    } else if n > 0 {
        lemma_suit_place(order, suit, n - 1, n - 1);
    }
}

/// The first place of `suit` in `permutation`, or `None`.
pub fn place_of(permutation: &[i8], suit: i8) -> (found: Option<usize>)
    ensures
        found == suit_place(permutation@, suit, permutation@.len() as int),
        found matches Some(i) ==> i < permutation@.len() && permutation@[i as int] == suit,
        found is None ==> !permutation@.contains(suit),
{
    let mut i: usize = 0;
    while i < permutation.len()
        invariant
            i <= permutation@.len(),
            suit_place(permutation@, suit, i as int) is None,
            forall|j: int| 0 <= j < i ==> permutation@[j] != suit,
        decreases permutation@.len() - i,
    {
        if permutation[i] == suit {
            proof {
                lemma_suit_place(permutation@, suit, i as int + 1, permutation@.len() as int);
            }
            return Some(i);
        }
        i += 1;
    }
    None
}

/// A copy of the set of positions.
pub fn duplicate_history(history: &HashSet<i128>) -> (copy: HashSet<i128>)
    ensures
        copy@ == history@,
{
    let mut copy: HashSet<i128> = HashSet::new();
    for position in it: history.iter()
        invariant
            it.seq() == history.iter().remaining(),
            forall|s: i128|
                copy@.contains(s) <==> exists|i: int|
                    0 <= i < it.index() && *(#[trigger] it.seq()[i]) == s,
    {
        assert(position == it.seq()[it.index() as int]);
        copy.insert(*position);
    }
    proof {
        let all = history.iter().remaining();
        assert forall|s: i128| copy@.contains(s) <==> history@.contains(s) by {
            if copy@.contains(s) {
                let i = choose|i: int| 0 <= i < all.len() && *(#[trigger] all[i]) == s;
                assert(all.unref()[i] == s);
                assert(all.unref().to_set().contains(s));
            }
            if history@.contains(s) {
                assert(all.unref().to_set().contains(s));
                let i = choose|i: int| 0 <= i < all.unref().len() && all.unref()[i] == s;
                assert(*all[i] == s);
            }
        }
        assert(copy@ =~= history@);
    }
    copy
}

/// The moves that a search has found so far, by what they lead to.
pub struct Candidates {
    /// A move that leads to a draw.
    pub draw: Option<Choice>,
    /// A move of which the search could not tell where it leads.
    pub out_of_depth: Option<Choice>,
    /// For each of the winners that the player would rather see, in the
    /// order of preference, a move that lets that player win.
    pub other_winners: Vec<Option<Choice>>,
    /// A move that lets another player win in the end.
    pub lose: Option<Choice>,
    /// A move that lets another player win at once.
    pub immediate_lose: Option<Choice>,
}

/// The mathematical content of [`Candidates`].
pub struct CandidatesView {
    pub draw: Option<Choice>,
    pub out_of_depth: Option<Choice>,
    pub other_winners: Seq<Option<Choice>>,
    pub lose: Option<Choice>,
    pub immediate_lose: Option<Choice>,
}

impl View for Candidates {
    type V = CandidatesView;

    open spec fn view(&self) -> CandidatesView {
        CandidatesView {
            draw: self.draw,
            out_of_depth: self.out_of_depth,
            other_winners: self.other_winners@,
            lose: self.lose,
            immediate_lose: self.immediate_lose,
        }
    }
}

/// The first move in `moves` from place `from` on.
pub open spec fn first_some(moves: Seq<Option<Choice>>, from: int) -> Option<Choice>
    decreases moves.len() - from,
{
    if from < 0 || from >= moves.len() {
        None
    } else if moves[from].is_some() {
        moves[from]
    } else {
        first_some(moves, from + 1)
    }
}

impl CandidatesView {
    /// No moves, with room for `preferred` preferred winners.
    pub open spec fn empty(preferred: nat) -> CandidatesView {
        CandidatesView {
            draw: None,
            out_of_depth: None,
            other_winners: Seq::new(preferred, |i: int| None),
            lose: None,
            immediate_lose: None,
        }
    }

    /// The move to make: a draw before a move that leads nobody knows
    /// where, that before the win of a preferred player, the more preferred
    /// the better, that before a loss in the end, and that before a loss at
    /// once.
    pub open spec fn best(self) -> Option<Choice> {
        if self.draw.is_some() {
            self.draw
        } else if self.out_of_depth.is_some() {
            self.out_of_depth
        } else if first_some(self.other_winners, 0).is_some() {
            first_some(self.other_winners, 0)
        } else if self.lose.is_some() {
            self.lose
        } else {
            self.immediate_lose
        }
    }

    /// Every move held satisfies `good`.
    pub open spec fn all(self, good: spec_fn(Choice) -> bool) -> bool {
        &&& self.draw matches Some(c) ==> good(c)
        &&& self.out_of_depth matches Some(c) ==> good(c)
        &&& self.lose matches Some(c) ==> good(c)
        &&& self.immediate_lose matches Some(c) ==> good(c)
        &&& forall|i: int|
            0 <= i < self.other_winners.len() ==> (#[trigger] self.other_winners[i] matches Some(c)
                ==> good(c))
    }

    /// With a move after which another player has won at once: as the move
    /// that lets that player win, where `place` is the player's place among
    /// the winners that the mover would rather see, else as a loss at once.
    pub open spec fn with_winner_at_once(self, place: Option<usize>, made: Choice) -> CandidatesView {
        match place {
            Some(f) => CandidatesView {
                other_winners: self.other_winners.update(f as int, Some(made)),
                ..self
            },
            None => CandidatesView { immediate_lose: Some(made), ..self },
        }
    }

    /// With the move to player `other` for `suit` after which the game went
    /// on, given where the search from there has led: to a draw (a winner
    /// below zero), kept with its position; or to the win of another player,
    /// kept as the move that lets that player win, where `place` is the
    /// player's place among the winners that the mover would rather see,
    /// else as a loss in the end.
    pub open spec fn with_later(
        self,
        place: Option<usize>,
        other: usize,
        suit: i8,
        next_winner: i64,
        draw_position: i128,
    ) -> CandidatesView {
        if next_winner < 0 {
            CandidatesView {
                draw: Some(Choice { other, suit, result: -1i64, draw_position }),
                ..self
            }
        } else {
            match place {
                Some(f) => CandidatesView {
                    other_winners: self.other_winners.update(
                        f as int,
                        Some(Choice { other, suit, result: next_winner, draw_position: 0i128 }),
                    ),
                    ..self
                },
                None => CandidatesView {
                    lose: Some(Choice { other, suit, result: next_winner, draw_position: -1i128 }),
                    ..self
                },
            }
        }
    }
}

impl Candidates {
    /// No moves yet, with room for `preferred` preferred winners.
    pub fn new(preferred: usize) -> (candidates: Candidates)
        ensures
            candidates@ == CandidatesView::empty(preferred as nat),
    {
        let mut other_winners: Vec<Option<Choice>> = Vec::new();
        let mut i: usize = 0;
        while i < preferred
            invariant
                i <= preferred,
                other_winners@.len() == i,
                forall|j: int| 0 <= j < i ==> #[trigger] other_winners@[j] is None,
            decreases preferred - i,
        {
            other_winners.push(None);
            i += 1;
        }
        assert(other_winners@ =~= CandidatesView::empty(preferred as nat).other_winners);
        Candidates { draw: None, out_of_depth: None, other_winners, lose: None, immediate_lose: None }
    }

    /// Notes a move after which another player has won at once: as the
    /// move that lets that player win, where `place` is the player's place
    /// among the winners that the mover would rather see, else as a loss at
    /// once.
    pub fn note_winner_at_once(&mut self, place: Option<usize>, made: Choice)
        requires
            place matches Some(f) ==> f < old(self)@.other_winners.len(),
        ensures
            final(self)@ == old(self)@.with_winner_at_once(place, made),
    {
        match place {
            Some(f) => {
                self.other_winners[f] = Some(made);
            },
            None => {
                self.immediate_lose = Some(made);
            },
        }
    }

    /// Notes the move to player `other` for `suit` after which the game
    /// went on, given where the search from there has led: to a draw (a
    /// winner below zero), kept with its position; or to the win of another
    /// player, kept as the move that lets that player win, where `place` is
    /// the player's place among the winners that the mover would rather see,
    /// else as a loss in the end.
    pub fn note_later(
        &mut self,
        place: Option<usize>,
        other: usize,
        suit: i8,
        next_winner: i64,
        draw_position: i128,
    )
        requires
            place matches Some(f) ==> f < old(self)@.other_winners.len(),
        ensures
            final(self)@ == old(self)@.with_later(place, other, suit, next_winner, draw_position),
    {
        if next_winner < 0 {
            self.draw = Some(Choice { other, suit, result: -1, draw_position });
        } else {
            match place {
                Some(f) => {
                    self.other_winners[f] = Some(
                        Choice { other, suit, result: next_winner, draw_position: 0 },
                    );
                },
                None => {
                    self.lose = Some(
                        Choice { other, suit, result: next_winner, draw_position: -1 },
                    );
                },
            }
        }
    }

    /// The move to make, see [`CandidatesView::best`].
    pub fn best(&self) -> (choice: Option<Choice>)
        ensures
            choice == self@.best(),
    {
        if self.draw.is_some() {
            return self.draw;
        }
        if self.out_of_depth.is_some() {
            return self.out_of_depth;
        }
        let mut i: usize = 0;
        while i < self.other_winners.len()
            invariant
                self.draw is None,
                self.out_of_depth is None,
                i <= self.other_winners@.len(),
                first_some(self.other_winners@, 0) == first_some(self.other_winners@, i as int),
            decreases self.other_winners@.len() - i,
        {
            if self.other_winners[i].is_some() {
                return self.other_winners[i];
            }
            i += 1;
        }
        if self.lose.is_some() {
            return self.lose;
        }
        self.immediate_lose
    }
}

/// A list that holds no move has no first move.
pub proof fn lemma_first_some_none(moves: Seq<Option<Choice>>, from: int)
    requires
        0 <= from,
        forall|i: int| 0 <= i < moves.len() ==> #[trigger] moves[i] is None,
    ensures
        first_some(moves, from) is None,
    decreases moves.len() - from,
{
    if from < moves.len() {
        lemma_first_some_none(moves, from + 1);
    }
}

/// Where all moves held are good, the best of them is.
pub proof fn lemma_best_is_good(candidates: CandidatesView, good: spec_fn(Choice) -> bool)
    requires
        candidates.all(good),
    ensures
        candidates.best() matches Some(c) ==> good(c),
{
    lemma_first_some_is_good(candidates.other_winners, good, 0);
}

/// Where all moves of a list are good, the first of them is.
pub proof fn lemma_first_some_is_good(
    moves: Seq<Option<Choice>>,
    good: spec_fn(Choice) -> bool,
    from: int,
)
    requires
        0 <= from,
        forall|i: int| 0 <= i < moves.len() ==> (#[trigger] moves[i] matches Some(c) ==> good(c)),
    ensures
        first_some(moves, from) matches Some(c) ==> good(c),
    decreases moves.len() - from,
{
    if from < moves.len() && !moves[from].is_some() {
        lemma_first_some_is_good(moves, good, from + 1);
    }
}

/// What the game asks of a player.
pub trait Player {
    /// The player can play at a table of `players` players.
    spec fn ready(&self, players: int) -> bool;

    /// The move of player `this`: the player asked and the suit asked for.
    /// The move is a legal one. `None` where the player finds no move.
    fn next_move(&mut self, this: usize, cards: &Cards, history: &HashSet<i128>) -> (choice: Option<
        (usize, i8),
    >)
        requires
            old(self).ready(cards@.len() as int),
            playable(cards@),
            this < cards@.len(),
        ensures
            final(self).ready(cards@.len() as int),
            choice matches Some(m) ==> legal_move(cards@, m.0 as int, m.1, this as int),
    ;

    /// Whether player `this` hands player `other` a card of `suit`. Where
    /// the hand of `this` settles that, the answer is what the hand says.
    fn has_card(
        &mut self,
        this: usize,
        other: usize,
        suit: i8,
        cards: &Cards,
        history: &HashSet<i128>,
    ) -> (has: bool)
        requires
            old(self).ready(cards@.len() as int),
            playable(cards@),
            legal_move(cards@, this as int, suit, other as int),
        ensures
            final(self).ready(cards@.len() as int),
            cards@[this as int].has_card_forced(suit) ==> has == cards@[this as int].known.contains_key(
                suit,
            ),
    ;

    /// A line about the player.
    fn info(&self) -> String;
}

} // verus!
