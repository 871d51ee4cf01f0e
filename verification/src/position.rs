//! Positions as numbers: a table is turned into an integer that tells
//! whether a position repeats, and the suits are ranked by how they appear in
//! the hands, so that positions that differ only in the names of the suits
//! get the same number.
use crate::cards::seat;
use crate::cards::Cards;
use crate::hand::Hand;
use crate::hand::HandView;
use vstd::prelude::*;

verus! {

impl HandView {
    /// `pos` extended by the known cards of the first `n` suits of
    /// `permutation`: for each, times four plus the number of known cards.
    pub open spec fn position_counts(self, pos: int, permutation: Seq<i8>, n: int) -> int
        decreases n,
    {
        if n <= 0 {
            pos
        } else {
            self.position_counts(pos, permutation, n - 1) * 4 + self.count(permutation[n - 1])
        }
    }

    /// `pos` extended by the exclusions of the first `n` suits of
    /// `permutation`: for each, times two plus one where it is excluded.
    pub open spec fn position_voids(self, pos: int, permutation: Seq<i8>, n: int) -> int
        decreases n,
    {
        if n <= 0 {
            pos
        } else {
            self.position_voids(pos, permutation, n - 1) * 2 + if self.voids.contains(
                permutation[n - 1],
            ) {
                1int
            } else {
                0
            }
        }
    }

    /// `pos` extended by the hand: by the known cards in the order of
    /// `permutation`, then times eight plus the number of undetermined
    /// cards, then by the exclusions in the same order.
    pub open spec fn position(self, pos: int, permutation: Seq<i8>) -> int {
        let n = permutation.len() as int;
        self.position_voids(
            self.position_counts(pos, permutation, n) * 8 + self.unknown,
            permutation,
            n,
        )
    }

    /// The hand can be numbered: it has fewer than four known cards of each
    /// suit of `permutation`.
    pub open spec fn countable(self, permutation: Seq<i8>) -> bool {
        &&& 0 <= self.unknown
        &&& forall|i: int| 0 <= i < permutation.len() ==> 0 <= #[trigger] self.count(permutation[i]) < 4
    }

    /// The rank of a suit after this hand, given its rank after the hands
    /// before: times the number of suits plus the known cards of the suit,
    /// then times two plus one where the suit is excluded.
    pub open spec fn adjust_rank(self, rank: int, suit: i8, n: int) -> int {
        (rank * n + self.count(suit)) * 2 + if self.voids.contains(suit) {
            1int
        } else {
            0
        }
    }
}

/// The position grows with every known card taken in.
pub proof fn lemma_position_counts_rise(hand: HandView, pos: int, permutation: Seq<i8>, n: int, m: int)
    requires
        0 <= pos,
        0 <= n <= m <= permutation.len(),
        hand.countable(permutation),
    ensures
        pos <= hand.position_counts(pos, permutation, n) <= hand.position_counts(pos, permutation, m),
    decreases m,
{
    if n < m {
        lemma_position_counts_rise(hand, pos, permutation, n, m - 1);
        assert(hand.count(permutation[m - 1]) >= 0);
    } else if n > 0 {
        lemma_position_counts_rise(hand, pos, permutation, n - 1, n - 1);
        assert(hand.count(permutation[n - 1]) >= 0);
    }
}

/// The position grows with every exclusion taken in.
pub proof fn lemma_position_voids_rise(hand: HandView, pos: int, permutation: Seq<i8>, n: int, m: int)
    requires
        0 <= pos,
        0 <= n <= m <= permutation.len(),
    ensures
        pos <= hand.position_voids(pos, permutation, n) <= hand.position_voids(pos, permutation, m),
    decreases m,
{
    if n < m {
        lemma_position_voids_rise(hand, pos, permutation, n, m - 1);
    } else if n > 0 {
        lemma_position_voids_rise(hand, pos, permutation, n - 1, n - 1);
    }
}

/// The position of a hand is no less than the position it extends.
pub proof fn lemma_position_rises(hand: HandView, pos: int, permutation: Seq<i8>)
    requires
        0 <= pos,
        hand.countable(permutation),
    ensures
        pos <= hand.position(pos, permutation),
{
    let n = permutation.len() as int;
    lemma_position_counts_rise(hand, pos, permutation, 0, n);
    lemma_position_voids_rise(
        hand,
        hand.position_counts(pos, permutation, n) * 8 + hand.unknown,
        permutation,
        0,
        n,
    );
}

impl Hand {
    /// Extends the position `pos` of the hands before by this hand, see
    /// [`HandView::position`].
    pub fn position(&self, pos: i128, permutation: &[i8]) -> (extended: i128)
        requires
            0 <= pos,
            self@.countable(permutation@),
            self@.position(pos as int, permutation@) <= i128::MAX,
        ensures
            extended == self@.position(pos as int, permutation@),
    {
        let n = permutation.len();
        let ghost start = pos as int;
        let ghost counted = self@.position_counts(start, permutation@, n as int);
        let mut pos = pos;
        let mut i: usize = 0;
        proof {
            lemma_position_counts_rise(self@, start, permutation@, 0, n as int);
            lemma_position_voids_rise(self@, counted * 8 + self@.unknown, permutation@, 0, n as int);
        }
        while i < n
            invariant
                n == permutation@.len(),
                i <= n,
                0 <= start,
                self@.countable(permutation@),
                counted == self@.position_counts(start, permutation@, n as int),
                counted * 8 + self@.unknown <= i128::MAX,
                pos == self@.position_counts(start, permutation@, i as int),
                0 <= pos,
            decreases n - i,
        {
            let count = self.known_count(permutation[i]);
            proof {
                lemma_position_counts_rise(self@, start, permutation@, i as int + 1, n as int);
                assert(self@.count(permutation@[i as int]) >= 0);
            }
            pos = pos * 4 + count as i128;
            i += 1;
        }
        pos = pos * 8 + self.number_of_unknown_cards as i128;
        let ghost base = pos as int;
        let mut i: usize = 0;
        while i < n
            invariant
                n == permutation@.len(),
                i <= n,
                0 <= base,
                self@.position_voids(base, permutation@, n as int) <= i128::MAX,
                pos == self@.position_voids(base, permutation@, i as int),
                0 <= pos,
            decreases n - i,
        {
            proof {
                lemma_position_voids_rise(self@, base, permutation@, i as int + 1, n as int);
            }
            let bit: i128 = if self.known_voids.contains(&permutation[i]) {
                1
            } else {
                0
            };
            pos = pos * 2 + bit;
            i += 1;
        }
        pos
    }

    /// Takes this hand into the ranks of the suits, see
    /// [`HandView::adjust_rank`]: `rankings` holds a rank for each suit.
    pub fn adjust_ranking(&self, rankings: &mut [i64])
        requires
            self@.wf(),
            old(rankings)@.len() <= i8::MAX,
            forall|i: int| 0 <= i < old(rankings)@.len() ==> 0 <= #[trigger] old(rankings)@[i],
            forall|i: int|
                0 <= i < old(rankings)@.len() ==> self@.adjust_rank(
                    #[trigger] old(rankings)@[i] as int,
                    i as i8,
                    old(rankings)@.len() as int,
                ) <= i64::MAX,
        ensures
            final(rankings)@.len() == old(rankings)@.len(),
            forall|i: int|
                0 <= i < old(rankings)@.len() ==> #[trigger] final(rankings)@[i] == self@.adjust_rank(
                    old(rankings)@[i] as int,
                    i as i8,
                    old(rankings)@.len() as int,
                ),
    {
        let n = rankings.len();
        let mut i: usize = 0;
        while i < n
            invariant
                self@.wf(),
                n == rankings@.len(),
                n == old(rankings)@.len(),
                n <= i8::MAX,
                i <= n,
                forall|j: int| 0 <= j < n ==> 0 <= #[trigger] old(rankings)@[j],
                forall|j: int|
                    0 <= j < n ==> self@.adjust_rank(
                        #[trigger] old(rankings)@[j] as int,
                        j as i8,
                        n as int,
                    ) <= i64::MAX,
                forall|j: int|
                    0 <= j < i ==> #[trigger] rankings@[j] == self@.adjust_rank(
                        old(rankings)@[j] as int,
                        j as i8,
                        n as int,
                    ),
                forall|j: int| i <= j < n ==> #[trigger] rankings@[j] == old(rankings)@[j],
            decreases n - i,
        {
            let suit = i as i8;
            let count = self.known_count(suit);
            let rank = rankings[i];
            assert(rank == old(rankings)@[i as int]);
            assert(self@.adjust_rank(rank as int, suit, n as int) <= i64::MAX);
            assert(0 <= count) by {
                if self@.known.contains_key(suit) {
                    assert(self@.known[suit] >= 1);
                }
            }
            assert(0 <= rank * n <= i64::MAX) by (nonlinear_arith)
                requires
                    0 <= rank,
                    0 <= n,
                    0 <= count,
                    (rank * n + count) * 2 <= i64::MAX,
            ;
            let scaled: i64 = rank * (n as i64) + count as i64;
            let bit: i64 = if self.known_voids.contains(&suit) {
                1
            } else {
                0
            };
            rankings[i] = scaled * 2 + bit;
            i += 1;
        }
    }
}

/// The rank of `suit` after the first `k` hands from `last` on round the
/// table have been taken in, starting from zero.
pub open spec fn ranking(hands: Seq<HandView>, last: int, suit: i8, k: int) -> int
    decreases k,
{
    if k <= 0 {
        0
    } else {
        hands[seat(hands, last, k - 1)].adjust_rank(
            ranking(hands, last, suit, k - 1),
            suit,
            hands.len() as int,
        )
    }
}

/// The rank of `suit` on the table as seen from `last`.
pub open spec fn rank_of(hands: Seq<HandView>, last: int, suit: i8) -> int {
    ranking(hands, last, suit, hands.len() as int)
}

/// Suit `a` comes before suit `b`: its rank is higher, or the ranks are
/// equal and its number is lower.
pub open spec fn precedes(hands: Seq<HandView>, last: int, a: i8, b: i8) -> bool {
    rank_of(hands, last, a) > rank_of(hands, last, b) || (rank_of(hands, last, a) == rank_of(
        hands,
        last,
        b,
    ) && a < b)
}

/// `order` holds every suit of the table once, each before all that it
/// precedes.
pub open spec fn is_ranking(hands: Seq<HandView>, last: int, order: Seq<i8>) -> bool {
    &&& order.len() == hands.len()
    &&& forall|i: int| 0 <= i < order.len() ==> 0 <= #[trigger] order[i] < hands.len()
    &&& forall|s: i8| 0 <= s < hands.len() ==> order.contains(s)
    &&& forall|i: int, j: int|
        0 <= i < j < order.len() ==> precedes(hands, last, #[trigger] order[i], #[trigger] order[j])
}

/// The position of the table after the first `k` hands from `last` on round
/// the table have been taken in.
pub open spec fn table_position(hands: Seq<HandView>, permutation: Seq<i8>, last: int, k: int) -> int
    decreases k,
{
    if k <= 0 {
        0
    } else {
        hands[seat(hands, last, k - 1)].position(
            table_position(hands, permutation, last, k - 1),
            permutation,
        )
    }
}

/// The number of the position: the hands from `last` on round the table,
/// and then, unless the players are interchangeable, times the number of
/// players plus `last`.
pub open spec fn position_number(
    hands: Seq<HandView>,
    permutation: Seq<i8>,
    last: int,
    player_symmetric: bool,
) -> int {
    let all = table_position(hands, permutation, last, hands.len() as int);
    if player_symmetric {
        all
    } else {
        all * hands.len() + last
    }
}

/// Every hand of the table can be numbered, see [`HandView::countable`].
pub open spec fn table_countable(hands: Seq<HandView>, permutation: Seq<i8>) -> bool {
    forall|p: int| 0 <= p < hands.len() ==> (#[trigger] hands[p]).countable(permutation)
}

/// The suits in their own order: 0, 1, 2 and so on.
pub open spec fn identity(n: int) -> Seq<i8> {
    Seq::new(n as nat, |i: int| i as i8)
}

/// The position grows with every hand taken in.
pub proof fn lemma_table_position_rises(
    hands: Seq<HandView>,
    permutation: Seq<i8>,
    last: int,
    k: int,
    m: int,
)
    requires
        0 <= last < hands.len(),
        0 <= k <= m <= hands.len(),
        table_countable(hands, permutation),
    ensures
        0 <= table_position(hands, permutation, last, k) <= table_position(hands, permutation, last, m),
    decreases m,
{
    if k < m {
        lemma_table_position_rises(hands, permutation, last, k, m - 1);
        lemma_position_rises(
            hands[seat(hands, last, m - 1)],
            table_position(hands, permutation, last, m - 1),
            permutation,
        );
    } else if k > 0 {
        lemma_table_position_rises(hands, permutation, last, k - 1, k - 1);
        lemma_position_rises(
            hands[seat(hands, last, k - 1)],
            table_position(hands, permutation, last, k - 1),
            permutation,
        );
    }
}

/// The rank of a suit grows with every hand taken in.
pub proof fn lemma_ranking_rises(hands: Seq<HandView>, last: int, suit: i8, k: int, m: int)
    requires
        0 <= last < hands.len(),
        0 <= k <= m <= hands.len(),
        forall|p: int| 0 <= p < hands.len() ==> (#[trigger] hands[p]).wf(),
    ensures
        0 <= ranking(hands, last, suit, k) <= ranking(hands, last, suit, m),
    decreases m,
{
    let n = hands.len() as int;
    if k < m {
        lemma_ranking_rises(hands, last, suit, k, m - 1);
        let hand = hands[seat(hands, last, m - 1)];
        let rank = ranking(hands, last, suit, m - 1);
        assert(hand.wf());
        assert(hand.count(suit) >= 0);
        assert(rank <= (rank * n + hand.count(suit)) * 2) by (nonlinear_arith)
            requires
                0 <= rank,
                1 <= n,
                0 <= hand.count(suit),
        ;
    } else if k > 0 {
        lemma_ranking_rises(hands, last, suit, k - 1, k - 1);
        let hand = hands[seat(hands, last, k - 1)];
        let rank = ranking(hands, last, suit, k - 1);
        assert(hand.wf());
        assert(hand.count(suit) >= 0);
        assert(0 <= (rank * n + hand.count(suit)) * 2) by (nonlinear_arith)
            requires
                0 <= rank,
                1 <= n,
                0 <= hand.count(suit),
        ;
    }
}

/// `x` after `steps` steps, each of which takes a number to at most
/// `factor` times itself plus `factor - 1`.
pub open spec fn grown(x: int, factor: int, steps: int) -> int
    decreases steps,
{
    if steps <= 0 {
        x
    } else {
        grown(x, factor, steps - 1) * factor + (factor - 1)
    }
}

/// `grown` grows with the number it starts from and with the steps.
pub proof fn lemma_grown_rises(x: int, y: int, factor: int, steps: int, more: int)
    requires
        0 <= x <= y,
        1 <= factor,
        0 <= steps <= more,
    ensures
        x <= grown(x, factor, steps) <= grown(y, factor, more),
    decreases more,
{
    if steps < more {
        lemma_grown_rises(x, y, factor, steps, more - 1);
        let g = grown(y, factor, more - 1);
        assert(g <= g * factor + (factor - 1)) by (nonlinear_arith)
            requires
                0 <= g,
                1 <= factor,
        ;
    } else if steps > 0 {
        lemma_grown_rises(x, y, factor, steps - 1, steps - 1);
        let a = grown(x, factor, steps - 1);
        let b = grown(y, factor, steps - 1);
        assert(a <= a * factor + (factor - 1) && a * factor <= b * factor) by (nonlinear_arith)
            requires
                0 <= a <= b,
                1 <= factor,
        ;
    }
}

/// The table is small enough for its positions and ranks to be numbered
/// in the integers at hand: it has at most five players, and every hand has
/// fewer than four known cards of each suit and at most four undetermined.
pub open spec fn small_table(hands: Seq<HandView>) -> bool {
    &&& 1 <= hands.len() <= 5
    &&& forall|p: int| 0 <= p < hands.len() ==> (#[trigger] hands[p]).wf()
    &&& forall|p: int, s: i8| 0 <= p < hands.len() ==> #[trigger] hands[p].count(s) < 4
}

/// The known cards of at most five suits take a position to at most 1024
/// times itself plus 1023.
pub proof fn lemma_position_counts_bound(hand: HandView, pos: int, permutation: Seq<i8>, n: int)
    requires
        0 <= pos,
        0 <= n <= permutation.len(),
        forall|s: i8| 0 <= #[trigger] hand.count(s) && hand.count(s) < 4,
    ensures
        hand.position_counts(pos, permutation, n) <= grown(pos, 4, n),
    decreases n,
{
    if n > 0 {
        lemma_position_counts_bound(hand, pos, permutation, n - 1);
        assert(hand.count(permutation[n - 1]) < 4);
    }
}

/// The exclusions of at most five suits take a position to at most 32 times
/// itself plus 31.
pub proof fn lemma_position_voids_bound(hand: HandView, pos: int, permutation: Seq<i8>, n: int)
    requires
        0 <= pos,
        0 <= n <= permutation.len(),
    ensures
        hand.position_voids(pos, permutation, n) <= grown(pos, 2, n),
    decreases n,
{
    if n > 0 {
        lemma_position_voids_bound(hand, pos, permutation, n - 1);
    }
}

/// A hand of a small table takes a position to less than 262144 times
/// itself plus 262144.
pub proof fn lemma_hand_position_bound(hand: HandView, pos: int, permutation: Seq<i8>)
    requires
        0 <= pos,
        permutation.len() <= 5,
        hand.wf(),
        forall|s: i8| hand.count(s) < 4,
    ensures
        hand.countable(permutation),
        0 <= hand.position(pos, permutation) <= pos * 262144 + 262143,
{
    let n = permutation.len() as int;
    assert forall|s: i8| 0 <= #[trigger] hand.count(s) && hand.count(s) < 4 by {
        assert(hand.count(s) < 4);
        if hand.known.contains_key(s) {
            assert(hand.known[s] >= 1);
        }
    }
    assert(hand.countable(permutation)) by {
        assert forall|i: int| 0 <= i < permutation.len() implies 0 <= #[trigger] hand.count(
            permutation[i],
        ) < 4 by {}
    }
    lemma_position_counts_bound(hand, pos, permutation, n);
    lemma_grown_rises(pos, pos, 4, n, 5);
    let counted = hand.position_counts(pos, permutation, n);
    lemma_position_counts_rise(hand, pos, permutation, 0, n);
    assert(grown(pos, 4, 5) == pos * 1024 + 1023) by {
        reveal_with_fuel(grown, 6);
    }
    let base = counted * 8 + hand.unknown;
    lemma_position_voids_bound(hand, base, permutation, n);
    lemma_position_voids_rise(hand, base, permutation, 0, n);
    lemma_grown_rises(base, base, 2, n, 5);
    assert(grown(base, 2, 5) == base * 32 + 31) by {
        reveal_with_fuel(grown, 6);
    }
}

/// The positions of a small table fit the integers at hand.
pub proof fn lemma_small_table_fits(
    hands: Seq<HandView>,
    permutation: Seq<i8>,
    last: int,
    player_symmetric: bool,
)
    requires
        small_table(hands),
        permutation.len() <= 5,
        0 <= last < hands.len(),
    ensures
        table_countable(hands, permutation),
        0 <= position_number(hands, permutation, last, player_symmetric) <= i128::MAX,
{
    let n = hands.len() as int;
    assert forall|p: int| 0 <= p < hands.len() implies (#[trigger] hands[p]).countable(
        permutation,
    ) by {
        assert forall|s: i8| hands[p].count(s) < 4 by {}
        lemma_hand_position_bound(hands[p], 0, permutation);
    }
    lemma_table_position_bound(hands, permutation, last, n);
    lemma_grown_rises(0, 0, 262144, n, 5);
    assert(grown(0, 262144, 5) == 1237940039285380274899124223) by {
        reveal_with_fuel(grown, 6);
    }
    let all = table_position(hands, permutation, last, n);
    assert(0 <= all * n <= 1237940039285380274899124223 * 5) by (nonlinear_arith)
        requires
            0 <= all <= 1237940039285380274899124223,
            1 <= n <= 5,
    ;
}

/// The position of a small table after `k` hands.
pub proof fn lemma_table_position_bound(hands: Seq<HandView>, permutation: Seq<i8>, last: int, k: int)
    requires
        small_table(hands),
        permutation.len() <= 5,
        0 <= last < hands.len(),
        0 <= k <= hands.len(),
    ensures
        0 <= table_position(hands, permutation, last, k) <= grown(0, 262144, k),
    decreases k,
{
    if k > 0 {
        lemma_table_position_bound(hands, permutation, last, k - 1);
        let hand = hands[seat(hands, last, k - 1)];
        assert(hand.wf());
        assert forall|s: i8| hand.count(s) < 4 by {}
        lemma_hand_position_bound(hand, table_position(hands, permutation, last, k - 1), permutation);
    }
}

/// The ranks of the suits of a small table fit the integers at hand.
pub proof fn lemma_small_table_ranks(hands: Seq<HandView>, last: int, suit: i8, k: int)
    requires
        small_table(hands),
        0 <= last < hands.len(),
        0 <= k <= hands.len(),
    ensures
        0 <= ranking(hands, last, suit, k) <= grown(0, 10, k),
        grown(0, 10, k) <= 99999,
    decreases k,
{
    lemma_grown_rises(0, 0, 10, k, 5);
    assert(grown(0, 10, 5) == 99999) by {
        reveal_with_fuel(grown, 6);
    }
    if k > 0 {
        lemma_small_table_ranks(hands, last, suit, k - 1);
        let n = hands.len() as int;
        let hand = hands[seat(hands, last, k - 1)];
        let rank = ranking(hands, last, suit, k - 1);
        assert(hand.wf());
        assert(hand.count(suit) < 4);
        assert(hand.count(suit) >= 0) by {
            if hand.known.contains_key(suit) {
                assert(hand.known[suit] >= 1);
            }
        }
        assert(0 <= rank * n <= rank * 5) by (nonlinear_arith)
            requires
                0 <= rank,
                1 <= n <= 5,
        ;
    }
}

impl Cards {
    /// The number of the position as player `last_player` has left it, with
    /// the suits in their own order, see [`position_number`].
    pub fn position(&mut self, last_player: usize) -> (pos: i128)
        requires
            old(self)@.len() <= i8::MAX,
            last_player < old(self)@.len(),
            table_countable(old(self)@, identity(old(self)@.len() as int)),
            position_number(
                old(self)@,
                identity(old(self)@.len() as int),
                last_player as int,
                false,
            ) <= i128::MAX,
        ensures
            *final(self) == *old(self),
            pos == position_number(
                old(self)@,
                identity(old(self)@.len() as int),
                last_player as int,
                false,
            ),
    {
        let n = self.number_of_players();
        let mut permutation: Vec<i8> = Vec::new();
        let mut i: usize = 0;
        while i < n
            invariant
                n <= i8::MAX,
                i <= n,
                permutation@ == identity(i as int),
            decreases n - i,
        {
            permutation.push(i as i8);
            assert(permutation@ =~= identity(i + 1));
            i += 1;
        }
        self.position_given_permutation(permutation.as_slice(), last_player, false)
    }

    /// The number of the position as player `last_player` has left it, with
    /// the suits in the order of `permutation`, see [`position_number`].
    /// With `player_symmetric` set the number does not tell who has moved.
    pub fn position_given_permutation(
        &self,
        permutation: &[i8],
        last_player: usize,
        player_symmetric: bool,
    ) -> (pos: i128)
        requires
            self@.len() <= i8::MAX,
            last_player < self@.len(),
            table_countable(self@, permutation@),
            position_number(self@, permutation@, last_player as int, player_symmetric) <= i128::MAX,
        ensures
            pos == position_number(self@, permutation@, last_player as int, player_symmetric),
    {
        let n = self.hands.len();
        let ghost all = table_position(self@, permutation@, last_player as int, n as int);
        let mut pos: i128 = 0;
        let mut i: usize = 0;
        assert(all <= i128::MAX) by {
            lemma_table_position_rises(self@, permutation@, last_player as int, 0, n as int);
            if !player_symmetric {
                assert(all <= all * n + last_player) by (nonlinear_arith)
                    requires
                        0 <= all,
                        1 <= n,
                        0 <= last_player,
                ;
            }
        }
        while i < n
            invariant
                n == self@.len(),
                n == self.hands@.len(),
                n <= i8::MAX,
                last_player < n,
                i <= n,
                table_countable(self@, permutation@),
                all == table_position(self@, permutation@, last_player as int, n as int),
                all <= i128::MAX,
                pos == table_position(self@, permutation@, last_player as int, i as int),
                0 <= pos,
            decreases n - i,
        {
            let player = (i + last_player) % n;
            proof {
                lemma_table_position_rises(self@, permutation@, last_player as int, i as int + 1, n as int);
                lemma_table_position_rises(self@, permutation@, last_player as int, 0, i as int);
                assert(self@[player as int].countable(permutation@));
            }
            pos = self.hands[player].position(pos, permutation);
            i += 1;
        }
        if !player_symmetric {
            assert(0 <= pos * n <= pos * n + last_player) by (nonlinear_arith)
                requires
                    0 <= pos,
                    0 <= n,
                    0 <= last_player,
            ;
            pos = pos * (n as i128) + last_player as i128;
        }
        pos
    }

    /// The suits in the order of their ranks as seen from `last_player`, the
    /// highest first, see [`is_ranking`]: the hands rank a suit by the cards
    /// they hold of it, the hand of `last_player` first. That order is the
    /// same for positions that differ only in the names of the suits.
    pub fn permutation(&self, last_player: usize) -> (order: Vec<i8>)
        requires
            self.wf(),
            last_player < self@.len(),
            forall|s: i8| 0 <= s < self@.len() ==> rank_of(self@, last_player as int, s) <= i64::MAX,
        ensures
            is_ranking(self@, last_player as int, order@),
    {
        let n = self.hands.len();
        let ghost last = last_player as int;
        let mut rank: Vec<i64> = Vec::new();
        let mut i: usize = 0;
        while i < n
            invariant
                i <= n,
                rank@.len() == i,
                forall|j: int| 0 <= j < i ==> #[trigger] rank@[j] == 0,
            decreases n - i,
        {
            rank.push(0);
            i += 1;
        }
        let mut i: usize = 0;
        while i < n
            invariant
                self.wf(),
                n == self@.len(),
                n == self.hands@.len(),
                n <= i8::MAX,
                last == last_player as int,
                last_player < n,
                i <= n,
                rank@.len() == n,
                forall|s: i8| 0 <= s < n ==> rank_of(self@, last, s) <= i64::MAX,
                forall|j: int| 0 <= j < n ==> #[trigger] rank@[j] == ranking(self@, last, j as i8, i as int),
            decreases n - i,
        {
            let player = (i + last_player) % n;
            proof {
                assert(self@[player as int].wf());
                assert(player == seat(self@, last, i as int));
                assert forall|j: int| 0 <= j < n implies 0 <= #[trigger] rank@[j]
                    && self@[player as int].adjust_rank(rank@[j] as int, j as i8, n as int)
                    <= i64::MAX by {
                    lemma_ranking_rises(self@, last, j as i8, 0, i as int);
                    lemma_ranking_rises(self@, last, j as i8, i as int + 1, n as int);
                    assert(rank_of(self@, last, j as i8) <= i64::MAX);
                    assert(ranking(self@, last, j as i8, i + 1) == self@[player as int].adjust_rank(
                        rank@[j] as int,
                        j as i8,
                        n as int,
                    ));
                }
            }
            self.hands[player].adjust_ranking(rank.as_mut_slice());
            i += 1;
        }
        let mut order: Vec<i8> = Vec::new();
        let mut suit: usize = 0;
        while suit < n
            invariant
                n == self@.len(),
                n <= i8::MAX,
                suit <= n,
                rank@.len() == n,
                forall|j: int| 0 <= j < n ==> #[trigger] rank@[j] == rank_of(self@, last, j as i8),
                order@.len() == suit,
                forall|i: int| 0 <= i < order@.len() ==> 0 <= #[trigger] order@[i] < suit,
                forall|s: i8| 0 <= s < suit ==> order@.contains(s),
                forall|i: int, j: int|
                    0 <= i < j < order@.len() ==> precedes(
                        self@,
                        last,
                        #[trigger] order@[i],
                        #[trigger] order@[j],
                    ),
            decreases n - suit,
        {
            let ghost before = order@;
            let mut place: usize = 0;
            while place < order.len() && rank[order[place] as usize] >= rank[suit]
                invariant
                    order@ == before,
                    n == self@.len(),
                    n <= i8::MAX,
                    suit < n,
                    rank@.len() == n,
                    forall|j: int| 0 <= j < n ==> #[trigger] rank@[j] == rank_of(self@, last, j as i8),
                    forall|i: int| 0 <= i < before.len() ==> 0 <= #[trigger] before[i] < suit,
                    place <= before.len(),
                    forall|i: int|
                        0 <= i < place ==> rank_of(self@, last, #[trigger] before[i]) >= rank_of(
                            self@,
                            last,
                            suit as i8,
                        ),
                decreases before.len() - place,
            {
                place += 1;
            }
            order.insert(place, suit as i8);
            proof {
                let after = order@;
                assert(after == before.insert(place as int, suit as i8));
                assert forall|i: int| 0 <= i < after.len() implies 0 <= #[trigger] after[i] < suit
                    + 1 by {
                    if i < place {
                        assert(after[i] == before[i]);
                    } else if i > place {
                        assert(after[i] == before[i - 1]);
                    }
                }
                assert forall|s: i8| 0 <= s < suit + 1 implies after.contains(s) by {
                    if s == suit {
                        assert(after[place as int] == s);
                    } else {
                        assert(before.contains(s));
                        let i = choose|i: int| 0 <= i < before.len() && before[i] == s;
                        if i < place {
                            assert(after[i] == s);
                        } else {
                            assert(after[i + 1] == s);
                        }
                    }
                }
                assert forall|i: int, j: int| 0 <= i < j < after.len() implies precedes(
                    self@,
                    last,
                    #[trigger] after[i],
                    #[trigger] after[j],
                ) by {
                    let a = if i < place {
                        i
                    } else {
                        i - 1
                    };
                    let b = if j < place {
                        j
                    } else {
                        j - 1
                    };
                    if i != place && j != place {
                        assert(after[i] == before[a]);
                        assert(after[j] == before[b]);
                        assert(precedes(self@, last, before[a], before[b]));
                    } else if i == place {
                        assert(after[j] == before[b]);
                        assert(rank@[before[place as int] as int] < rank@[suit as int]);
                        if b > place {
                            assert(precedes(self@, last, before[place as int], before[b]));
                        }
                    } else {
                        assert(after[i] == before[a]);
                        assert(before[a] < suit);
                    }
                }
            }
            suit += 1;
        }
        order
    }
}

} // verus!
