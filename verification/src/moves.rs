//! The moves a player may make.
use crate::cards::seat;
use crate::cards::Cards;
use crate::hand::HandView;
use crate::inference::suit_total;
use crate::inference::suit_total_upto;
use vstd::prelude::*;

verus! {

/// Whether it makes sense for player `this` to ask player `other` for a
/// card of `suit`: `other` is known to hold one; or nothing is settled about
/// `other`, and a card of the suit is still unaccounted for once the asker
/// is taken to hold one. A player who is known to hold none is not asked.
pub open spec fn askable(hands: Seq<HandView>, this: int, other: int, suit: i8) -> bool {
    if hands[other].has_card_forced(suit) {
        hands[other].known.contains_key(suit)
    } else {
        suit_total(hands, suit) + if hands[this].known.contains_key(suit) {
            0int
        } else {
            1
        } < 4
    }
}

/// The moves of player `this` towards player `other`, for the first `n`
/// suits of `permutation` in their order: those suits that the asker may ask
/// for and for which `other` is askable.
pub open spec fn moves_towards(
    hands: Seq<HandView>,
    this: int,
    other: int,
    permutation: Seq<i8>,
    n: int,
) -> Seq<(usize, i8)>
    decreases n,
{
    if n <= 0 {
        Seq::empty()
    } else {
        let before = moves_towards(hands, this, other, permutation, n - 1);
        let suit = permutation[n - 1];
        if hands[this].is_legal(suit) && askable(hands, this, other, suit) {
            before.push((other as usize, suit))
        } else {
            before
        }
    }
}

/// The moves of player `this` towards the next `k - 1` players round the
/// table, player by player.
pub open spec fn moves_upto(hands: Seq<HandView>, this: int, permutation: Seq<i8>, k: int) -> Seq<
    (usize, i8),
>
    decreases k,
{
    if k <= 1 {
        Seq::empty()
    } else {
        moves_upto(hands, this, permutation, k - 1) + moves_towards(
            hands,
            this,
            seat(hands, this, k - 1),
            permutation,
            permutation.len() as int,
        )
    }
}

/// All moves of player `this`, with the suits tried in the order of
/// `permutation`.
pub open spec fn legal_moves(hands: Seq<HandView>, this: int, permutation: Seq<i8>) -> Seq<
    (usize, i8),
> {
    moves_upto(hands, this, permutation, hands.len() as int)
}

/// A move asks another player of the table for a suit of `permutation` that
/// the asker may ask for.
pub open spec fn sound_move(
    hands: Seq<HandView>,
    this: int,
    permutation: Seq<i8>,
    a_move: (usize, i8),
) -> bool {
    &&& a_move.0 < hands.len()
    &&& a_move.0 != this
    &&& hands[this].is_legal(a_move.1)
    &&& permutation.contains(a_move.1)
    &&& askable(hands, this, a_move.0 as int, a_move.1)
}

/// The moves towards a player are sound.
pub proof fn lemma_moves_towards_sound(
    hands: Seq<HandView>,
    this: int,
    other: int,
    permutation: Seq<i8>,
    n: int,
)
    requires
        0 <= other < hands.len() <= usize::MAX,
        other != this,
        0 <= n <= permutation.len(),
    ensures
        forall|i: int|
            0 <= i < moves_towards(hands, this, other, permutation, n).len() ==> sound_move(
                hands,
                this,
                permutation,
                #[trigger] moves_towards(hands, this, other, permutation, n)[i],
            ),
    decreases n,
{
    if n > 0 {
        lemma_moves_towards_sound(hands, this, other, permutation, n - 1);
        assert(permutation.contains(permutation[n - 1]));
        let before = moves_towards(hands, this, other, permutation, n - 1);
        let now = moves_towards(hands, this, other, permutation, n);
        assert forall|i: int| 0 <= i < now.len() implies sound_move(
            hands,
            this,
            permutation,
            #[trigger] now[i],
        ) by {
            if i < before.len() {
                assert(now[i] == before[i]);
            }
        }
    }
}

/// All moves are sound.
pub proof fn lemma_moves_sound(hands: Seq<HandView>, this: int, permutation: Seq<i8>, k: int)
    requires
        0 <= this < hands.len() <= usize::MAX,
        k <= hands.len(),
    ensures
        forall|i: int|
            0 <= i < moves_upto(hands, this, permutation, k).len() ==> sound_move(
                hands,
                this,
                permutation,
                #[trigger] moves_upto(hands, this, permutation, k)[i],
            ),
    decreases k,
{
    if k > 1 {
        lemma_moves_sound(hands, this, permutation, k - 1);
        let other = seat(hands, this, k - 1);
        let n = hands.len() as int;
        assert(0 <= other < n && other != this) by (nonlinear_arith)
            requires
                other == (this + (k - 1)) % n,
                0 <= this < n,
                1 <= k - 1 < n,
        {
            if this + (k - 1) < n {
                assert((this + (k - 1)) % n == this + (k - 1));
            } else {
                assert((this + (k - 1)) % n == this + (k - 1) - n);
            }
        }
        lemma_moves_towards_sound(hands, this, other, permutation, permutation.len() as int);
        let before = moves_upto(hands, this, permutation, k - 1);
        let towards = moves_towards(hands, this, other, permutation, permutation.len() as int);
        let now = moves_upto(hands, this, permutation, k);
        assert forall|i: int| 0 <= i < now.len() implies sound_move(
            hands,
            this,
            permutation,
            #[trigger] now[i],
        ) by {
            if i < before.len() {
                assert(now[i] == before[i]);
            } else {
                assert(now[i] == towards[i - before.len()]);
            }
        }
    }
}

impl Cards {
    /// The number of known cards of `suit` on the table.
    pub fn suit_total(&self, suit: i8) -> (total: i32)
        requires
            self.wf(),
        ensures
            total == suit_total(self@, suit),
            0 <= total <= 127 * self@.len(),
    {
        let n = self.hands.len();
        let mut total: i32 = 0;
        let mut p: usize = 0;
        while p < n
            invariant
                self.wf(),
                n == self@.len(),
                n == self.hands@.len(),
                p <= n,
                total == suit_total_upto(self@, suit, p as int),
                0 <= total <= 127 * p,
            decreases n - p,
        {
            assert(self@[p as int].wf());
            total = total + self.hands[p].known_count(suit) as i32;
            p += 1;
        }
        total
    }

    /// The moves that player `this` may make, as pairs of the player asked
    /// and the suit asked for, in a fixed order: the other players from the
    /// next one on round the table, and for each the suits in the order of
    /// `permutation`. See [`legal_moves`].
    pub fn legal_moves_given_permutation(&self, this: usize, permutation: &[i8]) -> (moves: Vec<
        (usize, i8),
    >)
        requires
            self.wf(),
            this < self@.len(),
        ensures
            moves@ == legal_moves(self@, this as int, permutation@),
            forall|i: int|
                0 <= i < moves@.len() ==> sound_move(
                    self@,
                    this as int,
                    permutation@,
                    #[trigger] moves@[i],
                ),
    {
        let n = self.hands.len();
        let m = permutation.len();
        let mut asking: Vec<bool> = Vec::new();
        let mut spare: Vec<bool> = Vec::new();
        let mut j: usize = 0;
        while j < m
            invariant
                self.wf(),
                n == self@.len(),
                n == self.hands@.len(),
                this < n,
                m == permutation@.len(),
                j <= m,
                asking@.len() == j,
                spare@.len() == j,
                forall|i: int|
                    0 <= i < j ==> #[trigger] asking@[i] == self@[this as int].is_legal(permutation@[i]),
                forall|i: int|
                    0 <= i < j ==> #[trigger] spare@[i] == (suit_total(self@, permutation@[i])
                        + if self@[this as int].known.contains_key(permutation@[i]) {
                        0int
                    } else {
                        1
                    } < 4),
            decreases m - j,
        {
            let suit = permutation[j];
            let legal = self.hands[this].is_legal(suit);
            asking.push(legal);
            let mut count = self.suit_total(suit);
            if !self.hands[this].known_cards.contains_key(&suit) {
                count += 1;
            }
            spare.push(count < 4);
            j += 1;
        }
        let mut moves: Vec<(usize, i8)> = Vec::new();
        let mut k: usize = 1;
        while k < n
            invariant
                self.wf(),
                n == self@.len(),
                n == self.hands@.len(),
                this < n,
                m == permutation@.len(),
                1 <= k,
                n >= 1 ==> k <= n,
                asking@.len() == m,
                spare@.len() == m,
                forall|i: int|
                    0 <= i < m ==> #[trigger] asking@[i] == self@[this as int].is_legal(permutation@[i]),
                forall|i: int|
                    0 <= i < m ==> #[trigger] spare@[i] == (suit_total(self@, permutation@[i])
                        + if self@[this as int].known.contains_key(permutation@[i]) {
                        0int
                    } else {
                        1
                    } < 4),
                moves@ == moves_upto(self@, this as int, permutation@, k as int),
            decreases n - k,
        {
            let other = (k + this) % n;
            assert(other == seat(self@, this as int, k as int));
            let ghost so_far = moves@;
            let mut j: usize = 0;
            while j < m
                invariant
                    n == self@.len(),
                    n == self.hands@.len(),
                    this < n,
                    other < n,
                    m == permutation@.len(),
                    j <= m,
                    asking@.len() == m,
                    spare@.len() == m,
                    forall|i: int|
                        0 <= i < m ==> #[trigger] asking@[i] == self@[this as int].is_legal(
                            permutation@[i],
                        ),
                    forall|i: int|
                        0 <= i < m ==> #[trigger] spare@[i] == (suit_total(self@, permutation@[i])
                            + if self@[this as int].known.contains_key(permutation@[i]) {
                            0int
                        } else {
                            1
                        } < 4),
                    moves@ == so_far + moves_towards(
                        self@,
                        this as int,
                        other as int,
                        permutation@,
                        j as int,
                    ),
                decreases m - j,
            {
                let ghost towards = moves_towards(
                    self@,
                    this as int,
                    other as int,
                    permutation@,
                    j as int,
                );
                if asking[j] {
                    let suit = permutation[j];
                    let (forced, has) = self.hands[other].has_card(suit);
                    if (forced && has) || (!forced && spare[j]) {
                        moves.push((other, suit));
                        assert(moves@ =~= so_far + towards.push((other, suit)));
                    }
                }
                j += 1;
            }
            k += 1;
        }
        proof {
            lemma_moves_sound(self@, this as int, permutation@, n as int);
        }
        moves
    }
}

} // verus!
