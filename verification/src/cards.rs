use crate::hand::Hand;
use crate::hand::HandView;
use vstd::prelude::*;

verus! {

/// The result of [`Cards::test_winner`] where nobody has won yet.
pub const NO_WINNER: i64 = -1;

/// The result of [`Cards::test_winner`] where the hands contradict each other.
pub const ILLEGAL_CARDS: i64 = -2;

/// The table: one hand for each player. There are as many suits as players,
/// numbered like them from zero, and four cards in each suit.
pub struct Cards {
    pub hands: Vec<Hand>,
}

impl View for Cards {
    type V = Seq<HandView>;

    open spec fn view(&self) -> Seq<HandView> {
        Seq::new(self.hands@.len(), |i: int| self.hands@[i]@)
    }
}

/// Every hand is well formed, the suits that the hands speak of are suits of
/// the table, and the suits can be numbered in an `i8`.
pub open spec fn table_wf(hands: Seq<HandView>) -> bool {
    &&& hands.len() <= i8::MAX
    &&& forall|p: int| 0 <= p < hands.len() ==> (#[trigger] hands[p]).wf()
    &&& forall|p: int, s: i8|
        0 <= p < hands.len() && #[trigger] hands[p].known.contains_key(s) ==> 0 <= s
            < hands.len()
    &&& forall|p: int, s: i8|
        0 <= p < hands.len() && #[trigger] hands[p].voids.contains(s) ==> 0 <= s < hands.len()
}

/// No hand of the table both holds and excludes a suit.
pub open spec fn table_disjoint(hands: Seq<HandView>) -> bool {
    forall|p: int| 0 <= p < hands.len() ==> (#[trigger] hands[p]).disjoint()
}

/// The table after player `this` has asked player `other` for a card of
/// `suit` and has got one, as far as the three steps succeed: the asker is
/// recorded as holding the suit, a card leaves `other`, and a card is added
/// to `this`.
pub open spec fn transfer_table(hands: Seq<HandView>, suit: i8, other: int, this: int) -> Seq<
    HandView,
> {
    if !hands[this].may_have(suit) {
        hands
    } else {
        let asked = hands.update(this, hands[this].ensure_have(suit));
        if !asked[other].may_have(suit) {
            asked
        } else {
            let taken = asked.update(other, asked[other].remove(suit));
            taken.update(this, taken[this].add(suit))
        }
    }
}

/// Whether the three steps of `transfer_table` all succeed.
pub open spec fn transfer_ok(hands: Seq<HandView>, suit: i8, other: int, this: int) -> bool {
    &&& hands[this].may_have(suit)
    &&& hands.update(this, hands[this].ensure_have(suit))[other].may_have(suit)
}

/// The table after player `this` has asked player `other` for a card of
/// `suit` and has been turned down, as far as the two steps succeed: the asker
/// is recorded as holding the suit, `other` as not holding it.
pub open spec fn no_transfer_table(hands: Seq<HandView>, suit: i8, other: int, this: int) -> Seq<
    HandView,
> {
    if !hands[this].may_have(suit) {
        hands
    } else {
        let asked = hands.update(this, hands[this].ensure_have(suit));
        asked.update(other, asked[other].ensure_have_not(suit))
    }
}

/// Whether the two steps of `no_transfer_table` both succeed.
pub open spec fn no_transfer_ok(hands: Seq<HandView>, suit: i8, other: int, this: int) -> bool {
    &&& hands[this].may_have(suit)
    &&& !hands.update(this, hands[this].ensure_have(suit))[other].known.contains_key(suit)
}

/// Why a player may not make a move.
#[derive(Clone, Copy, Debug, PartialEq, Eq)]
pub enum Refusal {
    /// A player cannot ask themselves for a card.
    SamePlayer,
    /// The number of a player is not that of a player of the table.
    PlayerOutOfRange,
    /// The number of the suit is not that of a suit of the table.
    SuitOutOfRange,
    /// A player cannot ask for a suit that the player does not hold.
    SuitNotHeld,
}

/// Why player `this` may not ask player `other` for a card of `suit`: the
/// first reason that applies, in the order in which [`Refusal`] lists them;
/// `None` where the move is legal.
pub open spec fn refusal(hands: Seq<HandView>, other: int, suit: i8, this: int) -> Option<Refusal> {
    if this == other {
        Some(Refusal::SamePlayer)
    } else if this >= hands.len() || other >= hands.len() {
        Some(Refusal::PlayerOutOfRange)
    } else if suit < 0 || suit >= hands.len() {
        Some(Refusal::SuitOutOfRange)
    } else if !hands[this].is_legal(suit) {
        Some(Refusal::SuitNotHeld)
    } else {
        None
    }
}

/// Whether player `this` may ask player `other` for a card of `suit`: they
/// are two players of the table, the suit is a suit of the table, and the
/// asker holds a card of it or may hold one.
pub open spec fn legal_move(hands: Seq<HandView>, other: int, suit: i8, this: int) -> bool {
    &&& this != other
    &&& 0 <= this < hands.len()
    &&& 0 <= other < hands.len()
    &&& 0 <= suit < hands.len()
    &&& hands[this].is_legal(suit)
}

/// The player `steps` places after `this` round the table.
pub open spec fn seat(hands: Seq<HandView>, this: int, steps: int) -> int {
    (this + steps) % (hands.len() as int)
}

/// The first player who has any cards, `k` or more places after `this`
/// round the table and before `this` comes round again.
pub open spec fn next_seat(hands: Seq<HandView>, this: int, k: int) -> Option<usize>
    decreases hands.len() - k,
{
    if k < 1 || k >= hands.len() {
        None
    } else if !hands[seat(hands, this, k)].is_empty() {
        Some(seat(hands, this, k) as usize)
    } else {
        next_seat(hands, this, k + 1)
    }
}

impl Cards {
    /// The table is well formed, see [`table_wf`].
    pub open spec fn wf(&self) -> bool {
        table_wf(self@)
    }

    /// A table for the given number of players, each with four cards of which
    /// nothing is known.
    pub fn new(number_of_players: usize) -> (cards: Cards)
        ensures
            cards@.len() == number_of_players,
            forall|p: int| 0 <= p < number_of_players ==> cards@[p] == HandView::initial(),
    {
        let mut hands: Vec<Hand> = Vec::new();
        let mut i: usize = 0;
        while i < number_of_players
            invariant
                i <= number_of_players,
                hands@.len() == i,
                forall|p: int| 0 <= p < i ==> hands@[p]@ == HandView::initial(),
            decreases number_of_players - i,
        {
            hands.push(Hand::new());
            i += 1;
        }
        Cards { hands }
    }

    /// A copy of the table.
    pub fn duplicate(&self) -> (copy: Cards)
        ensures
            copy@ == self@,
    {
        let mut hands: Vec<Hand> = Vec::new();
        let mut i: usize = 0;
        while i < self.hands.len()
            invariant
                i <= self.hands@.len(),
                hands@.len() == i,
                forall|p: int| 0 <= p < i ==> hands@[p]@ == self.hands@[p]@,
            decreases self.hands@.len() - i,
        {
            hands.push(self.hands[i].duplicate());
            i += 1;
        }
        let copy = Cards { hands };
        assert(copy@ =~= self@);
        copy
    }

    /// True if the player has no cards at all.
    pub fn is_empty(&mut self, player: usize) -> (empty: bool)
        requires
            player < old(self)@.len(),
        ensures
            empty == old(self)@[player as int].is_empty(),
            *final(self) == *old(self),
    {
        self.hands[player].is_empty()
    }

    /// The number of players, which is the number of suits too.
    pub fn number_of_players(&self) -> (n: usize)
        ensures
            n == self@.len(),
    {
        self.hands.len()
    }

    /// Moves a card of `suit` from player `other` to player `this`, who
    /// asked for it. Returns false where that contradicts what is known: the
    /// asker cannot hold the suit, or `other` cannot. With `no_throw` unset the
    /// caller vouches that neither is the case.
    pub fn transfer(&mut self, suit: i8, other: usize, this: usize, no_throw: bool) -> (ok: bool)
        requires
            this < old(self)@.len(),
            other < old(self)@.len(),
            old(self)@[this as int].can_settle(suit),
            old(self)@[other as int].can_settle(suit),
            transfer_ok(old(self)@, suit, other as int, this as int) ==> old(
                self,
            )@[this as int].count(suit) < i8::MAX,
            !no_throw ==> transfer_ok(old(self)@, suit, other as int, this as int),
        ensures
            ok == transfer_ok(old(self)@, suit, other as int, this as int),
            final(self)@ == transfer_table(old(self)@, suit, other as int, this as int),
            old(self).wf() && 0 <= suit < old(self)@.len() ==> final(self).wf(),
            table_disjoint(old(self)@) ==> table_disjoint(final(self)@),
    {
        if !self.hands[this].ensure_have(suit) {
            assert(self@ =~= old(self)@);
            return false;
        }
        assert(self@ =~= old(self)@.update(this as int, old(self)@[this as int].ensure_have(suit)));
        let ghost asked = self@;
        proof {
            if old(self).wf() && 0 <= suit < old(self)@.len() {
                lemma_update_wf(old(self)@, this as int, old(self)@[this as int].ensure_have(suit));
            }
        }
        if !self.hands[other].remove(suit) {
            assert(self@ =~= asked);
            return false;
        }
        assert(self@ =~= asked.update(other as int, asked[other as int].remove(suit)));
        let ghost taken = self@;
        proof {
            if old(self).wf() && 0 <= suit < old(self)@.len() {
                assert(asked[other as int].wf());
                lemma_update_wf(asked, other as int, asked[other as int].remove(suit));
            }
        }
        self.hands[this].add(suit);
        assert(self@ =~= taken.update(this as int, taken[this as int].add(suit)));
        proof {
            if old(self).wf() && 0 <= suit < old(self)@.len() {
                assert(taken[this as int].wf());
                lemma_update_wf(taken, this as int, taken[this as int].add(suit));
            }
        }
        true
    }

    /// Records that player `this` asked player `other` for a card of `suit`
    /// and was turned down. Returns false where that contradicts what is
    /// known: the asker cannot hold the suit, or `other` is known to hold it.
    /// With `no_throw` unset the caller vouches that neither is the case.
    pub fn no_transfer(&mut self, suit: i8, other: usize, this: usize, no_throw: bool) -> (ok:
        bool)
        requires
            this < old(self)@.len(),
            other < old(self)@.len(),
            old(self)@[this as int].can_settle(suit),
            !no_throw ==> no_transfer_ok(old(self)@, suit, other as int, this as int),
        ensures
            ok == no_transfer_ok(old(self)@, suit, other as int, this as int),
            final(self)@ == no_transfer_table(old(self)@, suit, other as int, this as int),
            old(self).wf() && 0 <= suit < old(self)@.len() ==> final(self).wf(),
            table_disjoint(old(self)@) ==> table_disjoint(final(self)@),
    {
        if !self.hands[this].ensure_have(suit) {
            assert(self@ =~= old(self)@);
            return false;
        }
        assert(self@ =~= old(self)@.update(this as int, old(self)@[this as int].ensure_have(suit)));
        let ghost asked = self@;
        proof {
            if old(self).wf() && 0 <= suit < old(self)@.len() {
                lemma_update_wf(old(self)@, this as int, old(self)@[this as int].ensure_have(suit));
            }
        }
        let ok = self.hands[other].ensure_have_not(suit);
        assert(self@ =~= asked.update(other as int, asked[other as int].ensure_have_not(suit)));
        proof {
            if old(self).wf() && 0 <= suit < old(self)@.len() {
                assert(asked[other as int].wf());
                lemma_update_wf(asked, other as int, asked[other as int].ensure_have_not(suit));
            }
        }
        ok
    }

    /// True if player `this` may ask player `other` for a card of `suit`:
    /// they are two players of the table, the suit is one of its suits, and
    /// the asker holds the suit or may hold it.
    pub fn legal(&self, other: usize, suit: i8, this: usize) -> (ok: bool)
        requires
            self@.len() <= i8::MAX,
        ensures
            ok == legal_move(self@, other as int, suit, this as int),
    {
        self.why_not_legal(other, suit, this).is_none()
    }

    /// Why player `this` may not ask player `other` for a card of `suit`,
    /// see [`refusal`]; `None` where the move is legal.
    pub fn why_not_legal(&self, other: usize, suit: i8, this: usize) -> (reason: Option<Refusal>)
        requires
            self@.len() <= i8::MAX,
        ensures
            reason == refusal(self@, other as int, suit, this as int),
            reason is None <==> legal_move(self@, other as int, suit, this as int),
    {
        if this == other {
            return Some(Refusal::SamePlayer);
        }
        let n = self.hands.len();
        if this >= n || other >= n {
            return Some(Refusal::PlayerOutOfRange);
        }
        if suit < 0 || suit >= n as i8 {
            return Some(Refusal::SuitOutOfRange);
        }
        if !self.hands[this].is_legal(suit) {
            return Some(Refusal::SuitNotHeld);
        }
        None
    }

    /// The next player after `this_player` round the table who has any
    /// cards, or `None` where all the others have none.
    pub fn find_next_player(&self, this_player: usize) -> (next: Option<usize>)
        requires
            self@.len() <= i8::MAX,
            this_player < self@.len(),
        ensures
            next == next_seat(self@, this_player as int, 1),
            next matches Some(p) ==> p < self@.len(),
            match next {
                Some(p) => exists|k: int|
                    1 <= k < self@.len() && p == seat(self@, this_player as int, k)
                        && !self@[p as int].is_empty() && forall|j: int|
                        1 <= j < k ==> self@[seat(self@, this_player as int, j)].is_empty(),
                None => forall|j: int|
                    1 <= j < self@.len() ==> self@[seat(self@, this_player as int, j)].is_empty(),
            },
    {
        let n = self.hands.len();
        let mut k: usize = 1;
        while k < n
            invariant
                n == self@.len(),
                n == self.hands@.len(),
                n <= i8::MAX,
                this_player < n,
                1 <= k,
                forall|j: int| 1 <= j < k ==> self@[seat(self@, this_player as int, j)].is_empty(),
                next_seat(self@, this_player as int, 1) == next_seat(
                    self@,
                    this_player as int,
                    k as int,
                ),
            decreases n - k,
        {
            let p = (this_player + k) % n;
            if !self.hands[p].is_empty() {
                assert(1 <= k < self@.len() && p == seat(self@, this_player as int, k as int)
                    && !self@[p as int].is_empty() && forall|j: int|
                    1 <= j < k ==> self@[seat(self@, this_player as int, j)].is_empty());
                return Some(p);
            }
            k += 1;
        }
        None
    }

    /// The next player after `this_player` round the table who has any cards.
    pub fn next_player(&mut self, this_player: usize) -> (next: usize)
        requires
            old(self)@.len() <= i8::MAX,
            this_player < old(self)@.len(),
            exists|p: int| 0 <= p < old(self)@.len() && p != this_player && !old(self)@[p].is_empty(),
        ensures
            *final(self) == *old(self),
            next_seat(old(self)@, this_player as int, 1) == Some(next),
            next < old(self)@.len(),
            exists|k: int|
                1 <= k < old(self)@.len() && next == seat(old(self)@, this_player as int, k)
                    && !old(self)@[next as int].is_empty() && forall|j: int|
                    1 <= j < k ==> old(self)@[seat(old(self)@, this_player as int, j)].is_empty(),
    {
        match self.find_next_player(this_player) {
            Some(next) => next,
            None => {
                proof {
                    lemma_some_seat_is_taken(self@, this_player as int);
                }
                this_player
            },
        }
    }
}

impl Clone for Cards {
    fn clone(&self) -> (copy: Cards)
        ensures
            copy@ == self@,
    {
        self.duplicate()
    }
}

/// A player other than `this` is some places after `this` round the table.
pub proof fn lemma_some_seat_is_taken(hands: Seq<HandView>, this: int)
    requires
        0 <= this < hands.len(),
        exists|q: int| 0 <= q < hands.len() && q != this && !hands[q].is_empty(),
    ensures
        exists|j: int| 1 <= j < hands.len() && !hands[seat(hands, this, j)].is_empty(),
{
    let n = hands.len() as int;
    let q = choose|q: int| 0 <= q < n && q != this && !hands[q].is_empty();
    let j = if q > this {
        q - this
    } else {
        q - this + n
    };
    assert(1 <= j < n);
    assert(seat(hands, this, j) == q) by {
        if q > this {
            assert((this + j) % n == q) by (nonlinear_arith)
                requires
                    this + j == q,
                    0 <= q < n,
            ;
        } else {
            assert((this + j) % n == q) by (nonlinear_arith)
                requires
                    this + j == q + n,
                    0 <= q < n,
            ;
        }
    }
}

/// A well-formed table stays so where one hand is replaced by a well-formed
/// hand that speaks of suits of the table only.
pub proof fn lemma_update_wf(hands: Seq<HandView>, p: int, hand: HandView)
    requires
        table_wf(hands),
        0 <= p < hands.len(),
        hands[p].wf() ==> hand.wf(),
        forall|s: i8| hand.known.contains_key(s) ==> 0 <= s < hands.len(),
        forall|s: i8| hand.voids.contains(s) ==> 0 <= s < hands.len(),
    ensures
        table_wf(hands.update(p, hand)),
{
    let after = hands.update(p, hand);
    assert(hands[p].wf());
    assert forall|q: int| 0 <= q < after.len() implies (#[trigger] after[q]).wf() by {
        if q != p {
            assert(hands[q].wf());
        }
    }
    assert forall|q: int, s: i8|
        0 <= q < after.len() && #[trigger] after[q].known.contains_key(s) implies 0 <= s
        < after.len() by {
        if q != p {
            assert(hands[q].known.contains_key(s));
        }
    }
    assert forall|q: int, s: i8|
        0 <= q < after.len() && #[trigger] after[q].voids.contains(s) implies 0 <= s < after.len() by {
        if q != p {
            assert(hands[q].voids.contains(s));
        }
    }
}

} // verus!
