//! What `shake_down` may do to a hand: it only ever learns. Known cards
//! become more, undetermined cards fewer, and exclusions stay for as long as
//! a hand has undetermined cards. The relation also gives the measure by
//! which the passes come to an end.
use crate::hand::HandView;
use vstd::prelude::*;

verus! {

/// The number of suits below `n` that the hand does not exclude.
pub open spec fn free_count(hand: HandView, n: int) -> int
    decreases n,
{
    if n <= 0 {
        0
    } else {
        free_count(hand, n - 1) + if hand.voids.contains((n - 1) as i8) {
            0int
        } else {
            1
        }
    }
}

impl HandView {
    /// `self` says all that `before` says, and possibly more: no known card
    /// is lost, no undetermined card is added, the exclusions stay while
    /// there are undetermined cards, and a hand without undetermined cards
    /// stays as it is.
    pub open spec fn follows(self, before: HandView) -> bool {
        &&& 0 <= self.unknown <= before.unknown
        &&& forall|s: i8| before.count(s) <= #[trigger] self.count(s)
        &&& self.unknown > 0 ==> forall|s: i8|
            before.voids.contains(s) ==> #[trigger] self.voids.contains(s)
        &&& before.unknown == 0 ==> self == before
    }

    /// `self` follows `before` and says more: it has fewer undetermined
    /// cards, or excludes one more of the first `n` suits.
    pub open spec fn advances(self, before: HandView, n: int) -> bool {
        &&& self.follows(before)
        &&& self.unknown < before.unknown || exists|s: i8|
            0 <= s < n && #[trigger] self.voids.contains(s) && !before.voids.contains(s)
    }
}

/// Every hand of `after` follows the hand of `before` in its place.
pub open spec fn table_follows(after: Seq<HandView>, before: Seq<HandView>) -> bool {
    &&& after.len() == before.len()
    &&& forall|p: int| 0 <= p < after.len() ==> (#[trigger] after[p]).follows(before[p])
}

/// `after` follows `before`, and one hand of it says more.
pub open spec fn table_advances(after: Seq<HandView>, before: Seq<HandView>) -> bool {
    &&& table_follows(after, before)
    &&& exists|p: int|
        0 <= p < after.len() && (#[trigger] after[p]).advances(before[p], after.len() as int)
}

/// The number of undetermined cards in the first `n` hands.
pub open spec fn unknown_sum(hands: Seq<HandView>, n: int) -> int
    decreases n,
{
    if n <= 0 {
        0
    } else {
        unknown_sum(hands, n - 1) + hands[n - 1].unknown
    }
}

/// The sum of `free_count` over the first `n` hands.
pub open spec fn free_sum(hands: Seq<HandView>, n: int) -> int
    decreases n,
{
    if n <= 0 {
        0
    } else {
        free_sum(hands, n - 1) + free_count(hands[n - 1], hands.len() as int)
    }
}

/// What follows from what follows, follows.
pub proof fn lemma_follows_chain(last: Seq<HandView>, middle: Seq<HandView>, first: Seq<HandView>)
    requires
        table_follows(last, middle),
        table_follows(middle, first),
    ensures
        table_follows(last, first),
{
    assert forall|p: int| 0 <= p < last.len() implies (#[trigger] last[p]).follows(first[p]) by {
        assert(last[p].follows(middle[p]));
        assert(middle[p].follows(first[p]));
        assert forall|s: i8| first[p].count(s) <= #[trigger] last[p].count(s) by {
            assert(first[p].count(s) <= middle[p].count(s));
        }
        if last[p].unknown > 0 {
            assert forall|s: i8| first[p].voids.contains(s) implies #[trigger] last[p].voids.contains(
                s,
            ) by {
                assert(middle[p].voids.contains(s));
            }
        }
    }
}

/// What advances and then follows, or follows and then advances, advances.
pub proof fn lemma_advances_chain(last: Seq<HandView>, middle: Seq<HandView>, first: Seq<HandView>)
    requires
        table_follows(last, middle),
        table_follows(middle, first),
        table_advances(last, middle) || table_advances(middle, first),
    ensures
        table_advances(last, first),
{
    lemma_follows_chain(last, middle, first);
    let n = last.len() as int;
    if table_advances(middle, first) {
        let p = choose|p: int| 0 <= p < n && (#[trigger] middle[p]).advances(first[p], n);
        assert(last[p].follows(middle[p]));
        if middle[p].unknown == first[p].unknown && last[p].unknown == middle[p].unknown {
            let s = choose|s: i8|
                0 <= s < n && #[trigger] middle[p].voids.contains(s) && !first[p].voids.contains(s);
            assert(middle[p].unknown > 0);
            assert(last[p].voids.contains(s));
        }
        assert(last[p].advances(first[p], n));
    } else {
        let p = choose|p: int| 0 <= p < n && (#[trigger] last[p]).advances(middle[p], n);
        assert(middle[p].follows(first[p]));
        if middle[p].unknown == first[p].unknown && last[p].unknown == middle[p].unknown {
            let s = choose|s: i8|
                0 <= s < n && #[trigger] last[p].voids.contains(s) && !middle[p].voids.contains(s);
            if first[p].voids.contains(s) {
                assert(middle[p].unknown > 0);
                assert(middle[p].voids.contains(s));
            }
        }
        assert(last[p].advances(first[p], n));
    }
}

/// A table that says more than another is another table.
pub proof fn lemma_advances_differs(after: Seq<HandView>, before: Seq<HandView>)
    requires
        table_advances(after, before),
    ensures
        after != before,
{
    let n = after.len() as int;
    let p = choose|p: int| 0 <= p < n && (#[trigger] after[p]).advances(before[p], n);
    if after[p].unknown == before[p].unknown {
        let s = choose|s: i8|
            0 <= s < n && #[trigger] after[p].voids.contains(s) && !before[p].voids.contains(s);
        assert(after[p].voids != before[p].voids);
    }
    assert(after[p] != before[p]);
}

/// A hand that excludes more leaves fewer suits free.
pub proof fn lemma_free_count_falls(after: HandView, before: HandView, n: int)
    requires
        forall|s: i8| before.voids.contains(s) ==> #[trigger] after.voids.contains(s),
    ensures
        0 <= free_count(after, n) <= free_count(before, n),
        (exists|s: i8| 0 <= s < n && #[trigger] after.voids.contains(s) && !before.voids.contains(s))
            ==> free_count(after, n) < free_count(before, n),
    decreases n,
{
    if n > 0 {
        lemma_free_count_falls(after, before, n - 1);
        if exists|s: i8| 0 <= s < n && #[trigger] after.voids.contains(s) && !before.voids.contains(s) {
            let s = choose|s: i8|
                0 <= s < n && #[trigger] after.voids.contains(s) && !before.voids.contains(s);
            if s < n - 1 {
                assert(0 <= s < n - 1 && after.voids.contains(s) && !before.voids.contains(s));
            } else {
                assert(s == (n - 1) as i8);
            }
        }
    }
}

/// Where a table follows another, it has no more undetermined cards; where
/// it has as many, every hand has as many as before and the table leaves no
/// more suits free; and where besides a hand says more, it leaves fewer free.
pub proof fn lemma_measure_falls(after: Seq<HandView>, before: Seq<HandView>, n: int)
    requires
        table_follows(after, before),
        0 <= n <= after.len(),
    ensures
        0 <= unknown_sum(after, n) <= unknown_sum(before, n),
        0 <= free_sum(after, n),
        unknown_sum(after, n) == unknown_sum(before, n) ==> free_sum(after, n) <= free_sum(before, n)
            && forall|p: int| 0 <= p < n ==> (#[trigger] after[p]).unknown == before[p].unknown,
        unknown_sum(after, n) == unknown_sum(before, n) && (exists|p: int|
            0 <= p < n && (#[trigger] after[p]).advances(before[p], after.len() as int)) ==> free_sum(
            after,
            n,
        ) < free_sum(before, n),
    decreases n,
{
    let m = after.len() as int;
    if n > 0 {
        lemma_measure_falls(after, before, n - 1);
        let a = after[n - 1];
        let b = before[n - 1];
        assert(a.follows(b));
        lemma_free_count_falls(a, a, m);
        if unknown_sum(after, n) == unknown_sum(before, n) {
            assert(a.unknown == b.unknown);
            if a.unknown > 0 {
                lemma_free_count_falls(a, b, m);
            }
            if exists|p: int| 0 <= p < n && (#[trigger] after[p]).advances(before[p], m) {
                let p = choose|p: int| 0 <= p < n && (#[trigger] after[p]).advances(before[p], m);
                if p < n - 1 {
                    assert(0 <= p < n - 1 && after[p].advances(before[p], m));
                }
            }
        }
    }
}

/// Excluding a suit follows, and advances where it is news.
pub proof fn lemma_kill_follows(hand: HandView, suit: i8, n: int)
    requires
        hand.unknown >= 0,
    ensures
        hand.kill_unknown(suit).follows(hand),
        hand.kill_changes(suit) && 0 <= suit < n ==> hand.kill_unknown(suit).advances(hand, n),
{
    let after = hand.kill_unknown(suit);
    if hand.kill_changes(suit) && 0 <= suit < n {
        assert(after.voids.contains(suit));
    }
}

/// Determining undetermined cards advances.
pub proof fn lemma_fill_advances(hand: HandView, suit: i8, count: i8, n: int)
    requires
        1 <= count <= hand.unknown,
        0 <= hand.count(suit),
        hand.count(suit) + count <= i8::MAX,
    ensures
        hand.fill(suit, count).advances(hand, n),
{
    let after = hand.fill(suit, count);
    assert forall|s: i8| hand.count(s) <= #[trigger] after.count(s) by {}
}

/// Forcing a hand follows, and advances where it changes the hand.
pub proof fn lemma_force_follows(hand: HandView, number_of_suits: i8, n: int)
    requires
        hand.wf(),
        forall|s: i8| hand.count(s) + hand.unknown <= i8::MAX,
    ensures
        hand.force_unknowns(number_of_suits).follows(hand),
        hand.forced_suit(number_of_suits).is_some() ==> hand.force_unknowns(
            number_of_suits,
        ).advances(hand, n),
{
    let after = hand.force_unknowns(number_of_suits);
    if hand.forced_suit(number_of_suits).is_some() {
        let forced = hand.forced_suit(number_of_suits).unwrap();
        assert(hand.count(forced) + hand.unknown <= i8::MAX);
        assert forall|s: i8| hand.count(s) <= #[trigger] after.count(s) by {
            if hand.known.contains_key(s) {
                assert(hand.known[s] >= 1);
            }
        }
    }
}

/// A hand follows itself where its exclusions grow.
pub proof fn lemma_more_voids_follows(after: HandView, before: HandView, n: int)
    requires
        before.unknown >= 0,
        after.known == before.known,
        after.unknown == before.unknown,
        forall|s: i8| before.voids.contains(s) ==> #[trigger] after.voids.contains(s),
        before.unknown == 0 ==> after.voids == before.voids,
    ensures
        after.follows(before),
        (exists|s: i8| 0 <= s < n && #[trigger] after.voids.contains(s) && !before.voids.contains(s))
            ==> after.advances(before, n),
{
}

} // verus!
