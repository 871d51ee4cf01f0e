//! The number of a position does not depend on the names of the suits, where
//! the suits are taken in the order of their ranks and the ranks tell the
//! suits apart.
use crate::cards::seat;
use crate::hand::HandView;
use crate::position::is_ranking;
use crate::position::position_number;
use crate::position::precedes;
use crate::position::rank_of;
use crate::position::ranking;
use crate::position::table_position;
use vstd::prelude::*;
use vstd::seq_lib::commutative_foldl;
use vstd::seq_lib::lemma_fold_left_permutation;

verus! {

/// `names` gives each of `n` suits a new name among them, and `back` gives
/// each new name its old suit.
pub open spec fn is_renaming(names: Seq<i8>, back: Seq<i8>, n: int) -> bool {
    &&& names.len() == n
    &&& back.len() == n
    &&& forall|s: int| 0 <= s < n ==> 0 <= #[trigger] names[s] < n && back[names[s] as int] == s
    &&& forall|t: int| 0 <= t < n ==> 0 <= #[trigger] back[t] < n && names[back[t] as int] == t
}

/// The hand with every suit under its new name.
pub open spec fn rename_hand(hand: HandView, back: Seq<i8>) -> HandView {
    HandView {
        known: Map::new(
            |t: i8| 0 <= t < back.len() && hand.known.contains_key(back[t as int]),
            |t: i8| hand.known[back[t as int]],
        ),
        voids: Set::new(|t: i8| 0 <= t < back.len() && hand.voids.contains(back[t as int])),
        unknown: hand.unknown,
    }
}

/// The table with every suit under its new name.
pub open spec fn rename(hands: Seq<HandView>, back: Seq<i8>) -> Seq<HandView> {
    Seq::new(hands.len(), |p: int| rename_hand(hands[p], back))
}

/// Two suits look alike: every hand holds as many known cards of the one as
/// of the other, and excludes both or neither.
pub open spec fn alike(hands: Seq<HandView>, a: i8, b: i8) -> bool {
    forall|p: int|
        0 <= p < hands.len() ==> (#[trigger] hands[p]).count(a) == hands[p].count(b)
            && hands[p].voids.contains(a) == hands[p].voids.contains(b)
}

/// The ranks tell the suits apart: suits of the same rank look alike.
pub open spec fn ranks_tell(hands: Seq<HandView>, last: int) -> bool {
    forall|a: i8, b: i8|
        0 <= a < hands.len() && 0 <= b < hands.len() && #[trigger] rank_of(hands, last, a)
            == #[trigger] rank_of(hands, last, b) ==> alike(hands, a, b)
}

/// A suit under its new name has the rank it had.
pub proof fn lemma_rank_of_renamed(hands: Seq<HandView>, back: Seq<i8>, last: int, t: i8, k: int)
    requires
        back.len() == hands.len(),
        0 <= last < hands.len(),
        0 <= t < hands.len(),
        0 <= k <= hands.len(),
    ensures
        ranking(rename(hands, back), last, t, k) == ranking(hands, last, back[t as int], k),
    decreases k,
{
    if k > 0 {
        lemma_rank_of_renamed(hands, back, last, t, k - 1);
        let n = hands.len() as int;
        let p = seat(hands, last, k - 1);
        assert(0 <= p < n) by (nonlinear_arith)
            requires
                p == (last + (k - 1)) % n,
                0 <= last,
                0 <= k - 1,
                0 < n,
        ;
        assert(seat(rename(hands, back), last, k - 1) == p);
        assert(rename(hands, back)[p] == rename_hand(hands[p], back));
    }
}

/// Two hands that look the same along two orders of the suits take a
/// position to the same position.
pub proof fn lemma_position_by_looks(
    one: HandView,
    order: Seq<i8>,
    other: HandView,
    other_order: Seq<i8>,
    pos: int,
)
    requires
        order.len() == other_order.len(),
        one.unknown == other.unknown,
        forall|i: int|
            0 <= i < order.len() ==> one.count(#[trigger] order[i]) == other.count(other_order[i])
                && one.voids.contains(order[i]) == other.voids.contains(other_order[i]),
    ensures
        one.position(pos, order) == other.position(pos, other_order),
{
    let n = order.len() as int;
    lemma_counts_by_looks(one, order, other, other_order, pos, n);
    lemma_voids_by_looks(
        one,
        order,
        other,
        other_order,
        one.position_counts(pos, order, n) * 8 + one.unknown,
        n,
    );
}

/// The known cards, see [`lemma_position_by_looks`].
pub proof fn lemma_counts_by_looks(
    one: HandView,
    order: Seq<i8>,
    other: HandView,
    other_order: Seq<i8>,
    pos: int,
    n: int,
)
    requires
        0 <= n <= order.len() == other_order.len(),
        forall|i: int|
            0 <= i < order.len() ==> one.count(#[trigger] order[i]) == other.count(other_order[i]),
    ensures
        one.position_counts(pos, order, n) == other.position_counts(pos, other_order, n),
    decreases n,
{
    if n > 0 {
        lemma_counts_by_looks(one, order, other, other_order, pos, n - 1);
        assert(one.count(order[n - 1]) == other.count(other_order[n - 1]));
    }
}

/// The exclusions, see [`lemma_position_by_looks`].
pub proof fn lemma_voids_by_looks(
    one: HandView,
    order: Seq<i8>,
    other: HandView,
    other_order: Seq<i8>,
    pos: int,
    n: int,
)
    requires
        0 <= n <= order.len() == other_order.len(),
        forall|i: int|
            0 <= i < order.len() ==> one.voids.contains(#[trigger] order[i]) == other.voids.contains(
                other_order[i],
            ),
    ensures
        one.position_voids(pos, order, n) == other.position_voids(pos, other_order, n),
    decreases n,
{
    if n > 0 {
        lemma_voids_by_looks(one, order, other, other_order, pos, n - 1);
        assert(one.voids.contains(order[n - 1]) == other.voids.contains(other_order[n - 1]));
    }
}

/// Two tables that look the same, hand by hand, along two orders of the
/// suits have the same position.
pub proof fn lemma_table_position_by_looks(
    one: Seq<HandView>,
    order: Seq<i8>,
    other: Seq<HandView>,
    other_order: Seq<i8>,
    last: int,
    k: int,
)
    requires
        one.len() == other.len(),
        0 <= last < one.len(),
        0 <= k <= one.len(),
        order.len() == other_order.len(),
        forall|p: int| 0 <= p < one.len() ==> (#[trigger] one[p]).unknown == other[p].unknown,
        forall|p: int, i: int|
            0 <= p < one.len() && 0 <= i < order.len() ==> (#[trigger] one[p]).count(
                #[trigger] order[i],
            ) == other[p].count(other_order[i]) && one[p].voids.contains(order[i])
                == other[p].voids.contains(other_order[i]),
    ensures
        table_position(one, order, last, k) == table_position(other, other_order, last, k),
    decreases k,
{
    if k > 0 {
        lemma_table_position_by_looks(one, order, other, other_order, last, k - 1);
        let n = one.len() as int;
        let p = seat(one, last, k - 1);
        assert(0 <= p < n) by (nonlinear_arith)
            requires
                p == (last + (k - 1)) % n,
                0 <= last,
                0 <= k - 1,
                0 < n,
        ;
        assert(seat(other, last, k - 1) == p);
        assert(one[p].unknown == other[p].unknown);
        assert forall|i: int| 0 <= i < order.len() implies one[p].count(#[trigger] order[i])
            == other[p].count(other_order[i]) && one[p].voids.contains(order[i])
            == other[p].voids.contains(other_order[i]) by {}
        lemma_position_by_looks(
            one[p],
            order,
            other[p],
            other_order,
            table_position(one, order, last, k - 1),
        );
    }
}

/// One more where the rank of the suit is above `floor`.
pub open spec fn count_above(hands: Seq<HandView>, last: int, floor: int) -> spec_fn(int, i8) -> int {
    |so_far: int, suit: i8|
        so_far + if rank_of(hands, last, suit) > floor {
            1int
        } else {
            0
        }
}

/// The ranks along `order` do not rise.
pub open spec fn falling(hands: Seq<HandView>, last: int, order: Seq<i8>) -> bool {
    forall|i: int, j: int|
        0 <= i < j < order.len() ==> rank_of(hands, last, #[trigger] order[i]) >= rank_of(
            hands,
            last,
            #[trigger] order[j],
        )
}

/// Along an order in which the ranks do not rise, the suits with a rank
/// above `floor` come first, and the fold counts them.
pub proof fn lemma_falling_count(hands: Seq<HandView>, last: int, order: Seq<i8>, floor: int)
    requires
        falling(hands, last, order),
    ensures
        0 <= order.fold_left(0int, count_above(hands, last, floor)) <= order.len(),
        forall|i: int|
            0 <= i < order.len() ==> (rank_of(hands, last, #[trigger] order[i]) > floor <==> i
                < order.fold_left(0int, count_above(hands, last, floor))),
    decreases order.len(),
{
    if order.len() > 0 {
        let front = order.drop_last();
        assert forall|i: int, j: int| 0 <= i < j < front.len() implies rank_of(
            hands,
            last,
            #[trigger] front[i],
        ) >= rank_of(hands, last, #[trigger] front[j]) by {
            assert(front[i] == order[i] && front[j] == order[j]);
        }
        lemma_falling_count(hands, last, front, floor);
        let before = front.fold_left(0int, count_above(hands, last, floor));
        let all = order.fold_left(0int, count_above(hands, last, floor));
        assert(all == count_above(hands, last, floor)(before, order.last()));
        assert forall|i: int| 0 <= i < order.len() implies (rank_of(hands, last, #[trigger] order[i])
            > floor <==> i < all) by {
            if i < front.len() {
                assert(front[i] == order[i]);
                assert(rank_of(hands, last, order[i]) >= rank_of(
                    hands,
                    last,
                    order[order.len() - 1],
                ));
            }
        }
    }
}

/// Two orders that hold every suit of the table once hold the same suits
/// as often.
pub proof fn lemma_same_suits(one: Seq<i8>, other: Seq<i8>, n: int)
    requires
        one.no_duplicates(),
        other.no_duplicates(),
        forall|s: i8| one.contains(s) <==> 0 <= s < n,
        forall|s: i8| other.contains(s) <==> 0 <= s < n,
    ensures
        one.to_multiset() == other.to_multiset(),
{
    broadcast use vstd::seq_lib::group_to_multiset_ensures;

    one.lemma_multiset_has_no_duplicates();
    other.lemma_multiset_has_no_duplicates();
    assert forall|s: i8| one.to_multiset().count(s) == other.to_multiset().count(s) by {
        assert(one.contains(s) <==> other.contains(s));
        if one.contains(s) {
            assert(one.to_multiset().contains(s));
            assert(other.to_multiset().contains(s));
        }
    }
    assert(one.to_multiset() =~= other.to_multiset());
}

/// Two orders of all suits in which the ranks do not rise have the same
/// ranks place by place.
pub proof fn lemma_same_ranks(hands: Seq<HandView>, last: int, one: Seq<i8>, other: Seq<i8>)
    requires
        one.len() == other.len(),
        one.no_duplicates(),
        other.no_duplicates(),
        forall|s: i8| one.contains(s) <==> 0 <= s < hands.len(),
        forall|s: i8| other.contains(s) <==> 0 <= s < hands.len(),
        falling(hands, last, one),
        falling(hands, last, other),
    ensures
        forall|i: int|
            0 <= i < one.len() ==> rank_of(hands, last, #[trigger] one[i]) == rank_of(
                hands,
                last,
                other[i],
            ),
{
    lemma_same_suits(one, other, hands.len() as int);
    assert forall|i: int| 0 <= i < one.len() implies rank_of(hands, last, #[trigger] one[i])
        == rank_of(hands, last, other[i]) by {
        let high = rank_of(hands, last, one[i]);
        let low = rank_of(hands, last, other[i]);
        lemma_above_is_commutative(hands, last, high);
        lemma_above_is_commutative(hands, last, low);
        lemma_fold_left_permutation(one, other, count_above(hands, last, high), 0int);
        lemma_fold_left_permutation(one, other, count_above(hands, last, low), 0int);
        lemma_falling_count(hands, last, one, high);
        lemma_falling_count(hands, last, other, high);
        lemma_falling_count(hands, last, one, low);
        lemma_falling_count(hands, last, other, low);
    }
}

/// The count of the suits above a floor does not depend on their order.
pub proof fn lemma_above_is_commutative(hands: Seq<HandView>, last: int, floor: int)
    ensures
        commutative_foldl(count_above(hands, last, floor)),
{
    let f = count_above(hands, last, floor);
    assert forall|x: i8, y: i8, v: int| #[trigger] f(f(v, x), y) == f(f(v, y), x) by {}
}

/// An order of the suits by their ranks holds no suit twice, and its ranks
/// do not rise.
pub proof fn lemma_ranking_is_falling(hands: Seq<HandView>, last: int, order: Seq<i8>)
    requires
        is_ranking(hands, last, order),
    ensures
        order.no_duplicates(),
        falling(hands, last, order),
        forall|s: i8| order.contains(s) <==> 0 <= s < hands.len(),
{
    assert forall|i: int, j: int| 0 <= i < order.len() && 0 <= j < order.len() && i != j implies order[i]
        != order[j] by {
        if i < j {
            assert(precedes(hands, last, order[i], order[j]));
        } else {
            assert(precedes(hands, last, order[j], order[i]));
        }
    }
    assert forall|i: int, j: int| 0 <= i < j < order.len() implies rank_of(
        hands,
        last,
        #[trigger] order[i],
    ) >= rank_of(hands, last, #[trigger] order[j]) by {
        assert(precedes(hands, last, order[i], order[j]));
    }
    assert forall|s: i8| order.contains(s) implies 0 <= s < hands.len() by {
        let i = choose|i: int| 0 <= i < order.len() && order[i] == s;
        assert(0 <= order[i] < hands.len());
    }
}

/// Two suits with the same rank after `k` hands look alike in these hands,
/// where no hand holds as many known cards of a suit as there are players.
pub proof fn lemma_same_rank_same_looks(hands: Seq<HandView>, last: int, a: i8, b: i8, k: int)
    requires
        0 <= last < hands.len(),
        0 <= k <= hands.len(),
        forall|p: int, s: i8|
            0 <= p < hands.len() ==> 0 <= #[trigger] hands[p].count(s) && hands[p].count(s)
                < hands.len(),
        ranking(hands, last, a, k) == ranking(hands, last, b, k),
    ensures
        forall|j: int|
            0 <= j < k ==> hands[seat(hands, last, j)].count(a) == hands[seat(hands, last, j)].count(
                b,
            ) && hands[seat(hands, last, j)].voids.contains(a) == hands[seat(
                hands,
                last,
                j,
            )].voids.contains(b),
    decreases k,
{
    if k > 0 {
        let n = hands.len() as int;
        let p = seat(hands, last, k - 1);
        assert(0 <= p < n) by (nonlinear_arith)
            requires
                p == (last + (k - 1)) % n,
                0 <= last,
                0 <= k - 1,
                0 < n,
        ;
        let hand = hands[p];
        let high_a = ranking(hands, last, a, k - 1);
        let high_b = ranking(hands, last, b, k - 1);
        let low_a = hand.count(a) * 2 + if hand.voids.contains(a) {
            1int
        } else {
            0
        };
        let low_b = hand.count(b) * 2 + if hand.voids.contains(b) {
            1int
        } else {
            0
        };
        assert(0 <= hand.count(a) && hand.count(a) < n);
        assert(0 <= hand.count(b) && hand.count(b) < n);
        assert(high_a == high_b && low_a == low_b) by (nonlinear_arith)
            requires
                (high_a * n + hand.count(a)) * 2 + (low_a - hand.count(a) * 2) == (high_b * n
                    + hand.count(b)) * 2 + (low_b - hand.count(b) * 2),
                0 <= low_a < 2 * n,
                0 <= low_b < 2 * n,
        {
            assert(high_a * (2 * n) + low_a == high_b * (2 * n) + low_b);
            if high_a < high_b {
                assert((high_b - high_a) * (2 * n) >= 2 * n);
            }
            if high_b < high_a {
                assert((high_a - high_b) * (2 * n) >= 2 * n);
            }
        }
        lemma_same_rank_same_looks(hands, last, a, b, k - 1);
    }
}

/// The ranks tell the suits apart where no hand holds as many known cards
/// of a suit as there are players: so on every table of four or more
/// players on which no hand holds four of a kind.
pub proof fn lemma_ranks_tell(hands: Seq<HandView>, last: int)
    requires
        0 <= last < hands.len(),
        forall|p: int, s: i8|
            0 <= p < hands.len() ==> 0 <= #[trigger] hands[p].count(s) && hands[p].count(s)
                < hands.len(),
    ensures
        ranks_tell(hands, last),
{
    let n = hands.len() as int;
    assert forall|a: i8, b: i8|
        0 <= a < hands.len() && 0 <= b < hands.len() && #[trigger] rank_of(hands, last, a)
            == #[trigger] rank_of(hands, last, b) implies alike(hands, a, b) by {
        lemma_same_rank_same_looks(hands, last, a, b, n);
        assert forall|p: int| 0 <= p < hands.len() implies (#[trigger] hands[p]).count(a)
            == hands[p].count(b) && hands[p].voids.contains(a) == hands[p].voids.contains(b) by {
            let j = if p >= last {
                p - last
            } else {
                p - last + n
            };
            assert(seat(hands, last, j) == p) by {
                if p >= last {
                    assert((last + j) % n == p) by (nonlinear_arith)
                        requires
                            last + j == p,
                            0 <= p < n,
                    ;
                } else {
                    assert((last + j) % n == p) by (nonlinear_arith)
                        requires
                            last + j == p + n,
                            0 <= p < n,
                    ;
                }
            }
        }
    }
}

/// There is one order of the suits by their ranks only.
pub proof fn lemma_ranking_is_unique(hands: Seq<HandView>, last: int, one: Seq<i8>, other: Seq<i8>)
    requires
        is_ranking(hands, last, one),
        is_ranking(hands, last, other),
    ensures
        one == other,
{
    lemma_same_up_to(hands, last, one, other, one.len() as int);
    assert(one =~= other);
}

/// Two orders of the suits by their ranks are the same in their first `k`
/// places.
pub proof fn lemma_same_up_to(hands: Seq<HandView>, last: int, one: Seq<i8>, other: Seq<i8>, k: int)
    requires
        is_ranking(hands, last, one),
        is_ranking(hands, last, other),
        0 <= k <= one.len(),
    ensures
        forall|i: int| 0 <= i < k ==> one[i] == other[i],
    decreases k,
{
    if k > 0 {
        lemma_same_up_to(hands, last, one, other, k - 1);
        let a = one[k - 1];
        let b = other[k - 1];
        if a != b {
            assert(0 <= a < hands.len());
            assert(0 <= b < hands.len());
            lemma_ranking_is_falling(hands, last, one);
            lemma_ranking_is_falling(hands, last, other);
            assert(other.contains(a));
            let j = choose|j: int| 0 <= j < other.len() && other[j] == a;
            if j < k - 1 {
                assert(one[j] == other[j]);
            }
            assert(precedes(hands, last, other[k - 1], other[j]));
            assert(one.contains(b));
            let i = choose|i: int| 0 <= i < one.len() && one[i] == b;
            if i < k - 1 {
                assert(one[i] == other[i]);
            }
            assert(precedes(hands, last, one[k - 1], one[i]));
        }
    }
}

/// The order of the suits by their ranks as seen from `last`, where there
/// is one.
pub open spec fn ranked(hands: Seq<HandView>, last: int) -> Seq<i8> {
    choose|order: Seq<i8>| is_ranking(hands, last, order)
}

/// The number of the position with the suits in the order of their ranks.
pub open spec fn canonical_position(hands: Seq<HandView>, last: int, player_symmetric: bool) -> int {
    position_number(hands, ranked(hands, last), last, player_symmetric)
}

/// An order of the suits by their ranks is the order of the suits by their
/// ranks.
pub proof fn lemma_ranked(hands: Seq<HandView>, last: int, order: Seq<i8>)
    requires
        is_ranking(hands, last, order),
    ensures
        ranked(hands, last) == order,
{
    lemma_ranking_is_unique(hands, last, ranked(hands, last), order);
}

/// The number of a position is the same under every renaming of the suits,
/// where for each table the suits are taken in the order of their ranks,
/// and the ranks tell the suits apart.
pub proof fn lemma_canonical_position_is_stable(
    hands: Seq<HandView>,
    names: Seq<i8>,
    back: Seq<i8>,
    last: int,
    order: Seq<i8>,
    renamed_order: Seq<i8>,
    player_symmetric: bool,
)
    requires
        hands.len() <= i8::MAX,
        0 <= last < hands.len(),
        is_renaming(names, back, hands.len() as int),
        is_ranking(hands, last, order),
        is_ranking(rename(hands, back), last, renamed_order),
        ranks_tell(hands, last),
    ensures
        position_number(rename(hands, back), renamed_order, last, player_symmetric)
            == position_number(hands, order, last, player_symmetric),
{
    let n = hands.len() as int;
    let renamed = rename(hands, back);
    let old_suits = Seq::new(n as nat, |i: int| back[renamed_order[i] as int]);
    lemma_ranking_is_falling(hands, last, order);
    lemma_ranking_is_falling(renamed, last, renamed_order);
    assert forall|i: int| 0 <= i < n implies 0 <= #[trigger] renamed_order[i] < n && rank_of(
        hands,
        last,
        old_suits[i],
    ) == rank_of(renamed, last, renamed_order[i]) by {
        assert(0 <= renamed_order[i] < renamed.len());
        lemma_rank_of_renamed(hands, back, last, renamed_order[i], n);
    }
    assert(old_suits.no_duplicates()) by {
        assert forall|i: int, j: int|
            0 <= i < old_suits.len() && 0 <= j < old_suits.len() && i != j implies old_suits[i]
            != old_suits[j] by {
            assert(renamed_order[i] != renamed_order[j]);
            assert(names[back[renamed_order[i] as int] as int] == renamed_order[i]);
            assert(names[back[renamed_order[j] as int] as int] == renamed_order[j]);
        }
    }
    assert forall|s: i8| old_suits.contains(s) <==> 0 <= s < n by {
        if 0 <= s < n {
            let t = names[s as int];
            assert(renamed_order.contains(t));
            let i = choose|i: int| 0 <= i < renamed_order.len() && renamed_order[i] == t;
            assert(old_suits[i] == s);
        }
        if old_suits.contains(s) {
            let i = choose|i: int| 0 <= i < old_suits.len() && old_suits[i] == s;
            assert(0 <= renamed_order[i] < n);
        }
    }
    assert(falling(hands, last, old_suits)) by {
        assert forall|i: int, j: int| 0 <= i < j < old_suits.len() implies rank_of(
            hands,
            last,
            #[trigger] old_suits[i],
        ) >= rank_of(hands, last, #[trigger] old_suits[j]) by {
            assert(rank_of(renamed, last, renamed_order[i]) >= rank_of(
                renamed,
                last,
                renamed_order[j],
            ));
        }
    }
    lemma_same_ranks(hands, last, order, old_suits);
    assert forall|p: int, i: int| 0 <= p < n && 0 <= i < order.len() implies (#[trigger] hands[p]).count(
        #[trigger] order[i],
    ) == renamed[p].count(renamed_order[i]) && hands[p].voids.contains(order[i])
        == renamed[p].voids.contains(renamed_order[i]) by {
        assert(0 <= order[i] < n);
        assert(0 <= renamed_order[i] < n);
        assert(rank_of(hands, last, order[i]) == rank_of(hands, last, old_suits[i]));
        assert(alike(hands, order[i], old_suits[i]));
        assert(renamed[p] == rename_hand(hands[p], back));
    }
    assert forall|p: int| 0 <= p < n implies (#[trigger] hands[p]).unknown
        == renamed[p].unknown by {}
    lemma_table_position_by_looks(hands, order, renamed, renamed_order, last, n);
}

} // verus!
