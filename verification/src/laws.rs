//! Laws of the table: what holds of the moves and of `shake_down` on every
//! table.
use crate::cards::no_transfer_table;
use crate::cards::table_wf;
use crate::cards::transfer_table;
use crate::hand::deficit;
use crate::hand::deficit_sum;
use crate::hand::HandView;
use crate::inference::demand;
use crate::inference::demand_sum;
use crate::inference::press_upto;
use crate::inference::totals_map;
use crate::progress::table_follows;
use crate::inference::closes_to;
use crate::inference::closure_within;
use crate::inference::pass;
use crate::inference::Pass;
use crate::inference::Verdict;
use vstd::prelude::*;

verus! {

impl HandView {
    /// The number of known cards of the first `n` suits.
    pub open spec fn known_sum(self, n: int) -> int
        decreases n,
    {
        if n <= 0 {
            0
        } else {
            self.known_sum(n - 1) + self.count((n - 1) as i8)
        }
    }

    /// The number of cards in the hand, with `n` suits in the game.
    pub open spec fn card_count(self, n: int) -> int {
        self.known_sum(n) + self.unknown
    }
}

/// The number of cards in the first `k` hands of the table.
pub open spec fn table_cards_upto(hands: Seq<HandView>, k: int) -> int
    decreases k,
{
    if k <= 0 {
        0
    } else {
        table_cards_upto(hands, k - 1) + hands[k - 1].card_count(hands.len() as int)
    }
}

/// The number of cards on the table.
pub open spec fn table_cards(hands: Seq<HandView>) -> int {
    table_cards_upto(hands, hands.len() as int)
}

/// Where two hands differ in one suit only, their known cards differ by the
/// cards of that suit.
pub proof fn lemma_known_sum_change(before: HandView, after: HandView, suit: i8, n: int)
    requires
        0 <= n <= i8::MAX + 1,
        forall|s: i8| s != suit ==> #[trigger] after.count(s) == before.count(s),
    ensures
        after.known_sum(n) == before.known_sum(n) + if 0 <= suit < n {
            after.count(suit) - before.count(suit)
        } else {
            0
        },
    decreases n,
{
    if n > 0 {
        lemma_known_sum_change(before, after, suit, n - 1);
        if suit != (n - 1) as i8 {
            assert(after.count((n - 1) as i8) == before.count((n - 1) as i8));
        }
    }
}

/// Where one hand of a table is replaced, the cards of the table change by
/// the cards of that hand.
pub proof fn lemma_table_cards_update(hands: Seq<HandView>, p: int, hand: HandView, k: int)
    requires
        0 <= p < hands.len(),
        0 <= k <= hands.len(),
    ensures
        table_cards_upto(hands.update(p, hand), k) == table_cards_upto(hands, k) + if p < k {
            hand.card_count(hands.len() as int) - hands[p].card_count(hands.len() as int)
        } else {
            0
        },
    decreases k,
{
    if k > 0 {
        lemma_table_cards_update(hands, p, hand, k - 1);
    }
}

/// To record that a hand holds a suit changes nothing in the number of its
/// cards.
pub proof fn lemma_ensure_have_keeps_cards(hand: HandView, suit: i8, n: int)
    requires
        hand.wf(),
        hand.can_settle(suit),
        0 <= suit < n <= i8::MAX,
    ensures
        hand.ensure_have(suit).card_count(n) == hand.card_count(n),
        hand.ensure_have(suit).wf(),
{
    lemma_known_sum_change(hand, hand.ensure_have(suit), suit, n);
}

/// A card that leaves a hand makes it one card less.
pub proof fn lemma_remove_takes_a_card(hand: HandView, suit: i8, n: int)
    requires
        hand.wf(),
        hand.can_settle(suit),
        hand.may_have(suit),
        0 <= suit < n <= i8::MAX,
    ensures
        hand.remove(suit).card_count(n) == hand.card_count(n) - 1,
        hand.remove(suit).wf(),
{
    if hand.known.contains_key(suit) {
        assert(hand.known[suit] >= 1);
    }
    lemma_known_sum_change(hand, hand.remove(suit), suit, n);
}

/// A card that joins a hand makes it one card more.
pub proof fn lemma_add_gives_a_card(hand: HandView, suit: i8, n: int)
    requires
        hand.wf(),
        hand.count(suit) < i8::MAX,
        0 <= suit < n <= i8::MAX,
    ensures
        hand.add(suit).card_count(n) == hand.card_count(n) + 1,
{
    if hand.known.contains_key(suit) {
        assert(hand.known[suit] >= 1);
    }
    lemma_known_sum_change(hand, hand.add(suit), suit, n);
}

/// A card that changes hands leaves the number of cards on the table as it
/// is; and so does a request that fails half way.
pub proof fn lemma_transfer_keeps_cards(hands: Seq<HandView>, suit: i8, other: int, this: int)
    requires
        table_wf(hands),
        0 <= this < hands.len(),
        0 <= other < hands.len(),
        0 <= suit < hands.len(),
        hands[this].can_settle(suit),
        hands[other].can_settle(suit),
        hands[this].count(suit) < i8::MAX,
    ensures
        table_cards(transfer_table(hands, suit, other, this)) == table_cards(hands),
{
    let n = hands.len() as int;
    assert(hands[this].wf());
    assert(hands[other].wf());
    if hands[this].may_have(suit) {
        let asked = hands.update(this, hands[this].ensure_have(suit));
        lemma_ensure_have_keeps_cards(hands[this], suit, n);
        lemma_table_cards_update(hands, this, hands[this].ensure_have(suit), n);
        assert(asked[other].wf());
        if asked[other].may_have(suit) {
            let taken = asked.update(other, asked[other].remove(suit));
            lemma_remove_takes_a_card(asked[other], suit, n);
            lemma_table_cards_update(asked, other, asked[other].remove(suit), n);
            assert(taken[this].wf());
            lemma_add_gives_a_card(taken[this], suit, n);
            lemma_table_cards_update(taken, this, taken[this].add(suit), n);
        }
    }
}

/// Where both players can hold the suit, the card changes hands: the giver
/// has one card less, the asker one more, and every other hand is as it was.
pub proof fn lemma_transfer_moves_a_card(hands: Seq<HandView>, suit: i8, other: int, this: int)
    requires
        table_wf(hands),
        0 <= this < hands.len(),
        0 <= other < hands.len(),
        this != other,
        0 <= suit < hands.len(),
        hands[this].is_legal(suit),
        hands[other].is_legal(suit),
        hands[this].count(suit) < i8::MAX,
    ensures
        crate::cards::transfer_ok(hands, suit, other, this),
        ({
            let n = hands.len() as int;
            let after = transfer_table(hands, suit, other, this);
            &&& after.len() == hands.len()
            &&& after[this].card_count(n) == hands[this].card_count(n) + 1
            &&& after[other].card_count(n) == hands[other].card_count(n) - 1
            &&& forall|p: int| 0 <= p < n && p != this && p != other ==> after[p] == hands[p]
            &&& table_cards(after) == table_cards(hands)
        }),
{
    let n = hands.len() as int;
    assert(hands[this].wf());
    assert(hands[other].wf());
    let asked = hands.update(this, hands[this].ensure_have(suit));
    lemma_ensure_have_keeps_cards(hands[this], suit, n);
    assert(asked[other] == hands[other]);
    let taken = asked.update(other, asked[other].remove(suit));
    lemma_remove_takes_a_card(asked[other], suit, n);
    assert(taken[this] == asked[this]);
    lemma_add_gives_a_card(taken[this], suit, n);
    lemma_transfer_keeps_cards(hands, suit, other, this);
}

/// A request that is turned down leaves the number of cards on the table as
/// it is.
pub proof fn lemma_no_transfer_keeps_cards(hands: Seq<HandView>, suit: i8, other: int, this: int)
    requires
        table_wf(hands),
        0 <= this < hands.len(),
        0 <= other < hands.len(),
        0 <= suit < hands.len(),
        hands[this].can_settle(suit),
    ensures
        table_cards(no_transfer_table(hands, suit, other, this)) == table_cards(hands),
{
    let n = hands.len() as int;
    assert(hands[this].wf());
    if hands[this].may_have(suit) {
        let asked = hands.update(this, hands[this].ensure_have(suit));
        lemma_ensure_have_keeps_cards(hands[this], suit, n);
        lemma_table_cards_update(hands, this, hands[this].ensure_have(suit), n);
        let refused = asked[other].ensure_have_not(suit);
        assert(refused.known == asked[other].known);
        lemma_known_sum_change(asked[other], refused, suit, n);
        lemma_table_cards_update(asked, other, refused, n);
    }
}

/// Every hand of `after` has as many cards as the hand of `before` in its
/// place.
pub open spec fn same_cards(after: Seq<HandView>, before: Seq<HandView>) -> bool {
    &&& after.len() == before.len()
    &&& forall|p: int|
        0 <= p < after.len() ==> (#[trigger] after[p]).card_count(after.len() as int)
            == before[p].card_count(after.len() as int)
}

/// What has as many cards as what has as many cards, has as many cards.
pub proof fn lemma_same_cards_chain(last: Seq<HandView>, middle: Seq<HandView>, first: Seq<HandView>)
    requires
        same_cards(last, middle),
        same_cards(middle, first),
    ensures
        same_cards(last, first),
{
    assert forall|p: int| 0 <= p < last.len() implies (#[trigger] last[p]).card_count(
        last.len() as int,
    ) == first[p].card_count(last.len() as int) by {
        assert(middle[p].card_count(last.len() as int) == first[p].card_count(last.len() as int));
    }
}

/// The table `after` is well formed, says all that `before` says, and has as
/// many cards in every hand.
pub open spec fn only_learned(after: Seq<HandView>, before: Seq<HandView>) -> bool {
    &&& table_wf(after)
    &&& table_follows(after, before)
    &&& same_cards(after, before)
}

/// A well-formed table has only learned what it says.
pub proof fn lemma_learned_nothing(hands: Seq<HandView>)
    requires
        table_wf(hands),
    ensures
        only_learned(hands, hands),
{
    assert forall|p: int| 0 <= p < hands.len() implies (#[trigger] hands[p]).follows(hands[p]) by {
        assert(hands[p].wf());
    }
}

/// What has only learned from what has only learned, has only learned.
pub proof fn lemma_learned_chain(last: Seq<HandView>, middle: Seq<HandView>, first: Seq<HandView>)
    requires
        only_learned(last, middle),
        only_learned(middle, first),
    ensures
        only_learned(last, first),
{
    crate::progress::lemma_follows_chain(last, middle, first);
    lemma_same_cards_chain(last, middle, first);
}

/// A table has only learned where one of its hands has, and the suits of
/// that hand are suits of the table.
pub proof fn lemma_learned_in_one_hand(hands: Seq<HandView>, p: int, hand: HandView)
    requires
        table_wf(hands),
        0 <= p < hands.len(),
        hand.wf(),
        hand.follows(hands[p]),
        hand.card_count(hands.len() as int) == hands[p].card_count(hands.len() as int),
        forall|s: i8| hand.known.contains_key(s) ==> 0 <= s < hands.len(),
        forall|s: i8| hand.voids.contains(s) ==> 0 <= s < hands.len(),
    ensures
        only_learned(hands.update(p, hand), hands),
{
    crate::cards::lemma_update_wf(hands, p, hand);
    let after = hands.update(p, hand);
    assert forall|q: int| 0 <= q < after.len() implies (#[trigger] after[q]).follows(hands[q]) by {
        assert(hands[q].wf());
    }
    assert forall|q: int| 0 <= q < after.len() implies (#[trigger] after[q]).card_count(
        after.len() as int,
    ) == hands[q].card_count(after.len() as int) by {}
}

/// A hand that has been given the cards that are missing in the suits
/// below `upto`, and had undetermined cards enough for them, has only
/// learned.
pub proof fn lemma_fill_upto_learned(hand: HandView, totals: Seq<int>, upto: int)
    requires
        hand.wf(),
        forall|s: i8| hand.count(s) <= 4,
        forall|s: i8| hand.known.contains_key(s) ==> 0 <= s < totals.len(),
        totals.len() <= i8::MAX,
        i8::MIN <= upto <= i8::MAX + 1,
        forall|s: int| 0 <= s < totals.len() ==> 0 <= #[trigger] totals[s] <= 4,
        deficit_sum(totals_map(totals), upto) <= hand.unknown,
    ensures
        hand.fill_upto(totals_map(totals), upto).wf(),
        hand.fill_upto(totals_map(totals), upto).follows(hand),
        hand.fill_upto(totals_map(totals), upto).card_count(totals.len() as int) == hand.card_count(
            totals.len() as int,
        ),
        forall|s: i8|
            hand.fill_upto(totals_map(totals), upto).known.contains_key(s) ==> 0 <= s
                < totals.len(),
{
    let map = totals_map(totals);
    let after = hand.fill_upto(map, upto);
    let n = totals.len() as int;
    lemma_deficit_sum_in_range(totals, upto);
    assert forall|s: i8| hand.count(s) <= #[trigger] after.count(s) && (after.known.contains_key(s)
        ==> after.known[s] >= 1 && 0 <= s < n) by {
        assert(hand.count(s) <= 4);
        assert(0 <= deficit(map, s) <= 4);
        if hand.known.contains_key(s) {
            assert(hand.known[s] >= 1);
        }
    }
    assert forall|s: i8| after.known.contains_key(s) implies #[trigger] after.known[s] >= 1 by {
        assert(hand.count(s) <= after.count(s));
    }
    lemma_fill_upto_known_sum(hand, totals, upto, n);
    lemma_deficit_sum_in_range(totals, 0);
    lemma_deficit_sum_clamped(totals, upto);
    if hand.unknown == 0 {
        assert forall|s: i8| s < upto implies deficit(map, s) == 0 by {
            lemma_deficit_sum_zero(totals, upto, s);
        }
        assert(after.known =~= hand.known);
    }
}

/// Where no card is missing below `upto`, no card is missing in any suit
/// below `upto`.
pub proof fn lemma_deficit_sum_zero(totals: Seq<int>, upto: int, suit: i8)
    requires
        totals.len() <= i8::MAX,
        i8::MIN <= upto <= i8::MAX + 1,
        forall|s: int| 0 <= s < totals.len() ==> 0 <= #[trigger] totals[s] <= 4,
        deficit_sum(totals_map(totals), upto) <= 0,
        suit < upto,
    ensures
        deficit(totals_map(totals), suit) == 0,
    decreases upto - i8::MIN,
{
    lemma_deficit_sum_in_range(totals, upto - 1);
    if suit < upto - 1 {
        lemma_deficit_sum_zero(totals, upto - 1, suit);
    }
}

/// The cards that are missing below `upto` are those that are missing
/// below `upto` in the suits of the table.
pub proof fn lemma_deficit_sum_clamped(totals: Seq<int>, upto: int)
    requires
        totals.len() <= i8::MAX,
        i8::MIN <= upto <= i8::MAX + 1,
        forall|s: int| 0 <= s < totals.len() ==> 0 <= #[trigger] totals[s] <= 4,
    ensures
        deficit_sum(totals_map(totals), upto) == deficit_sum(
            totals_map(totals),
            if upto < 0 {
                0
            } else if upto > totals.len() {
                totals.len() as int
            } else {
                upto
            },
        ),
{
    lemma_deficit_sum_in_range(totals, upto);
    lemma_deficit_sum_in_range(totals, 0);
}

/// The known cards of the first `k` suits after a hand has been given the
/// cards that are missing in the suits below `upto`.
pub proof fn lemma_fill_upto_known_sum(hand: HandView, totals: Seq<int>, upto: int, k: int)
    requires
        hand.wf(),
        forall|s: i8| hand.count(s) <= 4,
        totals.len() <= i8::MAX,
        i8::MIN <= upto <= i8::MAX + 1,
        0 <= k <= totals.len(),
        forall|s: int| 0 <= s < totals.len() ==> 0 <= #[trigger] totals[s] <= 4,
    ensures
        hand.fill_upto(totals_map(totals), upto).known_sum(k) == hand.known_sum(k) + deficit_sum(
            totals_map(totals),
            if upto < 0 {
                0
            } else if upto > k {
                k
            } else {
                upto
            },
        ),
    decreases k,
{
    lemma_deficit_sum_in_range(totals, 0);
    if k > 0 {
        lemma_fill_upto_known_sum(hand, totals, upto, k - 1);
        let s = (k - 1) as i8;
        assert(hand.count(s) <= 4);
        if hand.known.contains_key(s) {
            assert(hand.known[s] >= 1);
        }
        assert(0 <= deficit(totals_map(totals), s) <= 4);
        assert(hand.fill_upto(totals_map(totals), upto).count(s) == hand.count(s) + if s < upto {
            deficit(totals_map(totals), s)
        } else {
            0
        });
    }
}

/// A hand with the first `k` suits given what they demand, and with
/// undetermined cards enough for them, has only learned.
pub proof fn lemma_press_upto_learned(hand: HandView, totals: Seq<int>, k: int)
    requires
        hand.wf(),
        forall|s: i8| hand.count(s) <= 4,
        forall|s: i8| hand.known.contains_key(s) ==> 0 <= s < totals.len(),
        totals.len() <= i8::MAX,
        0 <= k <= totals.len(),
        forall|s: int| 0 <= s < totals.len() ==> 0 <= #[trigger] totals[s] <= 4,
        demand_sum(hand, totals, k) <= hand.unknown,
    ensures
        press_upto(hand, totals, k).wf(),
        press_upto(hand, totals, k).follows(hand),
        press_upto(hand, totals, k).card_count(totals.len() as int) == hand.card_count(
            totals.len() as int,
        ),
        forall|s: i8| press_upto(hand, totals, k).known.contains_key(s) ==> 0 <= s < totals.len(),
{
    let after = press_upto(hand, totals, k);
    let n = totals.len() as int;
    if hand.unknown > 1 {
        crate::shake::lemma_demand_sum_rises(hand, totals, 0, k);
        assert forall|s: i8| hand.count(s) <= #[trigger] after.count(s) && (after.known.contains_key(
            s,
        ) ==> after.known[s] >= 1 && 0 <= s < n) by {
            assert(hand.count(s) <= 4);
            if hand.known.contains_key(s) {
                assert(hand.known[s] >= 1);
            }
            if 0 <= s < n {
                crate::shake::lemma_room_covers(hand, totals, n, s as int);
            }
        }
        assert forall|s: i8| after.known.contains_key(s) implies #[trigger] after.known[s] >= 1 by {
            assert(hand.count(s) <= after.count(s));
        }
        lemma_press_upto_known_sum(hand, totals, k, n);
    }
}

/// The known cards of the first `m` suits after the first `k` suits have
/// been given what they demand.
pub proof fn lemma_press_upto_known_sum(hand: HandView, totals: Seq<int>, k: int, m: int)
    requires
        hand.wf(),
        hand.unknown > 1,
        forall|s: i8| hand.count(s) <= 4,
        totals.len() <= i8::MAX,
        0 <= k <= totals.len(),
        0 <= m <= totals.len(),
        forall|s: int| 0 <= s < totals.len() ==> 0 <= #[trigger] totals[s] <= 4,
    ensures
        press_upto(hand, totals, k).known_sum(m) == hand.known_sum(m) + demand_sum(
            hand,
            totals,
            if m < k {
                m
            } else {
                k
            },
        ),
    decreases m,
{
    if m > 0 {
        lemma_press_upto_known_sum(hand, totals, k, m - 1);
        let s = (m - 1) as i8;
        crate::shake::lemma_room_covers(hand, totals, totals.len() as int, m - 1);
        assert(hand.count(s) <= 4);
        if hand.known.contains_key(s) {
            assert(hand.known[s] >= 1);
        }
        assert(press_upto(hand, totals, k).count(s) == hand.count(s) + if m - 1 < k {
            demand(hand, totals, m - 1)
        } else {
            0
        });
    }
}

/// A hand that only excludes more has as many cards as before.
pub proof fn lemma_voids_keep_cards(before: HandView, after: HandView, n: int)
    requires
        0 <= n <= i8::MAX,
        after.known == before.known,
        after.unknown == before.unknown,
    ensures
        after.card_count(n) == before.card_count(n),
{
    lemma_known_sum_change(before, after, 0, n);
}

/// A hand has as many cards after some of its undetermined cards have been
/// determined.
pub proof fn lemma_fill_keeps_cards(hand: HandView, suit: i8, count: i8, n: int)
    requires
        0 <= suit < n <= i8::MAX,
        0 <= count <= hand.unknown,
        0 <= hand.count(suit),
        hand.count(suit) + count <= i8::MAX,
    ensures
        hand.fill(suit, count).card_count(n) == hand.card_count(n),
{
    lemma_known_sum_change(hand, hand.fill(suit, count), suit, n);
}

/// A hand has as many cards after it has been forced.
pub proof fn lemma_force_keeps_cards(hand: HandView, number_of_suits: i8)
    requires
        hand.wf(),
        0 <= number_of_suits,
        forall|s: i8| hand.count(s) + hand.unknown <= i8::MAX,
    ensures
        hand.force_unknowns(number_of_suits).card_count(number_of_suits as int) == hand.card_count(
            number_of_suits as int,
        ),
{
    match hand.forced_suit(number_of_suits) {
        Some(s) => {
            crate::hand::lemma_first_free_is_free(hand, number_of_suits as int);
            assert(hand.count(s) + hand.unknown <= i8::MAX);
            if hand.known.contains_key(s) {
                assert(hand.known[s] >= 1);
            }
            lemma_known_sum_change(hand, hand.force_unknowns(number_of_suits), s, number_of_suits as int);
        },
        None => {},
    }
}

/// The cards that are missing by the totals of a table are missing in the
/// suits of the table.
pub proof fn lemma_deficit_sum_in_range(totals: Seq<int>, upto: int)
    requires
        totals.len() <= i8::MAX,
        i8::MIN <= upto <= i8::MAX + 1,
        forall|s: int| 0 <= s < totals.len() ==> 0 <= #[trigger] totals[s] <= 4,
    ensures
        upto <= 0 ==> deficit_sum(totals_map(totals), upto) == 0,
        upto >= totals.len() ==> deficit_sum(totals_map(totals), upto) == deficit_sum(
            totals_map(totals),
            totals.len() as int,
        ),
        0 <= deficit_sum(totals_map(totals), upto),
    decreases upto - i8::MIN,
{
    if upto > i8::MIN {
        lemma_deficit_sum_in_range(totals, upto - 1);
    }
}

/// A table that one pass leaves as it is and ends on, is what the passes
/// make of it: `shake_down` changes nothing on it.
pub proof fn lemma_settled_table_stays(hands: Seq<HandView>)
    requires
        pass(hands) == Pass::Done(hands),
    ensures
        closes_to(hands, Verdict::Consistent(hands)),
{
    assert(closure_within(hands, 1) == Some(Verdict::Consistent(hands)));
}

/// `shake_down` is idempotent: what the passes make of a consistent table,
/// they leave as it is.
pub proof fn lemma_shake_down_is_idempotent(hands: Seq<HandView>, closed: Seq<HandView>)
    requires
        closes_to(hands, Verdict::Consistent(closed)),
    ensures
        closes_to(closed, Verdict::Consistent(closed)),
        crate::inference::verdict(closed) == Verdict::Consistent(closed),
{
    let passes = choose|passes: nat|
        closure_within(hands, passes) == Some(Verdict::Consistent(closed));
    crate::inference::lemma_closure_ends_settled(hands, passes, closed);
    lemma_settled_table_stays(closed);
    crate::inference::lemma_verdict(closed, Verdict::Consistent(closed));
}

} // verus!
