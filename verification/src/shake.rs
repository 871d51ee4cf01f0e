//! `shake_down`: the passes over the table that draw every conclusion the
//! rules allow.
use crate::cards::table_wf;
use crate::cards::Cards;
use crate::hand::HandView;
use crate::hand::lemma_first_free_is_free;
use crate::inference::bar_hand;
use crate::inference::demand;
use crate::inference::exclude_groups;
use crate::inference::exclude_hand;
use crate::inference::group_broken;
use crate::inference::group_holes;
use crate::inference::group_missing;
use crate::inference::group_size;
use crate::inference::group_tight;
use crate::inference::in_group;
use crate::inference::pass;
use crate::inference::shut_out;
use crate::inference::slots;
use crate::inference::sparse_need;
use crate::inference::spread;
use crate::inference::spread_hand;
use crate::inference::spread_suit;
use crate::inference::closes_to;
use crate::inference::contradictory;
use crate::inference::lemma_closes_to_one;
use crate::inference::lemma_verdict;
use crate::inference::verdict;
use crate::inference::closure_within;
use crate::inference::Pass;
use crate::inference::Verdict;
use crate::progress::free_sum;
use crate::progress::lemma_measure_falls;
use crate::progress::unknown_sum;
use crate::hand::deficit;
use crate::hand::deficit_sum;
use crate::progress::lemma_advances_chain;
use crate::progress::lemma_advances_differs;
use crate::progress::lemma_fill_advances;
use crate::progress::lemma_force_follows;
use crate::progress::lemma_kill_follows;
use crate::progress::lemma_more_voids_follows;
use crate::progress::table_advances;
use crate::progress::table_follows;
use crate::laws::lemma_fill_keeps_cards;
use crate::laws::lemma_force_keeps_cards;
use crate::laws::lemma_voids_keep_cards;
use crate::laws::lemma_fill_upto_learned;
use crate::laws::lemma_learned_chain;
use crate::laws::lemma_learned_in_one_hand;
use crate::laws::lemma_learned_nothing;
use crate::laws::lemma_press_upto_learned;
use crate::laws::only_learned;
use crate::laws::same_cards;
use crate::inference::demand_sum;
use crate::inference::fill_last;
use crate::inference::fill_open;
use crate::inference::force_all;
use crate::inference::force_changes;
use crate::inference::last_undetermined;
use crate::inference::press;
use crate::inference::press_all;
use crate::inference::press_changes;
use crate::inference::press_ok;
use crate::inference::press_upto;
use crate::inference::room;
use crate::inference::scan;
use crate::inference::totals_map;
use crate::inference::undetermined_count;
use crate::inference::last_open;
use crate::inference::open_count;
use crate::inference::open_unknowns;
use crate::inference::saturate;
use crate::inference::settle_suit;
use crate::inference::suit_total;
use crate::inference::suit_total_upto;
use crate::inference::totals_of;
use crate::inference::within_limit;
use crate::inference::Step;
use std::collections::HashMap;
use vstd::prelude::*;

verus! {

/// How a rule has left the table.
#[derive(Clone, Copy, PartialEq, Eq, Debug)]
pub enum Progress {
    /// The hands contradict each other.
    Illegal,
    /// Nothing has changed.
    Same,
    /// Something has changed.
    Changed,
}

/// The totals as mathematical integers.
pub open spec fn ints(totals: Seq<i32>) -> Seq<int> {
    Seq::new(totals.len(), |s: int| totals[s] as int)
}

/// No hand is known to hold more than `cap` cards of a suit.
pub open spec fn counts_within(hands: Seq<HandView>, cap: int) -> bool {
    forall|p: int, s: i8| 0 <= p < hands.len() ==> #[trigger] hands[p].count(s) <= cap
}

/// There is a total for every suit, and it is from 0 to 4.
pub open spec fn totals_fit(hands: Seq<HandView>, totals: Seq<int>) -> bool {
    &&& totals.len() == hands.len()
    &&& forall|s: int| 0 <= s < totals.len() ==> 0 <= #[trigger] totals[s] <= 4
}

/// The exec result `step` and the table `after` are what the rule's outcome
/// `outcome` on the table `before` asks for.
pub open spec fn step_matches(
    outcome: Step,
    step: Progress,
    before: Seq<HandView>,
    after: Seq<HandView>,
) -> bool {
    match outcome {
        Step::Illegal => step == Progress::Illegal,
        Step::Same => step == Progress::Same && after == before,
        Step::Changed(changed) => step == Progress::Changed && after == changed,
    }
}

/// A hand holds no more cards of a suit than the table as far as counted, and
/// the count does not fall.
pub proof fn lemma_total_bounds(hands: Seq<HandView>, suit: i8, n: int)
    requires
        0 <= n <= hands.len(),
        forall|p: int| 0 <= p < hands.len() ==> (#[trigger] hands[p]).wf(),
    ensures
        0 <= suit_total_upto(hands, suit, n),
        forall|p: int| 0 <= p < n ==> (#[trigger] hands[p]).count(suit) <= suit_total_upto(hands, suit, n),
        forall|m: int| 0 <= m <= n ==> #[trigger] suit_total_upto(hands, suit, m) <= suit_total_upto(hands, suit, n),
    decreases n,
{
    if n > 0 {
        lemma_total_bounds(hands, suit, n - 1);
        assert(hands[n - 1].wf());
        assert(hands[n - 1].count(suit) >= 0);
    }
}

/// Where no suit has more than four known cards, no hand has.
pub proof fn lemma_counts_within_limit(hands: Seq<HandView>)
    requires
        table_wf(hands),
        within_limit(totals_of(hands)),
    ensures
        counts_within(hands, 4),
        totals_fit(hands, totals_of(hands)),
{
    let totals = totals_of(hands);
    assert forall|p: int, s: i8| 0 <= p < hands.len() implies #[trigger] hands[p].count(s) <= 4 by {
        if hands[p].known.contains_key(s) {
            assert(0 <= s < hands.len());
            lemma_total_bounds(hands, s, hands.len() as int);
            assert(totals[s as int] == suit_total(hands, s));
        }
    }
    assert forall|s: int| 0 <= s < totals.len() implies 0 <= #[trigger] totals[s] <= 4 by {
        lemma_total_bounds(hands, s as i8, hands.len() as int);
    }
}

impl Cards {
    /// The number of known cards of each suit, or `None` where a suit has
    /// more than four.
    pub fn suit_totals(&self) -> (totals: Option<Vec<i32>>)
        requires
            self.wf(),
        ensures
            totals is None <==> !within_limit(totals_of(self@)),
            totals matches Some(t) ==> ints(t@) == totals_of(self@),
    {
        let n = self.hands.len();
        let mut totals: Vec<i32> = Vec::new();
        let mut suit: usize = 0;
        while suit < n
            invariant
                self.wf(),
                n == self@.len(),
                suit <= n,
                totals@.len() == suit,
                forall|s: int| 0 <= s < suit ==> totals@[s] == suit_total(self@, s as i8),
                forall|s: int| 0 <= s < suit ==> totals@[s] <= 4,
            decreases n - suit,
        {
            let mut total: i32 = 0;
            let mut p: usize = 0;
            while p < n
                invariant
                    self.wf(),
                    n == self@.len(),
                    suit < n,
                    p <= n,
                    total == suit_total_upto(self@, suit as i8, p as int),
                    0 <= total <= 4,
                decreases n - p,
            {
                let count = self.hands[p].known_count(suit as i8);
                assert(self@[p as int].wf());
                assert(0 <= count);
                if count as i32 > 4 - total {
                    proof {
                        lemma_total_bounds(self@, suit as i8, n as int);
                        assert(suit_total_upto(self@, suit as i8, p + 1) > 4);
                        assert(totals_of(self@)[suit as int] > 4);
                    }
                    return None;
                }
                total = total + count as i32;
                p += 1;
            }
            totals.push(total);
            suit += 1;
        }
        assert(ints(totals@) =~= totals_of(self@));
        Some(totals)
    }

    /// The rules for one suit, see [`settle_suit`].
    pub fn settle_suit(&mut self, suit: i8, total: i32) -> (step: Progress)
        requires
            old(self).wf(),
            counts_within(old(self)@, 4),
            0 <= suit < old(self)@.len(),
            1 <= total <= 4,
        ensures
            step_matches(settle_suit(old(self)@, suit, total as int), step, old(self)@, final(self)@),
            step != Progress::Illegal ==> final(self).wf() && counts_within(final(self)@, 8),
            step == Progress::Changed ==> table_advances(final(self)@, old(self)@),
            step == Progress::Illegal ==> final(self)@ == old(self)@,
            only_learned(final(self)@, old(self)@),
    {
        let n = self.hands.len();
        let ghost before = self@;
        proof {
            lemma_learned_nothing(before);
        }
        if total == 4 {
            let mut changed = false;
            let mut p: usize = 0;
            while p < n
                invariant
                    n == before.len(),
                    self@.len() == n,
                    p <= n,
                    forall|q: int| 0 <= q < p ==> self@[q] == before[q].kill_unknown(suit),
                    forall|q: int| p <= q < n ==> self@[q] == before[q],
                    changed <==> exists|q: int| 0 <= q < p && before[q].kill_changes(suit),
                decreases n - p,
            {
                let ghost prior = self@;
                if self.hands[p].kill_unknown(suit) {
                    changed = true;
                }
                assert(self@ =~= prior.update(p as int, prior[p as int].kill_unknown(suit)));
                proof {
                    if before[p as int].kill_changes(suit) {
                        assert(exists|q: int| 0 <= q < p + 1 && before[q].kill_changes(suit));
                    } else if exists|q: int| 0 <= q < p + 1 && before[q].kill_changes(suit) {
                        let q = choose|q: int| 0 <= q < p + 1 && before[q].kill_changes(suit);
                        assert(0 <= q < p && before[q].kill_changes(suit));
                    }
                }
                p += 1;
            }
            if changed {
                assert(self@ =~= saturate(before, suit));
                assert(table_wf(self@));
                assert(counts_within(self@, 8)) by {
                    assert forall|q: int, s: i8| 0 <= q < self@.len() implies #[trigger] self@[q].count(
                        s,
                    ) <= 8 by {
                        assert(before[q].count(s) <= 4);
                    }
                }
                proof {
                    assert forall|q: int| 0 <= q < n implies (#[trigger] self@[q]).follows(
                        before[q],
                    ) by {
                        assert(before[q].wf());
                        lemma_kill_follows(before[q], suit, n as int);
                    }
                    assert forall|q: int| 0 <= q < n implies (#[trigger] self@[q]).card_count(
                        n as int,
                    ) == before[q].card_count(n as int) by {
                        lemma_voids_keep_cards(before[q], self@[q], n as int);
                    }
                    let q = choose|q: int| 0 <= q < n && before[q].kill_changes(suit);
                    assert(before[q].wf());
                    lemma_kill_follows(before[q], suit, n as int);
                    assert(self@[q].advances(before[q], n as int));
                }
                Progress::Changed
            } else {
                assert forall|q: int| 0 <= q < n implies self@[q] == before[q] by {
                    assert(!before[q].kill_changes(suit));
                    assert(before[q].kill_unknown(suit).voids =~= before[q].voids);
                }
                assert(self@ =~= before);
                Progress::Same
            }
        } else {
            let missing: i32 = 4 - total;
            let mut count: usize = 0;
            let mut last: usize = 0;
            let mut unknowns: i32 = 0;
            let mut p: usize = 0;
            while p < n
                invariant
                    self@ == before,
                    table_wf(before),
                    n == before.len(),
                    p <= n,
                    count == open_count(before, suit, p as int),
                    count <= p,
                    count > 0 ==> last == last_open(before, suit, p as int) && last < p,
                    unknowns == open_unknowns(before, suit, p as int),
                    0 <= unknowns <= 4 * p,
                decreases n - p,
            {
                assert(before[p as int].wf());
                if self.hands[p].number_of_unknown_cards > 0 && !self.hands[p].known_voids.contains(
                    &suit,
                ) {
                    count += 1;
                    last = p;
                    unknowns += self.hands[p].number_of_unknown_cards as i32;
                }
                p += 1;
            }
            if count == 1 {
                assert(before[last as int].wf());
                if !self.hands[last].fill_some_unknowns(suit, missing as i8) {
                    proof {
                        lemma_last_open_is_open(before, suit, n as int);
                        assert(self@ =~= before);
                    }
                    return Progress::Illegal;
                }
                proof {
                    lemma_last_open_is_open(before, suit, n as int);
                    assert(self@ =~= before.update(
                        last as int,
                        before[last as int].fill(suit, missing as i8),
                    ));
                    assert(table_wf(self@));
                    assert forall|q: int, s: i8| 0 <= q < self@.len() implies #[trigger] self@[q].count(
                        s,
                    ) <= 8 by {
                        assert(before[q].count(s) <= 4);
                    }
                    assert(before[last as int].count(suit) <= 4);
                    lemma_fill_advances(before[last as int], suit, missing as i8, n as int);
                    lemma_fill_keeps_cards(before[last as int], suit, missing as i8, n as int);
                    assert forall|q: int| 0 <= q < n implies (#[trigger] self@[q]).follows(
                        before[q],
                    ) by {
                        assert(before[q].wf());
                    }
                    assert(self@[last as int].advances(before[last as int], n as int));
                }
                Progress::Changed
            } else if unknowns < missing {
                Progress::Illegal
            } else if unknowns == missing {
                let mut q: usize = 0;
                while q < n
                    invariant
                        table_wf(before),
                        counts_within(before, 4),
                        0 <= suit < n,
                        n == before.len(),
                        self@.len() == n,
                        q <= n,
                        forall|r: int| 0 <= r < q ==> self@[r] == fill_open(before, suit)[r],
                        forall|r: int| q <= r < n ==> self@[r] == before[r],
                    decreases n - q,
                {
                    let ghost prior = self@;
                    assert(before[q as int].wf());
                    if self.hands[q].number_of_unknown_cards > 0 && !self.hands[q].known_voids.contains(
                        &suit,
                    ) {
                        let all = self.hands[q].number_of_unknown_cards;
                        self.hands[q].fill_some_unknowns(suit, all);
                        assert(self@ =~= prior.update(q as int, before[q as int].fill(suit, all)));
                    }
                    q += 1;
                }
                assert(self@ =~= fill_open(before, suit));
                assert(table_wf(self@));
                assert forall|q: int, s: i8| 0 <= q < self@.len() implies #[trigger] self@[q].count(
                    s,
                ) <= 8 by {
                    assert(before[q].count(s) <= 4);
                    assert(before[q].wf());
                }
                proof {
                    assert forall|q: int| 0 <= q < n implies (#[trigger] self@[q]).follows(
                        before[q],
                    ) by {
                        assert(before[q].wf());
                        assert(before[q].count(suit) <= 4);
                        if before[q].open_for(suit) {
                            lemma_fill_advances(before[q], suit, before[q].unknown, n as int);
                        }
                    }
                    assert forall|q: int| 0 <= q < n implies (#[trigger] self@[q]).card_count(
                        n as int,
                    ) == before[q].card_count(n as int) by {
                        assert(before[q].wf());
                        assert(before[q].count(suit) <= 4);
                        if before[q].open_for(suit) {
                            lemma_fill_keeps_cards(before[q], suit, before[q].unknown, n as int);
                        }
                    }
                    lemma_open_exists(before, suit, n as int);
                    let q = choose|q: int| 0 <= q < n && before[q].open_for(suit);
                    assert(before[q].wf());
                    assert(before[q].count(suit) <= 4);
                    lemma_fill_advances(before[q], suit, before[q].unknown, n as int);
                    assert(self@[q].advances(before[q], n as int));
                }
                Progress::Changed
            } else {
                Progress::Same
            }
        }
    }
}

impl Cards {
    /// The rules for single suits, see [`scan`].
    pub fn scan(&mut self, totals: &Vec<i32>) -> (step: Progress)
        requires
            old(self).wf(),
            counts_within(old(self)@, 4),
            totals_fit(old(self)@, ints(totals@)),
        ensures
            step_matches(scan(old(self)@, ints(totals@), 0), step, old(self)@, final(self)@),
            step != Progress::Illegal ==> final(self).wf() && counts_within(final(self)@, 8),
            step == Progress::Changed ==> table_advances(final(self)@, old(self)@),
            step == Progress::Illegal ==> final(self)@ == old(self)@,
            only_learned(final(self)@, old(self)@),
    {
        let n = self.hands.len();
        let mut suit: usize = 0;
        proof {
            lemma_learned_nothing(self@);
        }
        while suit < n
            invariant
                self@ == old(self)@,
                self.wf(),
                counts_within(self@, 4),
                totals_fit(self@, ints(totals@)),
                n == self@.len(),
                n == self.hands@.len(),
                suit <= n,
                scan(self@, ints(totals@), 0) == scan(self@, ints(totals@), suit as int),
            decreases n - suit,
        {
            let total = totals[suit];
            assert(total == ints(totals@)[suit as int]);
            if total != 0 {
                let step = self.settle_suit(suit as i8, total);
                match step {
                    Progress::Same => {},
                    _ => {
                        return step;
                    },
                }
            }
            suit += 1;
        }
        Progress::Same
    }

    /// Forces every hand that excludes all suits but one, see [`force_all`].
    /// Returns true if a hand changed.
    pub fn force_all(&mut self) -> (changed: bool)
        requires
            old(self).wf(),
            counts_within(old(self)@, 8),
        ensures
            changed == force_changes(old(self)@),
            final(self)@ == force_all(old(self)@),
            !changed ==> final(self)@ == old(self)@,
            final(self).wf(),
            table_follows(final(self)@, old(self)@),
            changed ==> table_advances(final(self)@, old(self)@),
            only_learned(final(self)@, old(self)@),
    {
        let n = self.hands.len();
        let ghost before = self@;
        let mut changed = false;
        let mut p: usize = 0;
        while p < n
            invariant
                table_wf(before),
                counts_within(before, 8),
                n == before.len(),
                self@.len() == n,
                p <= n,
                forall|q: int| 0 <= q < p ==> self@[q] == before[q].force_unknowns(n as i8),
                forall|q: int| p <= q < n ==> self@[q] == before[q],
                changed <==> exists|q: int| 0 <= q < p && before[q].forced_suit(n as i8).is_some(),
                !changed ==> self@ == before,
            decreases n - p,
        {
            let ghost prior = self@;
            assert(before[p as int].wf());
            assert forall|s: i8| before[p as int].count(s) + before[p as int].unknown <= i8::MAX by {
                assert(before[p as int].count(s) <= 8);
            }
            let forced = self.hands[p].force_unknowns(n as i8);
            assert(self@ =~= prior.update(p as int, before[p as int].force_unknowns(n as i8)));
            proof {
                if forced {
                    assert(exists|q: int| 0 <= q < p + 1 && before[q].forced_suit(n as i8).is_some());
                } else if exists|q: int| 0 <= q < p + 1 && before[q].forced_suit(n as i8).is_some() {
                    let q = choose|q: int| 0 <= q < p + 1 && before[q].forced_suit(n as i8).is_some();
                    assert(0 <= q < p && before[q].forced_suit(n as i8).is_some());
                }
            }
            if forced {
                changed = true;
            }
            p += 1;
        }
        proof {
            assert(self@ =~= force_all(before));
            assert forall|q: int| 0 <= q < n implies (#[trigger] self@[q]).wf() by {
                assert(before[q].wf());
            }
            assert forall|q: int, s: i8|
                0 <= q < n && #[trigger] self@[q].known.contains_key(s) implies 0 <= s < n by {
                if before[q].forced_suit(n as i8).is_some() {
                    lemma_first_free_is_free(before[q], n as int);
                }
                if s != before[q].first_free(n as int).unwrap() {
                    assert(before[q].known.contains_key(s));
                }
            }
            assert forall|q: int, s: i8|
                0 <= q < n && #[trigger] self@[q].voids.contains(s) implies 0 <= s < n by {
                assert(before[q].voids.contains(s));
            }
            assert forall|q: int| 0 <= q < n implies (#[trigger] self@[q]).follows(before[q]) by {
                assert(before[q].wf());
                assert forall|s: i8| before[q].count(s) + before[q].unknown <= i8::MAX by {
                    assert(before[q].count(s) <= 8);
                }
                lemma_force_follows(before[q], n as i8, n as int);
            }
            assert forall|q: int| 0 <= q < n implies (#[trigger] self@[q]).card_count(n as int)
                == before[q].card_count(n as int) by {
                assert(before[q].wf());
                assert forall|s: i8| before[q].count(s) + before[q].unknown <= i8::MAX by {
                    assert(before[q].count(s) <= 8);
                }
                lemma_force_keeps_cards(before[q], n as i8);
            }
            if changed {
                let q = choose|q: int| 0 <= q < n && before[q].forced_suit(n as i8).is_some();
                assert(before[q].wf());
                assert forall|s: i8| before[q].count(s) + before[q].unknown <= i8::MAX by {
                    assert(before[q].count(s) <= 8);
                }
                lemma_force_follows(before[q], n as i8, n as int);
                assert(self@[q].advances(before[q], n as int));
            }
        }
        changed
    }

    /// The rule for a table on which only one hand has undetermined cards,
    /// see [`fill_last`].
    pub fn fill_last(&mut self, totals: &Vec<i32>) -> (step: Progress)
        requires
            old(self).wf(),
            counts_within(old(self)@, 4),
            totals_fit(old(self)@, ints(totals@)),
        ensures
            step_matches(fill_last(old(self)@, ints(totals@)), step, old(self)@, final(self)@),
            step != Progress::Illegal ==> final(self).wf(),
            step == Progress::Changed ==> table_advances(final(self)@, old(self)@),
            only_learned(final(self)@, old(self)@),
    {
        let n = self.hands.len();
        let ghost before = self@;
        proof {
            lemma_learned_nothing(before);
        }
        let mut count: usize = 0;
        let mut last: usize = 0;
        let mut p: usize = 0;
        while p < n
            invariant
                self@ == before,
                n == before.len(),
                p <= n,
                count == undetermined_count(before, p as int),
                count <= p,
                count > 0 ==> last == last_undetermined(before, p as int) && last < p,
            decreases n - p,
        {
            if self.hands[p].number_of_unknown_cards > 0 {
                count += 1;
                last = p;
            }
            p += 1;
        }
        if count != 1 {
            return Progress::Same;
        }
        let mut known: HashMap<i8, i8> = HashMap::new();
        let mut suit: usize = 0;
        assert forall|s: int| 0 <= s < n implies 0 <= #[trigger] totals@[s] <= 4 by {
            assert(ints(totals@)[s] == totals@[s]);
        }
        while suit < n
            invariant
                n == totals@.len(),
                n <= i8::MAX,
                suit <= n,
                forall|s: int| 0 <= s < n ==> 0 <= #[trigger] totals@[s] <= 4,
                known@ =~= Map::new(
                    |s: i8| 0 <= s < suit && totals@[s as int] > 0,
                    |s: i8| totals@[s as int] as i8,
                ),
            decreases n - suit,
        {
            if totals[suit] > 0 {
                known.insert(suit as i8, totals[suit] as i8);
            }
            suit += 1;
        }
        assert(known@ =~= totals_map(ints(totals@)));
        assert(before[last as int].wf());
        assert forall|s: i8| before[last as int].count(s) + 4 <= i8::MAX by {
            assert(before[last as int].count(s) <= 4);
        }
        let ok = self.hands[last].fill_unknowns(&mut known);
        proof {
            let marks = ints(totals@);
            let hand = before[last as int];
            let upto = choose|upto: int|
                i8::MIN <= upto <= i8::MAX + 1 && self@[last as int] == #[trigger] hand.fill_upto(
                    totals_map(marks),
                    upto,
                ) && deficit_sum(totals_map(marks), upto) <= hand.unknown;
            assert forall|s: int| 0 <= s < marks.len() implies 0 <= #[trigger] marks[s] <= 4 by {}
            assert forall|s: i8| hand.count(s) <= 4 by {}
            assert forall|s: i8| hand.known.contains_key(s) implies 0 <= s < marks.len() by {}
            lemma_fill_upto_learned(hand, marks, upto);
            assert forall|s: i8| self@[last as int].voids.contains(s) implies 0 <= s < n by {
                assert(hand.voids.contains(s));
            }
            assert(self@ =~= before.update(last as int, self@[last as int]));
            lemma_learned_in_one_hand(before, last as int, self@[last as int]);
        }
        if !ok {
            return Progress::Illegal;
        }
        proof {
            let filled = before[last as int].fill_unknowns(totals_map(ints(totals@)));
            assert(self@ =~= before.update(last as int, filled));
            assert(filled.wf());
            assert forall|s: i8| filled.known.contains_key(s) implies 0 <= s < n by {
                if !before[last as int].known.contains_key(s) {
                    assert(deficit(totals_map(ints(totals@)), s) > 0);
                }
            }
            assert forall|s: i8| filled.voids.contains(s) implies 0 <= s < n by {
                assert(before[last as int].voids.contains(s));
            }
            crate::cards::lemma_update_wf(before, last as int, filled);
            lemma_last_undetermined(before, n as int);
            assert forall|s: i8| before[last as int].count(s) <= 4 by {}
            lemma_fill_unknowns_advances(before[last as int], totals_map(ints(totals@)), n as int);
            assert forall|q: int| 0 <= q < n implies (#[trigger] self@[q]).follows(before[q]) by {
                assert(before[q].wf());
            }
            assert(self@[last as int].advances(before[last as int], n as int));
        }
        Progress::Changed
    }

    /// The rule of demand on one hand, see [`press`].
    pub fn press_hand(&mut self, p: usize, totals: &Vec<i32>) -> (step: Progress)
        requires
            old(self).wf(),
            p < old(self)@.len(),
            forall|s: i8| old(self)@[p as int].count(s) <= 4,
            totals_fit(old(self)@, ints(totals@)),
        ensures
            step == Progress::Illegal <==> !press_ok(old(self)@[p as int], ints(totals@)),
            step == Progress::Changed <==> press_ok(old(self)@[p as int], ints(totals@))
                && press_changes(old(self)@[p as int], ints(totals@)),
            step != Progress::Illegal ==> final(self)@ == old(self)@.update(
                p as int,
                press(old(self)@[p as int], ints(totals@)),
            ) && final(self).wf(),
            step == Progress::Same ==> final(self)@ == old(self)@,
            only_learned(final(self)@, old(self)@),
    {
        let n = self.hands.len();
        proof {
            lemma_learned_nothing(self@);
        }
        let ghost before = self@;
        let ghost hand = before[p as int];
        let ghost marks = ints(totals@);
        assert(hand.wf());
        let unknowns = self.hands[p].number_of_unknown_cards;
        if unknowns <= 1 {
            assert(self@ =~= before.update(p as int, press(hand, marks)));
            return Progress::Same;
        }
        let mut possible: i32 = 0;
        let mut suit: usize = 0;
        while suit < n
            invariant
                self@ == before,
                hand == before[p as int],
                marks == ints(totals@),
                totals_fit(before, marks),
                n == before.len(),
                p < n,
                n <= i8::MAX,
                suit <= n,
                possible == room(hand, marks, suit as int),
                0 <= possible <= 4 * suit,
                totals@.len() == n,
                self.hands@.len() == n,
            decreases n - suit,
        {
            assert(marks[suit as int] == totals@[suit as int]);
            if totals[suit] < 4 && !self.hands[p].known_voids.contains(&(suit as i8)) {
                possible += 4 - totals[suit];
            }
            suit += 1;
        }
        if possible < unknowns as i32 {
            return Progress::Illegal;
        }
        let mut changed = false;
        let mut suit: usize = 0;
        assert(self@ =~= before.update(p as int, press_upto(hand, marks, 0))) by {
            assert(press_upto(hand, marks, 0).known =~= hand.known);
        }
        while suit < n
            invariant
                before == old(self)@,
                table_wf(before),
                hand == before[p as int],
                hand.wf(),
                forall|s: i8| hand.count(s) <= 4,
                unknowns == hand.unknown,
                unknowns > 1,
                marks == ints(totals@),
                totals_fit(before, marks),
                n == before.len(),
                p < n,
                n <= i8::MAX,
                suit <= n,
                possible == room(hand, marks, n as int),
                totals@.len() == n,
                self.hands@.len() == n,
                self@ == before.update(p as int, press_upto(hand, marks, suit as int)),
                self@[p as int].unknown == hand.unknown - demand_sum(hand, marks, suit as int),
                self@[p as int].unknown >= 0,
                changed <==> demand_sum(hand, marks, suit as int) > 0,
                0 <= demand_sum(hand, marks, suit as int),
                !changed ==> self@ == before,
            decreases n - suit,
        {
            let ghost prior = self@;
            assert(marks[suit as int] == totals@[suit as int]);
            proof {
                lemma_room_covers(hand, marks, n as int, suit as int);
            }
            if totals[suit] < 4 && !self.hands[p].known_voids.contains(&(suit as i8)) {
                let remaining: i32 = possible - (4 - totals[suit]);
                if remaining < unknowns as i32 {
                    let min_suit: i32 = unknowns as i32 - remaining;
                    assert(min_suit == demand(hand, marks, suit as int));
                    assert(prior[p as int].count(suit as i8) == hand.count(suit as i8));
                    if !self.hands[p].fill_some_unknowns(suit as i8, min_suit as i8) {
                        proof {
                            lemma_demand_sum_rises(hand, marks, suit as int + 1, n as int);
                            assert(!prior[p as int].can_fill(suit as i8, min_suit as i8));
                            assert(prior[p as int].voids == hand.voids);
                            assert(demand_sum(hand, marks, suit as int + 1) > hand.unknown);
                            assert(!press_ok(hand, marks));
                            assert(self@ =~= prior);
                            lemma_pressed_so_far(before, p as int, marks, suit as int);
                        }
                        return Progress::Illegal;
                    }
                    changed = true;
                    assert(self@ =~= prior.update(
                        p as int,
                        prior[p as int].fill(suit as i8, min_suit as i8),
                    ));
                }
            }
            suit += 1;
            proof {
                let target = press_upto(hand, marks, suit as int);
                assert(demand_sum(hand, marks, suit as int) == demand_sum(hand, marks, suit - 1)
                    + demand(hand, marks, suit - 1));
                assert(self@[p as int].known =~= target.known);
                assert(self@[p as int].voids == target.voids);
                assert(self@[p as int].unknown == target.unknown);
                assert(self@[p as int] == target);
                assert(self@ =~= before.update(p as int, target));
            }
        }
        proof {
            let pressed = press(hand, marks);
            assert forall|s: i8| pressed.known.contains_key(s) implies #[trigger] pressed.known[s]
                >= 1 by {
                if hand.known.contains_key(s) {
                    assert(hand.known[s] >= 1);
                }
                if 0 <= s < n {
                    lemma_room_covers(hand, marks, n as int, s as int);
                }
            }
            assert(pressed.wf());
            assert(table_wf(self@));
            lemma_pressed_so_far(before, p as int, marks, n as int);
        }
        if changed {
            Progress::Changed
        } else {
            Progress::Same
        }
    }

    /// The rule of demand on every hand, see [`press_all`].
    pub fn press_all(&mut self, totals: &Vec<i32>) -> (step: Progress)
        requires
            old(self).wf(),
            counts_within(old(self)@, 4),
            totals_fit(old(self)@, ints(totals@)),
        ensures
            step_matches(press_all(old(self)@, ints(totals@)), step, old(self)@, final(self)@),
            step != Progress::Illegal ==> final(self).wf(),
            step == Progress::Changed ==> table_advances(final(self)@, old(self)@),
            only_learned(final(self)@, old(self)@),
    {
        let n = self.hands.len();
        let ghost before = self@;
        let ghost marks = ints(totals@);
        proof {
            lemma_learned_nothing(before);
        }
        let mut changed = false;
        let mut p: usize = 0;
        while p < n
            invariant
                before == old(self)@,
                table_wf(before),
                counts_within(before, 4),
                marks == ints(totals@),
                totals_fit(before, marks),
                self.wf(),
                n == before.len(),
                self@.len() == n,
                p <= n,
                forall|q: int| 0 <= q < p ==> press_ok(before[q], marks),
                forall|q: int| 0 <= q < p ==> self@[q] == press(before[q], marks),
                forall|q: int| p <= q < n ==> self@[q] == before[q],
                changed <==> exists|q: int| 0 <= q < p && press_changes(before[q], marks),
                !changed ==> self@ == before,
                only_learned(self@, before),
            decreases n - p,
        {
            let ghost prior = self@;
            assert forall|s: i8| prior[p as int].count(s) <= 4 by {
                assert(before[p as int].count(s) <= 4);
            }
            let step = self.press_hand(p, totals);
            proof {
                lemma_learned_chain(self@, prior, before);
            }
            proof {
                if press_changes(before[p as int], marks) {
                    assert(exists|q: int| 0 <= q < p + 1 && press_changes(before[q], marks));
                } else if exists|q: int| 0 <= q < p + 1 && press_changes(before[q], marks) {
                    let q = choose|q: int| 0 <= q < p + 1 && press_changes(before[q], marks);
                    assert(0 <= q < p && press_changes(before[q], marks));
                }
            }
            match step {
                Progress::Illegal => {
                    assert(!press_ok(before[p as int], marks));
                    return Progress::Illegal;
                },
                Progress::Changed => {
                    changed = true;
                },
                Progress::Same => {},
            }
            p += 1;
        }
        if changed {
            assert(self@ =~= Seq::new(before.len(), |q: int| press(before[q], marks)));
            proof {
                assert forall|q: int| 0 <= q < n implies (#[trigger] self@[q]).follows(before[q]) by {
                    assert(before[q].wf());
                    assert forall|s: i8| before[q].count(s) <= 4 by {}
                    lemma_press_follows(before[q], marks, n as int);
                }
                let q = choose|q: int| 0 <= q < n && press_changes(before[q], marks);
                assert(before[q].wf());
                assert forall|s: i8| before[q].count(s) <= 4 by {}
                lemma_press_follows(before[q], marks, n as int);
                assert(self@[q].advances(before[q], n as int));
            }
            Progress::Changed
        } else {
            Progress::Same
        }
    }
}

/// How the undetermined cards of a group fit the cards that its suits miss.
#[derive(Clone, Copy, PartialEq, Eq, Debug)]
pub enum Fit {
    /// There are more undetermined cards than cards missing.
    Broken,
    /// There are just as many.
    Tight,
    /// There are fewer, or the hand forms no group of more than one.
    Loose,
}

impl Cards {
    /// The rule for a suit of which at most two cards are known, see
    /// [`spread_suit`].
    pub fn spread_suit(&mut self, suit: i8, total: i32) -> (step: Progress)
        requires
            old(self).wf(),
            0 <= suit < old(self)@.len(),
            0 <= total <= 2,
            forall|p: int| 0 <= p < old(self)@.len() ==> old(self)@[p].count(suit) <= 4,
        ensures
            step == Progress::Illegal <==> spread_suit(old(self)@, suit, total as int).is_none(),
            step != Progress::Illegal ==> final(self)@ == spread_suit(
                old(self)@,
                suit,
                total as int,
            ).unwrap(),
            step == Progress::Same ==> final(self)@ == old(self)@,
            step == Progress::Changed ==> table_advances(final(self)@, old(self)@),
            only_learned(final(self)@, old(self)@),
    {
        let n = self.hands.len();
        let ghost before = self@;
        let mut changed = false;
        let ghost mut filled: int = 0;
        let mut places: i32 = 0;
        let mut p: usize = 0;
        while p < n
            invariant
                self@ == before,
                table_wf(before),
                n == before.len(),
                self.hands@.len() == n,
                p <= n,
                places == slots(before, suit, p as int),
                0 <= places <= 4 * p,
            decreases n - p,
        {
            assert(before[p as int].wf());
            if !self.hands[p].known_voids.contains(&suit) {
                places += self.hands[p].number_of_unknown_cards as i32;
            }
            p += 1;
        }
        let mut p: usize = 0;
        while p < n
            invariant
                before == old(self)@,
                table_wf(before),
                0 <= suit < n,
                0 <= total <= 2,
                forall|q: int| 0 <= q < n ==> before[q].count(suit) <= 4,
                n == before.len(),
                self.hands@.len() == n,
                self@.len() == n,
                p <= n,
                places == slots(before, suit, n as int),
                forall|q: int|
                    0 <= q < p ==> sparse_need(before[q], suit, total as int, places as int)
                        <= before[q].unknown,
                forall|q: int|
                    0 <= q < p ==> self@[q] == spread_hand(
                        before[q],
                        suit,
                        total as int,
                        places as int,
                    ),
                forall|q: int| p <= q < n ==> self@[q] == before[q],
                !changed ==> self@ == before,
                changed ==> 0 <= filled < p && sparse_need(
                    before[filled],
                    suit,
                    total as int,
                    places as int,
                ) > 0,
            decreases n - p,
        {
            let ghost prior = self@;
            assert(before[p as int].wf());
            proof {
                lemma_slots_cover(before, suit, n as int, p as int);
            }
            if !self.hands[p].known_voids.contains(&suit) {
                let other: i32 = places - self.hands[p].number_of_unknown_cards as i32;
                if other < total {
                    let need: i32 = total - other;
                    assert(need == sparse_need(before[p as int], suit, total as int, places as int));
                    if !self.hands[p].fill_some_unknowns(suit, need as i8) {
                        proof {
                            assert(self@ =~= prior);
                            lemma_spread_so_far(before, self@, suit, total as int, places as int, p as int);
                        }
                        return Progress::Illegal;
                    }
                    assert(self@ =~= prior.update(p as int, before[p as int].fill(suit, need as i8)));
                    changed = true;
                    proof {
                        filled = p as int;
                    }
                }
            }
            p += 1;
        }
        proof {
            lemma_spread_so_far(before, self@, suit, total as int, places as int, n as int);
            assert(self@ =~= spread_suit(before, suit, total as int).unwrap());
            assert forall|q: int| 0 <= q < n implies (#[trigger] self@[q]).wf() by {
                assert(before[q].wf());
            }
            assert forall|q: int, s: i8|
                0 <= q < n && #[trigger] self@[q].known.contains_key(s) implies 0 <= s < n by {
                if s != suit {
                    assert(before[q].known.contains_key(s));
                }
            }
            assert forall|q: int, s: i8|
                0 <= q < n && #[trigger] self@[q].voids.contains(s) implies 0 <= s < n by {
                assert(before[q].voids.contains(s));
            }
            if changed {
                let need = sparse_need(before[filled], suit, total as int, places as int);
                assert(before[filled].wf());
                assert(before[filled].count(suit) <= 4);
                lemma_slots_cover(before, suit, n as int, filled);
                lemma_fill_advances(before[filled], suit, need as i8, n as int);
                assert(self@[filled] == spread_hand(before[filled], suit, total as int, places as int));
                assert(self@[filled].advances(before[filled], n as int));
            }
        }
        if changed {
            Progress::Changed
        } else {
            Progress::Same
        }
    }

    /// The rule for the suits of which at most two cards are known, see
    /// [`spread`].
    pub fn spread(&mut self, totals: &Vec<i32>) -> (step: Progress)
        requires
            old(self).wf(),
            counts_within(old(self)@, 4),
            totals_fit(old(self)@, ints(totals@)),
        ensures
            step == Progress::Illegal <==> spread(
                old(self)@,
                ints(totals@),
                old(self)@.len() as int,
            ).is_none(),
            step != Progress::Illegal ==> final(self)@ == spread(
                old(self)@,
                ints(totals@),
                old(self)@.len() as int,
            ).unwrap(),
            step != Progress::Illegal ==> (step == Progress::Same) == (final(self)@ == old(self)@),
            step == Progress::Changed ==> table_advances(final(self)@, old(self)@),
            only_learned(final(self)@, old(self)@),
    {
        let n = self.hands.len();
        let ghost before = self@;
        let ghost marks = ints(totals@);
        let mut changed = false;
        let mut suit: usize = 0;
        proof {
            lemma_learned_nothing(before);
        }
        while suit < n
            invariant
                before == old(self)@,
                marks == ints(totals@),
                totals_fit(before, marks),
                self.wf(),
                n == before.len(),
                n == totals@.len(),
                self@.len() == n,
                self.hands@.len() == n,
                suit <= n,
                spread(before, marks, suit as int) == Some(self@),
                only_learned(self@, before),
                !changed ==> self@ == before,
                changed ==> table_advances(self@, before),
                forall|q: int, s: i8| 0 <= q < n && suit <= s ==> self@[q].count(s) <= 4,
            decreases n - suit,
        {
            let ghost prior = self@;
            assert(marks[suit as int] == totals@[suit as int]);
            if totals[suit] <= 2 {
                let step = self.spread_suit(suit as i8, totals[suit]);
                proof {
                    lemma_learned_chain(self@, prior, before);
                }
                match step {
                    Progress::Illegal => {
                        assert(spread(before, marks, suit + 1).is_none());
                        proof {
                            lemma_spread_stays_none(before, marks, suit + 1, n as int);
                        }
                        return Progress::Illegal;
                    },
                    Progress::Changed => {
                        proof {
                            lemma_advances_chain(self@, prior, before);
                        }
                        changed = true;
                    },
                    Progress::Same => {},
                }
                assert forall|q: int, s: i8| 0 <= q < n && suit + 1 <= s implies self@[q].count(s)
                    <= 4 by {
                    assert(prior[q].count(s) <= 4);
                }
            }
            suit += 1;
        }
        if changed {
            proof {
                lemma_advances_differs(self@, before);
            }
            Progress::Changed
        } else {
            Progress::Same
        }
    }

    /// True if the hand takes part in the grouping.
    pub fn grouped(&self, p: usize) -> (yes: bool)
        requires
            p < self@.len(),
        ensures
            yes == self@[p as int].grouped(),
    {
        self.hands[p].number_of_unknown_cards > 0 && self.hands[p].known_voids.len() > 1
    }

    /// True if hand `q` belongs to the group of hand `p`, see [`in_group`].
    pub fn in_group(&self, p: usize, q: usize) -> (yes: bool)
        requires
            self@.len() <= i8::MAX,
            p < self@.len(),
            q < self@.len(),
        ensures
            yes == in_group(self@, p as int, q as int),
    {
        if !self.grouped(p) || !self.grouped(q) {
            return false;
        }
        let n = self.hands.len();
        let mut suit: usize = 0;
        while suit < n
            invariant
                n == self@.len(),
                n == self.hands@.len(),
                n <= i8::MAX,
                p < n,
                q < n,
                suit <= n,
                self@[q as int].same_frees(self@[p as int], suit as int),
            decreases n - suit,
        {
            if self.hands[p].known_voids.contains(&(suit as i8)) != self.hands[q].known_voids.contains(
                &(suit as i8),
            ) {
                assert(self@[q as int].voids.contains(suit as i8) != self@[p as int].voids.contains(
                    suit as i8,
                ));
                return false;
            }
            suit += 1;
        }
        true
    }

    /// How the group of hand `p` fits what its suits miss, see
    /// [`group_broken`] and [`group_tight`].
    pub fn group_fit(&self, p: usize, totals: &Vec<i32>) -> (fit: Fit)
        requires
            self.wf(),
            p < self@.len(),
            totals_fit(self@, ints(totals@)),
        ensures
            fit is Broken <==> group_broken(self@, ints(totals@), p as int),
            fit is Tight <==> group_tight(self@, ints(totals@), p as int),
    {
        if !self.grouped(p) {
            return Fit::Loose;
        }
        let n = self.hands.len();
        let ghost marks = ints(totals@);
        let mut size: usize = 0;
        let mut holes: i32 = 0;
        let mut q: usize = 0;
        while q < n
            invariant
                self.wf(),
                n == self@.len(),
                n == self.hands@.len(),
                p < n,
                q <= n,
                size == group_size(self@, p as int, q as int),
                size <= q,
                holes == group_holes(self@, p as int, q as int),
                0 <= holes <= 4 * q,
            decreases n - q,
        {
            assert(self@[q as int].wf());
            if self.in_group(p, q) {
                size += 1;
                holes += self.hands[q].number_of_unknown_cards as i32;
            }
            q += 1;
        }
        if size <= 1 {
            return Fit::Loose;
        }
        let mut missing: i32 = 0;
        let mut suit: usize = 0;
        while suit < n
            invariant
                marks == ints(totals@),
                totals_fit(self@, marks),
                n == self@.len(),
                n == self.hands@.len(),
                n == totals@.len(),
                n <= i8::MAX,
                p < n,
                suit <= n,
                missing == group_missing(self@[p as int], marks, suit as int),
                0 <= missing <= 4 * suit,
            decreases n - suit,
        {
            assert(marks[suit as int] == totals@[suit as int]);
            if !self.hands[p].known_voids.contains(&(suit as i8)) {
                missing += 4 - totals[suit];
            }
            suit += 1;
        }
        if missing < holes {
            Fit::Broken
        } else if missing == holes {
            Fit::Tight
        } else {
            Fit::Loose
        }
    }

    /// Shuts every hand that is not in the group of hand `p` of the table
    /// `before` out of the suits that the group leaves open. Returns true if
    /// that was news for a hand.
    pub fn bar_others(&mut self, before: &Cards, p: usize) -> (changed: bool)
        requires
            old(self).wf(),
            before.wf(),
            before@.len() == old(self)@.len(),
            p < before@.len(),
        ensures
            final(self).wf(),
            final(self)@.len() == old(self)@.len(),
            forall|q: int|
                0 <= q < old(self)@.len() ==> final(self)@[q] == if in_group(before@, p as int, q) {
                    old(self)@[q]
                } else {
                    bar_hand(old(self)@[q], before@[p as int], before@.len() as int, before@.len() as int)
                },
            changed <==> exists|q: int, s: i8|
                0 <= q < old(self)@.len() && final(self)@[q].voids.contains(s) && !old(
                    self,
                )@[q].voids.contains(s),
            table_follows(final(self)@, old(self)@),
            same_cards(final(self)@, old(self)@),
    {
        let n = self.hands.len();
        let ghost start = self@;
        let ghost leader = before@[p as int];
        let mut changed = false;
        let mut q: usize = 0;
        while q < n
            invariant
                start == old(self)@,
                table_wf(start),
                before.wf(),
                leader == before@[p as int],
                n == start.len(),
                n == before@.len(),
                n == self.hands@.len(),
                self@.len() == n,
                p < n,
                q <= n,
                forall|r: int|
                    0 <= r < q ==> self@[r] == if in_group(before@, p as int, r) {
                        start[r]
                    } else {
                        bar_hand(start[r], leader, n as int, n as int)
                    },
                forall|r: int| q <= r < n ==> self@[r] == start[r],
                changed <==> exists|r: int, s: i8|
                    0 <= r < n && self@[r].voids.contains(s) && !start[r].voids.contains(s),
            decreases n - q,
        {
            if !before.in_group(p, q) {
                let ghost entry = self@;
                let mut suit: usize = 0;
                assert(self@[q as int].voids =~= bar_hand(start[q as int], leader, n as int, 0).voids);
                while suit < n
                    invariant
                        start == old(self)@,
                        table_wf(start),
                        leader == before@[p as int],
                        n == start.len(),
                        n == before@.len(),
                        n == before.hands@.len(),
                        n == self.hands@.len(),
                        n <= i8::MAX,
                        self@.len() == n,
                        p < n,
                        q < n,
                        suit <= n,
                        entry.len() == n,
                        forall|r: int| 0 <= r < n && r != q ==> self@[r] == entry[r],
                        entry[q as int] == start[q as int],
                        self@[q as int] == bar_hand(start[q as int], leader, n as int, suit as int),
                        changed <==> exists|r: int, s: i8|
                            0 <= r < n && self@[r].voids.contains(s) && !start[r].voids.contains(s),
                    decreases n - suit,
                {
                    let ghost prior = self@;
                    if !before.hands[p].known_voids.contains(&(suit as i8)) {
                        let news = self.hands[q].kill_unknown(suit as i8);
                        assert(self@ =~= prior.update(
                            q as int,
                            prior[q as int].kill_unknown(suit as i8),
                        ));
                        proof {
                            if news {
                                assert(self@[q as int].voids.contains(suit as i8) && !start[q as int].voids.contains(
                                    suit as i8,
                                ));
                            } else {
                                assert(self@[q as int].voids =~= prior[q as int].voids);
                                lemma_same_news(prior, self@, start, q as int);
                            }
                        }
                        if news {
                            changed = true;
                        }
                    }
                    suit += 1;
                    assert(self@[q as int].voids =~= bar_hand(
                        start[q as int],
                        leader,
                        n as int,
                        suit as int,
                    ).voids);
                }
                assert forall|r: int| 0 <= r < q implies self@[r] == if in_group(
                    before@,
                    p as int,
                    r,
                ) {
                    start[r]
                } else {
                    bar_hand(start[r], leader, n as int, n as int)
                } by {
                    assert(self@[r] == entry[r]);
                }
                assert forall|r: int| q < r < n implies self@[r] == start[r] by {
                    assert(self@[r] == entry[r]);
                }
            }
            q += 1;
        }
        proof {
            assert forall|r: int| 0 <= r < n implies (#[trigger] self@[r]).wf() by {
                assert(start[r].wf());
            }
            assert forall|r: int, s: i8|
                0 <= r < n && #[trigger] self@[r].known.contains_key(s) implies 0 <= s < n by {
                assert(start[r].known.contains_key(s));
            }
            assert forall|r: int, s: i8|
                0 <= r < n && #[trigger] self@[r].voids.contains(s) implies 0 <= s < n by {
                if !start[r].voids.contains(s) {
                    assert(leader.free(s, n as int));
                }
            }
            assert forall|r: int| 0 <= r < n implies (#[trigger] self@[r]).follows(start[r]) by {
                assert(start[r].wf());
                lemma_more_voids_follows(self@[r], start[r], n as int);
            }
            assert forall|r: int| 0 <= r < n implies (#[trigger] self@[r]).card_count(n as int)
                == start[r].card_count(n as int) by {
                lemma_voids_keep_cards(start[r], self@[r], n as int);
            }
        }
        changed
    }
}

/// How a pass has left the table.
#[derive(Clone, Copy, PartialEq, Eq, Debug)]
pub enum PassEnd {
    /// The hands contradict each other.
    Illegal,
    /// The table has changed, and another pass is due.
    Again,
    /// The passes end here.
    Done,
}

/// The exec result `end` and the table `after` are what the outcome of a
/// pass asks for.
pub open spec fn pass_matches(outcome: Pass, end: PassEnd, after: Seq<HandView>) -> bool {
    match outcome {
        Pass::Illegal => end is Illegal,
        Pass::Again(changed) => end is Again && after == changed,
        Pass::Done(closed) => end is Done && after == closed,
    }
}

impl Cards {
    /// The rule of the groups, see [`exclude_groups`].
    pub fn exclude_groups(&mut self, totals: &Vec<i32>) -> (step: Progress)
        requires
            old(self).wf(),
            totals_fit(old(self)@, ints(totals@)),
        ensures
            step_matches(exclude_groups(old(self)@, ints(totals@)), step, old(self)@, final(self)@),
            step != Progress::Illegal ==> final(self).wf(),
            step == Progress::Changed ==> table_advances(final(self)@, old(self)@),
            step == Progress::Illegal ==> final(self)@ == old(self)@,
            only_learned(final(self)@, old(self)@),
    {
        let n = self.hands.len();
        let ghost start = self@;
        let ghost marks = ints(totals@);
        proof {
            lemma_learned_nothing(start);
        }
        let mut tight: Vec<bool> = Vec::new();
        let mut any = false;
        let mut p: usize = 0;
        while p < n
            invariant
                self@ == start,
                start == old(self)@,
                self.wf(),
                marks == ints(totals@),
                totals_fit(start, marks),
                n == start.len(),
                p <= n,
                tight@.len() == p,
                forall|r: int| 0 <= r < p ==> !group_broken(start, marks, r),
                forall|r: int| 0 <= r < p ==> tight@[r] == group_tight(start, marks, r),
                !any ==> forall|r: int| 0 <= r < p ==> !group_tight(start, marks, r),
            decreases n - p,
        {
            match self.group_fit(p, totals) {
                Fit::Broken => {
                    assert(group_broken(start, marks, p as int));
                    return Progress::Illegal;
                },
                Fit::Tight => {
                    tight.push(true);
                    any = true;
                },
                Fit::Loose => {
                    tight.push(false);
                },
            }
            p += 1;
        }
        if !any {
            assert forall|q: int, s: i8| 0 <= q < n implies !shut_out(start, marks, n as int, q, s) by {
                if shut_out(start, marks, n as int, q, s) {
                    let r = choose|r: int|
                        0 <= r < n && group_tight(start, marks, r) && !in_group(start, r, q)
                            && start[r].free(s, start.len() as int);
                    assert(!group_tight(start, marks, r));
                }
            }
            return Progress::Same;
        }
        let before = self.duplicate();
        let mut changed = false;
        let mut p: usize = 0;
        assert forall|q: int| 0 <= q < n implies self@[q] == exclude_hand(start, marks, 0, q) by {
            assert(exclude_hand(start, marks, 0, q).voids =~= start[q].voids);
        }
        while p < n
            invariant
                start == old(self)@,
                before@ == start,
                table_wf(start),
                self.wf(),
                marks == ints(totals@),
                n == start.len(),
                self@.len() == n,
                p <= n,
                tight@.len() == n,
                forall|r: int| 0 <= r < n ==> !group_broken(start, marks, r),
                forall|r: int| 0 <= r < n ==> tight@[r] == group_tight(start, marks, r),
                forall|q: int| 0 <= q < n ==> self@[q] == exclude_hand(start, marks, p as int, q),
                changed <==> exists|q: int, s: i8|
                    0 <= q < n && self@[q].voids.contains(s) && !start[q].voids.contains(s),
            decreases n - p,
        {
            let ghost prior = self@;
            if tight[p] {
                let news = self.bar_others(&before, p);
                proof {
                    if news {
                        let (q, s) = choose|q: int, s: i8|
                            0 <= q < n && self@[q].voids.contains(s) && !prior[q].voids.contains(
                                s,
                            );
                        assert(!start[q].voids.contains(s));
                    } else if exists|q: int, s: i8|
                        0 <= q < n && self@[q].voids.contains(s) && !start[q].voids.contains(s) {
                        let (q, s) = choose|q: int, s: i8|
                            0 <= q < n && self@[q].voids.contains(s) && !start[q].voids.contains(
                                s,
                            );
                        assert(prior[q].voids.contains(s));
                    }
                    if changed {
                        let (q, s) = choose|q: int, s: i8|
                            0 <= q < n && prior[q].voids.contains(s) && !start[q].voids.contains(
                                s,
                            );
                        assert(self@[q].voids.contains(s));
                    }
                }
                if news {
                    changed = true;
                }
            }
            proof {
                assert forall|q: int| 0 <= q < n implies self@[q] == exclude_hand(
                    start,
                    marks,
                    p + 1,
                    q,
                ) by {
                    lemma_exclude_step(start, marks, p as int, q);
                }
            }
            p += 1;
        }
        if changed {
            proof {
                let (q, s) = choose|q: int, s: i8|
                    0 <= q < n && self@[q].voids.contains(s) && !start[q].voids.contains(s);
                assert(shut_out(start, marks, n as int, q, s) && start[q].kill_changes(s));
                assert(self@ =~= Seq::new(
                    start.len(),
                    |q: int| exclude_hand(start, marks, n as int, q),
                ));
                assert forall|r: int| 0 <= r < n implies (#[trigger] self@[r]).follows(start[r]) by {
                    assert(start[r].wf());
                    lemma_more_voids_follows(self@[r], start[r], n as int);
                }
                assert forall|r: int| 0 <= r < n implies (#[trigger] self@[r]).card_count(n as int)
                    == start[r].card_count(n as int) by {
                    lemma_voids_keep_cards(start[r], self@[r], n as int);
                }
                assert(start[q].wf());
                assert(0 <= s < n);
                lemma_more_voids_follows(self@[q], start[q], n as int);
                assert(self@[q].advances(start[q], n as int));
            }
            Progress::Changed
        } else {
            proof {
                assert forall|q: int, s: i8| 0 <= q < n implies !(shut_out(start, marks, n as int, q, s)
                    && start[q].kill_changes(s)) by {
                    if shut_out(start, marks, n as int, q, s) && start[q].kill_changes(s) {
                        assert(self@[q].voids.contains(s));
                    }
                }
                assert forall|q: int| 0 <= q < n implies self@[q] == start[q] by {
                    assert(self@[q].voids =~= start[q].voids) by {
                        assert forall|s: i8| self@[q].voids.contains(s) implies start[q].voids.contains(
                            s,
                        ) by {}
                    }
                }
                assert(self@ =~= start);
            }
            Progress::Same
        }
    }

    /// One pass over the table, see [`pass`].
    pub fn pass(&mut self) -> (end: PassEnd)
        requires
            old(self).wf(),
        ensures
            pass_matches(pass(old(self)@), end, final(self)@),
            only_learned(final(self)@, old(self)@),
            end is Again ==> table_advances(final(self)@, old(self)@),
            end is Done ==> within_limit(totals_of(final(self)@)),
            end is Done ==> final(self)@ == old(self)@,
    {
        proof {
            lemma_learned_nothing(self@);
        }
        let totals = match self.suit_totals() {
            None => {
                return PassEnd::Illegal;
            },
            Some(totals) => totals,
        };
        proof {
            lemma_counts_within_limit(self@);
        }
        match self.scan(&totals) {
            Progress::Illegal => {
                return PassEnd::Illegal;
            },
            Progress::Changed => {
                let ghost settled = self@;
                self.force_all();
                proof {
                    lemma_advances_chain(self@, settled, old(self)@);
                    lemma_learned_chain(self@, settled, old(self)@);
                }
                return PassEnd::Again;
            },
            Progress::Same => {},
        }
        assert(counts_within(self@, 8)) by {
            assert forall|q: int, s: i8| 0 <= q < self@.len() implies #[trigger] self@[q].count(s)
                <= 8 by {
                assert(self@[q].count(s) <= 4);
            }
        }
        if self.force_all() {
            return PassEnd::Again;
        }
        match self.fill_last(&totals) {
            Progress::Illegal => {
                return PassEnd::Illegal;
            },
            Progress::Changed => {
                return PassEnd::Again;
            },
            Progress::Same => {},
        }
        match self.press_all(&totals) {
            Progress::Illegal => {
                return PassEnd::Illegal;
            },
            Progress::Changed => {
                return PassEnd::Again;
            },
            Progress::Same => {},
        }
        match self.spread(&totals) {
            Progress::Illegal => {
                return PassEnd::Illegal;
            },
            Progress::Changed => {
                return PassEnd::Again;
            },
            Progress::Same => {},
        }
        match self.exclude_groups(&totals) {
            Progress::Illegal => PassEnd::Illegal,
            Progress::Changed => PassEnd::Again,
            Progress::Same => PassEnd::Done,
        }
    }
}

impl Cards {
    /// Draws every conclusion from the hands that the rules allow, pass after
    /// pass, until a pass ends them. Returns false where the hands contradict
    /// each other; the table is then left as it was when that showed.
    /// Either way the table has only learned: every hand says all it said
    /// before, and possibly more, and has as many cards. Where the hands are
    /// consistent, no suit is left with more than four known cards, and the
    /// table is one that a pass leaves as it is: to draw the conclusions
    /// again changes nothing.
    pub fn shake_down(&mut self) -> (ok: bool)
        requires
            old(self).wf(),
        ensures
            ok == !contradictory(old(self)@),
            ok ==> closes_to(old(self)@, Verdict::Consistent(final(self)@)),
            verdict(old(self)@) == if ok {
                Verdict::Consistent(final(self)@)
            } else {
                Verdict::Contradiction
            },
            only_learned(final(self)@, old(self)@),
            ok ==> within_limit(totals_of(final(self)@)),
            ok ==> pass(final(self)@) == Pass::Done(final(self)@),
    {
        let ghost mut passes: nat = 0;
        proof {
            lemma_learned_nothing(self@);
        }
        loop
            invariant
                self.wf(),
                only_learned(self@, old(self)@),
                forall|k: nat|
                    (#[trigger] closure_within(self@, k)).is_some() ==> closure_within(
                        old(self)@,
                        k + passes,
                    ) == closure_within(self@, k),
            decreases unknown_sum(self@, self@.len() as int), free_sum(self@, self@.len() as int),
        {
            let ghost prior = self@;
            let end = self.pass();
            proof {
                lemma_learned_chain(self@, prior, old(self)@);
            }
            match end {
                PassEnd::Illegal => {
                    proof {
                        assert(closure_within(prior, 1) == Some(Verdict::Contradiction));
                        assert(closure_within(old(self)@, 1 + passes) == Some(
                            Verdict::Contradiction,
                        ));
                        lemma_verdict(old(self)@, Verdict::Contradiction);
                    }
                    return false;
                },
                PassEnd::Done => {
                    proof {
                        assert(closure_within(prior, 1) == Some(Verdict::Consistent(self@)));
                        assert(closure_within(old(self)@, 1 + passes) == Some(
                            Verdict::Consistent(self@),
                        ));
                        lemma_verdict(old(self)@, Verdict::Consistent(self@));
                        if contradictory(old(self)@) {
                            lemma_closes_to_one(
                                old(self)@,
                                Verdict::Contradiction,
                                Verdict::Consistent(self@),
                            );
                        }
                    }
                    return true;
                },
                PassEnd::Again => {
                    proof {
                        lemma_measure_falls(self@, prior, self@.len() as int);
                        assert forall|k: nat| (#[trigger] closure_within(self@, k)).is_some() implies closure_within(
                            old(self)@,
                            k + (passes + 1),
                        ) == closure_within(self@, k) by {
                            assert(closure_within(prior, k + 1) == closure_within(self@, k));
                        }
                        passes = passes + 1;
                    }
                },
            }
        }
    }
}

/// What the tight group of hand `p`, if it is one, adds to the exclusions
/// that the hands before it have brought.
pub proof fn lemma_exclude_step(hands: Seq<HandView>, totals: Seq<int>, p: int, q: int)
    requires
        0 <= p < hands.len(),
        0 <= q < hands.len(),
    ensures
        exclude_hand(hands, totals, p + 1, q) == if group_tight(hands, totals, p) && !in_group(
            hands,
            p,
            q,
        ) {
            bar_hand(
                exclude_hand(hands, totals, p, q),
                hands[p],
                hands.len() as int,
                hands.len() as int,
            )
        } else {
            exclude_hand(hands, totals, p, q)
        },
{
    let n = hands.len() as int;
    let joins = group_tight(hands, totals, p) && !in_group(hands, p, q);
    assert forall|s: i8|
        shut_out(hands, totals, p + 1, q, s) <==> (shut_out(hands, totals, p, q, s) || (joins
            && hands[p].free(s, n))) by {
        if shut_out(hands, totals, p + 1, q, s) {
            let r = choose|r: int|
                0 <= r < p + 1 && group_tight(hands, totals, r) && !in_group(hands, r, q)
                    && hands[r].free(s, n);
            if r < p {
                assert(shut_out(hands, totals, p, q, s));
            }
        }
        if shut_out(hands, totals, p, q, s) {
            let r = choose|r: int|
                0 <= r < p && group_tight(hands, totals, r) && !in_group(hands, r, q)
                    && hands[r].free(s, n);
            assert(0 <= r < p + 1);
        }
    }
    let next = exclude_hand(hands, totals, p + 1, q);
    let here = exclude_hand(hands, totals, p, q);
    if joins {
        assert(next.voids =~= bar_hand(here, hands[p], n, n).voids);
    } else {
        assert(next.voids =~= here.voids);
    }
}

/// Where one hand of a table has the same exclusions as before, the table
/// has news over `start` just where it had before.
pub proof fn lemma_same_news(prior: Seq<HandView>, now: Seq<HandView>, start: Seq<HandView>, q: int)
    requires
        0 <= q < now.len(),
        now.len() == prior.len() == start.len(),
        forall|r: int| 0 <= r < now.len() && r != q ==> now[r] == prior[r],
        now[q].voids == prior[q].voids,
    ensures
        (exists|r: int, s: i8|
            0 <= r < now.len() && now[r].voids.contains(s) && !start[r].voids.contains(s)) <==> (
        exists|r: int, s: i8|
            0 <= r < prior.len() && prior[r].voids.contains(s) && !start[r].voids.contains(s)),
{
    if exists|r: int, s: i8|
        0 <= r < now.len() && now[r].voids.contains(s) && !start[r].voids.contains(s) {
        let (r, s) = choose|r: int, s: i8|
            0 <= r < now.len() && now[r].voids.contains(s) && !start[r].voids.contains(s);
        assert(prior[r].voids.contains(s));
    }
    if exists|r: int, s: i8|
        0 <= r < prior.len() && prior[r].voids.contains(s) && !start[r].voids.contains(s) {
        let (r, s) = choose|r: int, s: i8|
            0 <= r < prior.len() && prior[r].voids.contains(s) && !start[r].voids.contains(s);
        assert(now[r].voids.contains(s));
    }
}

/// A table on which the first `p` hands have been given what a sparse suit
/// needs of them, and had undetermined cards enough for that, has only
/// learned.
pub proof fn lemma_spread_so_far(
    before: Seq<HandView>,
    after: Seq<HandView>,
    suit: i8,
    total: int,
    places: int,
    p: int,
)
    requires
        table_wf(before),
        after.len() == before.len(),
        0 <= p <= before.len(),
        0 <= suit < before.len(),
        0 <= total <= 2,
        places == slots(before, suit, before.len() as int),
        forall|q: int| 0 <= q < before.len() ==> (#[trigger] before[q]).count(suit) <= 4,
        forall|q: int|
            0 <= q < p ==> sparse_need(#[trigger] before[q], suit, total, places)
                <= before[q].unknown,
        forall|q: int| 0 <= q < p ==> #[trigger] after[q] == spread_hand(before[q], suit, total, places),
        forall|q: int| p <= q < before.len() ==> #[trigger] after[q] == before[q],
    ensures
        only_learned(after, before),
{
    let n = before.len() as int;
    assert forall|q: int| 0 <= q < n implies (#[trigger] after[q]).wf() && after[q].follows(
        before[q],
    ) && after[q].card_count(n) == before[q].card_count(n) by {
        assert(before[q].wf());
        assert(before[q].count(suit) <= 4);
        if q < p {
            let need = sparse_need(before[q], suit, total, places);
            assert(after[q] == spread_hand(before[q], suit, total, places));
            if need > 0 {
                lemma_slots_cover(before, suit, n, q);
                lemma_fill_advances(before[q], suit, need as i8, n);
                lemma_fill_keeps_cards(before[q], suit, need as i8, n);
            }
        } else {
            assert(after[q] == before[q]);
        }
    }
    assert forall|q: int, s: i8|
        0 <= q < n && #[trigger] after[q].known.contains_key(s) implies 0 <= s < n by {
        if s != suit {
            assert(before[q].known.contains_key(s));
        }
    }
    assert forall|q: int, s: i8|
        0 <= q < n && #[trigger] after[q].voids.contains(s) implies 0 <= s < n by {
        assert(before[q].voids.contains(s));
    }
}

/// The places for a suit over all hands are at least those of one hand.
pub proof fn lemma_slots_cover(hands: Seq<HandView>, suit: i8, n: int, p: int)
    requires
        0 <= p < n <= hands.len(),
        forall|q: int| 0 <= q < hands.len() ==> (#[trigger] hands[q]).unknown >= 0,
    ensures
        slots(hands, suit, n) >= 0,
        !hands[p].voids.contains(suit) ==> slots(hands, suit, n) >= hands[p].unknown,
    decreases n,
{
    if n - 1 > p {
        lemma_slots_cover(hands, suit, n - 1, p);
    } else {
        lemma_slots_rise(hands, suit, p);
    }
}

/// The places for a suit are never negative.
pub proof fn lemma_slots_rise(hands: Seq<HandView>, suit: i8, n: int)
    requires
        0 <= n <= hands.len(),
        forall|q: int| 0 <= q < hands.len() ==> (#[trigger] hands[q]).unknown >= 0,
    ensures
        slots(hands, suit, n) >= 0,
    decreases n,
{
    if n > 0 {
        lemma_slots_rise(hands, suit, n - 1);
    }
}

/// Once a contradiction, always a contradiction.
pub proof fn lemma_spread_stays_none(hands: Seq<HandView>, totals: Seq<int>, n: int, m: int)
    requires
        0 <= n <= m,
        spread(hands, totals, n).is_none(),
    ensures
        spread(hands, totals, m).is_none(),
    decreases m,
{
    if n < m {
        lemma_spread_stays_none(hands, totals, n, m - 1);
    }
}

/// A table on which one hand has had its first `k` suits given what they
/// demand, with undetermined cards enough for them, has only learned.
pub proof fn lemma_pressed_so_far(hands: Seq<HandView>, p: int, totals: Seq<int>, k: int)
    requires
        table_wf(hands),
        0 <= p < hands.len(),
        totals_fit(hands, totals),
        0 <= k <= totals.len(),
        forall|s: i8| hands[p].count(s) <= 4,
        demand_sum(hands[p], totals, k) <= hands[p].unknown,
    ensures
        only_learned(hands.update(p, press_upto(hands[p], totals, k)), hands),
{
    let hand = hands[p];
    let after = press_upto(hand, totals, k);
    assert(hand.wf());
    assert forall|s: i8| hand.known.contains_key(s) implies 0 <= s < totals.len() by {}
    lemma_press_upto_learned(hand, totals, k);
    assert forall|s: i8| after.voids.contains(s) implies 0 <= s < hands.len() by {
        assert(hand.voids.contains(s));
    }
    lemma_learned_in_one_hand(hands, p, after);
}

/// The room of a hand over all suits is at least what one suit gives.
pub proof fn lemma_room_covers(hand: HandView, totals: Seq<int>, n: int, suit: int)
    requires
        0 <= suit < n <= totals.len(),
        forall|s: int| 0 <= s < totals.len() ==> 0 <= #[trigger] totals[s] <= 4,
    ensures
        room(hand, totals, n) >= 0,
        totals[suit] < 4 && !hand.voids.contains(suit as i8) ==> room(hand, totals, n) >= 4
            - totals[suit],
        0 <= demand(hand, totals, suit),
        hand.unknown >= 0 && n == totals.len() ==> demand(hand, totals, suit) <= hand.unknown,
    decreases n,
{
    lemma_room_rises(hand, totals, 0, totals.len() as int);
    lemma_room_rises(hand, totals, suit + 1, totals.len() as int);
    lemma_room_rises(hand, totals, suit + 1, n);
    lemma_room_rises(hand, totals, 0, suit);
    lemma_room_rises(hand, totals, 0, n);
}

/// The room of a hand does not fall as more suits are taken in.
pub proof fn lemma_room_rises(hand: HandView, totals: Seq<int>, n: int, m: int)
    requires
        0 <= n <= m <= totals.len(),
        forall|s: int| 0 <= s < totals.len() ==> 0 <= #[trigger] totals[s] <= 4,
    ensures
        0 <= room(hand, totals, n) <= room(hand, totals, m),
    decreases m,
{
    if n < m {
        lemma_room_rises(hand, totals, n, m - 1);
    } else if n > 0 {
        lemma_room_rises(hand, totals, n - 1, n - 1);
    }
}

/// The sum of demands does not fall as more suits are taken in.
pub proof fn lemma_demand_sum_rises(hand: HandView, totals: Seq<int>, n: int, m: int)
    requires
        0 <= n <= m <= totals.len(),
        forall|s: int| 0 <= s < totals.len() ==> 0 <= #[trigger] totals[s] <= 4,
    ensures
        0 <= demand_sum(hand, totals, n) <= demand_sum(hand, totals, m),
    decreases m,
{
    if n < m {
        lemma_demand_sum_rises(hand, totals, n, m - 1);
        lemma_room_covers(hand, totals, totals.len() as int, m - 1);
    } else if n > 0 {
        lemma_demand_sum_rises(hand, totals, n - 1, n - 1);
        lemma_room_covers(hand, totals, totals.len() as int, n - 1);
    }
}

/// Where hands that are open for the suit have undetermined cards, there is
/// such a hand.
pub proof fn lemma_open_exists(hands: Seq<HandView>, suit: i8, n: int)
    requires
        0 <= n <= hands.len(),
        open_unknowns(hands, suit, n) > 0,
    ensures
        exists|q: int| 0 <= q < n && hands[q].open_for(suit),
    decreases n,
{
    if n > 0 {
        if hands[n - 1].open_for(suit) {
            assert(0 <= n - 1 < n && hands[n - 1].open_for(suit));
        } else {
            lemma_open_exists(hands, suit, n - 1);
            let q = choose|q: int| 0 <= q < n - 1 && hands[q].open_for(suit);
            assert(0 <= q < n && hands[q].open_for(suit));
        }
    }
}

/// Where a hand has undetermined cards, `last_undetermined` names such a
/// hand.
pub proof fn lemma_last_undetermined(hands: Seq<HandView>, n: int)
    requires
        0 <= n <= hands.len(),
        undetermined_count(hands, n) > 0,
    ensures
        0 <= last_undetermined(hands, n) < n,
        hands[last_undetermined(hands, n)].unknown > 0,
    decreases n,
{
    if n > 0 && !(hands[n - 1].unknown > 0) {
        lemma_last_undetermined(hands, n - 1);
    }
}

/// Giving a hand with undetermined cards all the cards that are missing
/// advances.
pub proof fn lemma_fill_unknowns_advances(hand: HandView, totals: Map<i8, i8>, n: int)
    requires
        hand.wf(),
        hand.unknown > 0,
        forall|s: i8| hand.count(s) <= 4,
        forall|s: i8| totals.contains_key(s) ==> #[trigger] totals[s] >= 0,
        hand.fill_unknowns_ok(totals),
    ensures
        hand.fill_unknowns(totals).advances(hand, n),
{
    let after = hand.fill_unknowns(totals);
    assert forall|s: i8| hand.count(s) <= #[trigger] after.count(s) by {
        assert(hand.count(s) <= 4);
        assert(0 <= deficit(totals, s) <= 4);
        if hand.known.contains_key(s) {
            assert(hand.known[s] >= 1);
        }
    }
}

/// The rule of demand follows, and advances where it changes the hand.
pub proof fn lemma_press_follows(hand: HandView, totals: Seq<int>, n: int)
    requires
        hand.wf(),
        forall|s: i8| hand.count(s) <= 4,
        totals.len() <= i8::MAX,
        forall|s: int| 0 <= s < totals.len() ==> 0 <= #[trigger] totals[s] <= 4,
        press_ok(hand, totals),
    ensures
        press(hand, totals).follows(hand),
        press_changes(hand, totals) ==> press(hand, totals).advances(hand, n),
{
    let after = press(hand, totals);
    let m = totals.len() as int;
    if hand.unknown > 1 {
        lemma_demand_sum_rises(hand, totals, 0, m);
        assert forall|s: i8| hand.count(s) <= #[trigger] after.count(s) by {
            assert(hand.count(s) <= 4);
            if hand.known.contains_key(s) {
                assert(hand.known[s] >= 1);
            }
            if 0 <= s < m {
                lemma_room_covers(hand, totals, m, s as int);
            }
        }
    }
}

/// Where a hand is open for the suit, `last_open` names such a hand.
pub proof fn lemma_last_open_is_open(hands: Seq<HandView>, suit: i8, n: int)
    requires
        0 <= n <= hands.len(),
        open_count(hands, suit, n) > 0,
    ensures
        0 <= last_open(hands, suit, n) < n,
        hands[last_open(hands, suit, n)].open_for(suit),
    decreases n,
{
    if n > 0 && !hands[n - 1].open_for(suit) {
        lemma_last_open_is_open(hands, suit, n - 1);
    }
}

} // verus!
