//! The rules by which `shake_down` draws conclusions from the hands, as
//! functions on the mathematical content of a table.
//!
//! One pass over the table counts the known cards of every suit, then tries
//! the rules in a fixed order. A pass ends in a contradiction, in a changed
//! table (and another pass is due), or in the table on which `shake_down`
//! stops.
use crate::hand::HandView;
use vstd::prelude::*;

verus! {

impl HandView {
    /// The hand has undetermined cards that may be of `suit`.
    pub open spec fn open_for(self, suit: i8) -> bool {
        self.unknown > 0 && !self.voids.contains(suit)
    }

    /// The suit is one of the first `n` suits and is not excluded.
    pub open spec fn free(self, suit: i8, n: int) -> bool {
        0 <= suit < n && !self.voids.contains(suit)
    }
}

/// The number of known cards of `suit` in the first `n` hands.
pub open spec fn suit_total_upto(hands: Seq<HandView>, suit: i8, n: int) -> int
    decreases n,
{
    if n <= 0 {
        0
    } else {
        suit_total_upto(hands, suit, n - 1) + hands[n - 1].count(suit)
    }
}

/// The number of known cards of `suit` on the table.
pub open spec fn suit_total(hands: Seq<HandView>, suit: i8) -> int {
    suit_total_upto(hands, suit, hands.len() as int)
}

/// The number of known cards of each suit of the table.
pub open spec fn totals_of(hands: Seq<HandView>) -> Seq<int> {
    Seq::new(hands.len(), |s: int| suit_total(hands, s as i8))
}

/// No suit has more than four known cards.
pub open spec fn within_limit(totals: Seq<int>) -> bool {
    forall|s: int| 0 <= s < totals.len() ==> totals[s] <= 4
}

/// What one rule makes of a table.
pub enum Step {
    /// The hands contradict each other.
    Illegal,
    /// The rule has nothing to say.
    Same,
    /// The rule has changed the table to this.
    Changed(Seq<HandView>),
}

/// The number of hands among the first `n` that are open for `suit`.
pub open spec fn open_count(hands: Seq<HandView>, suit: i8, n: int) -> int
    decreases n,
{
    if n <= 0 {
        0
    } else {
        open_count(hands, suit, n - 1) + if hands[n - 1].open_for(suit) {
            1int
        } else {
            0
        }
    }
}

/// The last hand among the first `n` that is open for `suit`, or -1.
pub open spec fn last_open(hands: Seq<HandView>, suit: i8, n: int) -> int
    decreases n,
{
    if n <= 0 {
        -1
    } else if hands[n - 1].open_for(suit) {
        n - 1
    } else {
        last_open(hands, suit, n - 1)
    }
}

/// The number of undetermined cards in those of the first `n` hands that
/// are open for `suit`.
pub open spec fn open_unknowns(hands: Seq<HandView>, suit: i8, n: int) -> int
    decreases n,
{
    if n <= 0 {
        0
    } else {
        open_unknowns(hands, suit, n - 1) + if hands[n - 1].open_for(suit) {
            hands[n - 1].unknown as int
        } else {
            0
        }
    }
}

/// All four cards of `suit` are known: no undetermined card is of that suit.
pub open spec fn saturate(hands: Seq<HandView>, suit: i8) -> Seq<HandView> {
    Seq::new(hands.len(), |p: int| hands[p].kill_unknown(suit))
}

/// Whether `saturate` tells something new.
pub open spec fn saturate_changes(hands: Seq<HandView>, suit: i8) -> bool {
    exists|p: int| 0 <= p < hands.len() && hands[p].kill_changes(suit)
}

/// Every undetermined card that may be of `suit` is of that suit.
pub open spec fn fill_open(hands: Seq<HandView>, suit: i8) -> Seq<HandView> {
    Seq::new(
        hands.len(),
        |p: int|
            if hands[p].open_for(suit) {
                hands[p].fill(suit, hands[p].unknown)
            } else {
                hands[p]
            },
    )
}

/// The rules for one suit of which `total` cards are known, `total` being
/// from 1 to 4. With all four known, the suit is excluded everywhere else.
/// With cards missing: where only one hand can hold them, it holds them;
/// where the hands that can hold them have just as many undetermined cards
/// as are missing, all of these are of the suit; where they have fewer, the
/// table is contradictory.
pub open spec fn settle_suit(hands: Seq<HandView>, suit: i8, total: int) -> Step {
    let n = hands.len() as int;
    let missing = 4 - total;
    if total == 4 {
        if saturate_changes(hands, suit) {
            Step::Changed(saturate(hands, suit))
        } else {
            Step::Same
        }
    } else if open_count(hands, suit, n) == 1 {
        let p = last_open(hands, suit, n);
        if hands[p].unknown < missing {
            Step::Illegal
        } else {
            Step::Changed(hands.update(p, hands[p].fill(suit, missing as i8)))
        }
    } else if open_unknowns(hands, suit, n) < missing {
        Step::Illegal
    } else if open_unknowns(hands, suit, n) == missing {
        Step::Changed(fill_open(hands, suit))
    } else {
        Step::Same
    }
}

/// The first of the suits from `from` on, in rising order and leaving out
/// those of which no card is known, for which `settle_suit` has something to
/// say, and what it says.
pub open spec fn scan(hands: Seq<HandView>, totals: Seq<int>, from: int) -> Step
    decreases hands.len() - from,
{
    if from < 0 || from >= hands.len() {
        Step::Same
    } else if totals[from] == 0 {
        scan(hands, totals, from + 1)
    } else {
        match settle_suit(hands, from as i8, totals[from]) {
            Step::Same => scan(hands, totals, from + 1),
            step => step,
        }
    }
}

/// Every hand with all suits of the table but one excluded gets its
/// undetermined cards determined.
pub open spec fn force_all(hands: Seq<HandView>) -> Seq<HandView> {
    Seq::new(hands.len(), |p: int| hands[p].force_unknowns(hands.len() as i8))
}

/// Whether `force_all` changes a hand.
pub open spec fn force_changes(hands: Seq<HandView>) -> bool {
    exists|p: int| 0 <= p < hands.len() && hands[p].forced_suit(hands.len() as i8).is_some()
}

/// The number of hands among the first `n` with undetermined cards.
pub open spec fn undetermined_count(hands: Seq<HandView>, n: int) -> int
    decreases n,
{
    if n <= 0 {
        0
    } else {
        undetermined_count(hands, n - 1) + if hands[n - 1].unknown > 0 {
            1int
        } else {
            0
        }
    }
}

/// The last hand among the first `n` with undetermined cards, or -1.
pub open spec fn last_undetermined(hands: Seq<HandView>, n: int) -> int
    decreases n,
{
    if n <= 0 {
        -1
    } else if hands[n - 1].unknown > 0 {
        n - 1
    } else {
        last_undetermined(hands, n - 1)
    }
}

/// The totals as `fill_unknowns` takes them: a map that holds the suits of
/// which a card is known.
pub open spec fn totals_map(totals: Seq<int>) -> Map<i8, i8> {
    Map::new(|s: i8| 0 <= s < totals.len() && totals[s as int] > 0, |s: i8| totals[s as int] as i8)
}

/// The cards that a hand may still get, over the first `n` suits: for every
/// suit that is not excluded and has cards missing, the number of those.
pub open spec fn room(hand: HandView, totals: Seq<int>, n: int) -> int
    decreases n,
{
    if n <= 0 {
        0
    } else {
        room(hand, totals, n - 1) + if totals[n - 1] < 4 && !hand.voids.contains((n - 1) as i8) {
            4 - totals[n - 1]
        } else {
            0
        }
    }
}

/// The number of undetermined cards of a hand that must be of `suit`,
/// because the other suits together have too few cards missing.
pub open spec fn demand(hand: HandView, totals: Seq<int>, suit: int) -> int {
    if totals[suit] < 4 && !hand.voids.contains(suit as i8) {
        let elsewhere = room(hand, totals, totals.len() as int) - (4 - totals[suit]);
        if elsewhere < hand.unknown {
            hand.unknown - elsewhere
        } else {
            0
        }
    } else {
        0
    }
}

/// The sum of `demand` over the first `n` suits.
pub open spec fn demand_sum(hand: HandView, totals: Seq<int>, n: int) -> int
    decreases n,
{
    if n <= 0 {
        0
    } else {
        demand_sum(hand, totals, n - 1) + demand(hand, totals, n - 1)
    }
}

/// Whether the hand is subject to the rule of demand and passes it: it has
/// room for its undetermined cards, and these suffice for what the suits
/// demand.
pub open spec fn press_ok(hand: HandView, totals: Seq<int>) -> bool {
    let n = totals.len() as int;
    hand.unknown > 1 ==> room(hand, totals, n) >= hand.unknown && demand_sum(hand, totals, n)
        <= hand.unknown
}

/// The hand with the first `n` suits given what they demand.
pub open spec fn press_upto(hand: HandView, totals: Seq<int>, n: int) -> HandView {
    if hand.unknown > 1 {
        HandView {
            known: Map::new(
                |s: i8| hand.known.contains_key(s) || (0 <= s < n && demand(hand, totals, s as int) > 0),
                |s: i8|
                    if 0 <= s < n {
                        (hand.count(s) + demand(hand, totals, s as int)) as i8
                    } else {
                        hand.known[s]
                    },
            ),
            voids: hand.voids,
            unknown: (hand.unknown - demand_sum(hand, totals, n)) as i8,
        }
    } else {
        hand
    }
}

/// The hand with every suit given what it demands.
pub open spec fn press(hand: HandView, totals: Seq<int>) -> HandView {
    press_upto(hand, totals, totals.len() as int)
}

/// Whether the rule of demand changes the hand.
pub open spec fn press_changes(hand: HandView, totals: Seq<int>) -> bool {
    hand.unknown > 1 && demand_sum(hand, totals, totals.len() as int) > 0
}

/// The rule of demand on every hand.
pub open spec fn press_all(hands: Seq<HandView>, totals: Seq<int>) -> Step {
    if exists|p: int| 0 <= p < hands.len() && !press_ok(hands[p], totals) {
        Step::Illegal
    } else if exists|p: int| 0 <= p < hands.len() && press_changes(hands[p], totals) {
        Step::Changed(Seq::new(hands.len(), |p: int| press(hands[p], totals)))
    } else {
        Step::Same
    }
}

/// The number of undetermined cards in those of the first `n` hands that do
/// not exclude `suit`.
pub open spec fn slots(hands: Seq<HandView>, suit: i8, n: int) -> int
    decreases n,
{
    if n <= 0 {
        0
    } else {
        slots(hands, suit, n - 1) + if hands[n - 1].voids.contains(suit) {
            0
        } else {
            hands[n - 1].unknown as int
        }
    }
}

/// The number of undetermined cards of a hand that must be of `suit`,
/// because the other hands have fewer than `total` places for it.
pub open spec fn sparse_need(hand: HandView, suit: i8, total: int, places: int) -> int {
    if !hand.voids.contains(suit) && places - hand.unknown < total {
        total - (places - hand.unknown)
    } else {
        0
    }
}

/// The rule for a suit of which at most two cards are known, on one hand.
pub open spec fn spread_hand(hand: HandView, suit: i8, total: int, places: int) -> HandView {
    if sparse_need(hand, suit, total, places) > 0 {
        hand.fill(suit, sparse_need(hand, suit, total, places) as i8)
    } else {
        hand
    }
}

/// The rule for a suit of which at most two cards are known, on every hand.
pub open spec fn spread_suit(hands: Seq<HandView>, suit: i8, total: int) -> Option<Seq<HandView>> {
    let places = slots(hands, suit, hands.len() as int);
    if exists|p: int|
        0 <= p < hands.len() && sparse_need(hands[p], suit, total, places) > hands[p].unknown {
        None
    } else {
        Some(Seq::new(hands.len(), |p: int| spread_hand(hands[p], suit, total, places)))
    }
}

/// `spread_suit` for each of the first `n` suits of which at most two cards
/// are known, in rising order, each on what the one before has left.
pub open spec fn spread(hands: Seq<HandView>, totals: Seq<int>, n: int) -> Option<Seq<HandView>>
    decreases n,
{
    if n <= 0 {
        Some(hands)
    } else {
        match spread(hands, totals, n - 1) {
            None => None,
            Some(before) => if totals[n - 1] > 2 {
                Some(before)
            } else {
                spread_suit(before, (n - 1) as i8, totals[n - 1])
            },
        }
    }
}

impl HandView {
    /// The hand takes part in the grouping: it has undetermined cards and
    /// more than one suit excluded.
    pub open spec fn grouped(self) -> bool {
        self.unknown > 0 && self.voids.len() > 1
    }

    /// Both hands exclude the same suits of the first `n`.
    pub open spec fn same_frees(self, other: HandView, n: int) -> bool {
        forall|s: i8| 0 <= s < n ==> self.voids.contains(s) == other.voids.contains(s)
    }
}

/// Hand `q` belongs to the group of hand `p`: both take part in the grouping
/// and leave the same suits open.
pub open spec fn in_group(hands: Seq<HandView>, p: int, q: int) -> bool {
    hands[p].grouped() && hands[q].grouped() && hands[q].same_frees(hands[p], hands.len() as int)
}

/// The number of hands among the first `n` in the group of hand `p`.
pub open spec fn group_size(hands: Seq<HandView>, p: int, n: int) -> int
    decreases n,
{
    if n <= 0 {
        0
    } else {
        group_size(hands, p, n - 1) + if in_group(hands, p, n - 1) {
            1int
        } else {
            0
        }
    }
}

/// The number of undetermined cards in those of the first `n` hands that
/// are in the group of hand `p`.
pub open spec fn group_holes(hands: Seq<HandView>, p: int, n: int) -> int
    decreases n,
{
    if n <= 0 {
        0
    } else {
        group_holes(hands, p, n - 1) + if in_group(hands, p, n - 1) {
            hands[n - 1].unknown as int
        } else {
            0
        }
    }
}

/// The number of cards not known, over those of the first `n` suits that
/// the hand leaves open.
pub open spec fn group_missing(hand: HandView, totals: Seq<int>, n: int) -> int
    decreases n,
{
    if n <= 0 {
        0
    } else {
        group_missing(hand, totals, n - 1) + if hand.voids.contains((n - 1) as i8) {
            0
        } else {
            4 - totals[n - 1]
        }
    }
}

/// The group of hand `p` has more than one hand, and these hands have more
/// undetermined cards than their suits have cards missing.
pub open spec fn group_broken(hands: Seq<HandView>, totals: Seq<int>, p: int) -> bool {
    let n = hands.len() as int;
    hands[p].grouped() && group_size(hands, p, n) > 1 && group_missing(hands[p], totals, n)
        < group_holes(hands, p, n)
}

/// The group of hand `p` has more than one hand, and these hands have just
/// as many undetermined cards as their suits have cards missing: the missing
/// cards are all in the group.
pub open spec fn group_tight(hands: Seq<HandView>, totals: Seq<int>, p: int) -> bool {
    let n = hands.len() as int;
    hands[p].grouped() && group_size(hands, p, n) > 1 && group_missing(hands[p], totals, n)
        == group_holes(hands, p, n)
}

/// The hand with the suits below `upto` excluded that the hand `leader`
/// leaves open.
pub open spec fn bar_hand(hand: HandView, leader: HandView, n: int, upto: int) -> HandView {
    if hand.unknown > 0 {
        HandView {
            voids: Set::new(|s: i8| hand.voids.contains(s) || (leader.free(s, n) && s < upto)),
            ..hand
        }
    } else {
        hand
    }
}

/// One of the first `n` hands has a tight group that hand `q` is not in and
/// that leaves `suit` open: hand `q` has no card of that suit undetermined.
pub open spec fn shut_out(hands: Seq<HandView>, totals: Seq<int>, n: int, q: int, suit: i8) -> bool {
    exists|p: int|
        0 <= p < n && group_tight(hands, totals, p) && !in_group(hands, p, q) && hands[p].free(
            suit,
            hands.len() as int,
        )
}

/// Hand `q` with the suits excluded that the tight groups of the first `n`
/// hands shut it out of.
pub open spec fn exclude_hand(hands: Seq<HandView>, totals: Seq<int>, n: int, q: int) -> HandView {
    if hands[q].unknown > 0 {
        HandView {
            voids: Set::new(
                |s: i8| hands[q].voids.contains(s) || shut_out(hands, totals, n, q, s),
            ),
            ..hands[q]
        }
    } else {
        hands[q]
    }
}

/// The rule of the groups: a broken group is a contradiction; a tight group
/// shuts all other hands out of its suits.
pub open spec fn exclude_groups(hands: Seq<HandView>, totals: Seq<int>) -> Step {
    let n = hands.len() as int;
    if exists|p: int| 0 <= p < n && group_broken(hands, totals, p) {
        Step::Illegal
    } else if exists|q: int, s: i8|
        0 <= q < n && shut_out(hands, totals, n, q, s) && hands[q].kill_changes(s) {
        Step::Changed(Seq::new(hands.len(), |q: int| exclude_hand(hands, totals, n, q)))
    } else {
        Step::Same
    }
}

/// What one pass makes of a table.
pub enum Pass {
    /// The hands contradict each other.
    Illegal,
    /// The table has changed to this, and another pass is due.
    Again(Seq<HandView>),
    /// The passes end with this table.
    Done(Seq<HandView>),
}

/// The rule for a table on which only one hand has undetermined cards:
/// that hand holds all the cards that are missing.
pub open spec fn fill_last(hands: Seq<HandView>, totals: Seq<int>) -> Step {
    let n = hands.len() as int;
    if undetermined_count(hands, n) == 1 {
        let p = last_undetermined(hands, n);
        if hands[p].fill_unknowns_ok(totals_map(totals)) {
            Step::Changed(hands.update(p, hands[p].fill_unknowns(totals_map(totals))))
        } else {
            Step::Illegal
        }
    } else {
        Step::Same
    }
}

/// The rules that follow where neither the rules for single suits nor the
/// forcing of hands have changed anything, each tried only where the one
/// before has changed nothing. A pass that ends the passes has changed
/// nothing at all.
pub open spec fn pass_tail(hands: Seq<HandView>, totals: Seq<int>) -> Pass {
    match fill_last(hands, totals) {
        Step::Illegal => Pass::Illegal,
        Step::Changed(filled) => Pass::Again(filled),
        Step::Same => match press_all(hands, totals) {
            Step::Illegal => Pass::Illegal,
            Step::Changed(pressed) => Pass::Again(pressed),
            Step::Same => match spread(hands, totals, hands.len() as int) {
                None => Pass::Illegal,
                Some(spread_out) => if spread_out != hands {
                    Pass::Again(spread_out)
                } else {
                    match exclude_groups(hands, totals) {
                        Step::Illegal => Pass::Illegal,
                        Step::Changed(excluded) => Pass::Again(excluded),
                        Step::Same => Pass::Done(hands),
                    }
                },
            },
        },
    }
}

/// One pass over the table.
pub open spec fn pass(hands: Seq<HandView>) -> Pass {
    let totals = totals_of(hands);
    if !within_limit(totals) {
        Pass::Illegal
    } else {
        match scan(hands, totals, 0) {
            Step::Illegal => Pass::Illegal,
            Step::Changed(settled) => Pass::Again(force_all(settled)),
            Step::Same => if force_changes(hands) {
                Pass::Again(force_all(hands))
            } else {
                pass_tail(hands, totals)
            },
        }
    }
}

/// Where the passes lead: to a contradiction, or to a table.
pub enum Verdict {
    /// The hands contradict each other.
    Contradiction,
    /// The hands are consistent as far as the rules can tell, and this is
    /// what follows from them.
    Consistent(Seq<HandView>),
}

/// Where the passes lead if at most `passes` of them are made, and `None`
/// where more are needed.
pub open spec fn closure_within(hands: Seq<HandView>, passes: nat) -> Option<Verdict>
    decreases passes,
{
    if passes == 0 {
        None
    } else {
        match pass(hands) {
            Pass::Illegal => Some(Verdict::Contradiction),
            Pass::Done(closed) => Some(Verdict::Consistent(closed)),
            Pass::Again(changed) => closure_within(changed, (passes - 1) as nat),
        }
    }
}

/// The passes on `hands` come to an end, and `verdict` is where they lead.
pub open spec fn closes_to(hands: Seq<HandView>, verdict: Verdict) -> bool {
    exists|passes: nat| closure_within(hands, passes) == Some(verdict)
}

/// The passes on `hands` lead to a contradiction.
pub open spec fn contradictory(hands: Seq<HandView>) -> bool {
    closes_to(hands, Verdict::Contradiction)
}

/// The passes end on a table only where a pass leaves that table as it is.
pub proof fn lemma_closure_ends_settled(hands: Seq<HandView>, passes: nat, closed: Seq<HandView>)
    requires
        closure_within(hands, passes) == Some(Verdict::Consistent(closed)),
    ensures
        pass(closed) == Pass::Done(closed),
    decreases passes,
{
    if passes > 0 {
        match pass(hands) {
            Pass::Again(changed) => {
                lemma_closure_ends_settled(changed, (passes - 1) as nat, closed);
            },
            _ => {},
        }
    }
}

/// More passes than are needed lead to the same end.
pub proof fn lemma_closure_settles(hands: Seq<HandView>, passes: nat, more: nat)
    requires
        closure_within(hands, passes).is_some(),
        passes <= more,
    ensures
        closure_within(hands, more) == closure_within(hands, passes),
    decreases passes,
{
    if passes > 0 {
        match pass(hands) {
            Pass::Again(changed) => {
                lemma_closure_settles(changed, (passes - 1) as nat, (more - 1) as nat);
            },
            _ => {},
        }
    }
}

/// The passes on a table lead to one end only.
pub proof fn lemma_closes_to_one(hands: Seq<HandView>, one: Verdict, other: Verdict)
    requires
        closes_to(hands, one),
        closes_to(hands, other),
    ensures
        one == other,
{
    let k = choose|k: nat| closure_within(hands, k) == Some(one);
    let m = choose|m: nat| closure_within(hands, m) == Some(other);
    if k <= m {
        lemma_closure_settles(hands, k, m);
    } else {
        lemma_closure_settles(hands, m, k);
    }
}

/// Where the passes on `hands` lead, where they come to an end.
pub open spec fn verdict(hands: Seq<HandView>) -> Verdict {
    choose|verdict: Verdict| closes_to(hands, verdict)
}

/// The table with all conclusions drawn, where the hands are consistent;
/// the table itself where they are not.
pub open spec fn closed_table(hands: Seq<HandView>) -> Seq<HandView> {
    match verdict(hands) {
        Verdict::Consistent(closed) => closed,
        Verdict::Contradiction => hands,
    }
}

/// Where the passes lead is where they lead.
pub proof fn lemma_verdict(hands: Seq<HandView>, end: Verdict)
    requires
        closes_to(hands, end),
    ensures
        verdict(hands) == end,
{
    lemma_closes_to_one(hands, verdict(hands), end);
}

} // verus!
