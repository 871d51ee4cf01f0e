use std::collections::HashMap;
use std::collections::HashSet;
use vstd::prelude::*;
use vstd::std_specs::iter::IteratorSpec;

verus! {

broadcast use vstd::std_specs::hash::group_hash_axioms;

/// What is known of one player's cards: how many cards of each suit the
/// player is known to hold, which suits the player is known not to hold among
/// the cards that are still undetermined, and how many cards are undetermined.
pub struct Hand {
    pub known_cards: HashMap<i8, i8>,
    pub known_voids: HashSet<i8>,
    pub number_of_unknown_cards: i8,
}

/// The mathematical content of a [`Hand`].
pub struct HandView {
    pub known: Map<i8, i8>,
    pub voids: Set<i8>,
    pub unknown: i8,
}

impl View for Hand {
    type V = HandView;

    open spec fn view(&self) -> HandView {
        HandView {
            known: self.known_cards@,
            voids: self.known_voids@,
            unknown: self.number_of_unknown_cards,
        }
    }
}

impl HandView {
    /// The hand every player starts with: four cards, nothing known of them.
    pub open spec fn initial() -> HandView {
        HandView { known: Map::empty(), voids: Set::empty(), unknown: 4 }
    }

    /// The number of cards of `suit` the hand is known to hold.
    pub open spec fn count(self, suit: i8) -> int {
        if self.known.contains_key(suit) {
            self.known[suit] as int
        } else {
            0
        }
    }

    /// Recorded counts are positive and at most four cards are undetermined.
    pub open spec fn wf(self) -> bool {
        &&& forall|s: i8| self.known.contains_key(s) ==> #[trigger] self.known[s] >= 1
        &&& 0 <= self.unknown <= 4
    }

    /// No suit is both held and excluded.
    pub open spec fn disjoint(self) -> bool {
        forall|s: i8|
            #![trigger self.known.contains_key(s)]
            #![trigger self.voids.contains(s)]
            !(self.known.contains_key(s) && self.voids.contains(s))
    }

    /// The player holds no card at all.
    pub open spec fn is_empty(self) -> bool {
        self.known.is_empty() && self.unknown == 0
    }

    /// One undetermined card leaves the hand (or becomes determined). With the
    /// last of them the exclusions lose their meaning and are dropped.
    pub open spec fn take_unknown(self) -> HandView {
        HandView {
            known: self.known,
            voids: if self.unknown == 1 {
                Set::empty()
            } else {
                self.voids
            },
            unknown: (self.unknown - 1) as i8,
        }
    }

    /// Whether a card of `suit` can be looked for in the hand: the suit is
    /// held or excluded already, or there is an undetermined card that can
    /// stand for it.
    pub open spec fn can_settle(self, suit: i8) -> bool {
        self.known.contains_key(suit) || self.voids.contains(suit) || self.unknown > 0
    }

    /// Whether the hand can hold a card of `suit` at all.
    pub open spec fn may_have(self, suit: i8) -> bool {
        self.known.contains_key(suit) || !self.voids.contains(suit)
    }

    /// The hand once it is known to hold a card of `suit`.
    pub open spec fn ensure_have(self, suit: i8) -> HandView {
        if self.known.contains_key(suit) || self.voids.contains(suit) {
            self
        } else {
            HandView { known: self.known.insert(suit, 1), ..self.take_unknown() }
        }
    }

    /// The hand once it is known to hold no card of `suit`.
    pub open spec fn ensure_have_not(self, suit: i8) -> HandView {
        if self.known.contains_key(suit) {
            self
        } else {
            HandView { voids: self.voids.insert(suit), ..self }
        }
    }

    /// The hand after one card of `suit` has left it.
    pub open spec fn remove(self, suit: i8) -> HandView {
        if self.known.contains_key(suit) {
            if self.known[suit] > 1 {
                HandView { known: self.known.insert(suit, (self.known[suit] - 1) as i8), ..self }
            } else {
                HandView { known: self.known.remove(suit), ..self }
            }
        } else if self.voids.contains(suit) {
            self
        } else {
            self.take_unknown()
        }
    }

    /// The hand after it has received a card of `suit`.
    pub open spec fn add(self, suit: i8) -> HandView {
        HandView { known: self.known.insert(suit, (self.count(suit) + 1) as i8), ..self }
    }

    /// The hand holds all four cards of some suit.
    pub open spec fn has_four_of_a_kind(self) -> bool {
        exists|s: i8| self.known.contains_key(s) && #[trigger] self.known[s] == 4
    }

    /// Excluding `suit` tells something new about the hand.
    pub open spec fn kill_changes(self, suit: i8) -> bool {
        self.unknown > 0 && !self.voids.contains(suit)
    }

    /// The hand once none of its undetermined cards can be of `suit`.
    pub open spec fn kill_unknown(self, suit: i8) -> HandView {
        if self.unknown > 0 {
            HandView { voids: self.voids.insert(suit), ..self }
        } else {
            self
        }
    }

    /// The least suit below `n` that is not excluded, if there is one.
    pub open spec fn first_free(self, n: int) -> Option<i8>
        decreases n,
    {
        if n <= 0 {
            None
        } else {
            match self.first_free(n - 1) {
                Some(s) => Some(s),
                None => if n - 1 <= i8::MAX && !self.voids.contains((n - 1) as i8) {
                    Some((n - 1) as i8)
                } else {
                    None
                },
            }
        }
    }

    /// The suit that all undetermined cards must be of, where all suits but
    /// one are excluded.
    pub open spec fn forced_suit(self, number_of_suits: i8) -> Option<i8> {
        if self.unknown != 0 && self.voids.len() == number_of_suits - 1 {
            self.first_free(number_of_suits as int)
        } else {
            None
        }
    }

    /// The hand after its undetermined cards have been given their only
    /// possible suit.
    pub open spec fn force_unknowns(self, number_of_suits: i8) -> HandView {
        match self.forced_suit(number_of_suits) {
            Some(s) => HandView {
                known: self.known.insert(s, (self.count(s) + self.unknown) as i8),
                voids: Set::empty(),
                unknown: 0,
            },
            None => self,
        }
    }

    /// Whether the player may ask for a card of `suit`.
    pub open spec fn is_legal(self, suit: i8) -> bool {
        self.known.contains_key(suit) || (self.unknown != 0 && !self.voids.contains(suit))
    }

    /// Whether it is settled that the hand holds, or does not hold, `suit`.
    pub open spec fn has_card_forced(self, suit: i8) -> bool {
        self.known.contains_key(suit) || self.unknown == 0 || self.voids.contains(suit)
    }

    /// Whether `count` undetermined cards can be turned into cards of `suit`.
    pub open spec fn can_fill(self, suit: i8, count: i8) -> bool {
        count <= self.unknown && !self.voids.contains(suit)
    }

    /// The hand after `count` undetermined cards have become cards of `suit`.
    pub open spec fn fill(self, suit: i8, count: i8) -> HandView {
        HandView {
            known: self.known.insert(suit, (self.count(suit) + count) as i8),
            voids: self.voids,
            unknown: (self.unknown - count) as i8,
        }
    }

    /// Whether the undetermined cards are just the cards that `totals` shows
    /// to be missing, and none of these is of an excluded suit.
    pub open spec fn fill_unknowns_ok(self, totals: Map<i8, i8>) -> bool {
        &&& forall|s: i8| deficit(totals, s) > 0 ==> !self.voids.contains(s)
        &&& deficit_sum(totals, i8::MAX + 1) == self.unknown
    }

    /// The hand after it has been given the cards that `totals` shows to be
    /// missing in the suits below `upto`.
    pub open spec fn fill_upto(self, totals: Map<i8, i8>, upto: int) -> HandView {
        HandView {
            known: Map::new(
                |s: i8| self.known.contains_key(s) || (s < upto && deficit(totals, s) > 0),
                |s: i8|
                    if s < upto {
                        (self.count(s) + deficit(totals, s)) as i8
                    } else {
                        self.known[s]
                    },
            ),
            voids: self.voids,
            unknown: (self.unknown - deficit_sum(totals, upto)) as i8,
        }
    }

    /// The hand after it has been given all cards that `totals` shows to be
    /// missing.
    pub open spec fn fill_unknowns(self, totals: Map<i8, i8>) -> HandView {
        self.fill_upto(totals, i8::MAX + 1)
    }

    /// The hand after `fill` where that is possible, unchanged where not.
    pub open spec fn fill_some_unknowns(self, suit: i8, count: i8) -> HandView {
        if self.can_fill(suit, count) {
            self.fill(suit, count)
        } else {
            self
        }
    }
}

impl Clone for Hand {
    fn clone(&self) -> (copy: Hand)
        ensures
            copy@ == self@,
    {
        self.duplicate()
    }
}

/// The number held under `suit`, zero where nothing is held.
pub open spec fn held(counts: Map<i8, i8>, suit: i8) -> int {
    if counts.contains_key(suit) {
        counts[suit] as int
    } else {
        0
    }
}

/// The totals with the cards of `known` added to them.
pub open spec fn add_counts(totals: Map<i8, i8>, known: Map<i8, i8>) -> Map<i8, i8> {
    Map::new(
        |s: i8| totals.contains_key(s) || known.contains_key(s),
        |s: i8| (held(totals, s) + held(known, s)) as i8,
    )
}

/// The number of cards of `suit` that are missing by `totals`, a map that
/// holds the number of known cards for the suits of which any is known: four
/// less that number for a suit in the map with fewer than four, else none.
pub open spec fn deficit(totals: Map<i8, i8>, suit: i8) -> int {
    if totals.contains_key(suit) && totals[suit] < 4 {
        4 - totals[suit]
    } else {
        0
    }
}

/// The sum of `deficit` over the suits below `upto`.
pub open spec fn deficit_sum(totals: Map<i8, i8>, upto: int) -> int
    decreases upto - i8::MIN,
{
    if upto <= i8::MIN {
        0
    } else {
        deficit_sum(totals, upto - 1) + deficit(totals, (upto - 1) as i8)
    }
}

/// `deficit_sum` does not fall as more suits are taken in, where no total
/// exceeds four by being negative.
pub proof fn lemma_deficit_sum_rises(totals: Map<i8, i8>, upto: int, later: int)
    requires
        upto <= later,
    ensures
        deficit_sum(totals, upto) <= deficit_sum(totals, later),
    decreases later - upto,
{
    if upto < later {
        lemma_deficit_sum_rises(totals, upto, later - 1);
    }
}

impl Hand {
    /// A hand of four cards of which nothing is known.
    pub fn new() -> (hand: Hand)
        ensures
            hand@ == HandView::initial(),
    {
        Hand { known_cards: HashMap::new(), known_voids: HashSet::new(), number_of_unknown_cards: 4 }
    }

    /// A copy of the hand.
    pub fn duplicate(&self) -> (copy: Hand)
        ensures
            copy@ == self@,
    {
        let mut voids: HashSet<i8> = HashSet::new();
        for suit in it: self.known_voids.iter()
            invariant
                it.seq() == self.known_voids.iter().remaining(),
                forall|s: i8|
                    voids@.contains(s) <==> exists|i: int|
                        0 <= i < it.index() && *(#[trigger] it.seq()[i]) == s,
        {
            assert(suit == it.seq()[it.index() as int]);
            voids.insert(*suit);
        }
        proof {
            let all = self.known_voids.iter().remaining();
            assert forall|s: i8| voids@.contains(s) <==> self.known_voids@.contains(s) by {
                if voids@.contains(s) {
                    let i = choose|i: int| 0 <= i < all.len() && *(#[trigger] all[i]) == s;
                    assert(all.unref()[i] == s);
                    assert(all.unref().to_set().contains(s));
                }
                if self.known_voids@.contains(s) {
                    assert(all.unref().to_set().contains(s));
                    let i = choose|i: int| 0 <= i < all.unref().len() && all.unref()[i] == s;
                    assert(*all[i] == s);
                }
            }
            assert(voids@ =~= self.known_voids@);
        }
        Hand {
            known_cards: self.known_cards.clone(),
            known_voids: voids,
            number_of_unknown_cards: self.number_of_unknown_cards,
        }
    }

    /// True if the player has no cards at all.
    pub fn is_empty(&self) -> (empty: bool)
        ensures
            empty == self@.is_empty(),
    {
        self.known_cards.is_empty() && self.number_of_unknown_cards == 0
    }

    /// Records that the player holds a card of `suit`, as a player who asks
    /// for that suit must. Where the suit is not yet among the known cards,
    /// one undetermined card becomes a card of that suit. Returns false, and
    /// changes nothing, where the suit is excluded.
    pub fn ensure_have(&mut self, suit: i8) -> (ok: bool)
        requires
            old(self)@.can_settle(suit),
        ensures
            ok == old(self)@.may_have(suit),
            ok ==> final(self)@ == old(self)@.ensure_have(suit),
            !ok ==> final(self)@ == old(self)@,
            old(self)@.disjoint() ==> final(self)@.disjoint(),
    {
        if self.known_cards.contains_key(&suit) {
            return true;
        }
        if self.known_voids.contains(&suit) {
            return false;
        }
        self._remove_unknown();
        self.known_cards.insert(suit, 1);
        true
    }

    /// Takes one card away from the undetermined ones. With the last of them
    /// the exclusions are dropped.
    pub fn _remove_unknown(&mut self)
        requires
            old(self)@.unknown > 0,
        ensures
            final(self)@ == old(self)@.take_unknown(),
            old(self)@.disjoint() ==> final(self)@.disjoint(),
    {
        self.number_of_unknown_cards -= 1;
        if self.number_of_unknown_cards == 0 {
            self.known_voids.clear();
        }
        proof {
            if old(self)@.disjoint() {
                assert forall|s: i8| !(self@.known.contains_key(s) && self@.voids.contains(s)) by {
                    assert(!(old(self)@.known.contains_key(s) && old(self)@.voids.contains(s)));
                }
            }
        }
    }

    /// Records that the player holds no card of `suit`, as a player who
    /// turns a request down must. Returns false, and changes nothing, where
    /// the player is known to hold one.
    pub fn ensure_have_not(&mut self, suit: i8) -> (ok: bool)
        ensures
            ok == !old(self)@.known.contains_key(suit),
            final(self)@ == old(self)@.ensure_have_not(suit),
            old(self)@.disjoint() ==> final(self)@.disjoint(),
    {
        if self.known_cards.contains_key(&suit) {
            return false;
        }
        self.known_voids.insert(suit);
        true
    }

    /// Takes one card of `suit` from the hand: a known one if there is one,
    /// else an undetermined one. Returns false, and changes nothing, where the
    /// hand cannot hold such a card.
    pub fn remove(&mut self, suit: i8) -> (ok: bool)
        requires
            old(self)@.can_settle(suit),
        ensures
            ok == old(self)@.may_have(suit),
            final(self)@ == old(self)@.remove(suit),
            old(self)@.disjoint() ==> final(self)@.disjoint(),
    {
        let found = self.known_cards.get(&suit);
        match found {
            Some(held) => {
                let count: i8 = *held;
                if count > 1 {
                    self.known_cards.insert(suit, count - 1);
                } else {
                    self.known_cards.remove(&suit);
                }
                true
            },
            None => {
                if self.known_voids.contains(&suit) {
                    false
                } else {
                    self._remove_unknown();
                    true
                }
            },
        }
    }

    /// Adds a card of `suit` to the known cards.
    pub fn add(&mut self, suit: i8)
        requires
            old(self)@.count(suit) < i8::MAX,
        ensures
            final(self)@ == old(self)@.add(suit),
            old(self)@.disjoint() && !old(self)@.voids.contains(suit) ==> final(self)@.disjoint(),
    {
        let count: i8 = self.known_count(suit);
        self.known_cards.insert(suit, count + 1);
    }

    /// The number of cards of `suit` among the known cards.
    pub fn known_count(&self, suit: i8) -> (count: i8)
        ensures
            count == self@.count(suit),
    {
        match self.known_cards.get(&suit) {
            Some(held) => *held,
            None => 0,
        }
    }

    /// True if the hand is known to hold all four cards of some suit.
    pub fn has_four_of_a_kind(&mut self) -> (found: bool)
        ensures
            found == old(self)@.has_four_of_a_kind(),
            *final(self) == *old(self),
    {
        for pair in it: self.known_cards.iter()
            invariant
                it.seq() == self.known_cards.iter().remaining(),
                forall|i: int| 0 <= i < it.index() ==> *it.seq()[i].1 != 4,
        {
            if *pair.1 == 4 {
                assert(pair == it.seq()[it.index() as int]);
                assert(self@.known.contains_key(*pair.0));
                return true;
            }
        }
        assert forall|s: i8| self@.known.contains_key(s) implies self@.known[s] != 4 by {
            let v = self.known_cards.iter().remaining();
            assert(v.contains((&s, &self.known_cards@[s])));
        }
        false
    }

    /// Adds the known cards of the hand to `totals`, which holds for each
    /// suit met so far the number of its known cards.
    pub fn running_totals(&self, totals: &mut HashMap<i8, i8>)
        requires
            forall|s: i8|
                self@.known.contains_key(s) ==> i8::MIN <= held(old(totals)@, s)
                    + #[trigger] self@.known[s] <= i8::MAX,
        ensures
            final(totals)@ == add_counts(old(totals)@, self@.known),
    {
        for pair in it: self.known_cards.iter()
            invariant
                it.seq() == self.known_cards.iter().remaining(),
                it.seq().no_duplicates(),
                forall|s: i8|
                    self@.known.contains_key(s) ==> i8::MIN <= held(old(totals)@, s)
                        + #[trigger] self@.known[s] <= i8::MAX,
                forall|s: i8|
                    #![trigger totals@.contains_key(s)]
                    #![trigger totals@[s]]
                    {
                        let seen = exists|i: int|
                            0 <= i < it.index() && *(#[trigger] it.seq()[i]).0 == s;
                        &&& totals@.contains_key(s) == (old(totals)@.contains_key(s) || seen)
                        &&& totals@.contains_key(s) ==> totals@[s] == held(old(totals)@, s) + if seen {
                            self@.known[s] as int
                        } else {
                            0
                        }
                    },
        {
            let ghost at = it.index();
            let ghost all = it.seq();
            assert(pair == all[at]);
            assert(self@.known.contains_key(*pair.0) && self@.known[*pair.0] == *pair.1);
            let suit: i8 = *pair.0;
            let count: i8 = *pair.1;
            assert forall|i: int| 0 <= i < at implies *(#[trigger] all[i]).0 != suit by {
                if *all[i].0 == suit {
                    assert(self@.known[*all[i].0] == *all[i].1);
                    assert(all[i] == all[at]);
                }
            }
            let so_far: i8 = match totals.get(&suit) {
                Some(total) => *total,
                None => 0,
            };
            let ghost before = totals@;
            totals.insert(suit, so_far + count);
            assert forall|s: i8|
                #![trigger totals@.contains_key(s)]
                #![trigger totals@[s]]
                {
                    let seen = exists|i: int| 0 <= i < at + 1 && *(#[trigger] all[i]).0 == s;
                    &&& totals@.contains_key(s) == (old(totals)@.contains_key(s) || seen)
                    &&& totals@.contains_key(s) ==> totals@[s] == held(old(totals)@, s) + if seen {
                        self@.known[s] as int
                    } else {
                        0
                    }
                } by {
                let seen_before = exists|i: int| 0 <= i < at && *(#[trigger] all[i]).0 == s;
                let seen = exists|i: int| 0 <= i < at + 1 && *(#[trigger] all[i]).0 == s;
                assert(before.contains_key(s) == (old(totals)@.contains_key(s) || seen_before));
                if s == suit {
                    assert(*all[at].0 == s);
                    assert(seen);
                    assert(!seen_before);
                } else {
                    if seen {
                        let i = choose|i: int| 0 <= i < at + 1 && *(#[trigger] all[i]).0 == s;
                        assert(i < at);
                        assert(seen_before);
                    }
                    if seen_before {
                        let i = choose|i: int| 0 <= i < at && *(#[trigger] all[i]).0 == s;
                        assert(0 <= i < at + 1 && *all[i].0 == s);
                    }
                }
            }
        }
        proof {
            let all = self.known_cards.iter().remaining();
            assert forall|s: i8| self@.known.contains_key(s) <==> exists|i: int|
                0 <= i < all.len() && *(#[trigger] all[i]).0 == s by {
                if self@.known.contains_key(s) {
                    assert(all.contains((&s, &self.known_cards@[s])));
                    let i = choose|i: int| 0 <= i < all.len() && all[i] == (&s, &self.known_cards@[s]);
                    assert(*all[i].0 == s);
                }
            }
            assert(totals@ =~= add_counts(old(totals)@, self@.known));
        }
    }

    /// Where this is the only hand with undetermined cards, these are the
    /// cards that `totals` shows to be missing: for every suit in it with
    /// fewer than four cards, the rest become known cards of the hand.
    /// Returns true if that accounts for just the undetermined cards and
    /// none of them is of an excluded suit.
    pub fn fill_unknowns(&mut self, totals: &mut HashMap<i8, i8>) -> (ok: bool)
        requires
            old(self)@.wf(),
            forall|s: i8| old(totals)@.contains_key(s) ==> #[trigger] old(totals)@[s] >= 0,
            forall|s: i8| old(self)@.count(s) + 4 <= i8::MAX,
        ensures
            final(totals)@ == old(totals)@,
            ok == old(self)@.fill_unknowns_ok(old(totals)@),
            ok ==> final(self)@ == old(self)@.fill_unknowns(old(totals)@),
            exists|upto: int|
                i8::MIN <= upto <= i8::MAX + 1 && final(self)@ == #[trigger] old(self)@.fill_upto(
                    old(totals)@,
                    upto,
                ) && deficit_sum(old(totals)@, upto) <= old(self)@.unknown,
    {
        let mut next: i16 = -128;
        assert(self@.known =~= old(self)@.fill_upto(totals@, -128).known);
        while next < 128
            invariant
                -128 <= next <= 128,
                totals@ == old(totals)@,
                old(self)@.wf(),
                forall|s: i8| totals@.contains_key(s) ==> #[trigger] totals@[s] >= 0,
                forall|s: i8| old(self)@.count(s) + 4 <= i8::MAX,
                self@ == old(self)@.fill_upto(totals@, next as int),
                self@.unknown >= 0,
                self@.unknown == old(self)@.unknown - deficit_sum(totals@, next as int),
                forall|s: i8| s < next && deficit(totals@, s) > 0 ==> !self@.voids.contains(s),
            decreases 128 - next,
        {
            let suit: i8 = next as i8;
            let ghost before = self@;
            let missing: i8 = match totals.get(&suit) {
                Some(total) => if *total < 4 {
                    4 - *total
                } else {
                    0
                },
                None => 0,
            };
            assert(missing == deficit(totals@, suit));
            assert(before.count(suit) == old(self)@.count(suit));
            if missing > 0 {
                if !self.fill_some_unknowns(suit, missing) {
                    proof {
                        lemma_deficit_sum_rises(totals@, next + 1, i8::MAX + 1);
                        assert(!before.can_fill(suit, missing));
                        if !before.voids.contains(suit) {
                            assert(deficit_sum(totals@, next + 1) > old(self)@.unknown);
                        }
                    }
                    return false;
                }
            }
            next += 1;
            assert(self@.known =~= old(self)@.fill_upto(totals@, next as int).known);
        }
        assert forall|s: i8| deficit(totals@, s) > 0 implies !old(self)@.voids.contains(s) by {
            assert(s < next);
            assert(self@.voids == old(self)@.voids);
        }
        self.number_of_unknown_cards == 0
    }

    /// True if no card of the hand is undetermined.
    pub fn is_determined(&self) -> (determined: bool)
        ensures
            determined == (self@.unknown == 0),
    {
        self.number_of_unknown_cards == 0
    }

    /// Excludes `suit` from the undetermined cards, as when all four cards
    /// of the suit are accounted for. Returns true if that was news.
    pub fn kill_unknown(&mut self, suit: i8) -> (changed: bool)
        ensures
            changed == old(self)@.kill_changes(suit),
            final(self)@ == old(self)@.kill_unknown(suit),
            old(self)@.disjoint() && !old(self)@.known.contains_key(suit) ==> final(self)@.disjoint(),
    {
        if self.number_of_unknown_cards > 0 {
            self.known_voids.insert(suit)
        } else {
            false
        }
    }

    /// Where all suits below `number_of_suits` but one are excluded, the
    /// undetermined cards are all of that suit: they become known cards.
    /// Returns true if the hand changed.
    pub fn force_unknowns(&mut self, number_of_suits: i8) -> (changed: bool)
        requires
            old(self)@.wf(),
            forall|s: i8| old(self)@.count(s) + old(self)@.unknown <= i8::MAX,
        ensures
            changed == old(self)@.forced_suit(number_of_suits).is_some(),
            final(self)@ == old(self)@.force_unknowns(number_of_suits),
            old(self)@.disjoint() ==> final(self)@.disjoint(),
    {
        if self.number_of_unknown_cards == 0 {
            return false;
        }
        if number_of_suits >= 1 && self.known_voids.len() == (number_of_suits - 1) as usize {
            let mut i: i8 = 0;
            while i < number_of_suits
                invariant
                    0 <= i <= number_of_suits,
                    *self == *old(self),
                    self@.first_free(i as int).is_none(),
                    self@.wf(),
                    self@.unknown != 0,
                    self@.voids.len() == number_of_suits - 1,
                    forall|s: i8| self@.count(s) + self@.unknown <= i8::MAX,
                decreases number_of_suits - i,
            {
                if !self.known_voids.contains(&i) {
                    let count: i8 = self.known_count(i);
                    proof {
                        assert(self@.first_free(i + 1) == Some(i));
                        lemma_first_free_stays(self@, i + 1, number_of_suits as int);
                    }
                    self.known_cards.insert(i, count + self.number_of_unknown_cards);
                    self.number_of_unknown_cards = 0;
                    self.known_voids.clear();
                    return true;
                }
                i += 1;
            }
        }
        false
    }

    /// True if the player may ask for a card of `suit`: the player holds
    /// one, or may hold one among the undetermined cards.
    pub fn is_legal(&self, suit: i8) -> (legal: bool)
        ensures
            legal == self@.is_legal(suit),
    {
        if self.known_cards.contains_key(&suit) {
            return true;
        }
        if self.number_of_unknown_cards == 0 {
            return false;
        }
        if self.known_voids.contains(&suit) {
            return false;
        }
        true
    }

    /// Whether the hand holds a card of `suit`. The first component says
    /// whether that is settled, the second what the answer is then (it is
    /// true where nothing is settled).
    pub fn has_card(&self, suit: i8) -> (answer: (bool, bool))
        ensures
            answer.0 == self@.has_card_forced(suit),
            answer.1 == if answer.0 {
                self@.known.contains_key(suit)
            } else {
                true
            },
    {
        if self.known_cards.contains_key(&suit) {
            (true, true)
        } else if self.number_of_unknown_cards == 0 {
            (true, false)
        } else if self.known_voids.contains(&suit) {
            (true, false)
        } else {
            (false, true)
        }
    }

    /// Turns `count` undetermined cards into known cards of `suit`. Returns
    /// false, and changes nothing, where the hand has fewer undetermined cards
    /// or the suit is excluded.
    pub fn fill_some_unknowns(&mut self, suit: i8, count: i8) -> (ok: bool)
        requires
            0 <= count <= 4,
            old(self)@.count(suit) + count <= i8::MAX,
        ensures
            ok == old(self)@.can_fill(suit, count),
            final(self)@ == old(self)@.fill_some_unknowns(suit, count),
            old(self)@.disjoint() ==> final(self)@.disjoint(),
    {
        if self.number_of_unknown_cards < count {
            return false;
        }
        if self.known_voids.contains(&suit) {
            return false;
        }
        let held: i8 = self.known_count(suit);
        self.number_of_unknown_cards -= count;
        self.known_cards.insert(suit, held + count);
        true
    }
}

/// What `first_free` finds is a suit below `n` that is not excluded.
pub proof fn lemma_first_free_is_free(hand: HandView, n: int)
    requires
        hand.first_free(n).is_some(),
    ensures
        0 <= hand.first_free(n).unwrap() < n,
        !hand.voids.contains(hand.first_free(n).unwrap()),
    decreases n,
{
    if n > 0 && hand.first_free(n - 1).is_some() {
        lemma_first_free_is_free(hand, n - 1);
    }
}

/// What `first_free` finds below `n` it still finds below any larger bound.
pub proof fn lemma_first_free_stays(hand: HandView, n: int, m: int)
    requires
        n <= m,
        hand.first_free(n).is_some(),
    ensures
        hand.first_free(m) == hand.first_free(n),
    decreases m - n,
{
    if n < m {
        lemma_first_free_stays(hand, n, m - 1);
    }
}

} // verus!
