//! A player that looks ahead: it tries every move, takes each to its end as
//! far as its depth allows, and keeps what it has found for positions that
//! it meets again.
use crate::canonical::canonical_position;
use crate::canonical::lemma_ranked;
use crate::canonical::ranked;
use crate::cards::legal_move;
use crate::cards::next_seat;
use crate::game::moved_table;
use crate::inference::closed_table;
use crate::inference::verdict;
use crate::player::suit_place;
use crate::inference::Verdict;
use crate::player::CandidatesView;
use crate::position::position_number;
use crate::cards::no_transfer_table;
use crate::cards::transfer_table;
use crate::judge::winner_after;
use crate::cards::Cards;
use crate::cards::ILLEGAL_CARDS;
use crate::cards::NO_WINNER;
use crate::hand::HandView;
use crate::judge::table_has_card;
use crate::moves::legal_moves;
use crate::moves::sound_move;
use crate::player::duplicate_history;
use crate::player::lemma_best_is_good;
use crate::player::lemma_first_some_none;
use crate::player::lemma_no_winner_is_playable;
use crate::player::lemma_playable_is_small;
use crate::player::place_of;
use crate::player::playable;
use crate::player::Candidates;
use crate::player::Choice;
use crate::player::Player;
use crate::position::identity;
use crate::position::lemma_small_table_fits;
use crate::position::lemma_small_table_ranks;
use crate::show::number_text;
use crate::show::push_number;
use std::collections::HashMap;
use std::collections::HashSet;
use vstd::prelude::*;
use vstd::string::StringExecFns;

verus! {

broadcast use vstd::std_specs::hash::group_hash_axioms;

/// A player that looks ahead.
pub struct CleverPlayer {
    max_depth: i64,
    max_has_depth: i64,
    progress: i64,
    current_progress: i64,
    preferences: Vec<Vec<usize>>,
    symmetric: bool,
    _cached_moves: HashMap<i128, (i8, i8, i8)>,
}

/// The first place in `list` that holds `winner`.
pub open spec fn first_place(list: Seq<usize>, winner: int, n: int) -> Option<usize>
    decreases n,
{
    if n <= 0 {
        None
    } else {
        match first_place(list, winner, n - 1) {
            Some(i) => Some(i),
            None => if list[n - 1] == winner {
                Some((n - 1) as usize)
            } else {
                None
            },
        }
    }
}

/// What `first_place` finds below `n` it finds below any larger bound, and
/// it is a place of the list.
pub proof fn lemma_first_place(list: Seq<usize>, winner: int, n: int, m: int)
    requires
        0 <= n <= m <= list.len() <= usize::MAX,
    ensures
        first_place(list, winner, n) matches Some(i) ==> i < n && first_place(list, winner, m)
            == Some(i),
    decreases m,
{
    if n < m {
        lemma_first_place(list, winner, n, m - 1);
    } else if n > 0 {
        lemma_first_place(list, winner, n - 1, n - 1);
    }
}

/// The first place of `winner` in `list`, or `None` where it is not in it.
pub fn place_of_winner(list: &Vec<usize>, winner: i64) -> (found: Option<usize>)
    ensures
        found == first_place(list@, winner as int, list@.len() as int),
        found matches Some(i) ==> i < list@.len(),
{
    let mut i: usize = 0;
    while i < list.len()
        invariant
            i <= list@.len(),
            first_place(list@, winner as int, i as int).is_none(),
        decreases list@.len() - i,
    {
        if winner >= 0 && list[i] as u128 == winner as u128 {
            proof {
                lemma_first_place(list@, winner as int, i as int + 1, list@.len() as int);
            }
            return Some(i);
        }
        i += 1;
    }
    None
}

/// What a player that weighs two outcomes answers, where neither answer lets
/// the player win: yes where only that leads to a draw, no where only that
/// does; of two winners the one that comes first in the preferences, and no
/// where that does not decide.
pub open spec fn weigh_spec(
    yes_winner: i64,
    no_winner: i64,
    yes_place: usize,
    no_place: usize,
    with_preferences: bool,
) -> bool {
    if yes_winner < 0 {
        true
    } else if no_winner < 0 {
        false
    } else {
        with_preferences && yes_place < no_place
    }
}

/// See [`weigh_spec`].
pub fn weigh(
    yes_winner: i64,
    no_winner: i64,
    yes_place: usize,
    no_place: usize,
    with_preferences: bool,
) -> (yes: bool)
    ensures
        yes == weigh_spec(yes_winner, no_winner, yes_place, no_place, with_preferences),
{
    if yes_winner < 0 {
        return true;
    }
    if no_winner < 0 {
        return false;
    }
    if with_preferences {
        if yes_place < no_place {
            return true;
        } else if no_place < yes_place {
            return false;
        }
    }
    false
}

/// What a player answers who is asked for a card, given
///
/// - `settled`: what the table says, see [`table_has_card`];
/// - `yes_now` and `no_now`: what the test of the winner says after the
///   answer yes and after the answer no;
/// - `yes_later` and `no_later`: the winner that the search finds where the
///   game goes on after the answer, or -1;
/// - `depth`: how far the search may go;
/// - `preferences`: for each player the winners that the player would
///   rather see, the most preferred first, or nothing where the players have
///   no preferences.
///
/// What the table settles is the answer. Else the answer is yes where yes
/// lets the player win at once. At depth zero, and where the depth cannot be
/// counted down, it is yes where yes ends the game. Else each answer has its
/// winner, at once or later: the answer is yes where yes lets the player
/// win, no where no does, and else the two winners are weighed, see
/// [`weigh_spec`].
pub open spec fn answer_spec(
    settled: (bool, bool),
    yes_now: i64,
    no_now: i64,
    yes_later: i64,
    no_later: i64,
    depth: i64,
    this: int,
    preferences: Seq<Seq<usize>>,
) -> bool {
    let with_preferences = preferences.len() != 0;
    let place_or_len = |winner: i64|
        match place_in(preferences, this, winner) {
            Some(f) => f,
            None => if with_preferences {
                preferences[this].len() as usize
            } else {
                0usize
            },
        };
    let yes_winner = if yes_now != NO_WINNER {
        yes_now
    } else {
        yes_later
    };
    let no_winner = if no_now != NO_WINNER {
        no_now
    } else {
        no_later
    };
    if settled.0 {
        settled.1
    } else if yes_now == this {
        true
    } else if depth == 0 || depth == i64::MIN {
        yes_now != NO_WINNER
    } else if yes_winner == this {
        true
    } else if no_winner == this {
        false
    } else {
        weigh_spec(
            yes_winner,
            no_winner,
            place_or_len(yes_winner),
            place_or_len(no_winner),
            with_preferences,
        )
    }
}

/// The place of `winner` among the winners that player `this` would rather
/// see, by `preferences`.
pub open spec fn place_in(preferences: Seq<Seq<usize>>, this: int, winner: i64) -> Option<usize> {
    if preferences.len() == 0 {
        None
    } else {
        first_place(preferences[this], winner as int, preferences[this].len() as int)
    }
}

/// What trying the move `a_move` of player `this` adds to the moves found:
/// the move itself where it lets `this` win, else the moves found with that
/// move noted, given
///
/// - `has`: the answer of the player asked;
/// - `later`: the winner and the position of a draw that the search finds
///   where the game goes on after the move;
/// - `depth`: how far the search may go;
/// - `history`: the positions met.
///
/// A move that leads to a contradiction is left out, and so is one after
/// which nobody else has cards. A move after which another player has won is
/// noted with that winner. At depth zero a move after which the game goes on
/// is noted as one that leads nobody knows where. A move that leads to a
/// position of the history is noted as a draw. Else the move is noted with
/// what the search has found.
pub open spec fn try_move(
    found: CandidatesView,
    hands: Seq<HandView>,
    this: int,
    a_move: (usize, i8),
    has: bool,
    later: (i64, i128),
    depth: i64,
    history: Set<i128>,
    preferences: Seq<Seq<usize>>,
) -> (Option<Choice>, CandidatesView) {
    let (other, suit) = a_move;
    let moved = moved_table(hands, other as int, suit, this, has);
    let winner = winner_after(moved, this) as i64;
    let made = Choice { other, suit, result: winner, draw_position: -1i128 };
    if winner == ILLEGAL_CARDS {
        (None, found)
    } else if winner == this {
        (Some(made), found)
    } else if winner != NO_WINNER {
        (None, found.with_winner_at_once(place_in(preferences, this, winner), made))
    } else if depth == 0 {
        (
            None,
            CandidatesView {
                out_of_depth: Some(Choice { other, suit, result: -1i64, draw_position: -1i128 }),
                ..found
            },
        )
    } else {
        match verdict(moved) {
            Verdict::Contradiction => (None, found),
            Verdict::Consistent(closed) => match next_seat(closed, this, 1) {
                None => (None, found),
                Some(next) => {
                    let position = position_number(
                        closed,
                        identity(closed.len() as int),
                        next as int,
                        false,
                    ) as i128;
                    if history.contains(position) {
                        (
                            None,
                            CandidatesView {
                                draw: Some(
                                    Choice { other, suit, result: -1i64, draw_position: position },
                                ),
                                ..found
                            },
                        )
                    } else if later.0 == this {
                        (
                            Some(Choice { other, suit, result: later.0, draw_position: -1i128 }),
                            found,
                        )
                    } else {
                        (
                            None,
                            found.with_later(
                                place_in(preferences, this, later.0),
                                other,
                                suit,
                                later.0,
                                later.1,
                            ),
                        )
                    }
                },
            },
        }
    }
}

/// The move to make after the moves have been tried: the move that wins, or
/// the best of the moves found.
pub open spec fn search_result(tried: (Option<Choice>, CandidatesView)) -> Option<Choice> {
    match tried.0 {
        Some(won) => Some(won),
        None => tried.1.best(),
    }
}

/// How a look-ahead player is set up, as far as the search goes by it.
pub struct Setup {
    /// For each player the winners that the player would rather see, the
    /// most preferred first; empty where the players have no preferences.
    pub preferences: Seq<Seq<usize>>,
    /// How many moves the search for an answer looks ahead at most.
    pub max_has_depth: i64,
    /// Whether positions that differ only in who is to move are taken to be
    /// the same.
    pub symmetric: bool,
}

/// The winner and the position of a draw that a search has found; -1 for
/// both where it has found no move.
pub open spec fn later_of(found: Option<Choice>) -> (i64, i128) {
    match found {
        Some(c) => (c.result, c.draw_position),
        None => (-1i64, -1i128),
    }
}

/// The number of winners that player `this` would rather see.
pub open spec fn places_of(preferences: Seq<Seq<usize>>, this: int) -> nat {
    if preferences.len() == 0 {
        0
    } else {
        preferences[this].len()
    }
}

/// How far the search for an answer may go: the depth given, but no further
/// than the depth for answers.
pub open spec fn reach_of(setup: Setup, given_depth: i64) -> i64 {
    if given_depth < setup.max_has_depth {
        given_depth
    } else {
        setup.max_has_depth
    }
}

/// Where the game goes on after a move of player `this` that has led to the
/// table `moved`, and the search has depth left: the player who is next and
/// the number of the position. `None` where somebody has won, the hands
/// contradict each other, the depth is zero, nobody else has cards, or the
/// position is one of the history.
pub open spec fn goes_on(moved: Seq<HandView>, this: int, depth: i64, history: Set<i128>) -> Option<
    (usize, i128),
> {
    if winner_after(moved, this) != NO_WINNER || depth == 0 {
        None
    } else {
        match next_seat(closed_table(moved), this, 1) {
            None => None,
            Some(next) => {
                let position = position_number(
                    closed_table(moved),
                    identity(closed_table(moved).len() as int),
                    next as int,
                    false,
                ) as i128;
                if history.contains(position) {
                    None
                } else {
                    Some((next, position))
                }
            },
        }
    }
}

/// The move of player `this` at `depth`, and what the player keeps after it,
/// given what the player kept before. Where something usable is kept for
/// the position, that is the move, and nothing changes. Else the move is
/// the one that the search finds, see [`search_uncached`]; what the search
/// has left is kept, and with it the move found under the number of the
/// position, if and only if the move is worth keeping, see
/// [`worth_keeping`].
pub open spec fn search_move(
    setup: Setup,
    kept: Map<i128, (i8, i8, i8)>,
    this: int,
    hands: Seq<HandView>,
    history: Set<i128>,
    depth: i64,
) -> (Option<Choice>, Map<i128, (i8, i8, i8)>)
    decreases depth - i64::MIN, 3int, 0int,
{
    let order = ranked(hands, this);
    let pos = canonical_position(hands, this, setup.symmetric) as i128;
    if kept.contains_key(pos) && usable(kept[pos], hands, this, order) {
        (Some(decoded(kept[pos], this, order)), kept)
    } else {
        let (found, left) = search_uncached(setup, kept, this, hands, history, depth, order);
        match found {
            None => (None, left),
            Some(c) => match suit_place(order, c.suit, order.len() as int) {
                None => (found, left),
                Some(place) => {
                    let entry = encoded(c, this, order, place as int);
                    if worth_keeping(entry.2, c.draw_position, history) {
                        (found, left.insert(pos, entry))
                    } else {
                        (found, left)
                    }
                },
            },
        }
    }
}

/// The move that the search of `depth` moves finds for player `this`, and
/// what the player keeps after it: every legal move is tried in the order
/// of `order`, see [`search_moves`]; the move that wins is taken, or the
/// best of the moves found, see [`search_result`]. No move where the depth
/// cannot be counted down.
pub open spec fn search_uncached(
    setup: Setup,
    kept: Map<i128, (i8, i8, i8)>,
    this: int,
    hands: Seq<HandView>,
    history: Set<i128>,
    depth: i64,
    order: Seq<i8>,
) -> (Option<Choice>, Map<i128, (i8, i8, i8)>)
    decreases depth - i64::MIN, 2int, 0int,
{
    if depth == i64::MIN {
        (None, kept)
    } else {
        let moves = legal_moves(hands, this, order);
        let tried = search_moves(
            setup,
            kept,
            this,
            hands,
            history,
            depth,
            moves,
            moves.len() as int,
        );
        (search_result((tried.0, tried.1)), tried.2)
    }
}

/// What trying the first `upto` of `moves` brings, one after the other,
/// until one lets `this` win: that move, or the moves found; and what the
/// player keeps after that.
pub open spec fn search_moves(
    setup: Setup,
    kept: Map<i128, (i8, i8, i8)>,
    this: int,
    hands: Seq<HandView>,
    history: Set<i128>,
    depth: i64,
    moves: Seq<(usize, i8)>,
    upto: int,
) -> (Option<Choice>, CandidatesView, Map<i128, (i8, i8, i8)>)
    decreases depth - i64::MIN, 1int, upto,
{
    if upto <= 0 {
        (None, CandidatesView::empty(places_of(setup.preferences, this)), kept)
    } else {
        let before = search_moves(setup, kept, this, hands, history, depth, moves, upto - 1);
        if before.0.is_some() {
            before
        } else {
            search_try(setup, before.2, before.1, this, hands, history, depth, moves[upto - 1])
        }
    }
}

/// What trying one move of player `this` brings, see [`try_move`]: the
/// player asked answers as [`search_answer`] says, one move less deep; and
/// where the game goes on, see [`goes_on`], the next player searches, one
/// move less deep too, with the position added to the history.
pub open spec fn search_try(
    setup: Setup,
    kept: Map<i128, (i8, i8, i8)>,
    found: CandidatesView,
    this: int,
    hands: Seq<HandView>,
    history: Set<i128>,
    depth: i64,
    a_move: (usize, i8),
) -> (Option<Choice>, CandidatesView, Map<i128, (i8, i8, i8)>)
    decreases depth - i64::MIN, 0int, 0int,
{
    if depth == i64::MIN {
        (None, found, kept)
    } else {
        let below = (depth - 1) as i64;
        let (other, suit) = a_move;
        let answered = search_answer(setup, kept, other as int, this, suit, hands, history, below);
        let moved = moved_table(hands, other as int, suit, this, answered.0);
        match goes_on(moved, this, depth, history) {
            None => {
                let tried = try_move(
                    found,
                    hands,
                    this,
                    a_move,
                    answered.0,
                    (-1i64, -1i128),
                    depth,
                    history,
                    setup.preferences,
                );
                (tried.0, tried.1, answered.1)
            },
            Some((next, position)) => {
                let deeper = search_move(
                    setup,
                    answered.1,
                    next as int,
                    closed_table(moved),
                    history.insert(position),
                    below,
                );
                let tried = try_move(
                    found,
                    hands,
                    this,
                    a_move,
                    answered.0,
                    later_of(deeper.0),
                    depth,
                    history,
                    setup.preferences,
                );
                (tried.0, tried.1, deeper.1)
            },
        }
    }
}

/// Whether player `asked` hands player `asker` a card of `suit`, see
/// [`answer_spec`], and what the player keeps after the answer. Where the
/// answer is not settled, yes does not win at once and there is depth left,
/// the game is taken on from the next player after yes, where nobody has won
/// by it; and, unless that or no at once decides, after no likewise.
pub open spec fn search_answer(
    setup: Setup,
    kept: Map<i128, (i8, i8, i8)>,
    asked: int,
    asker: int,
    suit: i8,
    hands: Seq<HandView>,
    history: Set<i128>,
    given_depth: i64,
) -> (bool, Map<i128, (i8, i8, i8)>)
    decreases given_depth - i64::MIN, 0int, 0int,
{
    let settled = table_has_card(hands, suit, asked, asker);
    let yes_table = transfer_table(hands, suit, asked, asker);
    let no_table = no_transfer_table(hands, suit, asked, asker);
    let yes_now = winner_after(yes_table, asker) as i64;
    let no_now = winner_after(no_table, asker) as i64;
    let reach = reach_of(setup, given_depth);
    if settled.0 || yes_now == asked || reach == 0 || reach == i64::MIN {
        (
            answer_spec(settled, yes_now, no_now, -1i64, -1i64, reach, asked, setup.preferences),
            kept,
        )
    } else {
        let below = (reach - 1) as i64;
        let next = next_seat(closed_table(yes_table), asker, 1);
        let yes = match next {
            Some(player) if yes_now == NO_WINNER => search_move(
                setup,
                kept,
                player as int,
                closed_table(yes_table),
                history,
                below,
            ),
            _ => (None, kept),
        };
        let yes_later = later_of(yes.0).0;
        if (yes_now == NO_WINNER && yes_later == asked) || no_now == asked {
            (
                answer_spec(
                    settled,
                    yes_now,
                    no_now,
                    yes_later,
                    -1i64,
                    reach,
                    asked,
                    setup.preferences,
                ),
                yes.1,
            )
        } else {
            let no = match next {
                Some(player) if no_now == NO_WINNER => search_move(
                    setup,
                    yes.1,
                    player as int,
                    closed_table(no_table),
                    history,
                    below,
                ),
                _ => (None, yes.1),
            };
            (
                answer_spec(
                    settled,
                    yes_now,
                    no_now,
                    yes_later,
                    later_of(no.0).0,
                    reach,
                    asked,
                    setup.preferences,
                ),
                no.1,
            )
        }
    }
}

/// Once a move lets the player win, the moves that follow are not tried.
pub proof fn lemma_search_moves_won(
    setup: Setup,
    kept: Map<i128, (i8, i8, i8)>,
    this: int,
    hands: Seq<HandView>,
    history: Set<i128>,
    depth: i64,
    moves: Seq<(usize, i8)>,
    upto: int,
    more: int,
)
    requires
        upto <= more,
        search_moves(setup, kept, this, hands, history, depth, moves, upto).0.is_some(),
    ensures
        search_moves(setup, kept, this, hands, history, depth, moves, more) == search_moves(
            setup,
            kept,
            this,
            hands,
            history,
            depth,
            moves,
            upto,
        ),
    decreases more - upto,
{
    if upto < more {
        lemma_search_moves_won(setup, kept, this, hands, history, depth, moves, upto, more - 1);
    }
}

/// The move of a choice: the player asked and the suit asked for.
pub open spec fn move_of(found: Option<Choice>) -> Option<(usize, i8)> {
    match found {
        Some(c) => Some((c.other, c.suit)),
        None => None,
    }
}

/// A choice is good for player `this` on a table: its move is legal, and
/// its result is a player of the table or -1.
pub open spec fn good_choice(hands: Seq<HandView>, this: int, choice: Choice) -> bool {
    &&& legal_move(hands, choice.other as int, choice.suit, this)
    &&& -1 <= choice.result < hands.len()
}

/// What the player has kept for a position, as a move of player `this` on
/// the table at hand: the player asked is counted round the table from
/// `this`, the suit is a place in the order of the suits, and a winner is
/// counted round the table from `this` too.
pub open spec fn decoded(entry: (i8, i8, i8), this: int, order: Seq<i8>) -> Choice {
    let n = order.len() as int;
    Choice {
        other: ((entry.0 + this) % n) as usize,
        suit: order[entry.1 as int],
        result: if entry.2 < 0 {
            entry.2 as i64
        } else {
            ((entry.2 + this) % n) as i64
        },
        draw_position: -1i128,
    }
}

/// What the player has kept can be used: it is in range, and the move that
/// it gives is legal.
pub open spec fn usable(entry: (i8, i8, i8), hands: Seq<HandView>, this: int, order: Seq<i8>) -> bool {
    &&& 0 <= entry.0
    &&& 0 <= entry.1 < order.len()
    &&& -1 <= entry.2 < order.len()
    &&& legal_move(hands, decoded(entry, this, order).other as int, decoded(entry, this, order).suit, this)
}

/// What the player keeps of a move of player `this`, see [`decoded`]: the
/// player asked and the winner as counted from `this`, and the place of the
/// suit in the order of the suits.
pub open spec fn encoded(choice: Choice, this: int, order: Seq<i8>, place: int) -> (i8, i8, i8) {
    let n = order.len() as int;
    (
        ((n + choice.other - this) % n) as i8,
        place as i8,
        if choice.result < 0 {
            choice.result as i8
        } else {
            ((n + choice.result - this) % n) as i8
        },
    )
}

/// Whether a move found is worth keeping: it leads to a win, or to a draw
/// that does not hang on a position of the history.
pub open spec fn worth_keeping(kept_result: i8, draw_position: i128, history: Set<i128>) -> bool {
    kept_result >= 0 || !history.contains(draw_position)
}

/// What is kept of a move gives the move again, but for the position that
/// makes a draw.
pub proof fn lemma_decoded_encoded(choice: Choice, this: int, order: Seq<i8>, place: int)
    requires
        1 <= order.len() <= i8::MAX,
        0 <= this < order.len(),
        choice.other < order.len(),
        -1 <= choice.result < order.len(),
        0 <= place < order.len(),
        order[place] == choice.suit,
    ensures
        decoded(encoded(choice, this, order, place), this, order) == (Choice {
            draw_position: -1i128,
            ..choice
        }),
{
    let n = order.len() as int;
    lemma_round_the_table(choice.other as int, this, n);
    if choice.result >= 0 {
        lemma_round_the_table(choice.result as int, this, n);
    }
}

/// To count a player from `this` and then back from `this` gives the player.
pub proof fn lemma_round_the_table(player: int, this: int, n: int)
    requires
        0 <= player < n,
        0 <= this < n,
    ensures
        0 <= (n + player - this) % n < n,
        ((n + player - this) % n + this) % n == player,
{
    if player >= this {
        assert((n + player - this) % n == player - this) by (nonlinear_arith)
            requires
                0 <= player - this < n,
        ;
        assert((player - this + this) % n == player) by (nonlinear_arith)
            requires
                0 <= player < n,
        ;
    } else {
        assert((n + player - this) % n == n + player - this) by (nonlinear_arith)
            requires
                0 <= n + player - this < n,
        ;
        assert((n + player - this + this) % n == player) by (nonlinear_arith)
            requires
                0 <= player < n,
        ;
    }
}

/// What a line about the cache starts with.
pub open spec fn cache_label() -> Seq<char> {
    seq!['c', 'a', 'c', 'h', 'e', ' ', 's', 'i', 'z', 'e', ':', ' ']
}

impl CleverPlayer {
    /// The preferences of the players: for each player the winners that the
    /// player would rather see than others, the most preferred first. Empty
    /// where the players have no preferences.
    pub closed spec fn preferences(&self) -> Seq<Seq<usize>> {
        Seq::new(self.preferences@.len(), |i: int| self.preferences@[i]@)
    }

    /// How many moves the player looks ahead, for a move and for an answer.
    pub closed spec fn depths(&self) -> (i64, i64) {
        (self.max_depth, self.max_has_depth)
    }

    /// Whether positions that differ only in who is to move are taken to
    /// be the same.
    pub closed spec fn symmetric(&self) -> bool {
        self.symmetric
    }

    /// The number of positions for which the player keeps a move.
    pub closed spec fn cache_len(&self) -> nat {
        self._cached_moves@.len()
    }

    /// What the player keeps: for the number of a position what
    /// [`decoded`] reads as a move.
    pub closed spec fn kept(&self) -> Map<i128, (i8, i8, i8)> {
        self._cached_moves@
    }

    /// The player has preferences for every player of a table of `players`
    /// players, or for none.
    pub open spec fn serves(&self, players: int) -> bool {
        self.preferences().len() == 0 || self.preferences().len() >= players
    }

    /// How the player is set up, as far as the search goes by it.
    pub open spec fn setup(&self) -> Setup {
        Setup {
            preferences: self.preferences(),
            max_has_depth: self.depths().1,
            symmetric: self.symmetric(),
        }
    }

    /// The player keeps a move for every position for which `before` kept
    /// one: what is kept is never dropped.
    pub open spec fn keeps_all(&self, before: &CleverPlayer) -> bool {
        forall|position: i128|
            before.kept().contains_key(position) ==> #[trigger] self.kept().contains_key(position)
    }

    /// The player is set up as `before` was: only what it has learned
    /// differs.
    pub open spec fn set_up_as(&self, before: &CleverPlayer) -> bool {
        &&& self.preferences() == before.preferences()
        &&& self.depths() == before.depths()
        &&& self.symmetric() == before.symmetric()
    }

    /// A player that looks `max_depth` moves ahead for a move (0: the move
    /// itself only) and `max_has_depth` for an answer. `progress` is the
    /// number of positions after which the count of progress starts again (0:
    /// no count). `preferences` holds for each player the winners that the
    /// player would rather see, or is empty. With `symmetric` set, positions
    /// that differ only in who is to move are taken to be the same.
    pub fn new(
        max_depth: i64,
        max_has_depth: i64,
        progress: i64,
        preferences: Vec<Vec<usize>>,
        symmetric: bool,
    ) -> (player: CleverPlayer)
        ensures
            player.depths() == (max_depth, max_has_depth),
            player.symmetric() == symmetric,
            player.preferences() == Seq::new(preferences@.len(), |i: int| preferences@[i]@),
            player.cache_len() == 0,
            player.kept() == Map::<i128, (i8, i8, i8)>::empty(),
    {
        CleverPlayer {
            max_depth,
            max_has_depth,
            progress,
            current_progress: 0,
            preferences,
            symmetric,
            _cached_moves: HashMap::new(),
        }
    }

    /// The number of positions for which the player keeps a move.
    pub fn cache_size(&self) -> (len: usize)
        ensures
            len == self.cache_len(),
    {
        self._cached_moves.len()
    }

    /// A line that tells the size of the cache.
    pub fn describe(&self) -> (line: String)
        ensures
            line@ == cache_label() + number_text(self.cache_len() as int),
    {
        let mut line = String::new();
        proof {
            reveal_strlit("cache size: ");
        }
        line.append("cache size: ");
        assert(line@ =~= cache_label());
        push_number(&mut line, self.cache_size());
        line
    }

    /// The place of `winner` among the winners that player `this` would
    /// rather see, or `None` where it is not among them.
    pub fn preferred_place(&self, this: usize, winner: i64) -> (place: Option<usize>)
        requires
            self.preferences().len() == 0 || this < self.preferences().len(),
        ensures
            place == if self.preferences().len() == 0 {
                None
            } else {
                first_place(
                    self.preferences()[this as int],
                    winner as int,
                    self.preferences()[this as int].len() as int,
                )
            },
            place matches Some(i) ==> i < self.preference_len(this as int),
    {
        if self.preferences.len() == 0 {
            None
        } else {
            place_of_winner(&self.preferences[this], winner)
        }
    }

    /// True if the player has preferences for player `this` of a table of
    /// `players` players, or for nobody.
    pub fn knows_player(&self, this: usize, players: usize) -> (known: bool)
        requires
            this < players,
        ensures
            known == (self.preferences().len() == 0 || this < self.preferences().len()),
            self.serves(players as int) ==> known,
    {
        self.preferences.len() == 0 || this < self.preferences.len()
    }

    /// The number of winners that player `this` would rather see.
    pub open spec fn preference_len(&self, this: int) -> nat {
        if self.preferences().len() == 0 {
            0
        } else {
            self.preferences()[this].len()
        }
    }

    /// The number of winners that player `this` would rather see.
    pub fn preference_count(&self, this: usize) -> (len: usize)
        requires
            self.preferences().len() == 0 || this < self.preferences().len(),
        ensures
            len == self.preference_len(this as int),
    {
        if self.preferences.len() == 0 {
            0
        } else {
            self.preferences[this].len()
        }
    }

    /// Reads what is kept for a position as a move of player `this`, see
    /// [`decoded`]; `None` where it cannot be used, see [`usable`].
    pub fn decode(entry: (i8, i8, i8), this: usize, cards: &Cards, permutation: &[i8]) -> (choice:
        Option<Choice>)
        requires
            cards@.len() <= i8::MAX,
            this < cards@.len(),
            permutation@.len() == cards@.len(),
        ensures
            choice == if usable(entry, cards@, this as int, permutation@) {
                Some(decoded(entry, this as int, permutation@))
            } else {
                None
            },
    {
        let n = permutation.len();
        let (other_c, suit_c, result_c) = entry;
        if 0 <= other_c && 0 <= suit_c && (suit_c as usize) < n && -1 <= result_c && (
        result_c as i64) < n as i64 {
            let other = (other_c as usize + this) % n;
            let suit = permutation[suit_c as usize];
            let result: i64 = if result_c < 0 {
                result_c as i64
            } else {
                ((result_c as usize + this) % n) as i64
            };
            if cards.legal(other, suit, this) {
                return Some(Choice { other, suit, result, draw_position: -1 });
            }
        }
        None
    }

    /// What is kept of a move of player `this`, see [`encoded`]; `None`
    /// where the suit of the move is not in `permutation`.
    pub fn encode(choice: &Choice, this: usize, permutation: &[i8]) -> (entry: Option<(i8, i8, i8)>)
        requires
            1 <= permutation@.len() <= i8::MAX,
            this < permutation@.len(),
            choice.other < permutation@.len(),
            -1 <= choice.result < permutation@.len(),
        ensures
            entry == match suit_place(permutation@, choice.suit, permutation@.len() as int) {
                Some(place) => Some(encoded(*choice, this as int, permutation@, place as int)),
                None => None,
            },
    {
        let n = permutation.len();
        match place_of(permutation, choice.suit) {
            Some(suit_c) => {
                proof {
                    lemma_round_the_table(choice.other as int, this as int, n as int);
                    if choice.result >= 0 {
                        lemma_round_the_table(choice.result as int, this as int, n as int);
                    }
                }
                let other_c = (n + choice.other - this) % n;
                let result_c: i64 = if choice.result < 0 {
                    choice.result
                } else {
                    ((n + choice.result as usize - this) % n) as i64
                };
                Some((other_c as i8, suit_c as i8, result_c as i8))
            },
            None => None,
        }
    }

    /// True if a move found is worth keeping, see [`worth_keeping`].
    pub fn keeps(kept_result: i8, draw_position: i128, history: &HashSet<i128>) -> (yes: bool)
        ensures
            yes == worth_keeping(kept_result, draw_position, history@),
    {
        kept_result >= 0 || !history.contains(&draw_position)
    }

    /// Keeps `entry` for the position `pos` if and only if the move is worth
    /// keeping, see [`worth_keeping`]: a win always, a draw unless it hangs
    /// on a position of the history.
    pub fn keep(
        &mut self,
        pos: i128,
        entry: (i8, i8, i8),
        draw_position: i128,
        history: &HashSet<i128>,
    )
        ensures
            final(self).set_up_as(old(self)),
            final(self).progress_count() == old(self).progress_count(),
            final(self).progress_limit() == old(self).progress_limit(),
            final(self).kept() == if worth_keeping(entry.2, draw_position, history@) {
                old(self).kept().insert(pos, entry)
            } else {
                old(self).kept()
            },
    {
        if CleverPlayer::keeps(entry.2, draw_position, history) {
            self._cached_moves.insert(pos, entry);
        }
    }

    /// The number of positions searched since the count of progress last
    /// started again.
    pub closed spec fn progress_count(&self) -> i64 {
        self.current_progress
    }

    /// The number of positions after which the count of progress starts
    /// again; no count is kept where it is not above zero.
    pub closed spec fn progress_limit(&self) -> i64 {
        self.progress
    }

    /// The count of progress after one more position: one more, or zero
    /// where that reaches the limit. Without a limit the count stays.
    pub open spec fn next_progress_count(&self) -> i64 {
        if self.progress_limit() <= 0 {
            self.progress_count()
        } else if self.progress_count() >= self.progress_limit() - 1 {
            0
        } else {
            (self.progress_count() + 1) as i64
        }
    }

    /// Counts one more position, from zero again once the count reaches
    /// the number that the player was made with.
    fn tick(&mut self)
        ensures
            final(self).set_up_as(old(self)),
            final(self)._cached_moves == old(self)._cached_moves,
            final(self).kept() == old(self).kept(),
            final(self).progress_limit() == old(self).progress_limit(),
            final(self).progress_count() == old(self).next_progress_count(),
    {
        if self.progress > 0 {
            if self.current_progress >= self.progress - 1 {
                self.current_progress = 0;
            } else {
                self.current_progress = self.current_progress + 1;
            }
        }
    }

    /// The move of player `this` and what it leads to, see [`search_move`]:
    /// from what the player has kept for the position, where that gives a
    /// legal move, or else by a search of `depth` moves, see
    /// [`CleverPlayer::_evaluate_move_uncached`]. A move found is kept if
    /// and only if it leads to a win, or to a draw by a position that is not
    /// in `history`. `None` where no move is found.
    pub fn _evaluate_move(
        &mut self,
        this: usize,
        cards: &Cards,
        history: &HashSet<i128>,
        depth: i64,
    ) -> (choice: Option<Choice>)
        requires
            old(self).serves(cards@.len() as int),
            playable(cards@),
            this < cards@.len(),
        ensures
            final(self).set_up_as(old(self)),
            final(self).keeps_all(old(self)),
            choice matches Some(c) ==> good_choice(cards@, this as int, c),
            (choice, final(self).kept()) == search_move(
                old(self).setup(),
                old(self).kept(),
                this as int,
                cards@,
                history@,
                depth,
            ),
        decreases depth - i64::MIN, 3int,
    {
        proof {
            lemma_playable_is_small(cards@);
            assert forall|s: i8| 0 <= s < cards@.len() implies crate::position::rank_of(
                cards@,
                this as int,
                s,
            ) <= i64::MAX by {
                lemma_small_table_ranks(cards@, this as int, s, cards@.len() as int);
            }
        }
        let permutation = cards.permutation(this);
        proof {
            lemma_small_table_fits(cards@, permutation@, this as int, self.symmetric);
            lemma_ranked(cards@, this as int, permutation@);
        }
        let pos = cards.position_given_permutation(permutation.as_slice(), this, self.symmetric);
        let kept = match self._cached_moves.get(&pos) {
            Some(entry) => Some(*entry),
            None => None,
        };
        match kept {
            Some(entry) => {
                match CleverPlayer::decode(entry, this, cards, permutation.as_slice()) {
                    Some(choice) => {
                        return Some(choice);
                    },
                    None => {},
                }
            },
            None => {},
        }
        let found = self._evaluate_move_uncached(
            this,
            cards,
            history,
            depth,
            permutation.as_slice(),
        );
        match found {
            Some(c) => {
                self.tick();
                match CleverPlayer::encode(&c, this, permutation.as_slice()) {
                    Some(entry) => {
                        self.keep(pos, entry, c.draw_position, history);
                    },
                    None => {},
                }
            },
            None => {},
        }
        found
    }

    /// The move of player `this` and what it leads to, by a search of
    /// `depth` moves, see [`search_uncached`]. Every legal move is tried, in
    /// the order of `permutation`: the player asked answers as
    /// [`CleverPlayer::_evaluate_has_card`] says, and where the game goes on
    /// the search goes on with the next player, one move less deep. A move
    /// that lets `this` win, at once or in the end, is taken at once. Of the
    /// others the best is taken, see [`CandidatesView::best`]. `None` where
    /// no move is left, or the depth cannot be counted down any further.
    pub fn _evaluate_move_uncached(
        &mut self,
        this: usize,
        cards: &Cards,
        history: &HashSet<i128>,
        depth: i64,
        permutation: &[i8],
    ) -> (choice: Option<Choice>)
        requires
            old(self).serves(cards@.len() as int),
            playable(cards@),
            this < cards@.len(),
            forall|i: int| 0 <= i < permutation@.len() ==> 0 <= #[trigger] permutation@[i] < cards@.len(),
        ensures
            final(self).set_up_as(old(self)),
            final(self).keeps_all(old(self)),
            choice matches Some(c) ==> good_choice(cards@, this as int, c) && permutation@.contains(
                c.suit,
            ) && legal_moves(cards@, this as int, permutation@).contains((c.other, c.suit)),
            legal_moves(cards@, this as int, permutation@).len() == 0 || depth == i64::MIN
                ==> choice is None,
            (choice, final(self).kept()) == search_uncached(
                old(self).setup(),
                old(self).kept(),
                this as int,
                cards@,
                history@,
                depth,
                permutation@,
            ),
        decreases depth - i64::MIN, 2int,
    {
        let n = cards.number_of_players();
        let moves = cards.legal_moves_given_permutation(this, permutation);
        if depth == i64::MIN {
            return None;
        }
        let places = self.preference_count(this);
        let mut candidates = Candidates::new(places);
        let ghost setup = self.setup();
        let ghost start = self.kept();
        let ghost me = this as int;
        proof {
            lemma_first_some_none(candidates@.other_winners, 0);
        }
        let mut i: usize = 0;
        while i < moves.len()
            invariant
                self.set_up_as(old(self)),
                self.keeps_all(old(self)),
                setup == self.setup(),
                start == old(self).kept(),
                self.serves(cards@.len() as int),
                playable(cards@),
                this < cards@.len(),
                me == this as int,
                n == cards@.len(),
                depth != i64::MIN,
                places == self.preference_len(this as int),
                candidates@.other_winners.len() == places,
                candidates@.all(|c: Choice| moves@.contains((c.other, c.suit)) && -1 <= c.result < n),
                moves@ == legal_moves(cards@, this as int, permutation@),
                moves@.len() == 0 ==> candidates@.best() is None,
                search_moves(setup, start, me, cards@, history@, depth, moves@, i as int) == (
                    None::<Choice>,
                    candidates@,
                    self.kept(),
                ),
                forall|i: int| 0 <= i < permutation@.len() ==> 0 <= #[trigger] permutation@[i] < cards@.len(),
                forall|j: int|
                    0 <= j < moves@.len() ==> sound_move(
                        cards@,
                        this as int,
                        permutation@,
                        #[trigger] moves@[j],
                    ),
                i <= moves@.len(),
            decreases moves@.len() - i,
        {
            let (other, suit) = moves[i];
            assert(moves@[i as int] == (other, suit));
            assert(sound_move(cards@, this as int, permutation@, (other, suit)));
            assert(0 <= suit < n) by {
                let at = choose|at: int| 0 <= at < permutation@.len() && permutation@[at] == suit;
                assert(0 <= permutation@[at] < cards@.len());
            }
            let won = self._try_move(&mut candidates, this, cards, history, depth, other, suit, Ghost(moves@));
            match won {
                Some(c) => {
                    proof {
                        lemma_search_moves_won(
                            setup,
                            start,
                            me,
                            cards@,
                            history@,
                            depth,
                            moves@,
                            i as int + 1,
                            moves@.len() as int,
                        );
                        assert(sound_move(cards@, this as int, permutation@, (c.other, c.suit)));
                    }
                    return Some(c);
                },
                None => {},
            }
            i += 1;
        }
        proof {
            assert forall|c: Choice| #[trigger]
                moves@.contains((c.other, c.suit)) && -1 <= c.result < n implies good_choice(
                cards@,
                this as int,
                c,
            ) && permutation@.contains(c.suit) by {
                let j = choose|j: int| 0 <= j < moves@.len() && moves@[j] == (c.other, c.suit);
                assert(sound_move(cards@, this as int, permutation@, moves@[j]));
            }
            lemma_best_is_good(
                candidates@,
                |c: Choice| moves@.contains((c.other, c.suit)) && -1 <= c.result < n,
            );
        }
        candidates.best()
    }

    /// Tries one move of player `this`, see [`search_try`]: returns the move
    /// where it lets `this` win, and else notes it among the moves found.
    #[verifier::rlimit(50)]
    fn _try_move(
        &mut self,
        candidates: &mut Candidates,
        this: usize,
        cards: &Cards,
        history: &HashSet<i128>,
        depth: i64,
        other: usize,
        suit: i8,
        Ghost(moves): Ghost<Seq<(usize, i8)>>,
    ) -> (won: Option<Choice>)
        requires
            old(self).serves(cards@.len() as int),
            playable(cards@),
            legal_move(cards@, other as int, suit, this as int),
            depth != i64::MIN,
            moves.contains((other, suit)),
            old(candidates)@.other_winners.len() == old(self).preference_len(this as int),
            old(candidates)@.all(
                |c: Choice| moves.contains((c.other, c.suit)) && -1 <= c.result < cards@.len(),
            ),
        ensures
            final(self).set_up_as(old(self)),
            final(self).keeps_all(old(self)),
            final(candidates)@.other_winners.len() == old(candidates)@.other_winners.len(),
            final(candidates)@.all(
                |c: Choice| moves.contains((c.other, c.suit)) && -1 <= c.result < cards@.len(),
            ),
            won matches Some(c) ==> c.other == other && c.suit == suit && -1 <= c.result
                < cards@.len(),
            (won, final(candidates)@, final(self).kept()) == search_try(
                old(self).setup(),
                old(self).kept(),
                old(candidates)@,
                this as int,
                cards@,
                history@,
                depth,
                (other, suit),
            ),
        decreases depth - i64::MIN, 0int,
    {
        let ghost found = candidates@;
        let ghost wishes = self.preferences();
        let ghost me = this as int;
        let ghost nothing = (-1i64, -1i128);
        let below = depth - 1;
        proof {
            lemma_playable_is_small(cards@);
            assert(cards@[this as int].count(suit) < 4 && cards@[other as int].count(suit) < 4);
        }
        let mut copy = cards.duplicate();
        let has = self._evaluate_has_card(other, this, suit, &copy, history, below);
        let ghost answered = self.kept();
        assert(search_answer(
            old(self).setup(),
            old(self).kept(),
            other as int,
            me,
            suit,
            cards@,
            history@,
            below,
        ) == (has, answered));
        if has {
            copy.transfer(suit, other, this, false);
        } else {
            copy.no_transfer(suit, other, this, false);
        }
        let ghost moved = moved_table(cards@, other as int, suit, this as int, has);
        assert(copy@ == moved);
        let winner = copy.test_winner(this);
        if winner == ILLEGAL_CARDS {
            assert(goes_on(moved, me, depth, history@) is None);
            assert((None::<Choice>, candidates@) == try_move(
                found,
                cards@,
                me,
                (other, suit),
                has,
                nothing,
                depth,
                history@,
                wishes,
            ));
            return None;
        }
        assert(copy@ == closed_table(moved));
        let made = Choice { other, suit, result: winner, draw_position: -1 };
        if winner == this as i64 {
            assert(goes_on(moved, me, depth, history@) is None);
            assert((Some(made), candidates@) == try_move(
                found,
                cards@,
                me,
                (other, suit),
                has,
                nothing,
                depth,
                history@,
                wishes,
            ));
            return Some(made);
        }
        if winner != NO_WINNER {
            let place = self.preferred_place(this, winner);
            candidates.note_winner_at_once(place, made);
            assert(goes_on(moved, me, depth, history@) is None);
            assert((None::<Choice>, candidates@) == try_move(
                found,
                cards@,
                me,
                (other, suit),
                has,
                nothing,
                depth,
                history@,
                wishes,
            ));
            return None;
        }
        if depth == 0 {
            candidates.out_of_depth = Some(Choice { other, suit, result: -1, draw_position: -1 });
            assert(goes_on(moved, me, depth, history@) is None);
            assert((None::<Choice>, candidates@) == try_move(
                found,
                cards@,
                me,
                (other, suit),
                has,
                nothing,
                depth,
                history@,
                wishes,
            ));
            return None;
        }
        let next_player = match copy.find_next_player(this) {
            Some(p) => p,
            None => {
                assert(goes_on(moved, me, depth, history@) is None);
                assert((None::<Choice>, candidates@) == try_move(
                    found,
                    cards@,
                    me,
                    (other, suit),
                    has,
                    nothing,
                    depth,
                    history@,
                    wishes,
                ));
                return None;
            },
        };
        proof {
            lemma_no_winner_is_playable(copy@, this as int);
            lemma_playable_is_small(copy@);
            lemma_small_table_fits(copy@, identity(copy@.len() as int), next_player as int, false);
        }
        let position = copy.position(next_player);
        if history.contains(&position) {
            candidates.draw = Some(Choice { other, suit, result: -1, draw_position: position });
            assert(goes_on(moved, me, depth, history@) is None);
            assert((None::<Choice>, candidates@) == try_move(
                found,
                cards@,
                me,
                (other, suit),
                has,
                nothing,
                depth,
                history@,
                wishes,
            ));
            return None;
        }
        assert(goes_on(moved, me, depth, history@) == Some((next_player, position)));
        let mut copy_history = duplicate_history(history);
        copy_history.insert(position);
        let next = self._evaluate_move(next_player, &copy, &copy_history, below);
        assert(search_move(
            old(self).setup(),
            answered,
            next_player as int,
            closed_table(moved),
            history@.insert(position),
            below,
        ) == (next, self.kept()));
        let (next_winner, draw_position): (i64, i128) = match next {
            Some(c) => (c.result, c.draw_position),
            None => (-1, -1),
        };
        let ghost later = (next_winner, draw_position);
        assert(later == later_of(next));
        if next_winner == this as i64 {
            let won = Choice { other, suit, result: next_winner, draw_position: -1 };
            assert((Some(won), candidates@) == try_move(
                found,
                cards@,
                me,
                (other, suit),
                has,
                later,
                depth,
                history@,
                wishes,
            ));
            return Some(won);
        }
        let place = self.preferred_place(this, next_winner);
        candidates.note_later(place, other, suit, next_winner, draw_position);
        assert((None::<Choice>, candidates@) == try_move(
            found,
            cards@,
            me,
            (other, suit),
            has,
            later,
            depth,
            history@,
            wishes,
        ));
        None
    }

    /// Whether player `this` hands player `other` a card of `suit`, see
    /// [`search_answer`]. Where the table settles that, see
    /// [`Cards::has_card`], the answer is what it says. Else both answers
    /// are tried on copies of the table, and the game is taken on from each
    /// as far as the smaller of `given_depth` and the depth for answers
    /// allows. The answer is yes where yes lets `this` win; at depth zero it
    /// is yes where yes ends the game; it is no where no lets `this` win.
    /// Else see [`weigh_spec`].
    #[verifier::rlimit(50)]
    pub fn _evaluate_has_card(
        &mut self,
        this: usize,
        other: usize,
        suit: i8,
        cards: &Cards,
        history: &HashSet<i128>,
        given_depth: i64,
    ) -> (has: bool)
        requires
            old(self).serves(cards@.len() as int),
            playable(cards@),
            legal_move(cards@, this as int, suit, other as int),
        ensures
            final(self).set_up_as(old(self)),
            final(self).keeps_all(old(self)),
            cards@[this as int].has_card_forced(suit) ==> has == cards@[this as int].known.contains_key(
                suit,
            ),
            table_has_card(cards@, suit, this as int, other as int).0 ==> has == table_has_card(
                cards@,
                suit,
                this as int,
                other as int,
            ).1 && final(self).kept() == old(self).kept(),
            (has, final(self).kept()) == search_answer(
                old(self).setup(),
                old(self).kept(),
                this as int,
                other as int,
                suit,
                cards@,
                history@,
                given_depth,
            ),
        decreases given_depth - i64::MIN, 0int,
    {
        proof {
            lemma_playable_is_small(cards@);
            assert(cards@[other as int].count(suit) < 4);
            assert(cards@[this as int].count(suit) < 4);
        }
        let ghost settled = table_has_card(cards@, suit, this as int, other as int);
        let ghost yes_table = transfer_table(cards@, suit, this as int, other as int);
        let ghost no_table = no_transfer_table(cards@, suit, this as int, other as int);
        let ghost yes_now = winner_after(yes_table, other as int) as i64;
        let ghost no_now = winner_after(no_table, other as int) as i64;
        let ghost wishes = self.preferences();
        let ghost reach = reach_of(self.setup(), given_depth);
        let ghost me = this as int;
        let (forced, has) = cards.has_card(suit, this, other);
        if forced {
            return has;
        }
        let mut copy = cards.duplicate();
        copy.transfer(suit, this, other, false);
        let mut yes_winner = copy.test_winner(other);
        assert(yes_winner == yes_now);
        assert(yes_winner != ILLEGAL_CARDS);
        assert(copy@ == closed_table(yes_table));
        if yes_winner == this as i64 {
            return true;
        }
        let depth = if given_depth < self.max_has_depth {
            given_depth
        } else {
            self.max_has_depth
        };
        if depth == 0 {
            return yes_winner != NO_WINNER;
        }
        let below = match depth.checked_sub(1) {
            Some(d) => d,
            None => {
                return yes_winner != NO_WINNER;
            },
        };
        let next_player = copy.find_next_player(other);
        let ghost mut yes_later: i64 = -1i64;
        if yes_winner == NO_WINNER {
            match next_player {
                Some(next) => {
                    proof {
                        lemma_no_winner_is_playable(copy@, other as int);
                    }
                    let copy_history = duplicate_history(history);
                    let found = self._evaluate_move(next, &copy, &copy_history, below);
                    yes_winner = match found {
                        Some(c) => c.result,
                        None => -1,
                    };
                    proof {
                        yes_later = later_of(found).0;
                    }
                },
                None => {},
            }
            if yes_winner == this as i64 {
                return true;
            }
        }
        assert(self.preferences() == wishes);
        copy = cards.duplicate();
        copy.no_transfer(suit, this, other, false);
        let mut no_winner = copy.test_winner(other);
        assert(no_winner == no_now);
        assert(no_winner != ILLEGAL_CARDS);
        assert(copy@ == closed_table(no_table));
        if no_winner == this as i64 {
            return false;
        }
        let ghost mut no_later: i64 = -1i64;
        if no_winner == NO_WINNER {
            match next_player {
                Some(next) => {
                    proof {
                        lemma_no_winner_is_playable(copy@, other as int);
                    }
                    let copy_history = duplicate_history(history);
                    let found = self._evaluate_move(next, &copy, &copy_history, below);
                    no_winner = match found {
                        Some(c) => c.result,
                        None => -1,
                    };
                    proof {
                        no_later = later_of(found).0;
                    }
                },
                None => {},
            }
            if no_winner == this as i64 {
                return false;
            }
        }
        assert(self.preferences() == wishes);
        let places = self.preference_count(this);
        let yes_place = match self.preferred_place(this, yes_winner) {
            Some(f) => f,
            None => places,
        };
        let no_place = match self.preferred_place(this, no_winner) {
            Some(f) => f,
            None => places,
        };
        let answer = weigh(yes_winner, no_winner, yes_place, no_place, self.preferences.len() != 0);
        assert(answer == answer_spec(settled, yes_now, no_now, yes_later, no_later, reach, me, wishes));
        answer
    }
}

impl Player for CleverPlayer {
    open spec fn ready(&self, players: int) -> bool {
        self.serves(players)
    }

    /// The move of [`CleverPlayer::_evaluate_move`] at the depth for moves,
    /// see [`search_move`]: the move that the player has kept for the
    /// position, where that can be used, and else the move that the search
    /// finds.
    fn next_move(&mut self, this: usize, cards: &Cards, history: &HashSet<i128>) -> (choice: Option<
        (usize, i8),
    >)
        ensures
            final(self).set_up_as(old(self)),
            final(self).keeps_all(old(self)),
            choice == move_of(
                search_move(
                    old(self).setup(),
                    old(self).kept(),
                    this as int,
                    cards@,
                    history@,
                    old(self).depths().0,
                ).0,
            ),
            final(self).kept() == search_move(
                old(self).setup(),
                old(self).kept(),
                this as int,
                cards@,
                history@,
                old(self).depths().0,
            ).1,
    {
        let max_depth = self.max_depth;
        match self._evaluate_move(this, cards, history, max_depth) {
            Some(c) => Some((c.other, c.suit)),
            None => None,
        }
    }

    /// The answer of [`CleverPlayer::_evaluate_has_card`] at the depth for
    /// answers, see [`search_answer`].
    fn has_card(
        &mut self,
        this: usize,
        other: usize,
        suit: i8,
        cards: &Cards,
        history: &HashSet<i128>,
    ) -> (has: bool)
        ensures
            final(self).set_up_as(old(self)),
            final(self).keeps_all(old(self)),
            table_has_card(cards@, suit, this as int, other as int).0 ==> has == table_has_card(
                cards@,
                suit,
                this as int,
                other as int,
            ).1 && final(self).kept() == old(self).kept(),
            (has, final(self).kept()) == search_answer(
                old(self).setup(),
                old(self).kept(),
                this as int,
                other as int,
                suit,
                cards@,
                history@,
                old(self).depths().1,
            ),
    {
        let max_has_depth = self.max_has_depth;
        self._evaluate_has_card(this, other, suit, cards, history, max_has_depth)
    }

    /// A line that tells the size of the cache.
    fn info(&self) -> (line: String)
        ensures
            line@ == cache_label() + number_text(self.cache_len() as int),
    {
        self.describe()
    }
}

} // verus!
