use gofish::cards::Cards;
use gofish::clever::place_of_winner;
use gofish::clever::weigh;
use gofish::clever::CleverPlayer;
use gofish::player::duplicate_history;
use gofish::player::place_of;
use gofish::player::Candidates;
use gofish::player::Choice;
use gofish::player::Player;
use std::collections::HashSet;

fn choice(other: usize, suit: i8, result: i64, draw_position: i128) -> Choice {
    Choice { other, suit, result, draw_position }
}

fn parts(choice: Option<Choice>) -> Option<(usize, i8, i64, i128)> {
    choice.map(|c| (c.other, c.suit, c.result, c.draw_position))
}

#[test]
fn weigh_prefers_a_draw_to_a_loss() {
    assert!(weigh(-1, 2, 0, 0, false));
    assert!(weigh(-1, -1, 0, 0, true));
    assert!(!weigh(2, -1, 0, 0, true));
}

#[test]
fn weigh_goes_by_the_preferences() {
    assert!(weigh(1, 2, 0, 1, true));
    assert!(!weigh(1, 2, 1, 0, true));
    assert!(!weigh(1, 2, 1, 1, true));
    assert!(!weigh(1, 2, 0, 1, false));
}

#[test]
fn place_of_winner_is_the_first_place() {
    assert_eq!(place_of_winner(&vec![3, 1, 3], 3), Some(0));
    assert_eq!(place_of_winner(&vec![3, 1, 3], 1), Some(1));
    assert_eq!(place_of_winner(&vec![3, 1, 3], 0), None);
    assert_eq!(place_of_winner(&vec![3, 1, 3], -1), None);
    assert_eq!(place_of_winner(&vec![], 0), None);
    assert_eq!(place_of(&[2, 0, 1, 0], 0), Some(1));
    assert_eq!(place_of(&[2, 0, 1], 3), None);
}

#[test]
fn preferred_place_needs_preferences() {
    let plain = CleverPlayer::new(0, 0, 0, vec![], true);
    assert_eq!(plain.preferred_place(1, 0), None);
    assert_eq!(plain.preference_count(1), 0);
    assert!(plain.knows_player(1, 3));
    let biased = CleverPlayer::new(0, 0, 0, vec![vec![2, 1], vec![0], vec![1]], true);
    assert_eq!(biased.preferred_place(0, 1), Some(1));
    assert_eq!(biased.preferred_place(1, 1), None);
    assert_eq!(biased.preferred_place(2, -2), None);
    assert_eq!(biased.preference_count(0), 2);
    assert!(biased.knows_player(2, 3));
    assert!(!biased.knows_player(3, 4));
}

#[test]
fn encode_counts_from_the_player_to_move() {
    let found = choice(0, 2, 2, 77);
    assert_eq!(CleverPlayer::encode(&found, 1, &[2, 0, 1]), Some((2, 0, 1)));
    assert_eq!(CleverPlayer::encode(&choice(2, 1, -1, 5), 0, &[2, 0, 1]), Some((2, 2, -1)));
    assert_eq!(CleverPlayer::encode(&found, 1, &[0, 1]), None);
}

#[test]
fn decode_gives_the_move_back() {
    let cards = Cards::new(3);
    let back = CleverPlayer::decode((2, 0, 1), 1, &cards, &[2, 0, 1]);
    assert_eq!(parts(back), Some((0, 2, 2, -1)));
    let draw = CleverPlayer::decode((2, 2, -1), 0, &cards, &[2, 0, 1]);
    assert_eq!(parts(draw), Some((2, 1, -1, -1)));
}

#[test]
fn decode_refuses_what_cannot_be_used() {
    let cards = Cards::new(3);
    assert!(CleverPlayer::decode((0, 0, 1), 1, &cards, &[2, 0, 1]).is_none());
    assert!(CleverPlayer::decode((-1, 0, 1), 1, &cards, &[2, 0, 1]).is_none());
    assert!(CleverPlayer::decode((1, 3, 1), 1, &cards, &[2, 0, 1]).is_none());
    assert!(CleverPlayer::decode((1, -1, 1), 1, &cards, &[2, 0, 1]).is_none());
    assert!(CleverPlayer::decode((1, 0, 3), 1, &cards, &[2, 0, 1]).is_none());
    assert!(CleverPlayer::decode((1, 0, -2), 1, &cards, &[2, 0, 1]).is_none());
    let mut excluded = Cards::new(3);
    excluded.hands[1].known_voids.insert(2);
    assert!(CleverPlayer::decode((2, 0, 1), 1, &excluded, &[2, 0, 1]).is_none());
}

#[test]
fn keeps_a_win_and_a_draw_of_its_own() {
    let mut history: HashSet<i128> = HashSet::new();
    history.insert(5);
    assert!(CleverPlayer::keeps(0, 5, &history));
    assert!(CleverPlayer::keeps(2, -1, &history));
    assert!(CleverPlayer::keeps(-1, 6, &history));
    assert!(CleverPlayer::keeps(-1, -1, &history));
    assert!(!CleverPlayer::keeps(-1, 5, &history));
}

#[test]
fn duplicate_history_is_an_independent_copy() {
    let mut history: HashSet<i128> = HashSet::new();
    history.insert(5);
    history.insert(-7);
    let mut copy = duplicate_history(&history);
    assert_eq!(copy, history);
    copy.insert(9);
    assert_eq!(history.len(), 2);
}

#[test]
fn candidates_take_the_best_by_kind() {
    let mut candidates = Candidates::new(2);
    assert!(candidates.best().is_none());
    candidates.note_winner_at_once(None, choice(1, 0, 2, -1));
    assert_eq!(parts(candidates.best()), Some((1, 0, 2, -1)));
    candidates.note_later(None, 1, 1, 2, 40);
    assert_eq!(parts(candidates.best()), Some((1, 1, 2, -1)));
    candidates.note_winner_at_once(Some(1), choice(2, 0, 1, -1));
    assert_eq!(parts(candidates.best()), Some((2, 0, 1, -1)));
    candidates.note_later(Some(0), 2, 1, 2, 41);
    assert_eq!(parts(candidates.best()), Some((2, 1, 2, 0)));
    candidates.out_of_depth = Some(choice(1, 2, -1, -1));
    assert_eq!(parts(candidates.best()), Some((1, 2, -1, -1)));
    candidates.note_later(Some(0), 2, 2, -1, 42);
    assert_eq!(parts(candidates.best()), Some((2, 2, -1, 42)));
}

#[test]
fn candidates_keep_the_last_move_of_a_kind() {
    let mut candidates = Candidates::new(1);
    candidates.note_later(None, 1, 0, 2, 0);
    candidates.note_later(None, 2, 1, 1, 0);
    assert_eq!(parts(candidates.lose), Some((2, 1, 1, -1)));
    candidates.note_winner_at_once(Some(0), choice(1, 0, 2, -1));
    candidates.note_later(Some(0), 2, 0, 2, 9);
    assert_eq!(parts(candidates.other_winners[0]), Some((2, 0, 2, 0)));
    assert!(candidates.draw.is_none());
    assert!(candidates.immediate_lose.is_none());
}

#[test]
fn a_position_met_again_is_answered_from_the_cache() {
    let cards = Cards::new(2);
    let history: HashSet<i128> = HashSet::new();
    let mut clever = CleverPlayer::new(1000, 1000, 0, vec![], true);
    let first = clever.next_move(0, &cards, &history);
    let size = clever.cache_size();
    assert!(size > 0);
    let again = clever.next_move(0, &cards, &history);
    assert_eq!(first, again);
    assert_eq!(clever.cache_size(), size);
    let mirrored = clever.next_move(1, &cards, &history);
    assert_eq!(clever.cache_size(), size);
    assert_eq!(mirrored.map(|m| m.0), Some(0));
}

#[test]
fn a_search_without_depth_to_count_down_finds_nothing() {
    let cards = Cards::new(2);
    let history: HashSet<i128> = HashSet::new();
    let mut clever = CleverPlayer::new(i64::MIN, 0, 0, vec![], true);
    assert!(clever.next_move(0, &cards, &history).is_none());
    assert!(clever._evaluate_move_uncached(0, &cards, &history, i64::MIN, &[0, 1]).is_none());
    assert!(clever._evaluate_move_uncached(0, &cards, &history, 0, &[]).is_none());
}

#[test]
fn keep_keeps_a_move_if_and_only_if_it_is_worth_keeping() {
    let mut history: HashSet<i128> = HashSet::new();
    history.insert(5);
    let mut clever = CleverPlayer::new(0, 0, 0, vec![], true);
    clever.keep(10, (1, 0, -1), 5, &history);
    assert_eq!(clever.cache_size(), 0);
    clever.keep(10, (1, 0, -1), 6, &history);
    assert_eq!(clever.cache_size(), 1);
    clever.keep(11, (1, 0, 2), 5, &history);
    assert_eq!(clever.cache_size(), 2);
    clever.keep(11, (1, 1, -1), 5, &history);
    assert_eq!(clever.cache_size(), 2);
    clever.keep(12, (1, 1, 0), -1, &history);
    assert_eq!(clever.info(), "cache size: 3");
}
