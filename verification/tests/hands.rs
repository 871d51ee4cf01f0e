use gofish::hand::Hand;
use std::collections::HashMap;
use std::collections::HashSet;

fn hand_of(known: &[(i8, i8)], unknown: i8, voids: &[i8]) -> Hand {
    let mut hand = Hand::new();
    hand.known_cards = known.iter().cloned().collect::<HashMap<_, _>>();
    hand.number_of_unknown_cards = unknown;
    hand.known_voids = voids.iter().cloned().collect::<HashSet<_>>();
    hand
}

fn known_of(known: &[(i8, i8)]) -> HashMap<i8, i8> {
    known.iter().cloned().collect::<HashMap<_, _>>()
}

fn voids_of(voids: &[i8]) -> HashSet<i8> {
    voids.iter().cloned().collect::<HashSet<_>>()
}

#[test]
fn new_hand_has_four_unknown_cards() {
    let mut hand = Hand::new();
    assert!(hand.known_cards.is_empty());
    assert!(hand.known_voids.is_empty());
    assert_eq!(hand.number_of_unknown_cards, 4);
    assert!(!hand.is_empty());
    assert!(!hand.is_determined());
    assert!(!hand.has_four_of_a_kind());
}

#[test]
fn hand_without_cards_is_empty() {
    let hand = hand_of(&[], 0, &[]);
    assert!(hand.is_empty());
    assert!(hand.is_determined());
    assert!(!hand_of(&[(1, 1)], 0, &[]).is_empty());
    assert!(!hand_of(&[], 1, &[]).is_empty());
}

#[test]
fn ensure_have_promotes_an_unknown_card() {
    let mut hand = hand_of(&[(0, 2)], 2, &[1]);
    assert!(hand.ensure_have(2));
    assert_eq!(hand.known_cards, known_of(&[(0, 2), (2, 1)]));
    assert_eq!(hand.number_of_unknown_cards, 1);
    assert_eq!(hand.known_voids, voids_of(&[1]));
}

#[test]
fn ensure_have_keeps_a_known_suit() {
    let mut hand = hand_of(&[(0, 2)], 2, &[1]);
    assert!(hand.ensure_have(0));
    assert_eq!(hand.known_cards, known_of(&[(0, 2)]));
    assert_eq!(hand.number_of_unknown_cards, 2);
}

#[test]
fn ensure_have_fails_on_an_excluded_suit() {
    let mut hand = hand_of(&[(0, 2)], 2, &[1]);
    assert!(!hand.ensure_have(1));
    assert_eq!(hand.known_cards, known_of(&[(0, 2)]));
    assert_eq!(hand.number_of_unknown_cards, 2);
    assert_eq!(hand.known_voids, voids_of(&[1]));
}

#[test]
fn last_unknown_card_clears_the_exclusions() {
    let mut hand = hand_of(&[], 1, &[1, 2]);
    assert!(hand.ensure_have(0));
    assert_eq!(hand.known_cards, known_of(&[(0, 1)]));
    assert_eq!(hand.number_of_unknown_cards, 0);
    assert!(hand.known_voids.is_empty());
    let mut other = hand_of(&[], 2, &[1]);
    other._remove_unknown();
    assert_eq!(other.number_of_unknown_cards, 1);
    assert_eq!(other.known_voids, voids_of(&[1]));
}

#[test]
fn ensure_have_not_excludes_the_suit() {
    let mut hand = hand_of(&[(0, 2)], 2, &[]);
    assert!(hand.ensure_have_not(1));
    assert_eq!(hand.known_voids, voids_of(&[1]));
    assert!(!hand.ensure_have_not(0));
    assert_eq!(hand.known_voids, voids_of(&[1]));
    assert_eq!(hand.known_cards, known_of(&[(0, 2)]));
}

#[test]
fn remove_prefers_known_cards() {
    let mut hand = hand_of(&[(0, 2), (1, 1)], 2, &[2]);
    assert!(hand.remove(0));
    assert_eq!(hand.known_cards, known_of(&[(0, 1), (1, 1)]));
    assert!(hand.remove(1));
    assert_eq!(hand.known_cards, known_of(&[(0, 1)]));
    assert_eq!(hand.number_of_unknown_cards, 2);
    assert!(hand.remove(3));
    assert_eq!(hand.number_of_unknown_cards, 1);
    assert!(!hand.remove(2));
    assert_eq!(hand.number_of_unknown_cards, 1);
    assert_eq!(hand.known_cards, known_of(&[(0, 1)]));
}

#[test]
fn add_counts_one_more_card() {
    let mut hand = hand_of(&[(0, 2)], 2, &[]);
    hand.add(0);
    hand.add(1);
    assert_eq!(hand.known_cards, known_of(&[(0, 3), (1, 1)]));
    assert_eq!(hand.number_of_unknown_cards, 2);
}

#[test]
fn four_of_a_kind_needs_four_known_cards() {
    assert!(hand_of(&[(0, 1), (2, 4)], 0, &[]).has_four_of_a_kind());
    assert!(!hand_of(&[(0, 3), (2, 3)], 4, &[]).has_four_of_a_kind());
    assert!(!hand_of(&[(0, 5)], 0, &[]).has_four_of_a_kind());
}

#[test]
fn kill_unknown_tells_whether_it_was_news() {
    let mut hand = hand_of(&[(0, 2)], 2, &[1]);
    assert!(hand.kill_unknown(2));
    assert!(!hand.kill_unknown(1));
    assert_eq!(hand.known_voids, voids_of(&[1, 2]));
    let mut determined = hand_of(&[(0, 2)], 0, &[]);
    assert!(!determined.kill_unknown(1));
    assert!(determined.known_voids.is_empty());
}

#[test]
fn force_unknowns_takes_the_only_suit_left() {
    let mut hand = hand_of(&[(1, 1)], 3, &[0, 2]);
    assert!(hand.force_unknowns(3));
    assert_eq!(hand.known_cards, known_of(&[(1, 4)]));
    assert_eq!(hand.number_of_unknown_cards, 0);
    assert!(hand.known_voids.is_empty());
}

#[test]
fn force_unknowns_needs_all_suits_but_one_excluded() {
    let mut hand = hand_of(&[(1, 1)], 3, &[0]);
    assert!(!hand.force_unknowns(3));
    assert_eq!(hand.number_of_unknown_cards, 3);
    assert_eq!(hand.known_voids, voids_of(&[0]));
    let mut determined = hand_of(&[(1, 1)], 0, &[0, 2]);
    assert!(!determined.force_unknowns(3));
    assert_eq!(determined.known_voids, voids_of(&[0, 2]));
}

#[test]
fn is_legal_and_has_card_by_case() {
    let hand = hand_of(&[(0, 2)], 2, &[1]);
    assert!(hand.is_legal(0));
    assert!(!hand.is_legal(1));
    assert!(hand.is_legal(2));
    assert_eq!(hand.has_card(0), (true, true));
    assert_eq!(hand.has_card(1), (true, false));
    assert_eq!(hand.has_card(2), (false, true));
    let determined = hand_of(&[(0, 2)], 0, &[]);
    assert!(determined.is_legal(0));
    assert!(!determined.is_legal(2));
    assert_eq!(determined.has_card(2), (true, false));
}

#[test]
fn fill_some_unknowns_moves_cards_to_the_suit() {
    let mut hand = hand_of(&[(0, 1)], 3, &[1]);
    assert!(hand.fill_some_unknowns(0, 2));
    assert_eq!(hand.known_cards, known_of(&[(0, 3)]));
    assert_eq!(hand.number_of_unknown_cards, 1);
    assert!(hand.fill_some_unknowns(2, 1));
    assert_eq!(hand.known_cards, known_of(&[(0, 3), (2, 1)]));
    assert_eq!(hand.number_of_unknown_cards, 0);
    assert_eq!(hand.known_voids, voids_of(&[1]));
}

#[test]
fn fill_some_unknowns_fails_without_change() {
    let mut hand = hand_of(&[(0, 1)], 2, &[1]);
    assert!(!hand.fill_some_unknowns(0, 3));
    assert!(!hand.fill_some_unknowns(1, 1));
    assert_eq!(hand.known_cards, known_of(&[(0, 1)]));
    assert_eq!(hand.number_of_unknown_cards, 2);
}

#[test]
fn fill_unknowns_takes_all_missing_cards() {
    let mut hand = hand_of(&[(0, 1)], 3, &[]);
    let mut totals = known_of(&[(0, 3), (1, 2), (2, 4)]);
    assert!(hand.fill_unknowns(&mut totals));
    assert_eq!(hand.known_cards, known_of(&[(0, 2), (1, 2)]));
    assert_eq!(hand.number_of_unknown_cards, 0);
    assert_eq!(totals, known_of(&[(0, 3), (1, 2), (2, 4)]));
}

#[test]
fn fill_unknowns_fails_where_cards_do_not_match() {
    let mut few = hand_of(&[], 2, &[]);
    assert!(!few.fill_unknowns(&mut known_of(&[(0, 3), (1, 2)])));
    let mut many = hand_of(&[], 4, &[]);
    assert!(!many.fill_unknowns(&mut known_of(&[(0, 3), (1, 2)])));
    assert_eq!(many.number_of_unknown_cards, 1);
    let mut excluded = hand_of(&[], 1, &[0]);
    assert!(!excluded.fill_unknowns(&mut known_of(&[(0, 3)])));
}

#[test]
fn running_totals_adds_the_known_cards() {
    let mut totals = known_of(&[(0, 1), (3, 2)]);
    hand_of(&[(0, 2), (1, 1)], 1, &[3]).running_totals(&mut totals);
    assert_eq!(totals, known_of(&[(0, 3), (1, 1), (3, 2)]));
    hand_of(&[], 4, &[]).running_totals(&mut totals);
    assert_eq!(totals, known_of(&[(0, 3), (1, 1), (3, 2)]));
}

#[test]
fn known_count_is_zero_for_a_suit_not_held() {
    let hand = hand_of(&[(0, 2)], 2, &[1]);
    assert_eq!(hand.known_count(0), 2);
    assert_eq!(hand.known_count(1), 0);
}

#[test]
fn duplicate_is_an_independent_copy() {
    let hand = hand_of(&[(0, 2)], 2, &[1]);
    let mut copy = hand.duplicate();
    assert_eq!(copy.known_cards, hand.known_cards);
    assert_eq!(copy.known_voids, hand.known_voids);
    assert_eq!(copy.number_of_unknown_cards, 2);
    copy.add(0);
    copy.ensure_have_not(2);
    assert_eq!(hand.known_cards, known_of(&[(0, 2)]));
    assert_eq!(hand.known_voids, voids_of(&[1]));
}

#[test]
fn position_of_a_hand_is_exact() {
    let hand = hand_of(&[(0, 2), (1, 1), (2, 1)], 1, &[3]);
    assert_eq!(hand.position(0, &[0, 1, 2, 3]), 18961);
    assert_eq!(hand.position(5, &[3, 2, 1, 0]), 166680);
    assert_eq!(hand.position(7, &[]), 7 * 8 + 1);
}

#[test]
fn adjust_ranking_is_exact() {
    let hand = hand_of(&[(0, 2), (2, 1)], 1, &[1]);
    let mut rankings: Vec<i64> = vec![0, 0, 0];
    hand.adjust_ranking(&mut rankings);
    assert_eq!(rankings, vec![4, 1, 2]);
    hand.adjust_ranking(&mut rankings);
    assert_eq!(rankings, vec![(4 * 3 + 2) * 2, (3 + 0) * 2 + 1, (2 * 3 + 1) * 2]);
}

#[test]
fn hand_text_lists_known_unknown_and_excluded() {
    assert_eq!(hand_of(&[(0, 2), (1, 1), (2, 1)], 1, &[3]).text(), "0012?x3");
    assert_eq!(hand_of(&[], 4, &[]).text(), "????");
    assert_eq!(hand_of(&[(2, 3)], 0, &[]).text(), "222");
    assert_eq!(hand_of(&[], 0, &[]).text(), "");
    assert_eq!(hand_of(&[(12, 2)], 1, &[0, 10]).text(), "1212?x010");
}

#[test]
fn hand_show_marks_the_next_player() {
    let hand = hand_of(&[(1, 3)], 3, &[0]);
    assert_eq!(hand.show(false), "111???x0");
    assert_eq!(hand.show(true), "111???x0   <<<< next player");
}
