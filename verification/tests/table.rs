use gofish::cards::Cards;
use gofish::cards::ILLEGAL_CARDS;
use gofish::cards::NO_WINNER;
use gofish::game::settle_move;
use gofish::game::TurnEnd;
use gofish::hand::Hand;
use std::collections::HashMap;
use std::collections::HashSet;

/// Reads a table written as in `000/22?/111???x0`, with one digit for a suit.
fn table(text: &str) -> Cards {
    let parts: Vec<&str> = text.split('/').collect();
    let mut cards = Cards::new(parts.len());
    for (p, part) in parts.iter().enumerate() {
        let mut hand = Hand::new();
        hand.number_of_unknown_cards = 0;
        let mut excluded = false;
        for c in part.chars() {
            if c == 'x' {
                excluded = true;
            } else if c == '?' {
                hand.number_of_unknown_cards += 1;
            } else {
                let suit = c.to_digit(10).unwrap() as i8;
                if excluded {
                    hand.known_voids.insert(suit);
                } else {
                    *hand.known_cards.entry(suit).or_insert(0) += 1;
                }
            }
        }
        cards.hands[p] = hand;
    }
    cards
}

fn known_of(known: &[(i8, i8)]) -> HashMap<i8, i8> {
    known.iter().cloned().collect::<HashMap<_, _>>()
}

#[test]
fn new_table_has_a_fresh_hand_for_each_player() {
    let mut cards = Cards::new(3);
    assert_eq!(cards.number_of_players(), 3);
    assert_eq!(cards.text(), "????/????/????");
    assert!(!cards.is_empty(0));
    assert_eq!(Cards::new(0).number_of_players(), 0);
}

#[test]
fn table_text_joins_the_hands() {
    let cards = table("000/22?/111???x0");
    assert_eq!(cards.text(), "000/22?/111???x0");
    assert_eq!(cards.show(1), "000\n22?   <<<< next player\n111???x0\n");
    assert_eq!(cards.show(usize::MAX), "000\n22?\n111???x0\n");
}

#[test]
fn duplicate_table_is_independent() {
    let cards = table("00??/01?/11???");
    let mut copy = cards.duplicate();
    assert!(copy.transfer(2, 1, 0, true));
    assert_eq!(cards.text(), "00??/01?/11???");
    assert_eq!(copy.text(), "0022?/01/11???");
}

#[test]
fn transfer_moves_a_known_card() {
    let mut cards = table("00??/01?/11???");
    assert!(cards.transfer(0, 1, 0, false));
    assert_eq!(cards.text(), "000??/1?/11???");
}

#[test]
fn transfer_takes_an_unknown_card_for_each_side() {
    let mut cards = table("00??/01?/11???");
    assert!(cards.transfer(2, 2, 0, false));
    assert_eq!(cards.hands[0].known_cards, known_of(&[(0, 2), (2, 2)]));
    assert_eq!(cards.hands[0].number_of_unknown_cards, 1);
    assert_eq!(cards.hands[2].known_cards, known_of(&[(1, 2)]));
    assert_eq!(cards.hands[2].number_of_unknown_cards, 2);
}

#[test]
fn transfer_fails_where_the_asker_excludes_the_suit() {
    let mut cards = table("00??x2/01?/11???");
    assert!(!cards.transfer(2, 2, 0, true));
    assert_eq!(cards.text(), "00??x2/01?/11???");
}

#[test]
fn transfer_fails_where_the_other_excludes_the_suit() {
    let mut cards = table("00??/01?/11???x2");
    assert!(!cards.transfer(2, 2, 0, true));
    assert_eq!(cards.text(), "002?/01?/11???x2");
}

#[test]
fn no_transfer_records_both_sides() {
    let mut cards = table("00??/01?/11???");
    assert!(cards.no_transfer(2, 2, 0, false));
    assert_eq!(cards.text(), "002?/01?/11???x2");
}

#[test]
fn no_transfer_fails_where_the_other_holds_the_suit() {
    let mut cards = table("00??/01?/11???");
    assert!(!cards.no_transfer(1, 2, 0, true));
    assert!(!table("00??x1/01?/11???").no_transfer(1, 1, 0, true));
}

#[test]
fn legal_names_each_reason_to_refuse() {
    let cards = table("00??x1/01?/11");
    assert!(cards.legal(1, 0, 0));
    assert!(cards.legal(1, 2, 0));
    assert!(!cards.legal(0, 0, 0));
    assert!(!cards.legal(3, 0, 0));
    assert!(!cards.legal(1, 0, 3));
    assert!(!cards.legal(1, -1, 0));
    assert!(!cards.legal(1, 3, 0));
    assert!(!cards.legal(1, 1, 0));
    assert!(!cards.legal(0, 0, 2));
    assert!(cards.legal(0, 1, 2));
}

#[test]
fn legal_moves_follow_the_players_and_the_permutation() {
    let cards = table("002?/0?x1/2211??x0");
    assert_eq!(cards.legal_moves_given_permutation(0, &[0, 2, 1]), vec![(1, 0), (1, 2), (2, 2), (2, 1)]);
    assert_eq!(cards.legal_moves_given_permutation(1, &[0, 1, 2]), vec![(2, 2), (0, 0), (0, 2)]);
    assert_eq!(cards.legal_moves_given_permutation(2, &[2, 1, 0]), vec![(0, 2), (0, 1), (1, 2)]);
    assert_eq!(cards.legal_moves_given_permutation(0, &[]), vec![]);
}

#[test]
fn legal_moves_of_the_first_turn() {
    let cards = Cards::new(2);
    assert_eq!(cards.legal_moves_given_permutation(0, &[0, 1]), vec![(1, 0), (1, 1)]);
    for &(other, suit) in &cards.legal_moves_given_permutation(1, &[1, 0]) {
        assert!(cards.legal(other, suit, 1));
    }
}

#[test]
fn legal_moves_leave_out_a_suit_with_no_card_to_spare() {
    let cards = table("000?/0??/????");
    assert_eq!(cards.legal_moves_given_permutation(2, &[0, 1, 2]), vec![(0, 0), (0, 1), (0, 2), (1, 0), (1, 1), (1, 2)]);
    let full = table("000?/0??/?x0");
    assert_eq!(full.suit_total(0), 4);
    assert_eq!(full.legal_moves_given_permutation(1, &[1, 0]), vec![(2, 1), (0, 1), (0, 0)]);
}

#[test]
fn position_numbers_are_exact() {
    let mut cards = table("002?/0?x1/2211??x0");
    assert_eq!(cards.position(0), 106715801532);
    assert_eq!(cards.position(1), 52051040473);
    assert_eq!(cards.position(2), 33244941344);
    assert_eq!(cards.position_given_permutation(&[0, 2, 1], 0, true), 38793155220);
    assert_eq!(cards.position_given_permutation(&[0, 2, 1], 0, false), 116379465660);
    assert_eq!(cards.position_given_permutation(&[2, 1, 0], 2, true), 43239637066);
    let mut fresh = Cards::new(2);
    assert_eq!(fresh.position(0), 16416);
    assert_eq!(fresh.position(1), 16417);
}

#[test]
fn permutation_breaks_ties_by_the_lower_suit() {
    assert_eq!(Cards::new(4).permutation(2), vec![0, 1, 2, 3]);
    assert_eq!(table("0012/1?x3/223??x01/33???").permutation(1), vec![1, 3, 2, 0]);
}

#[test]
fn next_player_skips_players_without_cards() {
    let mut cards = table("00/?/");
    assert_eq!(cards.next_player(0), 1);
    assert_eq!(cards.next_player(1), 0);
    assert_eq!(cards.next_player(2), 0);
    assert_eq!(cards.find_next_player(2), Some(0));
    assert_eq!(table("00//").find_next_player(0), None);
    assert!(cards.is_empty(2));
    assert!(!cards.is_empty(1));
}

#[test]
fn suit_totals_count_all_hands() {
    let cards = table("002?/0?x1/2211??x0");
    assert_eq!(cards.suit_totals(), Some(vec![3, 2, 3]));
    assert_eq!(cards.suit_total(1), 2);
    assert_eq!(table("000/00?").suit_totals(), None);
}

#[test]
fn shake_down_finds_more_than_four_cards_of_a_suit() {
    let mut cards = table("000/00?");
    assert!(!cards.shake_down());
    assert_eq!(cards.test_winner(0), ILLEGAL_CARDS);
}

#[test]
fn shake_down_finds_too_few_places_for_a_suit() {
    let mut cards = table("00?x1/1?x0");
    assert!(!cards.shake_down());
}

#[test]
fn shake_down_excludes_a_suit_that_is_all_known() {
    let mut cards = table("00??/00??/????");
    assert!(cards.shake_down());
    assert_eq!(cards.text(), "00??x0/00??x0/????x0");
}

#[test]
fn shake_down_forces_the_only_suit_left() {
    let mut cards = table("00??/00??");
    assert!(cards.shake_down());
    assert_eq!(cards.text(), "0011/0011");
}

#[test]
fn shake_down_gives_the_only_open_hand_the_missing_cards() {
    let mut cards = table("000/22?/111???x0");
    assert!(cards.shake_down());
    assert_eq!(cards.hands[1].known_cards, known_of(&[(0, 1), (2, 2)]));
    assert_eq!(cards.text(), "000/022/111122");
}

#[test]
fn shake_down_forces_a_hand_that_excludes_all_suits_but_one() {
    let mut cards = table("00?x12/1?/???");
    assert!(cards.shake_down());
    assert_eq!(cards.text(), "000/1?/???");
}

#[test]
fn shake_down_leaves_a_fresh_table_alone() {
    let mut cards = Cards::new(3);
    assert!(cards.shake_down());
    assert_eq!(cards.text(), "????/????/????");
}

#[test]
fn test_winner_says_nobody_yet() {
    let mut cards = Cards::new(3);
    assert_eq!(cards.test_winner(1), NO_WINNER);
}

#[test]
fn test_winner_finds_four_of_a_kind_from_the_last_player_on() {
    let mut cards = table("0000?/1111/22??/333");
    assert_eq!(cards.test_winner(0), 0);
    assert_eq!(cards.test_winner(1), 1);
    assert_eq!(cards.test_winner(2), 0);
    assert_eq!(cards.test_winner(3), 0);
    assert_eq!(cards.text(), "0000?x01/1111/222?x01/333");
}

#[test]
fn test_winner_gives_a_determined_table_to_the_last_player() {
    let mut cards = table("0011/0011");
    assert_eq!(cards.test_winner(1), 1);
    assert_eq!(cards.test_winner(0), 0);
}

#[test]
fn has_card_is_settled_by_the_hand() {
    let cards = table("00??/01?/11???x2");
    assert_eq!(cards.has_card(0, 0, 1), (true, true));
    assert_eq!(cards.has_card(2, 2, 0), (true, false));
    assert_eq!(table("00??/01/11???").has_card(2, 1, 0), (true, false));
}

#[test]
fn has_card_is_open_on_a_fresh_table() {
    assert_eq!(Cards::new(3).has_card(1, 2, 0), (false, false));
}

#[test]
fn has_card_is_no_where_yes_leads_to_a_contradiction() {
    let cards = table("000?/0??/????");
    assert_eq!(cards.has_card(0, 2, 1), (true, false));
}

#[test]
fn settle_move_goes_on_and_records_the_position() {
    let mut cards = Cards::new(2);
    let mut history: HashSet<i128> = HashSet::new();
    assert_eq!(settle_move(&mut cards, &mut history, 0, 1, 0, true), TurnEnd::Open);
    assert_eq!(cards.text(), "001??/1??");
    assert_eq!(history.len(), 1);
    assert!(history.contains(&cards.position(0)));
}

#[test]
fn settle_move_finds_a_repeated_position() {
    let mut first = Cards::new(2);
    let mut history: HashSet<i128> = HashSet::new();
    assert_eq!(settle_move(&mut first, &mut history, 0, 1, 0, true), TurnEnd::Open);
    let mut again = Cards::new(2);
    assert_eq!(settle_move(&mut again, &mut history, 0, 1, 0, true), TurnEnd::Drawn);
    assert_eq!(history.len(), 1);
}

#[test]
fn settle_move_finds_the_winner() {
    let mut cards = table("000?/0???");
    let mut history: HashSet<i128> = HashSet::new();
    assert_eq!(settle_move(&mut cards, &mut history, 0, 1, 0, true), TurnEnd::Won(0));
    assert!(history.is_empty());
}

#[test]
fn settle_move_finds_an_answer_that_cannot_be() {
    let mut cards = table("00??/01?/11???");
    let mut history: HashSet<i128> = HashSet::new();
    assert_eq!(settle_move(&mut cards, &mut history, 0, 2, 2, false), TurnEnd::Illegal);
    assert!(history.is_empty());
}

#[test]
fn clone_is_an_independent_copy() {
    let cards = table("00??/01?/11???");
    let mut copy = cards.clone();
    assert_eq!(copy.text(), "00??/01?/11???");
    assert!(copy.shake_down());
    assert_eq!(cards.text(), "00??/01?/11???");
    let hand = cards.hands[0].clone();
    assert_eq!(hand.text(), "00??");
}

#[test]
fn has_card_takes_the_answer_of_the_hand_whoever_asks() {
    let cards = table("00??/01/11???x2");
    assert_eq!(cards.has_card(0, 0, 0), (true, true));
    assert_eq!(cards.has_card(2, 1, 7), (true, false));
    assert_eq!(cards.has_card(9, 1, 1), (true, false));
    assert_eq!(cards.has_card(2, 2, 2), (true, false));
}
