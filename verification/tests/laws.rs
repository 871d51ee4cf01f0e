use gofish::cards::Cards;
use gofish::hand::Hand;

/// Reads a table written as in `000/22?/111???x0`, with one digit for a suit.
fn read(text: &str) -> Cards {
    let parts: Vec<&str> = text.split('/').collect();
    let mut cards = Cards::new(parts.len());
    for (p, part) in parts.iter().enumerate() {
        let mut hand = Hand::new();
        hand.number_of_unknown_cards = 0;
        let mut excluded = false;
        for c in part.chars() {
            if c == 'x' {
                excluded = true;
            } else if c == '?' {
                hand.number_of_unknown_cards += 1;
            } else {
                let suit = c.to_digit(10).unwrap() as i8;
                if excluded {
                    hand.known_voids.insert(suit);
                } else {
                    *hand.known_cards.entry(suit).or_insert(0) += 1;
                }
            }
        }
        cards.hands[p] = hand;
    }
    cards
}

/// The table with every suit `s` named `names[s]`.
fn renamed(cards: &Cards, names: &[i8]) -> Cards {
    let mut other = Cards::new(cards.number_of_players());
    for (p, hand) in cards.hands.iter().enumerate() {
        let mut named = Hand::new();
        named.number_of_unknown_cards = hand.number_of_unknown_cards;
        for (&suit, &count) in hand.known_cards.iter() {
            named.known_cards.insert(names[suit as usize], count);
        }
        for &suit in hand.known_voids.iter() {
            named.known_voids.insert(names[suit as usize]);
        }
        other.hands[p] = named;
    }
    other
}

fn card_count(cards: &Cards) -> i64 {
    let mut count: i64 = 0;
    for hand in &cards.hands {
        count += hand.number_of_unknown_cards as i64;
        for (_, &held) in hand.known_cards.iter() {
            count += held as i64;
        }
    }
    count
}

fn consistent_tables() -> Vec<&'static str> {
    vec![
        "????/????",
        "00???/???",
        "000/22?/111???x0",
        "0000?/1111/22??/333",
        "001/0?x1/22211??x0",
        "2211?x0/00??x1/???",
        "2???/0???x2/????x0",
        "222?x01/1x23/000??x23/1133??",
        "222?x01/111?x23/000?x2/333?x01",
        "00111?x1/?x01/02223?/33?x01",
        "00??/00??/????",
        "234?x1/01??/????x24/344?x12/1234",
    ]
}

#[test]
fn no_suit_has_more_than_four_known_cards_after_shake_down() {
    for text in consistent_tables() {
        let mut cards = read(text);
        assert!(cards.shake_down(), "{}", text);
        let n = cards.number_of_players();
        for suit in 0..n {
            assert!(cards.suit_total(suit as i8) <= 4, "{}", text);
        }
        assert!(cards.suit_totals().is_some());
    }
}

#[test]
fn moves_keep_held_and_excluded_suits_apart() {
    let mut cards = read("00??/01?x2/11???");
    assert!(cards.transfer(0, 1, 0, true));
    assert!(cards.no_transfer(1, 0, 2, true));
    assert!(cards.transfer(2, 2, 0, true));
    for hand in &cards.hands {
        for suit in hand.known_cards.keys() {
            assert!(!hand.known_voids.contains(suit));
        }
    }
}

#[test]
fn shake_down_excludes_a_saturated_suit_even_where_it_is_held() {
    let mut cards = read("00??/00??/????");
    assert!(cards.shake_down());
    assert!(cards.hands[0].known_cards.contains_key(&0));
    assert!(cards.hands[0].known_voids.contains(&0));
}

#[test]
fn shake_down_twice_changes_nothing() {
    for text in consistent_tables() {
        let mut cards = read(text);
        assert!(cards.shake_down());
        let once = cards.text();
        assert!(cards.shake_down());
        assert_eq!(cards.text(), once, "{}", text);
    }
}

#[test]
fn shake_down_goes_on_where_a_sparse_suit_has_filled_a_hand() {
    let mut cards = read("234?x1/01??/????x24/344?x12/1234");
    assert!(cards.shake_down());
    assert_eq!(cards.text(), "234?x14/012?x4/01??x24/344?x124/1234");
    assert!(cards.shake_down());
    assert_eq!(cards.text(), "234?x14/012?x4/01??x24/344?x124/1234");
}

#[test]
fn shake_down_finds_the_contradiction_at_once() {
    let mut cards = Cards::new(3);
    for _ in 0..3 {
        assert!(cards.legal(1, 0, 0));
        assert!(cards.transfer(0, 1, 0, true));
    }
    assert!(cards.legal(1, 1, 0));
    assert!(cards.no_transfer(1, 1, 0, true));
    assert!(cards.legal(1, 2, 0));
    assert!(cards.no_transfer(2, 1, 0, true));
    assert_eq!(cards.text(), "000012?/?x12/????");
    assert!(!cards.shake_down());
}

#[test]
fn shake_down_only_learns() {
    for text in consistent_tables() {
        let before = read(text);
        let mut after = read(text);
        assert!(after.shake_down());
        for (was, is) in before.hands.iter().zip(after.hands.iter()) {
            assert!(is.number_of_unknown_cards <= was.number_of_unknown_cards);
            for (suit, &count) in was.known_cards.iter() {
                assert!(is.known_count(*suit) >= count);
            }
            if is.number_of_unknown_cards > 0 {
                assert!(was.known_voids.is_subset(&is.known_voids));
            }
            if was.number_of_unknown_cards == 0 {
                assert_eq!(is.known_cards, was.known_cards);
            }
        }
        assert_eq!(card_count(&after), card_count(&before));
    }
}

#[test]
fn canonical_position_does_not_depend_on_the_names_of_four_suits() {
    let cards = read("0012/1?x3/223??x01/33???");
    let order = cards.permutation(1);
    assert_eq!(order, vec![1, 3, 2, 0]);
    let position = cards.position_given_permutation(&order, 1, true);
    assert_eq!(position, 288937406287586048);
    let all_names: Vec<[i8; 4]> = vec![
        [0, 1, 2, 3], [0, 1, 3, 2], [0, 2, 1, 3], [0, 2, 3, 1], [0, 3, 1, 2], [0, 3, 2, 1],
        [1, 0, 2, 3], [1, 0, 3, 2], [1, 2, 0, 3], [1, 2, 3, 0], [1, 3, 0, 2], [1, 3, 2, 0],
        [2, 0, 1, 3], [2, 0, 3, 1], [2, 1, 0, 3], [2, 1, 3, 0], [2, 3, 0, 1], [2, 3, 1, 0],
        [3, 0, 1, 2], [3, 0, 2, 1], [3, 1, 0, 2], [3, 1, 2, 0], [3, 2, 0, 1], [3, 2, 1, 0],
    ];
    for names in all_names {
        let other = renamed(&cards, &names);
        let other_order = other.permutation(1);
        assert_eq!(other.position_given_permutation(&other_order, 1, true), position);
        assert_eq!(other.position_given_permutation(&other_order, 1, false), position * 4 + 1);
    }
}

#[test]
fn canonical_position_can_depend_on_the_names_of_three_suits() {
    let cards = read("?x0/111?/2???");
    let other = renamed(&cards, &[1, 0, 2]);
    assert_eq!(other.text(), "?x1/000?/2???");
    assert_eq!(cards.permutation(0), vec![0, 1, 2]);
    assert_eq!(other.permutation(0), vec![0, 1, 2]);
    assert_eq!(cards.position_given_permutation(&[0, 1, 2], 0, true), 204505176);
    assert_eq!(other.position_given_permutation(&[0, 1, 2], 0, true), 180387928);
}

#[test]
fn moves_keep_the_number_of_cards() {
    let mut cards = read("00??/01?x2/11???");
    assert_eq!(card_count(&cards), 12);
    assert!(cards.transfer(0, 1, 0, true));
    assert_eq!(card_count(&cards), 12);
    assert!(cards.no_transfer(1, 0, 2, true));
    assert_eq!(card_count(&cards), 12);
    assert!(cards.transfer(2, 2, 0, true));
    assert_eq!(card_count(&cards), 12);
    assert!(!cards.transfer(2, 1, 0, true));
    assert_eq!(card_count(&cards), 12);
    assert!(cards.transfer(1, 2, 1, true));
    assert_eq!(card_count(&cards), 12);
    assert!(cards.transfer(0, 2, 1, true));
    assert_eq!(cards.text(), "00022?x1/0011/1?");
    assert_eq!(card_count(&cards), 12);
    assert!(!cards.no_transfer(0, 0, 1, true));
    assert_eq!(card_count(&cards), 12);
}

#[test]
fn a_contradiction_leaves_a_table_that_has_only_learned() {
    for text in vec!["000/00?", "00?x1/1?x0", "000??x1/0??", "1111?/0000?/22??/233?", "000/1?x0/2??"] {
        let before = read(text);
        let mut after = read(text);
        assert!(!after.shake_down(), "{}", text);
        assert_eq!(card_count(&after), card_count(&before));
        for (was, is) in before.hands.iter().zip(after.hands.iter()) {
            assert!(0 <= is.number_of_unknown_cards);
            assert!(is.number_of_unknown_cards <= was.number_of_unknown_cards);
            for (suit, &count) in was.known_cards.iter() {
                assert!(is.known_count(*suit) >= count);
            }
        }
        assert_eq!(after.show(usize::MAX).lines().count(), before.number_of_players());
    }
}

#[test]
fn shake_down_twice_changes_nothing_on_a_table_reached_by_play() {
    let moves: Vec<(usize, usize, i8, bool)> = vec![
        (0, 1, 2, false),
        (1, 0, 1, false),
        (2, 1, 0, false),
        (3, 2, 1, true),
        (0, 3, 2, false),
        (1, 0, 3, true),
        (2, 0, 0, false),
    ];
    let mut cards = Cards::new(4);
    for (this, other, suit, has) in moves {
        assert!(cards.legal(other, suit, this));
        if has {
            assert!(cards.transfer(suit, other, this, true));
        } else {
            assert!(cards.no_transfer(suit, other, this, true));
        }
        assert_eq!(card_count(&cards), 16);
        assert!(cards.shake_down());
    }
    assert_eq!(cards.text(), "22?x01/1333?x02/02?/0011?x2");
    assert!(cards.shake_down());
    assert_eq!(cards.text(), "22?x01/1333?x02/02?/0011?x2");
}

#[test]
fn transfer_takes_a_card_from_one_hand_to_the_other() {
    let mut cards = read("00??/01?/11???");
    let before: Vec<i64> = cards.hands.iter().map(|hand| {
        hand.number_of_unknown_cards as i64 + hand.known_cards.values().map(|&c| c as i64).sum::<i64>()
    }).collect();
    assert!(cards.transfer(2, 2, 0, true));
    let after: Vec<i64> = cards.hands.iter().map(|hand| {
        hand.number_of_unknown_cards as i64 + hand.known_cards.values().map(|&c| c as i64).sum::<i64>()
    }).collect();
    assert_eq!(after, vec![before[0] + 1, before[1], before[2] - 1]);
    assert_eq!(cards.hands[1].text(), "01?");
}
