use gofish::cards::Cards;
use gofish::clever::CleverPlayer;
use gofish::game::settle_move;
use gofish::game::TurnEnd;
use gofish::player::Player;
use std::collections::HashSet;

/// Plays a game in which one look-ahead player makes the moves of all
/// players. Returns the winner, or -1 for a draw.
fn play(number_of_players: usize, player: &mut CleverPlayer) -> i64 {
    let mut cards = Cards::new(number_of_players);
    let mut history: HashSet<i128> = HashSet::new();
    loop {
        for i in 0..number_of_players {
            if cards.is_empty(i) {
                continue;
            }
            let (other, suit) = match player.next_move(i, &cards, &history) {
                Some(found) => found,
                None => panic!("player {} finds no move", i),
            };
            assert!(cards.legal(other, suit, i));
            let has = player.has_card(other, i, suit, &cards, &history);
            match settle_move(&mut cards, &mut history, i, other, suit, has) {
                TurnEnd::Illegal => panic!("The cards are in an illegal state. All players lose"),
                TurnEnd::Won(winner) => return winner,
                TurnEnd::Drawn => return -1,
                TurnEnd::Open => {}
            }
        }
    }
}

fn three_biased_players(preferences: Vec<Vec<usize>>, symmetric: bool) -> i64 {
    let mut clever = CleverPlayer::new(1000, 1000, 0, preferences, symmetric);
    let result = play(3, &mut clever);
    if result == -1 {
        println!("Result is a draw");
    } else {
        println!("Win for player {}", result);
    }
    println!("{}", clever.info());
    result
}

#[test]
fn test_two_clever_players() {
    let mut clever = CleverPlayer::new(1000, 1000, 0, vec![], true);
    let result = play(2, &mut clever);
    if result == -1 {
        println!("Result is a draw");
    } else {
        println!("Win for player {}", result);
    }
    assert!(result == -1, "test_two_clever_players: expecting a draw");
    println!("{}", clever.info());
    println!("----------------");
    println!();
}

#[test]
fn test_three_clever_players() {
    let mut clever = CleverPlayer::new(1000, 1000, 0, vec![], true);
    let result = play(3, &mut clever);
    if result == -1 {
        println!("Result is a draw");
    } else {
        println!("Win for player {}", result);
    }
    println!("{}", clever.info());
    println!("----------------");
    println!();
}

#[test]
fn test_three_clever_biased_players() {
    let result = three_biased_players(vec![vec![2], vec![0], vec![1]], true);
    assert!(result == -1, "test_three_clever_biased_players: expecting a draw");
    println!("----------------");
    println!();
}

/// Try all combinations of preferences for the three player game
#[test]
fn test_three_clever_players_of_all_types() {
    for i0 in vec![1, 2] {
        for i1 in vec![0, 2] {
            for i2 in vec![0, 1] {
                let preferences = vec![vec![i0], vec![i1], vec![i2]];
                let symmetric = (i0 == 1 && i1 == 2 && i2 == 0) || (i0 == 2 && i1 == 0 && i2 == 1);
                let result = three_biased_players(preferences.clone(), symmetric);
                println!("With second preferences {:?}", preferences);
                if result == -1 {
                    println!("Result is a draw");
                } else {
                    println!("Win for player {}", result);
                }
            }
        }
    }
    println!("----------------");
    println!();
}

#[test]
fn clever_player_tells_the_size_of_its_cache() {
    let mut clever = CleverPlayer::new(1000, 1000, 0, vec![], true);
    assert_eq!(clever.info(), "cache size: 0");
    assert_eq!(clever.cache_size(), 0);
    assert_eq!(play(2, &mut clever), -1);
    assert_eq!(clever.cache_size(), 7);
    assert_eq!(clever.info(), "cache size: 7");
}

#[test]
fn clever_player_makes_a_legal_first_move() {
    let cards = Cards::new(3);
    let history: HashSet<i128> = HashSet::new();
    for depth in vec![0, 1, 2] {
        let mut clever = CleverPlayer::new(depth, depth, 0, vec![], false);
        for this in 0..3 {
            let (other, suit) = clever.next_move(this, &cards, &history).unwrap();
            assert!(cards.legal(other, suit, this));
        }
    }
}

#[test]
fn clever_player_takes_the_win() {
    let mut cards = Cards::new(2);
    cards.hands[0].known_cards.insert(0, 3);
    cards.hands[0].number_of_unknown_cards = 1;
    cards.hands[1].known_cards.insert(0, 1);
    cards.hands[1].number_of_unknown_cards = 3;
    let history: HashSet<i128> = HashSet::new();
    let mut clever = CleverPlayer::new(0, 0, 0, vec![], true);
    assert_eq!(clever.next_move(0, &cards, &history), Some((1, 0)));
    assert!(clever.has_card(1, 0, 0, &cards, &history));
    let found = clever._evaluate_move(0, &cards, &history, 0).unwrap();
    assert_eq!((found.other, found.suit, found.result, found.draw_position), (1, 0, 0, -1));
}

#[test]
fn clever_player_answers_as_the_hand_says() {
    let mut cards = Cards::new(3);
    cards.hands[1].known_cards.insert(2, 1);
    cards.hands[1].number_of_unknown_cards = 3;
    cards.hands[2].known_voids.insert(0);
    let history: HashSet<i128> = HashSet::new();
    let mut clever = CleverPlayer::new(1, 1, 0, vec![vec![2], vec![0], vec![1]], true);
    assert!(clever.has_card(1, 0, 2, &cards, &history));
    assert!(!clever.has_card(2, 1, 0, &cards, &history));
    assert!(clever._evaluate_has_card(1, 0, 2, &cards, &history, 5));
}
