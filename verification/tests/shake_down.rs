use gofish::cards::Cards;
use gofish::hand::Hand;
use std::collections::HashMap;
use std::collections::HashSet;


/// Tests the case where we have 000/22?/111???x0
/// and player 1 asks player 0 for a 1.
#[test]
fn test_no_transfer() {
    let mut h0 = Hand::new();
    h0.known_cards = [(0, 3)].iter().cloned().collect::<HashMap<_, _>>();
    h0.number_of_unknown_cards = 0;
    let mut h1 = Hand::new();
    h1.known_cards = [(2, 2)].iter().cloned().collect::<HashMap<_, _>>();
    h1.number_of_unknown_cards = 1;
    let mut h2 = Hand::new();
    h2.known_cards = [(1, 3)].iter().cloned().collect::<HashMap<_, _>>();
    h2.number_of_unknown_cards = 3;
    let mut cards = Cards::new(3);
    cards.hands = vec![
        h0,
        h1,
        h2,
        ];
    println!("{}", cards.show(1));
    println!("player 1 asks player 0 for a 1, who must say no");
    cards.no_transfer(1, 0, 1, false);
    println!("{}", cards.show(usize::MAX));
    println!("shake_down");
    cards.shake_down();
    println!("{}", cards.show(usize::MAX));
    assert!(cards.hands[0].known_cards == [(0, 3)].iter().cloned().collect::<HashMap<_, _>>());
    assert!(cards.hands[1].known_cards == [(2, 2), (1, 1)].iter().cloned().collect::<HashMap<_, _>>());
    assert!(cards.hands[2].known_cards == [
        (1, 3),
        (0, 1),
        (2, 2),
        ].iter().cloned().collect::<HashMap<_, _>>());
    println!("test_no_transfer: succeeded");
}

/// Initial hands: 0???/00??
/// Player 0 asks player 1 for 1, who refuses. (This is
/// illegal, but we should handle this gracefully.)
#[test]
fn test_no_transfer_2() {
    let mut h0 = Hand::new();
    h0.known_cards = [(0, 1)].iter().cloned().collect::<HashMap<_, _>>();
    h0.number_of_unknown_cards = 3;
    let mut h1 = Hand::new();
    h1.known_cards = [(0, 2)].iter().cloned().collect::<HashMap<_, _>>();
    h1.number_of_unknown_cards = 2;
    let mut cards = Cards::new(2);
    cards.hands = vec![h0, h1];
    let transferred = cards.no_transfer(1, 1, 0, true);
    assert!(transferred);
    println!("test_no_transfer_2: succeeded");
}

/// Tests the cards 00???/??? for whether they are
/// consistent. Of course they are.
#[test]
fn test_simple_shakedown() {
    let mut h0 = Hand::new();
    h0.known_cards = [(0, 2)].iter().cloned().collect::<HashMap<_, _>>();
    h0.number_of_unknown_cards = 3;
    let mut h1 = Hand::new();
    h1.known_cards = [].iter().cloned().collect::<HashMap<_, _>>();
    h1.number_of_unknown_cards = 3;
    let mut cards = Cards::new(2);
    cards.hands = vec![h0, h1];
    println!("{}", cards.show(usize::MAX));
    println!("shake_down");
    let ok = cards.shake_down();
    println!("{}", cards.show(usize::MAX));
    assert!(ok);
    assert!(cards.hands[0].known_cards == [(0, 2), (1, 1)].iter().cloned().collect::<HashMap<_, _>>());
    assert!(cards.hands[1].known_cards == [(1, 1)].iter().cloned().collect::<HashMap<_, _>>());
    println!("test_simple_shake_down: succeeded");
}

/// Tests the case where we have 001/0?x1/22211??x0 and
/// we shake_down. We know that player 1 cannot have a 2
/// because that means player 2 would have to have a 0
/// and that is excluded.
#[test]
fn test_shake_down() {
    let mut h0 = Hand::new();
    h0.known_cards = [(0, 2), (1, 1)].iter().cloned().collect::<HashMap<_, _>>();
    h0.number_of_unknown_cards = 0;
    let mut h1 = Hand::new();
    h1.known_cards = [(0, 1)].iter().cloned().collect::<HashMap<_, _>>();
    h1.number_of_unknown_cards = 1;
    h1.known_voids = [1].iter().cloned().collect::<HashSet<_>>();
    let mut h2 = Hand::new();
    h2.known_cards = [(2, 3), (1, 2)].iter().cloned().collect::<HashMap<_, _>>();
    h2.number_of_unknown_cards = 2;
    h2.known_voids = [0].iter().cloned().collect::<HashSet<_>>();
    let mut cards = Cards::new(3);
    cards.hands = vec![
        h0,
        h1,
        h2,
        ];
    cards.shake_down();
    assert!(cards.hands[0].known_cards == [(0, 2), (1, 1)].iter().cloned().collect::<HashMap<_, _>>());
    assert!(cards.hands[1].known_cards == [(0, 2)].iter().cloned().collect::<HashMap<_, _>>());
    assert!(cards.hands[2].known_cards == [(2, 4), (1, 3)].iter().cloned().collect::<HashMap<_, _>>());
    println!("test_shake_down: succeeded");
}

/// Given the cards 00??/01?/11??? is it legal for
/// player 2 to tell player 1 that he does not have any
/// of suit 2? (It cannot be as that leaves only 3 slots
/// for 2s.)
#[test]
fn test_has_card() {
    let mut h0 = Hand::new();
    h0.known_cards = [(0, 2)].iter().cloned().collect::<HashMap<_, _>>();
    h0.number_of_unknown_cards = 2;
    let mut h1 = Hand::new();
    h1.known_cards = [(0, 1), (1, 1)].iter().cloned().collect::<HashMap<_, _>>();
    h1.number_of_unknown_cards = 1;
    let mut h2 = Hand::new();
    h2.known_cards = [(1, 2)].iter().cloned().collect::<HashMap<_, _>>();
    h2.number_of_unknown_cards = 3;
    let mut cards = Cards::new(3);
    cards.hands = vec![
        h0,
        h1,
        h2,
        ];
    println!("{}", cards.show(usize::MAX));
    let (forced, yes) = cards.has_card(2, 2, 0);
    assert!(forced && yes);
    println!("test_has_card: succeeded");
}

/// Do a shakedown of 2211?x0/00??x1/???. Player 2 must be
/// holding at least one 1, because player 1 has none, and
/// player 0 accounts for no more than 3 of them.
#[test]
fn test_three_player_shakedown() {
    let mut h0 = Hand::new();
    h0.known_cards = [(2, 2), (1, 2)].iter().cloned().collect::<HashMap<_, _>>();
    h0.number_of_unknown_cards = 1;
    h0.known_voids = [0].iter().cloned().collect::<HashSet<_>>();
    let mut h1 = Hand::new();
    h1.known_cards = [(0, 2)].iter().cloned().collect::<HashMap<_, _>>();
    h1.number_of_unknown_cards = 2;
    h1.known_voids = [1].iter().cloned().collect::<HashSet<_>>();
    let mut h2 = Hand::new();
    h2.number_of_unknown_cards = 3;
    let mut cards = Cards::new(3);
    cards.hands = vec![
        h0,
        h1,
        h2,
        ];
    println!("{}", cards.show(usize::MAX));
    let ok = cards.shake_down();
    println!("shakedown");
    println!("{}", cards.show(usize::MAX));
    assert!(ok);
    assert!(cards.hands[2].known_cards[&1] == 1);
    println!("test_three_player_shakedown: succeeded");
}

/// Do a shakedown of 2???/0???x2/????x0.
/// Player 2 must be holding a 1, because he can have at most 3
/// 2's and can't have any 0's.
#[test]
fn test_three_player_shakedown_2() {
    let mut h0 = Hand::new();
    h0.known_cards = [(2, 1)].iter().cloned().collect::<HashMap<_, _>>();
    h0.number_of_unknown_cards = 3;
    let mut h1 = Hand::new();
    h1.known_cards = [(0, 1)].iter().cloned().collect::<HashMap<_, _>>();
    h1.number_of_unknown_cards = 3;
    h1.known_voids = [2].iter().cloned().collect::<HashSet<_>>();
    let mut h2 = Hand::new();
    h2.number_of_unknown_cards = 4;
    h2.known_voids = [0].iter().cloned().collect::<HashSet<_>>();
    let mut cards = Cards::new(3);
    cards.hands = vec![
        h0,
        h1,
        h2,
        ];
    println!("{}", cards.show(usize::MAX));
    let ok = cards.shake_down();
    println!("shakedown");
    println!("{}", cards.show(usize::MAX));
    assert!(ok);
    assert!(cards.hands[2].known_cards[&1] == 1);
    println!("test_three_player_shakedown_2: succeeded");
}

/// Are the cards 222??x0/1x23/000?/11330?x0 legal?
#[test]
fn test_four_player_shakedown() {
    let mut h0 = Hand::new();
    h0.known_cards = [(2, 3)].iter().cloned().collect::<HashMap<_, _>>();
    h0.number_of_unknown_cards = 2;
    h0.known_voids = [0].iter().cloned().collect::<HashSet<_>>();
    let mut h1 = Hand::new();
    h1.known_cards = [(1, 1)].iter().cloned().collect::<HashMap<_, _>>();
    h1.number_of_unknown_cards = 0;
    h1.known_voids = [2, 3].iter().cloned().collect::<HashSet<_>>();
    let mut h2 = Hand::new();
    h2.known_cards = [(0, 3)].iter().cloned().collect::<HashMap<_, _>>();
    h2.number_of_unknown_cards = 1;
    let mut h3 = Hand::new();
    h3.known_cards = [
        (0, 1),
        (1, 2),
        (3, 2),
        ].iter().cloned().collect::<HashMap<_, _>>();
    h3.number_of_unknown_cards = 2;
    let mut cards = Cards::new(4);
    cards.hands = vec![
        h0,
        h1,
        h2,
        h3,
        ];
    println!("{}", cards.show(usize::MAX));
    let ok = cards.shake_down();
    println!("shakedown");
    println!("{}", cards.show(usize::MAX));
    assert!(ok);
    println!("test_four_player_shakedown: succeeded");
}

/// Consider the hands:
///
/// 222?x01
/// 1x23
/// 000??x23
/// 1133??
///
/// This is a winner for player 2, because one of those ?s must be a
/// 0 and the other must be a 1, as there are three each elsewhere.
/// Thus player 2 has four zeros.
#[test]
fn test_four_player_test_winner() {
    let mut h0 = Hand::new();
    h0.known_cards = [(2, 3)].iter().cloned().collect::<HashMap<_, _>>();
    h0.number_of_unknown_cards = 1;
    h0.known_voids = [0, 1].iter().cloned().collect::<HashSet<_>>();
    let mut h1 = Hand::new();
    h1.known_cards = [(1, 1)].iter().cloned().collect::<HashMap<_, _>>();
    h1.number_of_unknown_cards = 0;
    h1.known_voids = [2, 3].iter().cloned().collect::<HashSet<_>>();
    let mut h2 = Hand::new();
    h2.known_cards = [(0, 3)].iter().cloned().collect::<HashMap<_, _>>();
    h2.number_of_unknown_cards = 2;
    h2.known_voids = [2, 3].iter().cloned().collect::<HashSet<_>>();
    let mut h3 = Hand::new();
    h3.known_cards = [(1, 2), (3, 2)].iter().cloned().collect::<HashMap<_, _>>();
    h3.number_of_unknown_cards = 2;
    let mut cards = Cards::new(4);
    cards.hands = vec![
        h0,
        h1,
        h2,
        h3,
        ];
    println!("{}", cards.show(usize::MAX));
    let winner = cards.test_winner(2);
    assert!(winner == 2);
}

/// Given the cards 222?x01/111?x23/000?x2/333?x01, what
/// can player 2 legally ask for from player 0?
///
/// 0: win with 222?x01/1111/0000/333?x01
/// 1:          222?x01/1110/0001/333?x01
/// 2: disallowed (has no 2)
/// 3: illegal  2222/111?x23/0003/3332
///
/// Thus the cards can be written 222?x01/111?x23/000?x23/333?x01.
/// We must exclude 3 on player 2 because if he were to have it,
/// that makes four threes, which excludes three everywhere, which
/// means players 0 and 3 must both have an extra 2, which leads to
/// five twos.
#[test]
fn test_four_player_exclusions() {
    let mut h0 = Hand::new();
    h0.known_cards = [(2, 3)].iter().cloned().collect::<HashMap<_, _>>();
    h0.number_of_unknown_cards = 1;
    h0.known_voids = [0, 1].iter().cloned().collect::<HashSet<_>>();
    let mut h1 = Hand::new();
    h1.known_cards = [(1, 3)].iter().cloned().collect::<HashMap<_, _>>();
    h1.number_of_unknown_cards = 1;
    h1.known_voids = [2, 3].iter().cloned().collect::<HashSet<_>>();
    let mut h2 = Hand::new();
    h2.known_cards = [(0, 3)].iter().cloned().collect::<HashMap<_, _>>();
    h2.number_of_unknown_cards = 1;
    h2.known_voids = [2].iter().cloned().collect::<HashSet<_>>();
    let mut h3 = Hand::new();
    h3.known_cards = [(3, 3)].iter().cloned().collect::<HashMap<_, _>>();
    h3.number_of_unknown_cards = 1;
    h3.known_voids = [0, 1].iter().cloned().collect::<HashSet<_>>();
    let mut cards = Cards::new(4);
    cards.hands = vec![
        h0,
        h1,
        h2,
        h3,
        ];
    println!("test_four_player_exclusions");
    println!("{}", cards.show(usize::MAX));
    let ok = cards.shake_down();
    println!("test_four_player_exclusions: after shake_down");
    println!("{}", cards.show(usize::MAX));
    assert!(ok);
    assert!(cards.hands[2].known_voids.iter().position(|&tmp| tmp == 3) != None);
    println!("test_four_player_exclusions: succeeded");
}

/// Tests the ordering of suits when we have 002?/0?x1/2211??x0.
/// The order should be:
///
/// * 0, 2, 1 for player 0
/// * 0, 1, 2 for player 1
/// * 2, 1, 0 for player 2
#[test]
fn test_permutation() {
    let mut h0 = Hand::new();
    h0.known_cards = [(0, 2), (2, 1)].iter().cloned().collect::<HashMap<_, _>>();
    h0.number_of_unknown_cards = 1;
    let mut h1 = Hand::new();
    h1.known_cards = [(0, 1)].iter().cloned().collect::<HashMap<_, _>>();
    h1.number_of_unknown_cards = 1;
    h1.known_voids = [1].iter().cloned().collect::<HashSet<_>>();
    let mut h2 = Hand::new();
    h2.known_cards = [(2, 2), (1, 2)].iter().cloned().collect::<HashMap<_, _>>();
    h2.number_of_unknown_cards = 2;
    h2.known_voids = [0].iter().cloned().collect::<HashSet<_>>();
    let mut cards = Cards::new(3);
    cards.hands = vec![
        h0,
        h1,
        h2,
        ];
    let p0 = cards.permutation(0);
    let p1 = cards.permutation(1);
    let p2 = cards.permutation(2);
    println!("p0={:?}", p0);
    println!("p1={:?}", p1);
    println!("p2={:?}", p2);
    assert!(p0 == vec![
        0,
        2,
        1,
        ]);
    assert!(p1 == vec![
        0,
        1,
        2,
        ]);
    assert!(p2 == vec![
        2,
        1,
        0,
        ]);
    println!("test_permutation: succeeded");
}

/// We start with the hands 00111?x1/?x01/02223?/33?x01.
/// There are many restrictions implicit in this, and the
/// hands are equivalent to 000111/?x01/022231/33?x01
#[test]
fn test_complex_shakedown() {
    let mut h0 = Hand::new();
    h0.known_cards = [(0, 2), (1, 3)].iter().cloned().collect::<HashMap<_, _>>();
    h0.number_of_unknown_cards = 1;
    h0.known_voids = [1].iter().cloned().collect::<HashSet<_>>();
    let mut h1 = Hand::new();
    h1.known_cards = [].iter().cloned().collect::<HashMap<_, _>>();
    h1.number_of_unknown_cards = 1;
    h1.known_voids = [0, 1].iter().cloned().collect::<HashSet<_>>();
    let mut h2 = Hand::new();
    h2.known_cards = [
        (0, 1),
        (2, 3),
        (3, 1),
        ].iter().cloned().collect::<HashMap<_, _>>();
    h2.number_of_unknown_cards = 1;
    let mut h3 = Hand::new();
    h3.known_cards = [(3, 2)].iter().cloned().collect::<HashMap<_, _>>();
    h3.number_of_unknown_cards = 1;
    h3.known_voids = [0, 1].iter().cloned().collect::<HashSet<_>>();
    let mut cards = Cards::new(4);
    cards.hands = vec![
        h0,
        h1,
        h2,
        h3,
        ];
    println!("test_complex_shakedown");
    println!("{}", cards.show(usize::MAX));
    cards.shake_down();
    println!("test_complex_shakedown: after shakedown");
    println!("{}", cards.show(usize::MAX));
    assert!(cards.hands[0].number_of_unknown_cards == 0);
    assert!(cards.hands[2].number_of_unknown_cards == 0);
}
