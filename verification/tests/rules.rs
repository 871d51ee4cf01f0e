use gofish::cards::Cards;
use gofish::hand::Hand;
use gofish::shake::Fit;
use gofish::shake::PassEnd;
use gofish::shake::Progress;

/// Reads a table written as in `000/22?/111???x0`, with one digit for a suit.
fn deal(text: &str) -> Cards {
    let parts: Vec<&str> = text.split('/').collect();
    let mut cards = Cards::new(parts.len());
    for (p, part) in parts.iter().enumerate() {
        let mut hand = Hand::new();
        hand.number_of_unknown_cards = 0;
        let mut excluded = false;
        for c in part.chars() {
            if c == 'x' {
                excluded = true;
            } else if c == '?' {
                hand.number_of_unknown_cards += 1;
            } else {
                let suit = c.to_digit(10).unwrap() as i8;
                if excluded {
                    hand.known_voids.insert(suit);
                } else {
                    *hand.known_cards.entry(suit).or_insert(0) += 1;
                }
            }
        }
        cards.hands[p] = hand;
    }
    cards
}

#[test]
fn settle_suit_excludes_a_suit_that_is_all_known() {
    let mut cards = deal("00??/00??/????");
    assert_eq!(cards.settle_suit(0, 4), Progress::Changed);
    assert_eq!(cards.text(), "00??x0/00??x0/????x0");
    assert_eq!(cards.settle_suit(0, 4), Progress::Same);
    assert_eq!(cards.text(), "00??x0/00??x0/????x0");
}

#[test]
fn settle_suit_gives_the_only_open_hand_what_is_missing() {
    let mut cards = deal("000/22?/111???x0");
    assert_eq!(cards.settle_suit(0, 3), Progress::Changed);
    assert_eq!(cards.text(), "000/022/111???x0");
}

#[test]
fn settle_suit_fails_where_the_only_open_hand_is_too_small() {
    let mut cards = deal("00/22?/111???x0");
    assert_eq!(cards.settle_suit(0, 2), Progress::Illegal);
}

#[test]
fn settle_suit_fills_all_open_hands_that_just_suffice() {
    let mut cards = deal("00?/?/11");
    assert_eq!(cards.settle_suit(0, 2), Progress::Changed);
    assert_eq!(cards.text(), "000/0/11");
}

#[test]
fn settle_suit_fails_where_the_open_hands_do_not_suffice() {
    let mut cards = deal("0?x0/?x0/11");
    assert_eq!(cards.settle_suit(0, 1), Progress::Illegal);
    let mut two = deal("0?/?/11");
    assert_eq!(two.settle_suit(0, 1), Progress::Illegal);
}

#[test]
fn settle_suit_waits_where_the_open_hands_have_room_to_spare() {
    let mut cards = deal("00??/??/11");
    assert_eq!(cards.settle_suit(0, 2), Progress::Same);
    assert_eq!(cards.text(), "00??/??/11");
}

#[test]
fn scan_stops_at_the_first_suit_that_settles() {
    let mut cards = deal("000/22?/111???x0");
    let totals = cards.suit_totals().unwrap();
    assert_eq!(totals, vec![3, 3, 2]);
    assert_eq!(cards.scan(&totals), Progress::Changed);
    assert_eq!(cards.text(), "000/022/111???x0");
    let mut fresh = Cards::new(3);
    assert_eq!(fresh.scan(&vec![0, 0, 0]), Progress::Same);
}

#[test]
fn force_all_determines_a_hand_with_one_suit_left() {
    let mut cards = deal("00?x12/1?/???");
    assert!(cards.force_all());
    assert_eq!(cards.text(), "000/1?/???");
    assert!(!cards.force_all());
    assert_eq!(cards.text(), "000/1?/???");
}

#[test]
fn fill_last_gives_the_last_open_hand_all_that_is_missing() {
    let mut cards = deal("000/111/??");
    assert_eq!(cards.fill_last(&vec![3, 3, 0]), Progress::Changed);
    assert_eq!(cards.text(), "000/111/01");
    let mut left_over = deal("0000/1111/?");
    assert_eq!(left_over.fill_last(&vec![4, 4, 0]), Progress::Illegal);
    let mut two_open = deal("000?/111/??");
    assert_eq!(two_open.fill_last(&vec![3, 3, 0]), Progress::Same);
    assert_eq!(two_open.text(), "000?/111/??");
}

#[test]
fn press_all_gives_a_suit_what_the_others_cannot_take() {
    let mut cards = deal("00???/???");
    assert_eq!(cards.press_all(&vec![2, 0]), Progress::Changed);
    assert_eq!(cards.text(), "001??/1??");
    assert_eq!(cards.press_all(&vec![2, 2]), Progress::Same);
    assert_eq!(cards.press_hand(0, &vec![2, 2]), Progress::Same);
}

#[test]
fn press_all_fails_where_a_hand_has_no_room() {
    let mut cards = deal("000??x1/0??");
    assert_eq!(cards.press_all(&vec![4, 0]), Progress::Illegal);
}

#[test]
fn spread_fills_a_hand_that_a_sparse_suit_needs() {
    let mut cards = deal("2211?x0/00??x1/???");
    assert_eq!(cards.spread(&vec![2, 2, 2]), Progress::Changed);
    assert_eq!(cards.text(), "1122?x0/00??x1/1??");
    assert_eq!(cards.spread(&vec![2, 3, 2]), Progress::Same);
    let mut one = deal("2211?x0/00??x1/???");
    assert_eq!(one.spread_suit(1, 2), Progress::Changed);
    assert_eq!(one.text(), "1122?x0/00??x1/1??");
    assert_eq!(one.spread_suit(0, 2), Progress::Same);
    assert_eq!(one.text(), "1122?x0/00??x1/1??");
}

#[test]
fn spread_fails_where_a_sparse_suit_needs_more_than_a_hand_has() {
    let mut cards = deal("00?/11x0/22x0");
    assert_eq!(cards.spread_suit(0, 2), Progress::Illegal);
    assert_eq!(cards.spread(&vec![2, 2, 2]), Progress::Illegal);
}

#[test]
fn exclude_groups_shuts_the_others_out() {
    let mut cards = deal("222?x01/111?x23/000?x2/333?x01");
    let totals = cards.suit_totals().unwrap();
    assert_eq!(cards.group_fit(0, &totals), Fit::Tight);
    assert_eq!(cards.group_fit(3, &totals), Fit::Tight);
    assert_eq!(cards.group_fit(1, &totals), Fit::Loose);
    assert_eq!(cards.group_fit(2, &totals), Fit::Loose);
    assert!(cards.in_group(0, 3));
    assert!(!cards.in_group(0, 1));
    assert!(!cards.in_group(2, 2));
    assert!(cards.grouped(1));
    assert!(!cards.grouped(2));
    assert_eq!(cards.exclude_groups(&totals), Progress::Changed);
    assert_eq!(cards.text(), "222?x01/111?x23/000?x23/333?x01");
    assert_eq!(cards.exclude_groups(&totals), Progress::Same);
}

#[test]
fn exclude_groups_finds_a_group_with_too_many_cards() {
    let mut cards = deal("222?x01/111?x23/000?x2/3333?x01");
    let totals = cards.suit_totals().unwrap();
    assert_eq!(cards.group_fit(0, &totals), Fit::Broken);
    assert_eq!(cards.exclude_groups(&totals), Progress::Illegal);
}

#[test]
fn bar_others_excludes_the_suits_of_the_group() {
    let before = deal("222?x01/111?x23/000?x2/333?x01");
    let mut cards = before.duplicate();
    assert!(cards.bar_others(&before, 0));
    assert_eq!(cards.text(), "222?x01/111?x23/000?x23/333?x01");
    assert!(!cards.bar_others(&before, 0));
}

#[test]
fn pass_ends_in_each_way() {
    let mut fresh = Cards::new(3);
    assert_eq!(fresh.pass(), PassEnd::Done);
    assert_eq!(fresh.text(), "????/????/????");
    let mut more = deal("00???/???");
    assert_eq!(more.pass(), PassEnd::Again);
    assert_eq!(more.text(), "001??/1??");
    assert_eq!(more.pass(), PassEnd::Done);
    let mut sparse = deal("2211?x0/00??x1/???");
    assert_eq!(sparse.pass(), PassEnd::Again);
    assert_eq!(sparse.text(), "1122?x0/00??x1/1??");
    assert_eq!(sparse.pass(), PassEnd::Done);
    assert_eq!(sparse.text(), "1122?x0/00??x1/1??");
    let mut wrong = deal("000/00?");
    assert_eq!(wrong.pass(), PassEnd::Illegal);
}
