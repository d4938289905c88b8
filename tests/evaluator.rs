use poker_dealer::card::{rank_str_to_value, value_to_rank_str, Card, Suit};
use poker_dealer::eval::{
    best_hand_from_seven, evaluate_hand, is_5card_straight, rank_poker_hand, score_greater, HandRank,
};

fn c(rank: u8, suit: Suit) -> Card {
    Card { rank, suit }
}

#[test]
fn royal_flush_scores_ten() {
    let h = [c(10, Suit::Spades), c(11, Suit::Spades), c(12, Suit::Spades), c(13, Suit::Spades), c(14, Suit::Spades)];
    assert_eq!(evaluate_hand(&h), (10, vec![]));
    assert_eq!(rank_poker_hand(h), HandRank::RoyalFlush);
}

#[test]
fn straight_flush_scores_nine_with_high_card() {
    let h = [c(5, Suit::Hearts), c(6, Suit::Hearts), c(7, Suit::Hearts), c(8, Suit::Hearts), c(9, Suit::Hearts)];
    assert_eq!(evaluate_hand(&h), (9, vec![9]));
    assert_eq!(rank_poker_hand(h), HandRank::StraightFlush(9));
}

#[test]
fn steel_wheel_is_five_high_straight_flush() {
    let h = [c(14, Suit::Clubs), c(2, Suit::Clubs), c(3, Suit::Clubs), c(4, Suit::Clubs), c(5, Suit::Clubs)];
    assert_eq!(evaluate_hand(&h), (9, vec![5]));
}

#[test]
fn four_of_a_kind_lists_quad_then_kicker() {
    let h = [c(9, Suit::Hearts), c(9, Suit::Spades), c(3, Suit::Clubs), c(9, Suit::Diamonds), c(9, Suit::Clubs)];
    assert_eq!(evaluate_hand(&h), (8, vec![9, 3]));
    assert_eq!(rank_poker_hand(h), HandRank::FourOfAKind(9, 3));
}

#[test]
fn full_house_lists_trip_then_pair() {
    let h = [c(4, Suit::Hearts), c(13, Suit::Spades), c(4, Suit::Clubs), c(13, Suit::Diamonds), c(4, Suit::Spades)];
    assert_eq!(evaluate_hand(&h), (7, vec![4, 13]));
}

#[test]
fn flush_lists_ranks_descending() {
    let h = [c(2, Suit::Diamonds), c(9, Suit::Diamonds), c(12, Suit::Diamonds), c(5, Suit::Diamonds), c(7, Suit::Diamonds)];
    assert_eq!(evaluate_hand(&h), (6, vec![12, 9, 7, 5, 2]));
}

#[test]
fn wheel_is_five_high_straight_below_six_high() {
    let wheel = [c(14, Suit::Spades), c(2, Suit::Hearts), c(3, Suit::Clubs), c(4, Suit::Diamonds), c(5, Suit::Spades)];
    let six = [c(2, Suit::Spades), c(3, Suit::Hearts), c(4, Suit::Clubs), c(5, Suit::Diamonds), c(6, Suit::Spades)];
    let w = evaluate_hand(&wheel);
    let s = evaluate_hand(&six);
    assert_eq!(w, (5, vec![5]));
    assert_eq!(s, (5, vec![6]));
    assert!(score_greater(&s, &w));
    assert!(!score_greater(&w, &s));
    assert!(s > w);
    assert_eq!(rank_poker_hand(wheel), HandRank::Straight(5));
}

#[test]
fn three_of_a_kind_two_pairs_one_pair_high_card() {
    let trips = [c(8, Suit::Hearts), c(8, Suit::Spades), c(8, Suit::Clubs), c(13, Suit::Diamonds), c(2, Suit::Spades)];
    assert_eq!(evaluate_hand(&trips), (4, vec![8, 13, 2]));
    let two = [c(8, Suit::Hearts), c(8, Suit::Spades), c(3, Suit::Clubs), c(3, Suit::Diamonds), c(14, Suit::Spades)];
    assert_eq!(evaluate_hand(&two), (3, vec![8, 3, 14]));
    assert_eq!(rank_poker_hand(two), HandRank::TwoPairs(8, 3, 14));
    let one = [c(8, Suit::Hearts), c(8, Suit::Spades), c(3, Suit::Clubs), c(10, Suit::Diamonds), c(14, Suit::Spades)];
    assert_eq!(evaluate_hand(&one), (2, vec![8, 14, 10, 3]));
    assert_eq!(rank_poker_hand(one), HandRank::OnePair(8, 14, 10, 3));
    let high = [c(8, Suit::Hearts), c(11, Suit::Spades), c(3, Suit::Clubs), c(10, Suit::Diamonds), c(14, Suit::Spades)];
    assert_eq!(evaluate_hand(&high), (1, vec![14, 11, 10, 8, 3]));
    assert_eq!(rank_poker_hand(high), HandRank::HighCard(14, 11, 10, 8, 3));
}

#[test]
fn higher_category_beats_better_tiebreaks() {
    let pair_of_twos = evaluate_hand(&[c(2, Suit::Hearts), c(2, Suit::Spades), c(3, Suit::Clubs), c(4, Suit::Diamonds), c(6, Suit::Spades)]);
    let ace_high = evaluate_hand(&[c(14, Suit::Hearts), c(13, Suit::Spades), c(12, Suit::Clubs), c(11, Suit::Diamonds), c(9, Suit::Spades)]);
    assert!(score_greater(&pair_of_twos, &ace_high));
    assert!(pair_of_twos.0 >= 1 && pair_of_twos.0 <= 10);
}

#[test]
fn empty_hand_scores_below_everything() {
    assert_eq!(evaluate_hand(&[]), (0, vec![]));
}

#[test]
fn best_of_seven_finds_hidden_flush() {
    let cards = [
        c(2, Suit::Hearts), c(9, Suit::Hearts), c(13, Suit::Clubs), c(5, Suit::Hearts),
        c(11, Suit::Hearts), c(13, Suit::Spades), c(7, Suit::Hearts),
    ];
    assert_eq!(best_hand_from_seven(&cards), (6, vec![11, 9, 7, 5, 2]));
}

#[test]
fn best_of_seven_is_at_least_every_five_card_subset() {
    let cards = [
        c(14, Suit::Hearts), c(14, Suit::Clubs), c(6, Suit::Clubs), c(6, Suit::Hearts),
        c(6, Suit::Spades), c(2, Suit::Diamonds), c(9, Suit::Spades),
    ];
    let best = best_hand_from_seven(&cards);
    assert_eq!(best, (7, vec![6, 14]));
    for a in 0..7 {
        for b in (a + 1)..7 {
            let five: Vec<Card> = (0..7).filter(|&i| i != a && i != b).map(|i| cards[i]).collect();
            let e = evaluate_hand(&five);
            assert!(!score_greater(&e, &best));
        }
    }
}

#[test]
fn best_of_seven_below_five_cards_is_nothing() {
    let cards = [c(14, Suit::Hearts), c(14, Suit::Clubs)];
    assert_eq!(best_hand_from_seven(&cards), (0, vec![]));
}

#[test]
fn straight_helper_accepts_runs_and_the_wheel() {
    assert!(is_5card_straight(&[9, 8, 7, 6, 5]));
    assert!(is_5card_straight(&[14, 5, 4, 3, 2]));
    assert!(!is_5card_straight(&[14, 13, 12, 11, 9]));
    assert!(!is_5card_straight(&[5, 4, 3, 2, 14]));
}

#[test]
fn rank_text_round_trip() {
    assert_eq!(rank_str_to_value("A"), Some(14));
    assert_eq!(rank_str_to_value("10"), Some(10));
    assert_eq!(rank_str_to_value("7"), Some(7));
    assert_eq!(rank_str_to_value("1"), None);
    assert_eq!(rank_str_to_value("X"), None);
    assert_eq!(value_to_rank_str(12), "Q");
    assert_eq!(value_to_rank_str(10), "10");
    assert_eq!(c(11, Suit::Diamonds).text(), "J of Diamonds");
    assert_eq!(c(3, Suit::Spades).text(), "3 of Spades");
}
