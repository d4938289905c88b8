use poker_dealer::orchestrator::{street_for, Street};
use poker_dealer::betting::{BettingRound, RoundMode, NO_BET};
use poker_dealer::card::{Card, Suit};
use poker_dealer::deck::Deck;
use poker_dealer::five_card_draw::PokerGame;
use poker_dealer::seven_card_stud::SevenCardStudGame;
use poker_dealer::texas_holdem::TexasHoldemGame;
use poker_dealer::stats::{loss_change, result_change, StatsChange};
use poker_dealer::lobby::{join_table, JoinOutcome};
use poker_dealer::orchestrator::{variant_from_choice, Variant};

fn c(rank: u8, suit: Suit) -> Card {
    Card { rank, suit }
}

fn names(v: &[&str]) -> Vec<String> {
    v.iter().map(|s| s.to_string()).collect()
}

#[test]
fn new_deck_holds_each_card_once() {
    let mut deck = Deck::new();
    assert_eq!(deck.cards.len(), 52);
    let mut seen = std::collections::HashSet::new();
    for card in &deck.cards {
        assert!(card.rank >= 2 && card.rank <= 14);
        assert!(seen.insert((card.rank, card.suit as u8)));
    }
    let top = *deck.cards.last().unwrap();
    assert_eq!(deck.deal_one(), Some(top));
    assert_eq!(deck.cards.len(), 51);
    while deck.deal_one().is_some() {}
    assert_eq!(deck.deal_one(), None);
}

#[test]
fn draw_deals_five_each_and_swaps_from_the_top() {
    let mut game = PokerGame::new(names(&["a", "b", "c"]));
    game.deal_cards();
    assert!(game.current_players.iter().all(|p| p.hand.len() == 5));
    assert_eq!(game.deck.cards.len(), 52 - 15);
    let top = *game.deck.cards.last().unwrap();
    let second = game.deck.cards[game.deck.cards.len() - 2];
    game.replace_cards("b", &[0, 9]);
    assert_eq!(game.current_players[1].hand[0], top);
    assert_eq!(game.deck.cards.len(), 52 - 17);
    assert!(!game.current_players[1].hand.contains(&second));
    let before = game.deck.cards.len();
    game.replace_cards("nobody", &[0, 1]);
    assert_eq!(game.deck.cards.len(), before);
}

#[test]
fn draw_winner_is_best_unfolded_hand() {
    let mut game = PokerGame::new(names(&["a", "b", "c"]));
    game.current_players[0].hand = vec![c(2, Suit::Hearts), c(2, Suit::Spades), c(7, Suit::Clubs), c(9, Suit::Diamonds), c(11, Suit::Spades)];
    game.current_players[1].hand = vec![c(5, Suit::Hearts), c(5, Suit::Spades), c(5, Suit::Clubs), c(9, Suit::Hearts), c(12, Suit::Spades)];
    game.current_players[2].hand = vec![c(10, Suit::Hearts), c(10, Suit::Spades), c(10, Suit::Clubs), c(10, Suit::Diamonds), c(3, Suit::Spades)];
    assert_eq!(game.determine_winner_id(), Some("c".to_string()));
    game.current_players[2].folded = true;
    assert_eq!(game.determine_winner_id(), Some("b".to_string()));
    game.current_players[0].folded = true;
    game.current_players[1].folded = true;
    assert_eq!(game.determine_winner_id(), None);
}

#[test]
fn stud_bring_in_is_lowest_exposed_card() {
    let mut game = SevenCardStudGame::new(names(&["x", "y", "z"]));
    game.current_players[0].hand = vec![c(14, Suit::Hearts), c(14, Suit::Clubs), c(9, Suit::Diamonds)];
    game.current_players[1].hand = vec![c(2, Suit::Hearts), c(2, Suit::Clubs), c(3, Suit::Spades)];
    game.current_players[2].hand = vec![c(4, Suit::Hearts), c(6, Suit::Clubs), c(13, Suit::Clubs)];
    assert_eq!(game.determine_bring_in(), Some("y".to_string()));
}

#[test]
fn stud_bring_in_ties_break_by_suit() {
    let mut game = SevenCardStudGame::new(names(&["x", "y"]));
    game.current_players[0].hand = vec![c(14, Suit::Hearts), c(14, Suit::Clubs), c(3, Suit::Spades)];
    game.current_players[1].hand = vec![c(2, Suit::Hearts), c(2, Suit::Clubs), c(3, Suit::Hearts)];
    assert_eq!(game.determine_bring_in(), Some("y".to_string()));
}

#[test]
fn stud_streets_and_face_up_leader() {
    let mut game = SevenCardStudGame::new(names(&["x", "y", "z"]));
    game.deal_third_street();
    assert!(game.current_players.iter().all(|p| p.hand.len() == 3));
    assert!(game.determine_bring_in().is_some());
    game.deal_fourth_street();
    game.deal_fifth_street();
    game.deal_sixth_street();
    game.deal_seventh_street();
    assert!(game.current_players.iter().all(|p| p.hand.len() == 7));
    assert_eq!(game.deck.cards.len(), 52 - 21);
    assert!(game.showdown().is_some());

    let mut g = SevenCardStudGame::new(names(&["x", "y"]));
    g.current_players[0].hand = vec![c(2, Suit::Hearts), c(3, Suit::Clubs), c(9, Suit::Diamonds), c(9, Suit::Hearts)];
    g.current_players[1].hand = vec![c(2, Suit::Spades), c(3, Suit::Spades), c(14, Suit::Diamonds), c(13, Suit::Hearts)];
    assert_eq!(g.determine_best_faceup_hand_id(), Some("x".to_string()));
    g.current_players[0].hand.push(c(4, Suit::Clubs));
    g.current_players[1].hand.push(c(5, Suit::Clubs));
    assert_eq!(g.determine_best_faceup_hand_after_fifth_street(), Some("x".to_string()));
    g.current_players[0].hand.push(c(6, Suit::Clubs));
    assert_eq!(g.determine_best_faceup_hand_after_sixth_street(), Some("x".to_string()));
}

#[test]
fn holdem_deals_hole_cards_and_board_with_burns() {
    let mut game = TexasHoldemGame::new(names(&["a", "b"]));
    game.post_blinds(2);
    assert_eq!(game.pot, 6);
    assert_eq!(game.current_bet, 4);
    assert_eq!(game.current_players[0].bet_amount, 2);
    assert_eq!(game.current_players[1].bet_amount, 4);
    game.deal_hole_cards();
    assert!(game.current_players.iter().all(|p| p.hand.len() == 2));
    let burn_then = game.deck.cards[game.deck.cards.len() - 2];
    game.deal_flop();
    assert_eq!(game.community_cards.len(), 3);
    assert_eq!(game.community_cards[0], burn_then);
    game.deal_turn();
    game.deal_river();
    assert_eq!(game.community_cards.len(), 5);
    assert_eq!(game.deck.cards.len(), 52 - 4 - 8);
    assert!(game.showdown().is_some());
}

#[test]
fn holdem_showdown_uses_board() {
    let mut game = TexasHoldemGame::new(names(&["a", "b"]));
    game.current_players[0].hand = vec![c(2, Suit::Hearts), c(7, Suit::Clubs)];
    game.current_players[1].hand = vec![c(14, Suit::Spades), c(13, Suit::Diamonds)];
    game.community_cards = vec![c(2, Suit::Spades), c(2, Suit::Diamonds), c(9, Suit::Clubs), c(10, Suit::Hearts), c(4, Suit::Spades)];
    assert_eq!(game.showdown(), Some("a".to_string()));
}

#[test]
fn stats_changes_for_winner_and_losers() {
    let mut game = PokerGame::new(names(&["w", "l"]));
    game.current_players[0].money_lost = 15;
    game.current_players[1].money_lost = 20;
    assert_eq!(
        result_change(&game.current_players[0], "w", 35),
        StatsChange { games_played: 1, wins: 1, losses: 0, money_win: 35, money_lost: -15 }
    );
    assert_eq!(
        result_change(&game.current_players[1], "w", 35),
        StatsChange { games_played: 1, wins: 0, losses: 1, money_win: 0, money_lost: -20 }
    );
    assert_eq!(loss_change(&game.current_players[1]), result_change(&game.current_players[1], "w", 35));
}

#[test]
fn table_seats_in_order_until_full() {
    let mut seated: Vec<String> = Vec::new();
    assert_eq!(join_table(&mut seated, "a".to_string(), 2), JoinOutcome::Joined);
    assert_eq!(join_table(&mut seated, "a".to_string(), 2), JoinOutcome::AlreadySeated);
    assert_eq!(join_table(&mut seated, "b".to_string(), 2), JoinOutcome::JoinedTableFull);
    assert_eq!(join_table(&mut seated, "c".to_string(), 2), JoinOutcome::TableFull);
    assert_eq!(seated, vec!["a".to_string(), "b".to_string()]);
}

#[test]
fn variant_choice_defaults_to_holdem() {
    assert_eq!(variant_from_choice("1"), Variant::FiveCardDraw);
    assert_eq!(variant_from_choice("2"), Variant::SevenCardStud);
    assert_eq!(variant_from_choice("3"), Variant::TexasHoldem);
    assert_eq!(variant_from_choice(""), Variant::TexasHoldem);
}

#[test]
fn new_deck_is_shuffled() {
    let built: Vec<(u8, Suit)> = [Suit::Hearts, Suit::Diamonds, Suit::Clubs, Suit::Spades]
        .iter()
        .flat_map(|&s| [14u8, 2, 3, 4, 5, 6, 7, 8, 9, 10, 11, 12, 13].into_iter().map(move |r| (r, s)))
        .collect();
    let mut differs = false;
    for _ in 0..3 {
        let deck = Deck::new();
        let order: Vec<(u8, Suit)> = deck.cards.iter().map(|c| (c.rank, c.suit)).collect();
        if order != built {
            differs = true;
        }
    }
    assert!(differs);
}

#[test]
fn round_openers_follow_each_variant() {
    let mut draw = PokerGame::new(names(&["a", "b", "c"]));
    draw.current_players[1].bet_amount = 9;
    let r = draw.open_round(1);
    assert_eq!((r.actor, r.current_bet, r.leader, r.mode), (0, NO_BET, None, RoundMode::Open));
    assert!(draw.current_players.iter().all(|p| p.bet_amount == 0));

    let mut stud = SevenCardStudGame::new(names(&["x", "y", "z"]));
    stud.current_players[0].hand = vec![c(14, Suit::Hearts), c(14, Suit::Clubs), c(9, Suit::Diamonds)];
    stud.current_players[1].hand = vec![c(2, Suit::Hearts), c(2, Suit::Clubs), c(13, Suit::Clubs)];
    stud.current_players[2].hand = vec![c(4, Suit::Hearts), c(6, Suit::Clubs), c(3, Suit::Spades)];
    assert_eq!(stud.open_round(0).actor, 2);
    stud.current_players[0].hand.push(c(10, Suit::Diamonds));
    stud.current_players[1].hand.push(c(2, Suit::Spades));
    stud.current_players[2].hand.push(c(7, Suit::Spades));
    assert_eq!(stud.open_round(1).actor, 1);

    let mut holdem = TexasHoldemGame::new(names(&["a", "b", "c"]));
    holdem.post_blinds(2);
    let first = holdem.open_round(0);
    assert_eq!(first, BettingRound::matching(2, 1, 4, 3));
    let option = holdem.big_blind_option_round("b", 4).unwrap();
    assert_eq!((option.actor, option.mode), (1, RoundMode::CheckOption));
    assert!(holdem.big_blind_option_round("nobody", 4).is_none());
    let later = holdem.open_round(1);
    assert_eq!(later.actor, 0);
    assert!(holdem.current_players.iter().all(|p| p.bet_amount == 0));
}

#[test]
fn equal_hands_break_ties_by_seat() {
    let same = |s: Suit| vec![c(2, s), c(5, Suit::Hearts), c(8, Suit::Clubs), c(11, Suit::Diamonds), c(13, Suit::Spades)];
    let mut draw = PokerGame::new(names(&["a", "b"]));
    draw.current_players[0].hand = same(Suit::Clubs);
    draw.current_players[1].hand = same(Suit::Hearts);
    assert_eq!(draw.determine_winner_id(), Some("b".to_string()));

    let mut stud = SevenCardStudGame::new(names(&["a", "b"]));
    stud.current_players[0].hand = same(Suit::Clubs);
    stud.current_players[1].hand = same(Suit::Hearts);
    assert_eq!(stud.showdown(), Some("a".to_string()));
}

#[test]
fn exposed_pair_beats_exposed_run() {
    let mut g = SevenCardStudGame::new(names(&["a", "b"]));
    g.current_players[0].hand = vec![c(2, Suit::Hearts), c(3, Suit::Diamonds), c(13, Suit::Clubs), c(13, Suit::Diamonds)];
    g.current_players[1].hand = vec![c(4, Suit::Hearts), c(5, Suit::Diamonds), c(7, Suit::Hearts), c(8, Suit::Spades)];
    assert_eq!(g.determine_best_faceup_hand_id(), Some("a".to_string()));
    assert_eq!(poker_dealer::eval::evaluate_exposed(&[c(7, Suit::Hearts), c(8, Suit::Hearts)]), (1, vec![8, 7]));
    assert_eq!(
        poker_dealer::eval::evaluate_exposed(&[c(9, Suit::Hearts), c(9, Suit::Clubs), c(4, Suit::Spades), c(4, Suit::Hearts)]),
        (3, vec![9, 4])
    );
    assert_eq!(
        poker_dealer::eval::evaluate_exposed(&[c(9, Suit::Hearts), c(9, Suit::Clubs), c(9, Suit::Spades)]),
        (4, vec![9])
    );
}

#[test]
fn short_deck_leaves_shorter_hands() {
    let many: Vec<String> = (0..12).map(|i| format!("seat{}", i)).collect();
    let mut draw = PokerGame::new(many.clone());
    draw.deal_cards();
    assert_eq!(draw.deck.cards.len(), 0);
    let sizes: Vec<usize> = draw.current_players.iter().map(|p| p.hand.len()).collect();
    assert_eq!(sizes, vec![5, 5, 5, 5, 4, 4, 4, 4, 4, 4, 4, 4]);

    let many: Vec<String> = (0..18).map(|i| format!("seat{}", i)).collect();
    let mut stud = SevenCardStudGame::new(many);
    stud.deal_third_street();
    assert_eq!(stud.deck.cards.len(), 0);
    assert_eq!(stud.current_players[16].hand.len(), 3);
    assert_eq!(stud.current_players[17].hand.len(), 1);
}

#[test]
fn streets_follow_each_variant() {
    assert_eq!(street_for(Variant::FiveCardDraw, 0), Street::DrawHands);
    assert_eq!(street_for(Variant::SevenCardStud, 0), Street::ThirdStreet);
    assert_eq!(street_for(Variant::SevenCardStud, 4), Street::SeventhStreet);
    assert_eq!(street_for(Variant::TexasHoldem, 1), Street::Flop);
    assert_eq!(street_for(Variant::TexasHoldem, 3), Street::River);
}
