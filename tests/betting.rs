use poker_dealer::betting::{BetOutcome, BettingRound, RoundMode, FOLD, NO_BET};
use poker_dealer::five_card_draw::PokerGame;
use poker_dealer::orchestrator::{last_player_standing, next_stage, Stage, Variant};
use poker_dealer::player::Player;
use poker_dealer::protocol::displayed_bet;

fn names(n: usize) -> Vec<String> {
    ["amy", "ben", "cat", "dan", "eve", "fay"][..n].iter().map(|s| s.to_string()).collect()
}

fn play(round: &mut BettingRound, game: &mut PokerGame, amount: i32) -> BetOutcome {
    round.act(&mut game.current_players, &mut game.players, &mut game.pot, amount)
}

#[test]
fn ante_then_all_check_keeps_pot_and_shows_zero_bet() {
    let mut game = PokerGame::new(names(3));
    game.collect_ante(5);
    assert_eq!(game.pot, 15);
    let mut round = BettingRound::open(0, 3);
    assert_eq!(round.current_bet, NO_BET);
    assert_eq!(displayed_bet(round.current_bet), 0);
    for _ in 0..3 {
        assert!(round.to_act(game.current_players.len()).is_some());
        play(&mut round, &mut game, 0);
    }
    assert_eq!(round.to_act(game.current_players.len()), None);
    assert_eq!(game.pot, 15);
    assert_eq!(round.current_bet, NO_BET);
    assert_eq!(displayed_bet(round.current_bet), 0);
    for p in &game.current_players {
        assert_eq!(p.money_lost, 5);
    }
}

#[test]
fn equal_contributions_close_after_n_actions() {
    for n in 2..6usize {
        let mut game = PokerGame::new(names(n));
        let mut round = BettingRound::open(1, n);
        let mut actions = 0;
        while round.to_act(game.current_players.len()).is_some() {
            assert_eq!(play(&mut round, &mut game, 10) == BetOutcome::Rejected, false);
            actions += 1;
        }
        assert_eq!(actions, n);
        assert_eq!(game.pot, 10 * n as i32);
    }
}

#[test]
fn one_raise_then_calls_close_after_two_n_minus_one() {
    let n = 4usize;
    let mut game = PokerGame::new(names(n));
    let mut round = BettingRound::open(0, n);
    let mut actions = 0;
    for _ in 0..(n - 1) {
        assert_eq!(round.actor, actions);
        assert_eq!(play(&mut round, &mut game, 0), BetOutcome::Matched);
        assert_eq!(round.current_bet, NO_BET);
        actions += 1;
    }
    assert_eq!(play(&mut round, &mut game, 20), BetOutcome::Raised);
    actions += 1;
    while round.to_act(game.current_players.len()).is_some() {
        assert_eq!(play(&mut round, &mut game, 20), BetOutcome::Matched);
        actions += 1;
    }
    assert_eq!(actions, 2 * n - 1);
    assert_eq!(game.pot, 20 * n as i32);
    assert_eq!(round.current_bet, 20);
    assert!(game.current_players.iter().all(|p| p.bet_amount == 20));
}

#[test]
fn short_bet_is_rejected_and_asked_again() {
    let mut game = PokerGame::new(names(3));
    let mut round = BettingRound::open(0, 3);
    assert_eq!(play(&mut round, &mut game, 10), BetOutcome::Raised);
    assert_eq!(play(&mut round, &mut game, 5), BetOutcome::Rejected);
    assert_eq!(round.actor, 1);
    assert_eq!(play(&mut round, &mut game, -7), BetOutcome::Rejected);
    assert_eq!(round.actor, 1);
    assert_eq!(game.pot, 10);
    assert_eq!(play(&mut round, &mut game, 10), BetOutcome::Matched);
    assert_eq!(round.actor, 2);
}

#[test]
fn fold_moves_player_out_for_good() {
    let mut game = PokerGame::new(names(3));
    let mut round = BettingRound::open(0, 3);
    assert_eq!(play(&mut round, &mut game, 0), BetOutcome::Matched);
    assert_eq!(play(&mut round, &mut game, FOLD), BetOutcome::Folded);
    assert_eq!(game.current_players.len(), 2);
    assert_eq!(game.players.len(), 1);
    assert_eq!(game.players[0].id, "ben");
    assert!(game.current_players.iter().all(|p| p.id != "ben"));
    assert_eq!(game.current_players[round.actor].id, "cat");
    assert_eq!(play(&mut round, &mut game, 0), BetOutcome::Matched);
    assert_eq!(round.to_act(game.current_players.len()), None);
    assert!(game.current_players.iter().all(|p| p.id != "ben"));
}

#[test]
fn folds_down_to_one_player_end_the_hand() {
    let mut game = PokerGame::new(names(3));
    let mut round = BettingRound::open(0, 3);
    assert_eq!(play(&mut round, &mut game, 5), BetOutcome::Raised);
    assert_eq!(play(&mut round, &mut game, FOLD), BetOutcome::Folded);
    assert_eq!(play(&mut round, &mut game, FOLD), BetOutcome::Folded);
    assert_eq!(round.to_act(game.current_players.len()), None);
    assert_eq!(game.current_players.len(), 1);
    assert_eq!(game.current_players[0].id, "amy");
    let next = next_stage(Variant::SevenCardStud, Stage::Betting(0), game.current_players.len());
    assert_eq!(next, Stage::LastPlayerWins);
    assert_eq!(last_player_standing(&game.current_players), Some("amy".to_string()));
    assert_eq!(next_stage(Variant::SevenCardStud, next, 1), Stage::LastPlayerWins);
}

#[test]
fn stage_order_of_each_variant() {
    assert_eq!(next_stage(Variant::FiveCardDraw, Stage::ForcedStakes, 3), Stage::Deal(0));
    assert_eq!(next_stage(Variant::FiveCardDraw, Stage::Deal(0), 3), Stage::Betting(0));
    assert_eq!(next_stage(Variant::FiveCardDraw, Stage::Betting(0), 3), Stage::Swap);
    assert_eq!(next_stage(Variant::FiveCardDraw, Stage::Swap, 3), Stage::Betting(1));
    assert_eq!(next_stage(Variant::FiveCardDraw, Stage::Betting(1), 3), Stage::Showdown);
    assert_eq!(next_stage(Variant::TexasHoldem, Stage::Betting(0), 3), Stage::BigBlindOption);
    assert_eq!(next_stage(Variant::TexasHoldem, Stage::BigBlindOption, 3), Stage::Deal(1));
    assert_eq!(next_stage(Variant::TexasHoldem, Stage::BigBlindOption, 1), Stage::LastPlayerWins);
    assert_eq!(next_stage(Variant::TexasHoldem, Stage::Betting(0), 1), Stage::LastPlayerWins);
    assert_eq!(next_stage(Variant::TexasHoldem, Stage::Betting(2), 2), Stage::Deal(3));
    assert_eq!(next_stage(Variant::TexasHoldem, Stage::Betting(3), 2), Stage::Showdown);
    assert_eq!(next_stage(Variant::SevenCardStud, Stage::Betting(3), 2), Stage::Deal(4));
    assert_eq!(next_stage(Variant::SevenCardStud, Stage::Betting(4), 2), Stage::Showdown);
}

#[test]
fn blinds_must_be_matched_then_big_blind_may_check() {
    let mut players: Vec<Player> = names(3).into_iter().map(Player::new).collect();
    players[0].bet_amount = 2;
    players[1].bet_amount = 4;
    let mut folded: Vec<Player> = Vec::new();
    let mut pot: i32 = 6;
    let mut round = BettingRound::matching(2, 1, 4, 3);
    assert_eq!(round.mode, RoundMode::MatchOnly);
    assert_eq!(round.act(&mut players, &mut folded, &mut pot, 6), BetOutcome::Rejected);
    assert_eq!(round.act(&mut players, &mut folded, &mut pot, 4), BetOutcome::Matched);
    assert_eq!(round.act(&mut players, &mut folded, &mut pot, 2), BetOutcome::Matched);
    assert_eq!(round.to_act(players.len()), None);
    assert_eq!(pot, 12);
    let mut option = BettingRound::big_blind_option(1, round.current_bet, 3);
    assert_eq!(option.act(&mut players, &mut folded, &mut pot, 0), BetOutcome::Matched);
    assert_eq!(option.to_act(players.len()), None);
    assert_eq!(pot, 12);
}

#[test]
fn big_blind_raise_reopens_betting() {
    let mut players: Vec<Player> = names(3).into_iter().map(Player::new).collect();
    for p in players.iter_mut() {
        p.bet_amount = 4;
    }
    let mut folded: Vec<Player> = Vec::new();
    let mut pot: i32 = 12;
    let mut option = BettingRound::big_blind_option(1, 4, 3);
    assert_eq!(option.act(&mut players, &mut folded, &mut pot, 6), BetOutcome::Raised);
    assert_eq!(option.current_bet, 10);
    assert_eq!(option.act(&mut players, &mut folded, &mut pot, 6), BetOutcome::Matched);
    assert_eq!(option.act(&mut players, &mut folded, &mut pot, FOLD), BetOutcome::Folded);
    assert_eq!(option.to_act(players.len()), None);
    assert_eq!(pot, 24);
}
