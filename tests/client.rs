use poker_dealer::client::{AppState, Mode, PlayerApp};

/// Default values of a fresh client.
#[test]
fn test_default_player_app() {
    let app = PlayerApp::default();
    assert_eq!(app.username, "");
    assert_eq!(app.password, "");
    assert_eq!(app.dealer_ip, "127.0.0.1");
    assert_eq!(app.mode, Mode::Login);
    assert_eq!(app.state, AppState::Auth);
    assert_eq!(*app.output.lock().unwrap(), "");
}

#[test]
fn test_mode_switch() {
    let mut app = PlayerApp::default();
    assert_eq!(app.mode, Mode::Login);

    app.mode = Mode::Register;
    assert_eq!(app.mode, Mode::Register);

    app.mode = Mode::Login;
    assert_eq!(app.mode, Mode::Login);
}

#[test]
fn test_text_field_input() {
    let mut app = PlayerApp::default();
    app.username = "test".to_string();
    app.password = "testpw".to_string();
    assert_eq!(app.username, "test");
    assert_eq!(app.password, "testpw");
}

#[test]
fn test_exit_game_resets_state() {
    let mut app = PlayerApp::default();
    app.state = AppState::InGame;

    app.state = AppState::Auth;
    assert_eq!(app.state, AppState::Auth);
}

#[test]
fn test_state_transitions() {
    let mut app = PlayerApp::default();

    app.state = AppState::Ready;
    assert_eq!(app.state, AppState::Ready);

    app.state = AppState::Stats;
    assert_eq!(app.state, AppState::Stats);

    app.state = AppState::InGame;
    assert_eq!(app.state, AppState::InGame);

    app.state = AppState::Spectator;
    assert_eq!(app.state, AppState::Spectator);

    app.state = AppState::Auth;
    assert_eq!(app.state, AppState::Auth);
}

#[test]
fn test_stats_search_query_input() {
    let mut app = PlayerApp::default();
    app.stats_search_query = "player123".to_string();
    assert_eq!(app.stats_search_query, "player123");
}

#[test]
fn test_current_bet_and_swap_input() {
    let mut app = PlayerApp::default();
    app.current_bet = "10".to_string();
    app.current_swap = "0,2,4".to_string();

    assert_eq!(app.current_bet, "10");
    assert_eq!(app.current_swap, "0,2,4");
}

#[test]
fn default_client_has_zero_bet_and_empty_swap() {
    let app = PlayerApp::default();
    assert_eq!(app.current_bet, "0");
    assert_eq!(app.current_swap, "");
    assert_eq!(*app.game_state.lock().unwrap(), "");
}
