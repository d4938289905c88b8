//! The player client's screen state: which screen is shown, what has been typed,
//! and the last reply from the dealer.
use vstd::prelude::*;
use std::sync::{Arc, Mutex};

verus! {

/// std's `Mutex`, declared so that the client state can hold text shared with the
/// network side; nothing about its contents is relied on.
#[verifier::external_type_specification]
#[verifier::external_body]
#[verifier::reject_recursive_types(T)]
pub struct ExMutex<T: ?Sized>(std::sync::Mutex<T>);

/// Whether the authentication screen registers or logs in.
#[derive(Debug, Clone, Copy, PartialEq, Eq, Structural)]
pub enum Mode {
    Register,
    Login,
}

/// The screen the client shows.
#[derive(Debug, Clone, Copy, PartialEq, Eq, Structural)]
pub enum AppState {
    /// Registration and login.
    Auth,
    /// A hand in play.
    InGame,
    /// Player statistics.
    Stats,
    /// Waiting for the table to fill.
    Ready,
    /// Watching the current game.
    Spectator,
}

/// The address the client connects to unless told otherwise.
pub open spec fn default_dealer_ip() -> Seq<char> {
    seq!['1', '2', '7', '.', '0', '.', '0', '.', '1']
}

/// The state of the player client.
pub struct PlayerApp {
    pub username: String,
    pub password: String,
    pub dealer_ip: String,
    pub mode: Mode,
    pub stats_search_query: String,
    pub user_stats: String,
    /// The bet being typed.
    pub current_bet: String,
    /// The swap positions being typed, comma-separated.
    pub current_swap: String,
    pub state: AppState,
    /// The dealer's reply to the last authentication command, shared with the network side.
    pub output: Arc<Mutex<String>>,
    /// The last game snapshot received for the spectator screen.
    pub game_state: Arc<Mutex<String>>,
}

/// Relies on `std::sync::Mutex::new`: a new lock around the text.
#[verifier::external_body]
fn locked_text(s: String) -> (r: Mutex<String>) {
    Mutex::new(s)
}

/// A new lock around the text, shared through an `Arc`.
fn shared_text(s: String) -> (r: Arc<Mutex<String>>) {
    Arc::new(locked_text(s))
}

impl Default for PlayerApp {
    /// The login screen, with empty fields, a bet of "0" and the local dealer address.
    fn default() -> (app: PlayerApp)
        ensures
            app.username@.len() == 0,
            app.password@.len() == 0,
            app.dealer_ip@ == default_dealer_ip(),
            app.mode == Mode::Login,
            app.stats_search_query@.len() == 0,
            app.user_stats@.len() == 0,
            app.current_bet@ == seq!['0'],
            app.current_swap@.len() == 0,
            app.state == AppState::Auth,
    {
        proof {
            reveal_strlit("127.0.0.1");
            reveal_strlit("0");
            reveal_strlit("");
        }
        PlayerApp {
            username: String::new(),
            password: String::new(),
            dealer_ip: String::from_str("127.0.0.1"),
            mode: Mode::Login,
            stats_search_query: String::new(),
            user_stats: String::new(),
            current_bet: String::from_str("0"),
            current_swap: String::from_str(""),
            state: AppState::Auth,
            output: shared_text(String::new()),
            game_state: shared_text(String::new()),
        }
    }
}

} // verus!
