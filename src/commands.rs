//! Decoding the commands that clients send: a JSON object whose `command` member
//! names the action, with the action's fields beside it. JSON itself is read by
//! serde_json; what each command means is decided here.
use vstd::prelude::*;
use crate::table::same_text;

verus! {

/// The string member `key` of the JSON object written in `text`, if the text is
/// such an object and the member is a string.
pub uninterp spec fn json_str_member(text: Seq<char>, key: Seq<char>) -> Option<Seq<char>>;

/// The integer member `key` of the JSON object written in `text`, if the text is
/// such an object and the member is an integer that fits in 64 bits.
pub uninterp spec fn json_int_member(text: Seq<char>, key: Seq<char>) -> Option<int>;

/// Relies on serde_json's `from_str::<Value>` followed by `Value::get` and
/// `Value::as_str`: the string member `key` of the JSON object in `text`.
#[verifier::external_body]
fn str_member(text: &str, key: &str) -> (r: Option<String>)
    ensures
        r is None <==> json_str_member(text@, key@) is None,
        r matches Some(s) ==> json_str_member(text@, key@) == Some(s@),
{
    match serde_json::from_str::<serde_json::Value>(text) {
        Ok(v) => v.get(key).and_then(serde_json::Value::as_str).map(String::from),
        Err(_) => None,
    }
}

/// Relies on serde_json's `from_str::<Value>` followed by `Value::get` and
/// `Value::as_i64`: the integer member `key` of the JSON object in `text`.
#[verifier::external_body]
fn int_member(text: &str, key: &str) -> (r: Option<i64>)
    ensures
        r is None <==> json_int_member(text@, key@) is None,
        r matches Some(x) ==> json_int_member(text@, key@) == Some(x as int),
{
    match serde_json::from_str::<serde_json::Value>(text) {
        Ok(v) => v.get(key).and_then(serde_json::Value::as_i64),
        Err(_) => None,
    }
}

/// A command from a client.
#[derive(Debug)]
#[allow(inconsistent_fields)]
pub enum Command {
    /// Create an account (the message is handed on whole).
    Register,
    /// Log in (the message is handed on whole).
    Login,
    /// Join the waiting table.
    Ready { username: Option<String> },
    /// A bet: an amount, `-1` to fold, `0` to check.
    Bet { username: String, amount: i32 },
    /// The card positions to swap, comma-separated.
    Swap { username: String, indices: String },
    /// The list of known player names.
    Stats,
    /// One player's stored statistics.
    UserStats { username: Option<String> },
    /// The current game snapshot.
    Spectate,
    /// A command name this server does not know.
    Unknown,
}

/// The text of an optional member, empty when it is missing.
pub open spec fn or_empty(m: Option<Seq<char>>) -> Seq<char> {
    match m {
        Some(s) => s,
        None => seq![],
    }
}

/// The bet amount of a message: the `amount` member cut to its low 32 bits (as a
/// Rust `as i32` cast does), or 0 when there is none.
pub open spec fn bet_amount_of(text: Seq<char>) -> i32 {
    match json_int_member(text, "amount"@) {
        Some(x) => x as i32,
        None => 0,
    }
}

/// `r` is the command that `text` carries, given that its `command` member is `name`.
pub open spec fn command_for(text: Seq<char>, name: Seq<char>, r: Command) -> bool {
    let user = json_str_member(text, "username"@);
    if name == "register"@ {
        r is Register
    } else if name == "login"@ {
        r is Login
    } else if name == "ready"@ {
        r matches Command::Ready { username } && match (username, user) {
            (Some(a), Some(b)) => a@ == b,
            (None, None) => true,
            _ => false,
        }
    } else if name == "bet"@ {
        r matches Command::Bet { username, amount } && username@ == or_empty(user) && amount
            == bet_amount_of(text)
    } else if name == "swap"@ {
        r matches Command::Swap { username, indices } && username@ == or_empty(user) && indices@
            == or_empty(json_str_member(text, "indices"@))
    } else if name == "stats"@ {
        r is Stats
    } else if name == "get_user_stats"@ {
        r matches Command::UserStats { username } && match (username, user) {
            (Some(a), Some(b)) => a@ == b,
            (None, None) => true,
            _ => false,
        }
    } else if name == "spectate"@ {
        r is Spectate
    } else {
        r is Unknown
    }
}

fn text_or_empty(m: Option<String>) -> (r: String)
    ensures
        r@ == match m {
            Some(s) => s@,
            None => Seq::<char>::empty(),
        },
{
    match m {
        Some(s) => s,
        None => String::new(),
    }
}

/// Decodes a client message. A message that is not a JSON object with a string
/// `command` member is dropped (`None`).
pub fn parse_command(msg: &str) -> (r: Option<Command>)
    ensures
        json_str_member(msg@, "command"@) is None ==> r is None,
        json_str_member(msg@, "command"@) matches Some(name) ==> r matches Some(c) && command_for(
            msg@,
            name,
            c,
        ),
{
    let name = match str_member(msg, "command") {
        Some(n) => n,
        None => return None,
    };
    let n = name.as_str();
    let c = if same_text(n, "register") {
        Command::Register
    } else if same_text(n, "login") {
        Command::Login
    } else if same_text(n, "ready") {
        Command::Ready { username: str_member(msg, "username") }
    } else if same_text(n, "bet") {
        let amount: i32 = match int_member(msg, "amount") {
            Some(x) => #[verifier::truncate] (x as i32),
            None => 0,
        };
        Command::Bet { username: text_or_empty(str_member(msg, "username")), amount }
    } else if same_text(n, "swap") {
        Command::Swap {
            username: text_or_empty(str_member(msg, "username")),
            indices: text_or_empty(str_member(msg, "indices")),
        }
    } else if same_text(n, "stats") {
        Command::Stats
    } else if same_text(n, "get_user_stats") {
        Command::UserStats { username: str_member(msg, "username") }
    } else if same_text(n, "spectate") {
        Command::Spectate
    } else {
        Command::Unknown
    };
    Some(c)
}

} // verus!
