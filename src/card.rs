//! Cards: ranks 2 to 14 (11 to 14 being jack, queen, king and ace) and four suits.
use vstd::prelude::*;

verus! {

/// The suit of a playing card.
#[derive(Debug, Clone, Copy, PartialEq, Eq, Structural)]
pub enum Suit {
    Hearts,
    Diamonds,
    Clubs,
    Spades,
}

/// A playing card; `rank` runs from 2 to 14, where 11..14 are J, Q, K and A.
#[derive(Debug, Clone, Copy, PartialEq, Eq, Structural)]
pub struct Card {
    pub rank: u8,
    pub suit: Suit,
}

/// The lowest and highest rank a card may carry.
pub const MIN_RANK: u8 = 2;
pub const MAX_RANK: u8 = 14;

/// A card whose rank lies in 2..=14.
pub open spec fn valid_card(c: Card) -> bool {
    MIN_RANK <= c.rank && c.rank <= MAX_RANK
}

/// Every card of `s` is valid.
pub open spec fn all_valid(s: Seq<Card>) -> bool {
    forall|i: int| 0 <= i < s.len() ==> valid_card(#[trigger] s[i])
}

/// The order used to break ties between suits: hearts lowest, spades highest.
pub open spec fn suit_order(s: Suit) -> u8 {
    match s {
        Suit::Hearts => 0,
        Suit::Diamonds => 1,
        Suit::Clubs => 2,
        Suit::Spades => 3,
    }
}

/// The tie-break position of a suit.
pub fn suit_index(s: Suit) -> (r: u8)
    ensures
        r == suit_order(s),
{
    match s {
        Suit::Hearts => 0,
        Suit::Diamonds => 1,
        Suit::Clubs => 2,
        Suit::Spades => 3,
    }
}

/// The name of a suit as it appears in card text.
pub open spec fn suit_name(s: Suit) -> Seq<char> {
    match s {
        Suit::Hearts => seq!['H', 'e', 'a', 'r', 't', 's'],
        Suit::Diamonds => seq!['D', 'i', 'a', 'm', 'o', 'n', 'd', 's'],
        Suit::Clubs => seq!['C', 'l', 'u', 'b', 's'],
        Suit::Spades => seq!['S', 'p', 'a', 'd', 'e', 's'],
    }
}

/// The text of a rank: digits for 2..10, then J, Q, K, A.
pub open spec fn rank_name(v: u8) -> Seq<char> {
    if v == 10 {
        seq!['1', '0']
    } else if 2 <= v <= 9 {
        seq![('0' as u8 + v) as char]
    } else if v == 11 {
        seq!['J']
    } else if v == 12 {
        seq!['Q']
    } else if v == 13 {
        seq!['K']
    } else {
        seq!['A']
    }
}

/// The rank that a rank text names, if it names one.
pub open spec fn rank_of_name(s: Seq<char>) -> Option<u8> {
    if s.len() == 1 && '2' <= s[0] <= '9' {
        Some((s[0] as u8 - '0' as u8) as u8)
    } else if s == seq!['1', '0'] {
        Some(10)
    } else if s == seq!['J'] {
        Some(11)
    } else if s == seq!['Q'] {
        Some(12)
    } else if s == seq!['K'] {
        Some(13)
    } else if s == seq!['A'] {
        Some(14)
    } else {
        None
    }
}

/// The text of a suit.
pub fn suit_text(s: Suit) -> (r: &'static str)
    ensures
        r@ == suit_name(s),
{
    proof {
        reveal_strlit("Hearts");
        reveal_strlit("Diamonds");
        reveal_strlit("Clubs");
        reveal_strlit("Spades");
    }
    match s {
        Suit::Hearts => "Hearts",
        Suit::Diamonds => "Diamonds",
        Suit::Clubs => "Clubs",
        Suit::Spades => "Spades",
    }
}

/// Converts a numeric rank (2..=14) to its text.
pub fn value_to_rank_str(value: u8) -> (r: &'static str)
    requires
        MIN_RANK <= value <= MAX_RANK,
    ensures
        r@ == rank_name(value),
{
    proof {
        reveal_strlit("2");
        reveal_strlit("3");
        reveal_strlit("4");
        reveal_strlit("5");
        reveal_strlit("6");
        reveal_strlit("7");
        reveal_strlit("8");
        reveal_strlit("9");
        reveal_strlit("10");
        reveal_strlit("J");
        reveal_strlit("Q");
        reveal_strlit("K");
        reveal_strlit("A");
    }
    match value {
        2 => "2",
        3 => "3",
        4 => "4",
        5 => "5",
        6 => "6",
        7 => "7",
        8 => "8",
        9 => "9",
        10 => "10",
        11 => "J",
        12 => "Q",
        13 => "K",
        _ => "A",
    }
}

/// Converts a rank text ("2".."10", "J", "Q", "K", "A") to its numeric rank.
pub fn rank_str_to_value(rank_str: &str) -> (r: Option<u8>)
    ensures
        r == rank_of_name(rank_str@),
{
    let n = rank_str.unicode_len();
    if n == 1 {
        let c = rank_str.get_char(0);
        assert(rank_str@ =~= seq![c]);
        if '2' <= c && c <= '9' {
            Some(c as u8 - '0' as u8)
        } else if c == 'J' {
            Some(11)
        } else if c == 'Q' {
            Some(12)
        } else if c == 'K' {
            Some(13)
        } else if c == 'A' {
            Some(14)
        } else {
            None
        }
    } else if n == 2 && rank_str.get_char(0) == '1' && rank_str.get_char(1) == '0' {
        assert(rank_str@ =~= seq!['1', '0']);
        Some(10)
    } else {
        None
    }
}

impl Card {
    /// The card's text, "<rank> of <suit>", as it is sent to clients.
    pub fn text(&self) -> (r: String)
        requires
            valid_card(*self),
        ensures
            r@ == rank_name(self.rank) + seq![' ', 'o', 'f', ' '] + suit_name(self.suit),
    {
        proof {
            reveal_strlit(" of ");
        }
        let s = String::from_str(value_to_rank_str(self.rank));
        let s = s.concat(" of ");
        s.concat(suit_text(self.suit))
    }
}

} // verus!
