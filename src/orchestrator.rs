//! The order of play of each variant, as decisions from the stage just finished
//! to the next one. The caller deals, runs betting rounds and talks to players;
//! these functions say what comes next.
use vstd::prelude::*;
use crate::player::Player;

verus! {

/// The game being played.
#[derive(Debug, Clone, Copy, PartialEq, Eq, Structural)]
pub enum Variant {
    FiveCardDraw,
    SevenCardStud,
    TexasHoldem,
}

/// A stage of a hand.
#[derive(Debug, Clone, Copy, PartialEq, Eq, Structural)]
pub enum Stage {
    /// Antes or blinds are collected.
    ForcedStakes,
    /// Street `k` is dealt (0 is the first deal).
    Deal(usize),
    /// Betting round `k` is played.
    Betting(usize),
    /// Each remaining player may swap cards (five card draw, after the first round).
    Swap,
    /// The big blind may check or raise once everyone has matched it (Texas
    /// hold'em, after the first pre-flop pass).
    BigBlindOption,
    /// The remaining hands are compared.
    Showdown,
    /// One player is left: they win without further dealing or betting.
    LastPlayerWins,
}

/// How many betting rounds a variant plays.
pub open spec fn rounds_of(v: Variant) -> nat {
    match v {
        Variant::FiveCardDraw => 2,
        Variant::SevenCardStud => 5,
        Variant::TexasHoldem => 4,
    }
}

/// How many betting rounds a variant plays.
pub fn betting_rounds(v: Variant) -> (r: usize)
    ensures
        r == rounds_of(v),
{
    match v {
        Variant::FiveCardDraw => 2,
        Variant::SevenCardStud => 5,
        Variant::TexasHoldem => 4,
    }
}

/// The variant picked at start-up: "1" five card draw, "2" seven card stud, "3"
/// Texas hold'em; anything else plays Texas hold'em.
pub fn variant_from_choice(choice: &str) -> (v: Variant)
    ensures
        choice@ == seq!['1'] ==> v == Variant::FiveCardDraw,
        choice@ == seq!['2'] ==> v == Variant::SevenCardStud,
        choice@ != seq!['1'] && choice@ != seq!['2'] ==> v == Variant::TexasHoldem,
{
    if choice.unicode_len() == 1 {
        let c = choice.get_char(0);
        assert(choice@ =~= seq![c]);
        if c == '1' {
            return Variant::FiveCardDraw;
        } else if c == '2' {
            return Variant::SevenCardStud;
        }
    }
    Variant::TexasHoldem
}

/// The deal of street `k` in variant `v`.
#[derive(Debug, Clone, Copy, PartialEq, Eq, Structural)]
pub enum Street {
    /// Five cards each (five card draw).
    DrawHands,
    /// Two down and one up each (seven card stud).
    ThirdStreet,
    FourthStreet,
    FifthStreet,
    SixthStreet,
    /// The last card, face down (seven card stud).
    SeventhStreet,
    /// Two hole cards each (Texas hold'em).
    HoleCards,
    Flop,
    Turn,
    River,
}

/// The street dealt at stage `Deal(k)` of variant `v`.
pub open spec fn street_of(v: Variant, k: nat) -> Street {
    match v {
        Variant::FiveCardDraw => Street::DrawHands,
        Variant::SevenCardStud => if k == 0 {
            Street::ThirdStreet
        } else if k == 1 {
            Street::FourthStreet
        } else if k == 2 {
            Street::FifthStreet
        } else if k == 3 {
            Street::SixthStreet
        } else {
            Street::SeventhStreet
        },
        Variant::TexasHoldem => if k == 0 {
            Street::HoleCards
        } else if k == 1 {
            Street::Flop
        } else if k == 2 {
            Street::Turn
        } else {
            Street::River
        },
    }
}

/// The street dealt at stage `Deal(k)` of variant `v`.
pub fn street_for(v: Variant, k: usize) -> (r: Street)
    ensures
        r == street_of(v, k as nat),
{
    match v {
        Variant::FiveCardDraw => Street::DrawHands,
        Variant::SevenCardStud => if k == 0 {
            Street::ThirdStreet
        } else if k == 1 {
            Street::FourthStreet
        } else if k == 2 {
            Street::FifthStreet
        } else if k == 3 {
            Street::SixthStreet
        } else {
            Street::SeventhStreet
        },
        Variant::TexasHoldem => if k == 0 {
            Street::HoleCards
        } else if k == 1 {
            Street::Flop
        } else if k == 2 {
            Street::Turn
        } else {
            Street::River
        },
    }
}

/// What follows `stage` in variant `v` with `active` players still in the hand.
pub open spec fn following(v: Variant, stage: Stage, active: nat) -> Stage {
    match stage {
        Stage::ForcedStakes => Stage::Deal(0),
        Stage::Deal(k) => Stage::Betting(k),
        Stage::Swap => Stage::Betting(1),
        Stage::BigBlindOption => if active <= 1 {
            Stage::LastPlayerWins
        } else {
            Stage::Deal(1)
        },
        Stage::Betting(k) => if active <= 1 {
            Stage::LastPlayerWins
        } else if v == Variant::TexasHoldem && k == 0 {
            Stage::BigBlindOption
        } else if k + 1 >= rounds_of(v) {
            Stage::Showdown
        } else if v == Variant::FiveCardDraw {
            Stage::Swap
        } else {
            Stage::Deal((k + 1) as usize)
        },
        Stage::Showdown => Stage::Showdown,
        Stage::LastPlayerWins => Stage::LastPlayerWins,
    }
}

/// What follows `stage` in variant `v` with `active` players still in the hand.
/// Once a betting round leaves a single player, that player wins at once.
pub fn next_stage(v: Variant, stage: Stage, active: usize) -> (r: Stage)
    ensures
        r == following(v, stage, active as nat),
{
    match stage {
        Stage::ForcedStakes => Stage::Deal(0),
        Stage::Deal(k) => Stage::Betting(k),
        Stage::Swap => Stage::Betting(1),
        Stage::BigBlindOption => {
            if active <= 1 {
                Stage::LastPlayerWins
            } else {
                Stage::Deal(1)
            }
        },
        Stage::Betting(k) => {
            if active <= 1 {
                Stage::LastPlayerWins
            } else if v == Variant::TexasHoldem && k == 0 {
                Stage::BigBlindOption
            } else if k >= betting_rounds(v) - 1 {
                Stage::Showdown
            } else if v == Variant::FiveCardDraw {
                Stage::Swap
            } else {
                Stage::Deal(k + 1)
            }
        },
        Stage::Showdown => Stage::Showdown,
        Stage::LastPlayerWins => Stage::LastPlayerWins,
    }
}

/// The stage reached from `s` after `m` steps with `active` players.
pub open spec fn stage_after(v: Variant, s: Stage, active: nat, m: nat) -> Stage
    decreases m,
{
    if m == 0 {
        s
    } else {
        following(v, stage_after(v, s, active, (m - 1) as nat), active)
    }
}

/// When a betting round leaves a single player, the hand goes straight to that
/// player's win and stays there: no street is dealt, no round is bet and no option
/// is offered afterwards.
pub proof fn lemma_last_player_ends_hand(v: Variant, k: usize, m: nat)
    requires
        m >= 1,
    ensures
        stage_after(v, Stage::Betting(k), 1, m) == Stage::LastPlayerWins,
    decreases m,
{
    if m > 1 {
        lemma_last_player_ends_hand(v, k, (m - 1) as nat);
    } else {
        assert(stage_after(v, Stage::Betting(k), 1, 0) == Stage::Betting(k));
    }
}

/// The winner when a betting round leaves a single player: that player's name;
/// `None` while more than one player (or nobody) is in the hand.
pub fn last_player_standing(active: &Vec<Player>) -> (r: Option<String>)
    ensures
        active@.len() == 1 ==> (r matches Some(w) && w@ == active@[0].id@),
        active@.len() != 1 ==> r is None,
{
    if active.len() == 1 {
        Some(active[0].id.clone())
    } else {
        None
    }
}

} // verus!
