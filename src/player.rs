//! A seat at the table.
use vstd::prelude::*;
use crate::card::Card;

verus! {

/// A player in a hand.
#[derive(Debug)]
pub struct Player {
    /// The player's unique name.
    pub id: String,
    /// The player's cards, in the order dealt.
    pub hand: Vec<Card>,
    /// Whether the player has folded.
    pub folded: bool,
    /// Money won this hand.
    pub money_won: i32,
    /// Money put in this hand (antes, blinds and bets).
    pub money_lost: i32,
    /// What the player has put in during the current betting round.
    pub bet_amount: i32,
}

impl Player {
    /// A new player with an empty hand and nothing staked.
    pub fn new(id: String) -> (p: Player)
        ensures
            p.id@ == id@,
            p.hand@.len() == 0,
            !p.folded,
            p.money_won == 0,
            p.money_lost == 0,
            p.bet_amount == 0,
    {
        Player { id, hand: Vec::new(), folded: false, money_won: 0, money_lost: 0, bet_amount: 0 }
    }
}

/// Seats a player for each name, in the given order.
pub fn seat_players(player_ids: Vec<String>) -> (ps: Vec<Player>)
    ensures
        ps@.len() == player_ids@.len(),
        forall|i: int| 0 <= i < ps@.len() ==> (#[trigger] ps@[i]).id@ == player_ids@[i]@
            && ps@[i].hand@.len() == 0 && !ps@[i].folded && ps@[i].money_won == 0
            && ps@[i].money_lost == 0 && ps@[i].bet_amount == 0,
{
    let mut ids = player_ids;
    let ghost orig = ids@;
    let mut rev: Vec<Player> = Vec::new();
    while ids.len() > 0
        invariant
            ids@.len() + rev@.len() == orig.len(),
            ids@ == orig.subrange(0, ids@.len() as int),
            forall|i: int| 0 <= i < rev@.len() ==> (#[trigger] rev@[i]).id@ == orig[orig.len() - 1 - i]@
                && rev@[i].hand@.len() == 0 && !rev@[i].folded && rev@[i].money_won == 0
                && rev@[i].money_lost == 0 && rev@[i].bet_amount == 0,
        decreases ids@.len(),
    {
        let id = ids.pop().unwrap();
        rev.push(Player::new(id));
    }
    let mut ps: Vec<Player> = Vec::new();
    while rev.len() > 0
        invariant
            ps@.len() + rev@.len() == orig.len(),
            forall|i: int| 0 <= i < rev@.len() ==> (#[trigger] rev@[i]).id@ == orig[orig.len() - 1 - i]@
                && rev@[i].hand@.len() == 0 && !rev@[i].folded && rev@[i].money_won == 0
                && rev@[i].money_lost == 0 && rev@[i].bet_amount == 0,
            forall|i: int| 0 <= i < ps@.len() ==> (#[trigger] ps@[i]).id@ == orig[i]@
                && ps@[i].hand@.len() == 0 && !ps@[i].folded && ps@[i].money_won == 0
                && ps@[i].money_lost == 0 && ps@[i].bet_amount == 0,
        decreases rev@.len(),
    {
        let p = rev.pop().unwrap();
        ps.push(p);
    }
    ps
}

} // verus!
