//! Changes to a player's stored statistics when a hand ends for them.
use vstd::prelude::*;
use crate::player::Player;
use crate::table::same_text;

verus! {

/// Increments to apply to a player's stored statistics.
#[derive(Debug, Clone, Copy, PartialEq, Eq, Structural)]
pub struct StatsChange {
    pub games_played: i64,
    pub wins: i64,
    pub losses: i64,
    pub money_win: i64,
    /// Money put in is recorded as a negative amount.
    pub money_lost: i64,
}

/// The change for a player who lost the hand: one more game and one more loss,
/// and what they put in recorded as lost.
pub fn loss_change(p: &Player) -> (r: StatsChange)
    ensures
        r == (StatsChange {
            games_played: 1,
            wins: 0,
            losses: 1,
            money_win: 0,
            money_lost: (-(p.money_lost as int)) as i64,
        }),
{
    StatsChange { games_played: 1, wins: 0, losses: 1, money_win: 0, money_lost: -(p.money_lost as i64) }
}

/// The change at the end of a hand for a player still in it: the winner gets one
/// more game, one more win and the pot; any other player gets a loss. Either way
/// what they put in is recorded as lost.
pub fn result_change(p: &Player, winner_id: &str, pot: i32) -> (r: StatsChange)
    ensures
        p.id@ == winner_id@ ==> r == (StatsChange {
            games_played: 1,
            wins: 1,
            losses: 0,
            money_win: pot as i64,
            money_lost: (-(p.money_lost as int)) as i64,
        }),
        p.id@ != winner_id@ ==> r == (StatsChange {
            games_played: 1,
            wins: 0,
            losses: 1,
            money_win: 0,
            money_lost: (-(p.money_lost as int)) as i64,
        }),
{
    if same_text(p.id.as_str(), winner_id) {
        StatsChange {
            games_played: 1,
            wins: 1,
            losses: 0,
            money_win: pot as i64,
            money_lost: -(p.money_lost as i64),
        }
    } else {
        loss_change(p)
    }
}

} // verus!
