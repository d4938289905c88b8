//! The waiting table: players who declare themselves ready are seated until the
//! table is full, and the game starts when it fills.
use vstd::prelude::*;
use crate::table::same_text;

verus! {

/// What became of a request to join the table.
#[derive(Debug, Clone, Copy, PartialEq, Eq, Structural)]
pub enum JoinOutcome {
    /// Seated; the table still waits for players.
    Joined,
    /// Seated, and the table is now full: the game starts.
    JoinedTableFull,
    /// The player was already seated.
    AlreadySeated,
    /// The table is full; the player is not seated.
    TableFull,
}

/// The names in `seated`.
pub open spec fn names(seated: Seq<String>) -> Seq<Seq<char>> {
    seated.map_values(|s: String| s@)
}

/// Seats `name` at a table of `max_players` seats, in order of arrival.
pub fn join_table(seated: &mut Vec<String>, name: String, max_players: usize) -> (r: JoinOutcome)
    ensures
        old(seated)@.len() >= max_players ==> r == JoinOutcome::TableFull && final(seated)@ == old(seated)@,
        old(seated)@.len() < max_players && names(old(seated)@).contains(name@) ==> r
            == JoinOutcome::AlreadySeated && final(seated)@ == old(seated)@,
        old(seated)@.len() < max_players && !names(old(seated)@).contains(name@) ==> {
            &&& names(final(seated)@) == names(old(seated)@).push(name@)
            &&& r == if old(seated)@.len() + 1 == max_players {
                JoinOutcome::JoinedTableFull
            } else {
                JoinOutcome::Joined
            }
        },
{
    if seated.len() >= max_players {
        return JoinOutcome::TableFull;
    }
    let mut i: usize = 0;
    while i < seated.len()
        invariant
            i <= seated@.len(),
            seated@.len() < max_players,
            seated@ == old(seated)@,
            forall|k: int| 0 <= k < i ==> (#[trigger] seated@[k])@ != name@,
        decreases seated@.len() - i,
    {
        if same_text(seated[i].as_str(), name.as_str()) {
            assert(names(seated@)[i as int] == name@);
            return JoinOutcome::AlreadySeated;
        }
        i += 1;
    }
    assert(!names(seated@).contains(name@)) by {
        if names(seated@).contains(name@) {
            let k = choose|k: int| 0 <= k < names(seated@).len() && names(seated@)[k] == name@;
            assert(seated@[k]@ == name@);
        }
    }
    seated.push(name);
    assert(names(seated@) =~= names(old(seated)@).push(seated@[seated@.len() - 1]@));
    if seated.len() == max_players {
        JoinOutcome::JoinedTableFull
    } else {
        JoinOutcome::Joined
    }
}

} // verus!
