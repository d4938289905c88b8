//! The betting round: one state machine shared by every variant. The player to
//! act answers with a contribution; `FOLD` leaves the hand, anything that does
//! not reach the current bet is rejected and asked again, and the round closes
//! when only one player is left or play comes back to the player who set the
//! current bet (or, while nobody has bet, the first player who checked) without
//! a new raise.
use vstd::prelude::*;
use crate::player::Player;

verus! {

/// The contribution that folds.
pub const FOLD: i32 = -1;

/// The current bet of a round in which nobody has bet yet, distinct from 0; it
/// stays in place while players check (contribute 0), and only a positive bet
/// replaces it.
pub const NO_BET: i32 = -2;

/// How contributions are judged.
#[derive(Debug, Clone, Copy, PartialEq, Eq, Structural)]
pub enum RoundMode {
    /// A contribution must bring the player's bet to at least the current bet.
    Open,
    /// A contribution must bring the player's bet to exactly the current bet
    /// (matching the big blind before the flop).
    MatchOnly,
    /// The player to act holds the option: matching closes the round, a raise
    /// reopens it.
    CheckOption,
}

/// What became of a contribution.
#[derive(Debug, Clone, Copy, PartialEq, Eq, Structural)]
pub enum BetOutcome {
    /// The player folded and left the active list.
    Folded,
    /// The player matched the current bet.
    Matched,
    /// The player raised the current bet.
    Raised,
    /// The contribution was not acceptable; the same player is asked again.
    Rejected,
}

/// The state of one betting round.
#[derive(Debug, Clone, Copy, PartialEq, Eq, Structural)]
pub struct BettingRound {
    /// Index, in the active list, of the player to act.
    pub actor: usize,
    /// The highest bet of the round, or `NO_BET`.
    pub current_bet: i32,
    /// Index of the player who set the current bet, or of the first to check while
    /// nobody has bet; the round closes when play comes back to them.
    pub leader: Option<usize>,
    pub mode: RoundMode,
}

pub open spec fn fits_i32(x: int) -> bool {
    i32::MIN <= x <= i32::MAX
}

/// The seat after `i` among `n`, wrapping to the first.
pub open spec fn next_seat(i: int, n: int) -> int {
    if i + 1 >= n { 0 } else { i + 1 }
}

/// `p` after putting in `amount`.
pub open spec fn contributed(p: Player, amount: int) -> Player {
    Player {
        id: p.id,
        hand: p.hand,
        folded: p.folded,
        money_won: p.money_won,
        money_lost: (p.money_lost + amount) as i32,
        bet_amount: (p.bet_amount + amount) as i32,
    }
}

/// The names of the players.
pub open spec fn ids(s: Seq<Player>) -> Seq<Seq<char>> {
    s.map_values(|p: Player| p.id@)
}

/// A round with the active players, the folded players and the pot.
pub type RoundState = (BettingRound, Seq<Player>, Seq<Player>, int);

impl BettingRound {
    /// A round just opened: nobody has bet, `start` acts first (the first seat if
    /// `start` is past the end).
    pub fn open(start: usize, n: usize) -> (r: BettingRound)
        requires
            n >= 1,
        ensures
            r == (BettingRound {
                actor: if start < n { start } else { 0 },
                current_bet: NO_BET,
                leader: None,
                mode: RoundMode::Open,
            }),
            r.wf(n as nat),
    {
        BettingRound {
            actor: if start < n { start } else { 0 },
            current_bet: NO_BET,
            leader: None,
            mode: RoundMode::Open,
        }
    }

    /// The pass before the flop: everyone from `start` on must match `bet`, the big
    /// blind posted by the player at `big_blind`, and the pass ends when play
    /// reaches the big blind.
    pub fn matching(start: usize, big_blind: usize, bet: i32, n: usize) -> (r: BettingRound)
        requires
            n >= 1,
            big_blind < n,
        ensures
            r == (BettingRound {
                actor: if start < n { start } else { 0 },
                current_bet: bet,
                leader: Some(big_blind),
                mode: RoundMode::MatchOnly,
            }),
            r.wf(n as nat),
    {
        BettingRound {
            actor: if start < n { start } else { 0 },
            current_bet: bet,
            leader: Some(big_blind),
            mode: RoundMode::MatchOnly,
        }
    }

    /// The big blind's option once everyone has matched: a check closes the
    /// round, a raise reopens the betting.
    pub fn big_blind_option(big_blind: usize, bet: i32, n: usize) -> (r: BettingRound)
        requires
            big_blind < n,
        ensures
            r == (BettingRound {
                actor: big_blind,
                current_bet: bet,
                leader: None,
                mode: RoundMode::CheckOption,
            }),
            r.wf(n as nat),
    {
        BettingRound { actor: big_blind, current_bet: bet, leader: None, mode: RoundMode::CheckOption }
    }

    /// A freshly opened round in which `start` acts first.
    pub open spec fn opened(start: usize) -> BettingRound {
        BettingRound { actor: start, current_bet: NO_BET, leader: None, mode: RoundMode::Open }
    }

    /// The round's invariant over `n` active players.
    pub open spec fn wf(self, n: nat) -> bool {
        &&& n >= 1
        &&& self.actor < n
        &&& (self.leader matches Some(l) ==> l < n)
        &&& (self.mode == RoundMode::CheckOption ==> self.leader is None)
    }

    /// The round is over: one player is left, or play is back with the leader.
    pub open spec fn over(self, n: nat) -> bool {
        n <= 1 || self.leader == Some(self.actor)
    }

    /// The contribution `amount` by the player to act is acceptable.
    pub open spec fn accepts(self, active: Seq<Player>, pot: int, amount: int) -> bool {
        let p = active[self.actor as int];
        let total = p.bet_amount + amount;
        &&& amount >= 0
        &&& fits_i32(total)
        &&& fits_i32(p.money_lost + amount)
        &&& fits_i32(pot + amount)
        &&& total >= self.current_bet
        &&& (self.mode == RoundMode::MatchOnly ==> total == self.current_bet)
    }

    /// What a contribution of `amount` does.
    pub open spec fn outcome(self, active: Seq<Player>, pot: int, amount: int) -> BetOutcome {
        if amount == FOLD {
            BetOutcome::Folded
        } else if !self.accepts(active, pot, amount) {
            BetOutcome::Rejected
        } else if active[self.actor as int].bet_amount + amount > self.current_bet
            && active[self.actor as int].bet_amount + amount > 0 {
            BetOutcome::Raised
        } else {
            BetOutcome::Matched
        }
    }

    /// The round after a contribution of `amount`.
    pub open spec fn next_round(self, active: Seq<Player>, pot: int, amount: int) -> BettingRound {
        let n = active.len() as int;
        let i = self.actor as int;
        match self.outcome(active, pot, amount) {
            BetOutcome::Folded => {
                let a = if i + 1 >= n { 0 } else { i };
                BettingRound {
                    actor: a as usize,
                    current_bet: self.current_bet,
                    leader: if self.mode == RoundMode::CheckOption {
                        Some(a as usize)
                    } else {
                        match self.leader {
                            Some(l) => Some(if l > i { (l - 1) as usize } else { l }),
                            None => None,
                        }
                    },
                    mode: if self.mode == RoundMode::CheckOption {
                        RoundMode::Open
                    } else {
                        self.mode
                    },
                }
            },
            BetOutcome::Rejected => self,
            BetOutcome::Raised => BettingRound {
                actor: next_seat(i, n) as usize,
                current_bet: (active[i].bet_amount + amount) as i32,
                leader: Some(i as usize),
                mode: RoundMode::Open,
            },
            BetOutcome::Matched => if self.mode == RoundMode::CheckOption {
                BettingRound {
                    actor: i as usize,
                    current_bet: self.current_bet,
                    leader: Some(i as usize),
                    mode: RoundMode::Open,
                }
            } else {
                BettingRound {
                    actor: next_seat(i, n) as usize,
                    leader: if self.leader is None { Some(i as usize) } else { self.leader },
                    ..self
                }
            },
        }
    }

    /// The active players after a contribution of `amount`.
    pub open spec fn next_active(self, active: Seq<Player>, pot: int, amount: int) -> Seq<Player> {
        let i = self.actor as int;
        match self.outcome(active, pot, amount) {
            BetOutcome::Folded => active.remove(i),
            BetOutcome::Rejected => active,
            _ => active.update(i, contributed(active[i], amount)),
        }
    }

    /// The folded players after a contribution of `amount`.
    pub open spec fn next_folded(self, active: Seq<Player>, folded: Seq<Player>, pot: int, amount: int) -> Seq<Player> {
        match self.outcome(active, pot, amount) {
            BetOutcome::Folded => folded.push(active[self.actor as int]),
            _ => folded,
        }
    }

    /// The pot after a contribution of `amount`.
    pub open spec fn next_pot(self, active: Seq<Player>, pot: int, amount: int) -> int {
        match self.outcome(active, pot, amount) {
            BetOutcome::Matched | BetOutcome::Raised => pot + amount,
            _ => pot,
        }
    }

    /// The player to act, or `None` once the round is over.
    pub fn to_act(&self, n: usize) -> (r: Option<usize>)
        ensures
            r == (if self.over(n as nat) { None } else { Some(self.actor) }),
    {
        if n <= 1 {
            None
        } else {
            match self.leader {
                Some(l) => if l == self.actor { None } else { Some(self.actor) },
                None => Some(self.actor),
            }
        }
    }

    /// Applies the contribution `amount` of the player to act.
    pub fn act(
        &mut self,
        active: &mut Vec<Player>,
        folded: &mut Vec<Player>,
        pot: &mut i32,
        amount: i32,
    ) -> (out: BetOutcome)
        requires
            old(self).wf(old(active)@.len()),
            !old(self).over(old(active)@.len()),
        ensures
            out == old(self).outcome(old(active)@, *old(pot) as int, amount as int),
            *final(self) == old(self).next_round(old(active)@, *old(pot) as int, amount as int),
            final(active)@ == old(self).next_active(old(active)@, *old(pot) as int, amount as int),
            final(folded)@ == old(self).next_folded(
                old(active)@,
                old(folded)@,
                *old(pot) as int,
                amount as int,
            ),
            *final(pot) as int == old(self).next_pot(old(active)@, *old(pot) as int, amount as int),
            final(self).wf(final(active)@.len()),
    {
        let i = self.actor;
        let n = active.len();
        if amount == FOLD {
            let p = active.remove(i);
            folded.push(p);
            let a: usize = if i + 1 >= n { 0 } else { i };
            if self.mode == RoundMode::CheckOption {
                self.leader = Some(a);
                self.mode = RoundMode::Open;
            } else {
                self.leader = match self.leader {
                    Some(l) => Some(if l > i { l - 1 } else { l }),
                    None => None,
                };
            }
            self.actor = a;
            return BetOutcome::Folded;
        }
        let bet = active[i].bet_amount;
        let lost = active[i].money_lost;
        let total: i64 = bet as i64 + amount as i64;
        if amount < 0 || total > i32::MAX as i64 || lost as i64 + amount as i64 > i32::MAX as i64
            || *pot as i64 + amount as i64 > i32::MAX as i64 || total < self.current_bet as i64 || (
        self.mode == RoundMode::MatchOnly && total != self.current_bet as i64) {
            return BetOutcome::Rejected;
        }
        let ghost before = active@;
        active[i].bet_amount = total as i32;
        active[i].money_lost = lost + amount;
        *pot = *pot + amount;
        assert(active@ =~= before.update(i as int, contributed(before[i as int], amount as int)));
        let next: usize = if i + 1 >= n { 0 } else { i + 1 };
        if total > self.current_bet as i64 && total > 0 {
            self.current_bet = total as i32;
            self.leader = Some(i);
            self.actor = next;
            self.mode = RoundMode::Open;
            BetOutcome::Raised
        } else {
            if self.mode == RoundMode::CheckOption {
                self.leader = Some(i);
                self.mode = RoundMode::Open;
            } else {
                if self.leader.is_none() {
                    self.leader = Some(i);
                }
                self.actor = next;
            }
            BetOutcome::Matched
        }
    }
}

/// One action applied to a round; an action after the round is over changes nothing.
pub open spec fn step(st: RoundState, amount: i32) -> RoundState {
    let (r, a, f, pot) = st;
    if r.over(a.len()) {
        st
    } else {
        (
            r.next_round(a, pot, amount as int),
            r.next_active(a, pot, amount as int),
            r.next_folded(a, f, pot, amount as int),
            r.next_pot(a, pot, amount as int),
        )
    }
}

/// A sequence of actions applied in turn.
pub open spec fn run(st: RoundState, amounts: Seq<i32>) -> RoundState
    decreases amounts.len(),
{
    if amounts.len() == 0 {
        st
    } else {
        step(run(st, amounts.drop_last()), amounts.last())
    }
}

proof fn lemma_step_keeps_names(st: RoundState, amount: i32)
    requires
        st.0.wf(st.1.len()),
    ensures
        (ids(step(st, amount).1) + ids(step(st, amount).2)).to_multiset() == (ids(st.1) + ids(
            st.2,
        )).to_multiset(),
        step(st, amount).0.wf(step(st, amount).1.len()),
        step(st, amount).2.len() >= st.2.len(),
        step(st, amount).2.subrange(0, st.2.len() as int) == st.2,
        step(st, amount).1.len() + step(st, amount).2.len() == st.1.len() + st.2.len(),
{
    broadcast use vstd::seq_lib::group_to_multiset_ensures;

    let (r, a, f, pot) = st;
    let e = step(st, amount);
    assert(st.2.subrange(0, st.2.len() as int) =~= st.2);
    if !r.over(a.len()) {
        let i = r.actor as int;
        match r.outcome(a, pot, amount as int) {
            BetOutcome::Folded => {
                assert(ids(a.remove(i)) =~= ids(a).remove(i));
                assert(ids(f.push(a[i])) =~= ids(f).push(a[i].id@));
                vstd::seq_lib::lemma_multiset_commutative(ids(a), ids(f));
                vstd::seq_lib::lemma_multiset_commutative(ids(a).remove(i), ids(f).push(a[i].id@));
                vstd::seq_lib::to_multiset_remove(ids(a), i);
                vstd::seq_lib::to_multiset_build(ids(f), a[i].id@);
                assert((ids(e.1) + ids(e.2)).to_multiset() =~= (ids(a) + ids(f)).to_multiset());
                assert(e.2.subrange(0, f.len() as int) =~= f);
            },
            BetOutcome::Rejected => {},
            _ => {
                assert(ids(e.1) =~= ids(a));
            },
        }
    }
}

/// Folding is final. Over any run of actions: the number of players, active and
/// folded together, stays the same; the folded list only grows at its end; and if
/// the names were distinct to begin with they stay distinct, so no folded player
/// is ever active again.
pub proof fn lemma_folds_are_final(st: RoundState, amounts: Seq<i32>)
    requires
        st.0.wf(st.1.len()),
    ensures
        run(st, amounts).0.wf(run(st, amounts).1.len()),
        run(st, amounts).1.len() + run(st, amounts).2.len() == st.1.len() + st.2.len(),
        run(st, amounts).2.len() >= st.2.len(),
        run(st, amounts).2.subrange(0, st.2.len() as int) == st.2,
        (ids(st.1) + ids(st.2)).no_duplicates() ==> (ids(run(st, amounts).1) + ids(
            run(st, amounts).2,
        )).no_duplicates(),
        (ids(st.1) + ids(st.2)).no_duplicates() ==> forall|j: int, k: int|
            0 <= j < run(st, amounts).1.len() && 0 <= k < run(st, amounts).2.len() ==> (#[trigger] run(
                st,
                amounts,
            ).1[j]).id@ != (#[trigger] run(st, amounts).2[k]).id@,
    decreases amounts.len(),
{
    let e = run(st, amounts);
    if amounts.len() > 0 {
        let m = run(st, amounts.drop_last());
        lemma_folds_are_final(st, amounts.drop_last());
        lemma_step_keeps_names(m, amounts.last());
        assert(e.2.subrange(0, st.2.len() as int) =~= e.2.subrange(0, m.2.len() as int).subrange(
            0,
            st.2.len() as int,
        ));
        if (ids(st.1) + ids(st.2)).no_duplicates() {
            (ids(m.1) + ids(m.2)).lemma_multiset_has_no_duplicates();
            (ids(e.1) + ids(e.2)).lemma_multiset_has_no_duplicates_conv();
        }
    } else {
        assert(st.2.subrange(0, st.2.len() as int) =~= st.2);
    }
    if (ids(st.1) + ids(st.2)).no_duplicates() {
        assert forall|j: int, k: int|
            0 <= j < e.1.len() && 0 <= k < e.2.len() implies (#[trigger] e.1[j]).id@ != (
            #[trigger] e.2[k]).id@ by {
            let both = ids(e.1) + ids(e.2);
            assert(both[j] == e.1[j].id@);
            assert(both[e.1.len() + k] == e.2[k].id@);
        }
    }
}

/// A fold takes exactly one player, the one to act, out of the active list (the
/// others keep their order) and puts them at the end of the folded list; the pot
/// and the current bet do not change. When names are distinct, the folded player's
/// name is no longer among the active players.
pub proof fn lemma_fold_removes_one(st: RoundState)
    requires
        st.0.wf(st.1.len()),
        !st.0.over(st.1.len()),
    ensures
        step(st, FOLD).1 == st.1.remove(st.0.actor as int),
        step(st, FOLD).1.len() == st.1.len() - 1,
        step(st, FOLD).2 == st.2.push(st.1[st.0.actor as int]),
        step(st, FOLD).3 == st.3,
        step(st, FOLD).0.current_bet == st.0.current_bet,
        (ids(st.1) + ids(st.2)).no_duplicates() ==> forall|j: int|
            0 <= j < step(st, FOLD).1.len() ==> (#[trigger] step(st, FOLD).1[j]).id@ != st.1[st.0.actor as int].id@,
{
    let i = st.0.actor as int;
    let e = step(st, FOLD);
    if (ids(st.1) + ids(st.2)).no_duplicates() {
        assert forall|j: int| 0 <= j < e.1.len() implies (#[trigger] e.1[j]).id@ != st.1[i].id@ by {
            let j2 = if j < i { j } else { j + 1 };
            assert(e.1[j] == st.1[j2]);
            assert((ids(st.1) + ids(st.2))[j2] == st.1[j2].id@);
            assert((ids(st.1) + ids(st.2))[i] == st.1[i].id@);
        }
    }
}

/// The sum of the players' bets this round.
pub open spec fn total_bets(s: Seq<Player>) -> int
    decreases s.len(),
{
    if s.len() == 0 {
        0
    } else {
        total_bets(s.drop_last()) + s.last().bet_amount
    }
}

proof fn lemma_total_bets_update(s: Seq<Player>, i: int, p: Player)
    requires
        0 <= i < s.len(),
    ensures
        total_bets(s.update(i, p)) == total_bets(s) - s[i].bet_amount + p.bet_amount,
    decreases s.len(),
{
    if i == s.len() - 1 {
        assert(s.update(i, p).drop_last() =~= s.drop_last());
    } else {
        lemma_total_bets_update(s.drop_last(), i, p);
        assert(s.update(i, p).drop_last() =~= s.drop_last().update(i, p));
    }
}

proof fn lemma_total_bets_remove(s: Seq<Player>, i: int)
    requires
        0 <= i < s.len(),
    ensures
        total_bets(s.remove(i)) == total_bets(s) - s[i].bet_amount,
    decreases s.len(),
{
    if i == s.len() - 1 {
        assert(s.remove(i) =~= s.drop_last());
    } else {
        lemma_total_bets_remove(s.drop_last(), i);
        assert(s.remove(i).drop_last() =~= s.drop_last().remove(i));
    }
}

proof fn lemma_step_keeps_pot_balance(st: RoundState, amount: i32)
    requires
        st.0.wf(st.1.len()),
    ensures
        step(st, amount).3 - total_bets(step(st, amount).1) - total_bets(step(st, amount).2) == st.3
            - total_bets(st.1) - total_bets(st.2),
{
    let (r, a, f, pot) = st;
    if !r.over(a.len()) {
        let i = r.actor as int;
        match r.outcome(a, pot, amount as int) {
            BetOutcome::Folded => {
                lemma_total_bets_remove(a, i);
                assert(f.push(a[i]).drop_last() =~= f);
            },
            BetOutcome::Rejected => {},
            _ => {
                lemma_total_bets_update(a, i, contributed(a[i], amount as int));
            },
        }
    }
}

/// The pot holds what was bet this round plus what earlier rounds swept into it:
/// over any run of actions, the pot less the bets of the active and the folded
/// players stays the same.
pub proof fn lemma_pot_matches_bets(st: RoundState, amounts: Seq<i32>)
    requires
        st.0.wf(st.1.len()),
    ensures
        run(st, amounts).3 - total_bets(run(st, amounts).1) - total_bets(run(st, amounts).2) == st.3
            - total_bets(st.1) - total_bets(st.2),
    decreases amounts.len(),
{
    if amounts.len() > 0 {
        let m = run(st, amounts.drop_last());
        lemma_pot_matches_bets(st, amounts.drop_last());
        lemma_folds_are_final(st, amounts.drop_last());
        lemma_step_keeps_pot_balance(m, amounts.last());
    }
}

/// The seat that acts `t` turns after `start`, among `n` seats (`t <= n`).
pub open spec fn seat_after(start: int, t: int, n: int) -> int {
    if start + t < n { start + t } else { start + t - n }
}

/// How many turns after `start` seat `j` acts.
pub open spec fn turns_from(start: int, j: int, n: int) -> int {
    if j >= start { j - start } else { j + n - start }
}

/// The same amount `c`, `k` times.
pub open spec fn repeated(c: i32, k: nat) -> Seq<i32> {
    Seq::new(k, |_i: int| c)
}

/// A freshly opened round with the players to play from `start`.
pub open spec fn opened_at(start: usize, active: Seq<Player>, folded: Seq<Player>, pot: int) -> RoundState {
    (BettingRound { actor: start, current_bet: NO_BET, leader: None, mode: RoundMode::Open }, active, folded, pot)
}

/// Nobody has bet yet this round and everyone can put in `c` more.
pub open spec fn fresh_for(active: Seq<Player>, c: int) -> bool {
    forall|j: int| 0 <= j < active.len() ==> (#[trigger] active[j]).bet_amount == 0
        && active[j].money_lost + c <= i32::MAX
}

proof fn lemma_equal_bets_progress(
    active: Seq<Player>,
    folded: Seq<Player>,
    pot: int,
    start: usize,
    c: i32,
    k: nat,
)
    requires
        2 <= active.len() <= usize::MAX,
        start < active.len(),
        c >= 0,
        0 <= pot,
        pot + active.len() * c <= i32::MAX,
        fresh_for(active, c as int),
        k <= active.len(),
    ensures
        ({
            let n = active.len() as int;
            let s = run(opened_at(start, active, folded, pot), repeated(c, k));
            &&& s.0 == (BettingRound {
                actor: seat_after(start as int, k as int, n) as usize,
                current_bet: if k == 0 || c == 0 { NO_BET } else { c },
                leader: if k == 0 { None } else { Some(start) },
                mode: RoundMode::Open,
            })
            &&& s.1.len() == n
            &&& s.2 == folded
            &&& s.3 == pot + k * c
            &&& forall|j: int| 0 <= j < n ==> #[trigger] s.1[j] == if turns_from(start as int, j, n) < k {
                contributed(active[j], c as int)
            } else {
                active[j]
            }
        }),
    decreases k,
{
    let n = active.len() as int;
    let st = opened_at(start, active, folded, pot);
    if k > 0 {
        lemma_equal_bets_progress(active, folded, pot, start, c, (k - 1) as nat);
        assert(repeated(c, k).drop_last() =~= repeated(c, (k - 1) as nat));
        let m = run(st, repeated(c, (k - 1) as nat));
        let i = seat_after(start as int, k - 1, n);
        assert(turns_from(start as int, i, n) == k - 1);
        assert(m.1[i] == active[i]);
        assert(pot + (k - 1) * c + c == pot + k * c) by (nonlinear_arith);
        assert(k * c <= n * c) by (nonlinear_arith)
            requires
                k <= n,
                c >= 0,
        ;
        assert(m.1.len() == n);
        assert(m.0.actor == i);
        assert(k - 1 > 0 ==> m.0.leader == Some(start));
        assert(k - 1 > 0 ==> i != start);
        assert(!m.0.over(m.1.len()));
        let e = run(st, repeated(c, k));
        assert(e == step(m, c));
        assert forall|j: int| 0 <= j < n implies #[trigger] e.1[j] == if turns_from(start as int, j, n) < k {
            contributed(active[j], c as int)
        } else {
            active[j]
        } by {
            if j == i {
            } else {
                assert(e.1[j] == m.1[j]);
            }
        }
    } else {
        assert(run(st, repeated(c, 0)) == st);
    }
}

/// With N >= 2 active players who have put nothing in yet this round, if each in
/// turn puts in the same amount `c` (all check when `c` is 0; otherwise the first
/// bets `c` and the others call: no raise), the k-th action comes from the seat k
/// places after `start`, the round is still running after each of the first N - 1
/// actions and is over after exactly N. Nobody folds, the pot grows by N * c,
/// every bet is `c`, and the current bet is `c` (still `NO_BET` when all checked).
pub proof fn lemma_equal_bets_close_after_n(
    active: Seq<Player>,
    folded: Seq<Player>,
    pot: int,
    start: usize,
    c: i32,
)
    requires
        2 <= active.len() <= usize::MAX,
        start < active.len(),
        c >= 0,
        0 <= pot,
        pot + active.len() * c <= i32::MAX,
        fresh_for(active, c as int),
    ensures
        forall|k: nat| k < active.len() ==> !(#[trigger] run(
            opened_at(start, active, folded, pot),
            repeated(c, k),
        )).0.over(active.len()) && run(opened_at(start, active, folded, pot), repeated(c, k)).0.actor
            == seat_after(start as int, k as int, active.len() as int),
        ({
            let e = run(opened_at(start, active, folded, pot), repeated(c, active.len()));
            &&& e.0.over(active.len())
            &&& e.3 == pot + active.len() * c
            &&& e.1.len() == active.len()
            &&& e.2 == folded
            &&& e.0.current_bet == if c == 0 { NO_BET } else { c }
            &&& forall|j: int| 0 <= j < active.len() ==> (#[trigger] e.1[j]).bet_amount == c
        }),
{
    let n = active.len();
    assert forall|k: nat| k < n implies !(#[trigger] run(
        opened_at(start, active, folded, pot),
        repeated(c, k),
    )).0.over(n) && run(opened_at(start, active, folded, pot), repeated(c, k)).0.actor == seat_after(
        start as int,
        k as int,
        n as int,
    ) by {
        lemma_equal_bets_progress(active, folded, pot, start, c, k);
        assert(0 <= seat_after(start as int, k as int, n as int) < n);
        if k > 0 {
            assert(seat_after(start as int, k as int, n as int) != start);
        }
    }
    lemma_equal_bets_progress(active, folded, pot, start, c, n);
    let e = run(opened_at(start, active, folded, pot), repeated(c, n));
    assert forall|j: int| 0 <= j < n implies (#[trigger] e.1[j]).bet_amount == c by {
        assert(turns_from(start as int, j, n as int) < n);
        assert(active[j].bet_amount == 0);
    }
}

/// N - 1 checks, one raise of `r`, then N - 1 calls of `r`.
pub open spec fn check_raise_call(n: nat, r: i32, k: nat) -> Seq<i32> {
    Seq::new(k, |i: int| if i < n - 1 { 0i32 } else { r })
}

proof fn lemma_calls_progress(
    active: Seq<Player>,
    folded: Seq<Player>,
    pot: int,
    start: usize,
    r: i32,
    t: nat,
)
    requires
        2 <= active.len() <= usize::MAX,
        start < active.len(),
        r > 0,
        0 <= pot,
        pot + active.len() * r <= i32::MAX,
        fresh_for(active, r as int),
        t <= active.len() - 1,
    ensures
        ({
            let n = active.len() as int;
            let s = run(
                opened_at(start, active, folded, pot),
                check_raise_call(active.len(), r, (n + t) as nat),
            );
            &&& s.0 == (BettingRound {
                actor: seat_after(start as int, t as int, n) as usize,
                current_bet: r,
                leader: Some(seat_after(start as int, n - 1, n) as usize),
                mode: RoundMode::Open,
            })
            &&& s.1.len() == n
            &&& s.2 == folded
            &&& s.3 == pot + r + t * r
            &&& forall|j: int|
                0 <= j < n && t <= turns_from(start as int, j, n) < n - 1 ==> s.1[j].money_lost
                    == active[j].money_lost
            &&& forall|j: int| 0 <= j < n ==> (#[trigger] s.1[j]).bet_amount == if turns_from(start as int, j, n)
                < t || turns_from(start as int, j, n) == n - 1 {
                r
            } else {
                0
            }
        }),
    decreases t,
{
    let n = active.len() as int;
    let st = opened_at(start, active, folded, pot);
    assert(pot + 1 * r <= pot + n * r) by (nonlinear_arith)
        requires
            n >= 1,
            r > 0,
    ;
    if t == 0 {
        lemma_equal_bets_progress(active, folded, pot, start, 0, (n - 1) as nat);
        assert(check_raise_call(n as nat, r, (n - 1) as nat) =~= repeated(0, (n - 1) as nat));
        assert(check_raise_call(n as nat, r, n as nat).drop_last() =~= check_raise_call(
            n as nat,
            r,
            (n - 1) as nat,
        ));
        let m = run(st, repeated(0, (n - 1) as nat));
        let i = seat_after(start as int, n - 1, n);
        assert(turns_from(start as int, i, n) == n - 1);
        assert(m.1[i] == active[i]);
        assert(!m.0.over(m.1.len())) by {
            assert(seat_after(start as int, n - 1, n) != start);
        }
        let e = run(st, check_raise_call(n as nat, r, n as nat));
        assert(e == step(m, r));
        assert forall|j: int| 0 <= j < n implies (#[trigger] e.1[j]).bet_amount == if turns_from(
            start as int,
            j,
            n,
        ) < 0 || turns_from(start as int, j, n) == n - 1 {
            r
        } else {
            0
        } && (turns_from(start as int, j, n) < n - 1 ==> e.1[j].money_lost == active[j].money_lost) by {
            if j != i {
                assert(e.1[j] == m.1[j]);
                assert(turns_from(start as int, j, n) < n - 1);
            }
        }
        assert(e.0.actor == seat_after(start as int, 0, n));
        assert(e.0.current_bet == r);
        assert(e.0.leader == Some(i as usize));
        assert(e.0.mode == RoundMode::Open);
        assert(e.1.len() == n);
        assert(e.3 == pot + r + 0 * r);
    } else {
        lemma_calls_progress(active, folded, pot, start, r, (t - 1) as nat);
        assert(check_raise_call(n as nat, r, (n + t) as nat).drop_last() =~= check_raise_call(
            n as nat,
            r,
            (n + t - 1) as nat,
        ));
        let m = run(st, check_raise_call(n as nat, r, (n + t - 1) as nat));
        let i = seat_after(start as int, t - 1, n);
        assert(turns_from(start as int, i, n) == t - 1);
        assert(pot + r + (t - 1) * r + r == pot + r + t * r) by (nonlinear_arith);
        assert(r + t * r <= n * r) by (nonlinear_arith)
            requires
                t + 1 <= n,
                r > 0,
        ;
        assert(!m.0.over(m.1.len())) by {
            assert(seat_after(start as int, t - 1, n) != seat_after(start as int, n - 1, n));
        }
        assert(m.1[i].bet_amount == 0);
        assert(m.1[i].money_lost == active[i].money_lost);
        let e = run(st, check_raise_call(n as nat, r, (n + t) as nat));
        assert(e == step(m, r));
        assert forall|j: int| 0 <= j < n implies (#[trigger] e.1[j]).bet_amount == if turns_from(
            start as int,
            j,
            n,
        ) < t || turns_from(start as int, j, n) == n - 1 {
            r
        } else {
            0
        } && (t <= turns_from(start as int, j, n) < n - 1 ==> e.1[j].money_lost == active[j].money_lost) by {
            if j != i {
                assert(e.1[j] == m.1[j]);
            } else {
                assert(m.1[i].bet_amount == 0);
                assert(m.1[i].money_lost == active[i].money_lost);
                assert(e.1[i] == contributed(m.1[i], r as int));
            }
        }
        assert(e.0.actor == seat_after(start as int, t as int, n));
        assert(e.0.current_bet == r);
        assert(e.1.len() == n);
        assert(e.3 == pot + r + t * r);
    }
}

/// With N >= 2 active players who have put nothing in yet this round, if the first
/// N - 1 check, the last raises by `r > 0` and the other N - 1 call, the seats act
/// in turn from `start` (the raiser is not asked again), the round is still running
/// after each of the first 2N - 2 actions and is over after exactly 2N - 1. Nobody
/// folds, the pot grows by N * r, and every bet equals the current bet, `r`.
pub proof fn lemma_one_raise_closes_after_2n_minus_1(
    active: Seq<Player>,
    folded: Seq<Player>,
    pot: int,
    start: usize,
    r: i32,
)
    requires
        2 <= active.len() <= usize::MAX,
        start < active.len(),
        r > 0,
        0 <= pot,
        pot + active.len() * r <= i32::MAX,
        fresh_for(active, r as int),
    ensures
        forall|k: nat| k < 2 * active.len() - 1 ==> !(#[trigger] run(
            opened_at(start, active, folded, pot),
            check_raise_call(active.len(), r, k),
        )).0.over(active.len()) && run(opened_at(start, active, folded, pot), check_raise_call(active.len(), r, k)).0.actor
            == seat_after(start as int, if k < active.len() { k as int } else { k - active.len() }, active.len() as int),
        ({
            let e = run(
                opened_at(start, active, folded, pot),
                check_raise_call(active.len(), r, (2 * active.len() - 1) as nat),
            );
            &&& e.0.over(active.len())
            &&& e.3 == pot + active.len() * r
            &&& e.1.len() == active.len()
            &&& e.2 == folded
            &&& e.0.current_bet == r
            &&& forall|j: int| 0 <= j < active.len() ==> (#[trigger] e.1[j]).bet_amount == r
        }),
{
    let n = active.len();
    assert(pot + n * 0 <= i32::MAX);
    assert(fresh_for(active, 0));
    assert forall|k: nat| k < 2 * n - 1 implies !(#[trigger] run(
        opened_at(start, active, folded, pot),
        check_raise_call(n, r, k),
    )).0.over(n) && run(opened_at(start, active, folded, pot), check_raise_call(n, r, k)).0.actor
        == seat_after(start as int, if k < n { k as int } else { k - n }, n as int) by {
        assert(0 <= seat_after(start as int, if k < n { k as int } else { k - n }, n as int) < n);
        if k < n {
            lemma_equal_bets_progress(active, folded, pot, start, 0, k);
            assert(check_raise_call(n, r, k) =~= repeated(0, k));
            if k > 0 {
                assert(seat_after(start as int, k as int, n as int) != start);
            }
        } else {
            lemma_calls_progress(active, folded, pot, start, r, (k - n) as nat);
            assert(seat_after(start as int, k - n, n as int) != seat_after(
                start as int,
                n - 1,
                n as int,
            ));
        }
    }
    lemma_calls_progress(active, folded, pot, start, r, (n - 1) as nat);
    assert(pot + r + (n - 1) * r == pot + n * r) by (nonlinear_arith);
    let e = run(opened_at(start, active, folded, pot), check_raise_call(n, r, (2 * n - 1) as nat));
    assert forall|j: int| 0 <= j < n implies (#[trigger] e.1[j]).bet_amount == r by {
        assert(turns_from(start as int, j, n as int) < n);
    }
}

} // verus!
