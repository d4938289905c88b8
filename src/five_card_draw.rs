//! Five card draw: five cards each, a betting round, an optional swap of any
//! cards, a second betting round, and a showdown.
use vstd::prelude::*;
use crate::card::{Card, all_valid, valid_card};
use crate::deck::{Deck, full_deck};
use crate::eval::{score, evaluate_hand};
use crate::player::{Player, seat_players};
use crate::betting::BettingRound;
use crate::table::{
    hands_valid, deal_passes, pass_hand, dealt_count, lemma_pass_hand_full, reset_hands, reset_bets, same_text, best_seat, is_best_seat, any_eligible,
    score_views,
};

verus! {

/// The number of cards in a draw hand.
pub const DRAW_HAND_SIZE: usize = 5;

/// State of a five card draw game.
#[derive(Debug)]
pub struct PokerGame {
    /// Players who have folded, in the order they folded.
    pub players: Vec<Player>,
    /// The deck being dealt from.
    pub deck: Deck,
    /// Chips in the pot.
    pub pot: i32,
    /// The highest bet of the current round.
    pub current_bet: i32,
    /// Players still in the hand, in turn order.
    pub current_players: Vec<Player>,
}

/// The scores of the players' hands.
pub open spec fn hand_scores(ps: Seq<Player>) -> Seq<crate::eval::Score> {
    ps.map_values(|p: Player| score(p.hand@))
}

/// Which players have not folded.
pub open spec fn unfolded(ps: Seq<Player>) -> Seq<bool> {
    ps.map_values(|p: Player| !p.folded)
}

/// The hand and deck after swapping: for each index in turn one card comes off the
/// top of the deck, and it replaces the card at that index when the hand has one
/// (otherwise it is discarded); once the deck is empty nothing more changes.
pub open spec fn swap_cards(hand: Seq<Card>, deck: Seq<Card>, idxs: Seq<usize>) -> (Seq<Card>, Seq<Card>)
    decreases idxs.len(),
{
    if idxs.len() == 0 || deck.len() == 0 {
        (hand, deck)
    } else {
        let h2 = if idxs[0] < hand.len() { hand.update(idxs[0] as int, deck.last()) } else { hand };
        swap_cards(h2, deck.drop_last(), idxs.drop_first())
    }
}

/// The first player named `id`, if any.
pub open spec fn first_named(ps: Seq<Player>, id: Seq<char>) -> Option<int> {
    if exists|j: int| 0 <= j < ps.len() && (#[trigger] ps[j]).id@ == id {
        Some(choose|j: int| 0 <= j < ps.len() && (#[trigger] ps[j]).id@ == id
            && forall|k: int| 0 <= k < j ==> (#[trigger] ps[k]).id@ != id)
    } else {
        None
    }
}

/// Finds the first player named `id`.
pub fn find_player(ps: &Vec<Player>, id: &str) -> (r: Option<usize>)
    ensures
        r is None <==> forall|j: int| 0 <= j < ps@.len() ==> (#[trigger] ps@[j]).id@ != id@,
        r matches Some(j) ==> j < ps@.len() && ps@[j as int].id@ == id@ && forall|k: int|
            0 <= k < j ==> (#[trigger] ps@[k]).id@ != id@,
        r == match first_named(ps@, id@) {
            Some(j) => Some(j as usize),
            None => None::<usize>,
        },
{
    let mut i: usize = 0;
    while i < ps.len()
        invariant
            i <= ps@.len(),
            forall|k: int| 0 <= k < i ==> (#[trigger] ps@[k]).id@ != id@,
        decreases ps@.len() - i,
    {
        if same_text(ps[i].id.as_str(), id) {
            proof {
                lemma_first_named_is(ps@, id@, i as int);
            }
            return Some(i);
        }
        i += 1;
    }
    None
}

proof fn lemma_first_named_is(ps: Seq<Player>, id: Seq<char>, j: int)
    requires
        0 <= j < ps.len(),
        ps[j].id@ == id,
        forall|k: int| 0 <= k < j ==> (#[trigger] ps[k]).id@ != id,
    ensures
        first_named(ps, id) == Some(j),
{
    assert(exists|x: int| 0 <= x < ps.len() && (#[trigger] ps[x]).id@ == id);
    let c = choose|x: int| 0 <= x < ps.len() && (#[trigger] ps[x]).id@ == id
        && forall|k: int| 0 <= k < x ==> (#[trigger] ps[k]).id@ != id;
    assert(c == j) by {
        if c < j {
            assert(ps[c].id@ != id);
        }
        if c > j {
            assert(ps[j].id@ != id);
        }
    }
}

impl PokerGame {
    /// The game's invariant: the deck holds distinct valid cards and every hand holds valid cards.
    pub open spec fn wf(&self) -> bool {
        self.deck.wf() && hands_valid(self.current_players@) && hands_valid(self.players@)
    }

    /// A new game for the named players, seated in the given order, with a full deck.
    pub fn new(player_ids: Vec<String>) -> (g: PokerGame)
        ensures
            g.wf(),
            full_deck(g.deck.cards@),
            g.players@.len() == 0,
            g.pot == 0,
            g.current_bet == 0,
            g.current_players@.len() == player_ids@.len(),
            forall|i: int| 0 <= i < player_ids@.len() ==> (#[trigger] g.current_players@[i]).id@
                == player_ids@[i]@ && g.current_players@[i].hand@.len() == 0
                && !g.current_players@[i].folded && g.current_players@[i].money_won == 0
                && g.current_players@[i].money_lost == 0 && g.current_players@[i].bet_amount == 0,
    {
        let deck = Deck::new();
        let current_players = seat_players(player_ids);
        PokerGame { players: Vec::new(), deck, pot: 0, current_bet: 0, current_players }
    }

    /// Collects the ante from every active player into the pot.
    pub fn collect_ante(&mut self, ante: i32)
        requires
            ante >= 0,
            old(self).pot >= 0,
            old(self).pot + old(self).current_players@.len() * ante <= i32::MAX,
            crate::table::can_pay(old(self).current_players@, ante as int),
            old(self).wf(),
        ensures
            final(self).wf(),
            final(self).pot == old(self).pot + old(self).current_players@.len() * ante,
            final(self).players == old(self).players,
            final(self).deck == old(self).deck,
            final(self).current_bet == old(self).current_bet,
            final(self).current_players@.len() == old(self).current_players@.len(),
            forall|i: int| 0 <= i < old(self).current_players@.len() ==> (#[trigger] final(self).current_players@[i]).money_lost
                == old(self).current_players@[i].money_lost + ante && final(self).current_players@[i].id
                == old(self).current_players@[i].id && final(self).current_players@[i].hand
                == old(self).current_players@[i].hand && final(self).current_players@[i].folded
                == old(self).current_players@[i].folded && final(self).current_players@[i].bet_amount
                == old(self).current_players@[i].bet_amount,
    {
        crate::table::collect_ante(&mut self.current_players, &mut self.pot, ante);
        assert(hands_valid(self.current_players@)) by {
            assert forall|i: int| 0 <= i < self.current_players@.len() implies all_valid(#[trigger] self.current_players@[i].hand@) by {
                assert(all_valid(old(self).current_players@[i].hand@));
            }
        }
    }

    /// Takes a fresh shuffled deck and deals five cards to each active player, one
    /// at a time around the table; hands are emptied and fold flags cleared first.
    pub fn deal_cards(&mut self)
        requires
            old(self).wf(),
        ensures
            final(self).wf(),
            final(self).current_players@.len() == old(self).current_players@.len(),
            final(self).players == old(self).players,
            final(self).pot == old(self).pot,
            final(self).current_bet == old(self).current_bet,
            forall|i: int| 0 <= i < old(self).current_players@.len() ==> {
                let p = #[trigger] final(self).current_players@[i];
                let q = old(self).current_players@[i];
                &&& p.id == q.id && !p.folded && p.money_won == q.money_won
                &&& p.money_lost == q.money_lost && p.bet_amount == q.bet_amount
            },
            exists|d: Seq<Card>| #[trigger] full_deck(d) && final(self).deck.cards@ == d.subrange(
                0,
                52 - dealt_count(52, (DRAW_HAND_SIZE * old(self).current_players@.len()) as int),
            ) && forall|i: int| 0 <= i < old(self).current_players@.len() ==> (#[trigger] final(self).current_players@[i]).hand@
                == pass_hand(d, old(self).current_players@.len() as int, i, DRAW_HAND_SIZE as nat),
            old(self).current_players@.len() * DRAW_HAND_SIZE <= 52 ==> forall|i: int| 0 <= i < old(self).current_players@.len()
                ==> (#[trigger] final(self).current_players@[i]).hand@.len() == DRAW_HAND_SIZE,
    {
        self.deck = Deck::new();
        let ghost d = self.deck.cards@;
        reset_hands(&mut self.current_players);
        let ghost n = self.current_players@.len();
        let ghost reset = self.current_players@;
        deal_passes(&mut self.deck, &mut self.current_players, DRAW_HAND_SIZE);
        proof {
            assert forall|i: int| 0 <= i < n implies (#[trigger] self.current_players@[i]).hand@
                == pass_hand(d, n as int, i, DRAW_HAND_SIZE as nat) by {
                assert(reset[i].hand@.len() == 0);
                assert(reset[i].hand@ + pass_hand(d, n as int, i, DRAW_HAND_SIZE as nat) =~= pass_hand(d, n as int, i, DRAW_HAND_SIZE as nat));
            }
            if n * DRAW_HAND_SIZE <= 52 {
                assert forall|i: int| 0 <= i < n implies (#[trigger] self.current_players@[i]).hand@.len() == DRAW_HAND_SIZE by {
                    lemma_pass_hand_full(d, n as int, i, DRAW_HAND_SIZE as nat);
                }
            }
            assert(full_deck(d));
        }
    }

    /// The winner at showdown: the unfolded player with the best hand (the last one
    /// listed among equal best hands), or `None` when every player has folded.
    pub fn determine_winner_id(&self) -> (r: Option<String>)
        requires
            hands_valid(self.current_players@),
        ensures
            r is None <==> !any_eligible(unfolded(self.current_players@)),
            r matches Some(w) ==> exists|j: int| #[trigger] is_best_seat(
                hand_scores(self.current_players@),
                unfolded(self.current_players@),
                j,
                true,
            ) && w@ == self.current_players@[j].id@,
    {
        let mut scores: Vec<(u8, Vec<u8>)> = Vec::new();
        let mut eligible: Vec<bool> = Vec::new();
        let mut i: usize = 0;
        while i < self.current_players.len()
            invariant
                i <= self.current_players@.len(),
                hands_valid(self.current_players@),
                scores@.len() == i,
                eligible@.len() == i,
                score_views(scores@) == hand_scores(self.current_players@).subrange(0, i as int),
                eligible@ == unfolded(self.current_players@).subrange(0, i as int),
            decreases self.current_players@.len() - i,
        {
            let p = &self.current_players[i];
            let s = evaluate_hand(p.hand.as_slice());
            scores.push(s);
            eligible.push(!p.folded);
            assert(score_views(scores@) =~= hand_scores(self.current_players@).subrange(0, i + 1));
            assert(eligible@ =~= unfolded(self.current_players@).subrange(0, i + 1));
            i += 1;
        }
        assert(hand_scores(self.current_players@).subrange(0, i as int) =~= hand_scores(self.current_players@));
        assert(unfolded(self.current_players@).subrange(0, i as int) =~= unfolded(self.current_players@));
        match best_seat(&scores, &eligible, true) {
            Some(j) => {
                assert(is_best_seat(hand_scores(self.current_players@), unfolded(self.current_players@), j as int, true));
                Some(self.current_players[j].id.clone())
            },
            None => None,
        }
    }

    /// Replaces cards of the first player named `player_id`: for each index in turn
    /// a card comes off the deck and takes that position in the hand (a card dealt for
    /// an index past the end of the hand is discarded).
    pub fn replace_cards(&mut self, player_id: &str, deck_indices: &[usize])
        requires
            old(self).wf(),
        ensures
            final(self).wf(),
            final(self).players == old(self).players,
            final(self).pot == old(self).pot,
            final(self).current_bet == old(self).current_bet,
            final(self).current_players@.len() == old(self).current_players@.len(),
            match first_named(old(self).current_players@, player_id@) {
                None => final(self).current_players@ == old(self).current_players@ && final(self).deck
                    == old(self).deck,
                Some(j) => {
                    let res = swap_cards(old(self).current_players@[j].hand@, old(self).deck.cards@, deck_indices@);
                    &&& final(self).current_players@[j].hand@ == res.0
                    &&& final(self).deck.cards@ == res.1
                    &&& crate::table::same_but_hand(old(self).current_players@[j], final(self).current_players@[j])
                    &&& forall|k: int| 0 <= k < old(self).current_players@.len() && k != j
                        ==> #[trigger] final(self).current_players@[k] == old(self).current_players@[k]
                },
            },
    {
        let found = find_player(&self.current_players, player_id);
        if let Some(j) = found {
            let ghost h0 = self.current_players@[j as int].hand@;
            let ghost d0 = self.deck.cards@;
            let ghost ps0 = self.current_players@;
            let mut t: usize = 0;
            assert(deck_indices@.subrange(0, deck_indices@.len() as int) =~= deck_indices@);
            while t < deck_indices.len()
                invariant
                    t <= deck_indices@.len(),
                    j < self.current_players@.len(),
                    self.wf(),
                    self.current_players@.len() == ps0.len(),
                    self.players == old(self).players,
                    self.pot == old(self).pot,
                    self.current_bet == old(self).current_bet,
                    ps0 == old(self).current_players@,
                    d0 == old(self).deck.cards@,
                    h0 == ps0[j as int].hand@,
                    swap_cards(h0, d0, deck_indices@) == swap_cards(
                        self.current_players@[j as int].hand@,
                        self.deck.cards@,
                        deck_indices@.subrange(t as int, deck_indices@.len() as int),
                    ),
                    crate::table::same_but_hand(ps0[j as int], self.current_players@[j as int]),
                    forall|k: int| 0 <= k < ps0.len() && k != j ==> #[trigger] self.current_players@[k] == ps0[k],
                decreases deck_indices@.len() - t,
            {
                let idx = deck_indices[t];
                let ghost hand_before = self.current_players@[j as int].hand@;
                let ghost deck_before = self.deck.cards@;
                let ghost rest = deck_indices@.subrange(t as int, deck_indices@.len() as int);
                assert(rest.drop_first() =~= deck_indices@.subrange(t + 1, deck_indices@.len() as int));
                if let Some(card) = self.deck.deal_one() {
                    assert(valid_card(deck_before[deck_before.len() - 1]));
                    if idx < self.current_players[j].hand.len() {
                        self.current_players[j].hand.set(idx, card);
                        assert(all_valid(self.current_players@[j as int].hand@)) by {
                            assert(all_valid(hand_before));
                        }
                    }
                } else {
                    proof {
                        lemma_swap_empty_deck(hand_before, deck_before, rest.drop_first());
                    }
                }
                t += 1;
            }
            assert(deck_indices@.subrange(deck_indices@.len() as int, deck_indices@.len() as int) =~= Seq::<usize>::empty());
        }
    }
}

impl PokerGame {
    /// Opens betting round `k`: the first seat acts first; from the second round
    /// on, every player's bet starts again from zero.
    pub fn open_round(&mut self, k: usize) -> (r: BettingRound)
        requires
            old(self).current_players@.len() >= 1,
        ensures
            r == BettingRound::opened(0),
            final(self).current_players@.len() == old(self).current_players@.len(),
            final(self).players == old(self).players,
            final(self).deck == old(self).deck,
            final(self).pot == old(self).pot,
            final(self).current_bet == old(self).current_bet,
            forall|i: int| 0 <= i < old(self).current_players@.len() ==> {
                let p = #[trigger] final(self).current_players@[i];
                let q = old(self).current_players@[i];
                &&& p.id == q.id && p.hand == q.hand && p.folded == q.folded
                &&& p.money_won == q.money_won && p.money_lost == q.money_lost
                &&& p.bet_amount == if k > 0 { 0 } else { q.bet_amount }
            },
    {
        if k > 0 {
            reset_bets(&mut self.current_players);
        }
        BettingRound::open(0, self.current_players.len())
    }
}

proof fn lemma_swap_empty_deck(hand: Seq<Card>, deck: Seq<Card>, idxs: Seq<usize>)
    requires
        deck.len() == 0,
    ensures
        swap_cards(hand, deck, idxs) == (hand, deck),
{
}

} // verus!