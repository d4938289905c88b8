//! Texas hold'em: two hole cards each, blinds, and five shared cards dealt as the
//! flop, the turn and the river, each after a burned card; the showdown takes the
//! best five of each player's seven.
use vstd::prelude::*;
use crate::card::{Card, all_valid, valid_card};
use crate::deck::{Deck, full_deck};
use crate::player::{Player, seat_players};
use crate::betting::{BettingRound, RoundMode};
use crate::five_card_draw::{find_player, first_named};
use crate::table::{hands_valid, deal_passes, pass_hand, dealt_count, lemma_pass_hand_full, reset_hands, reset_bets, any_eligible, is_best_seat, showdown_scores, not_folded, showdown_winner};

verus! {

/// State of a Texas hold'em game.
#[derive(Debug)]
pub struct TexasHoldemGame {
    /// Players who have folded, in the order they folded.
    pub players: Vec<Player>,
    /// The deck being dealt from.
    pub deck: Deck,
    /// Chips in the pot.
    pub pot: i32,
    /// The highest bet of the current round.
    pub current_bet: i32,
    /// Players still in the hand, in turn order.
    pub current_players: Vec<Player>,
    /// The shared cards on the table.
    pub community_cards: Vec<Card>,
}

/// The deck and shared cards after burning one card and turning `k` over.
pub open spec fn burn_and_turn(deck: Seq<Card>, community: Seq<Card>, k: int) -> (Seq<Card>, Seq<Card>) {
    let after_burn = if deck.len() > 0 { deck.drop_last() } else { deck };
    let m = if k < after_burn.len() { k } else { after_burn.len() as int };
    (
        after_burn.subrange(0, after_burn.len() - m),
        community + after_burn.subrange(after_burn.len() - m, after_burn.len() as int).reverse(),
    )
}

impl TexasHoldemGame {
    /// The game's invariant: the deck holds distinct valid cards; hands and shared cards are valid.
    pub open spec fn wf(&self) -> bool {
        &&& self.deck.wf()
        &&& hands_valid(self.current_players@)
        &&& hands_valid(self.players@)
        &&& all_valid(self.community_cards@)
    }

    /// A new game for the named players, seated in the given order, with a full deck
    /// and no shared cards.
    pub fn new(player_ids: Vec<String>) -> (g: TexasHoldemGame)
        ensures
            g.wf(),
            full_deck(g.deck.cards@),
            g.players@.len() == 0,
            g.pot == 0,
            g.current_bet == 0,
            g.community_cards@.len() == 0,
            g.current_players@.len() == player_ids@.len(),
            forall|i: int| 0 <= i < player_ids@.len() ==> (#[trigger] g.current_players@[i]).id@
                == player_ids@[i]@ && g.current_players@[i].hand@.len() == 0
                && !g.current_players@[i].folded && g.current_players@[i].money_won == 0
                && g.current_players@[i].money_lost == 0 && g.current_players@[i].bet_amount == 0,
    {
        let deck = Deck::new();
        let current_players = seat_players(player_ids);
        TexasHoldemGame {
            players: Vec::new(),
            deck,
            pot: 0,
            current_bet: 0,
            current_players,
            community_cards: Vec::new(),
        }
    }

    /// Posts the blinds: the first seat puts in `small_blind`, the second twice as much,
    /// and the current bet becomes the big blind.
    pub fn post_blinds(&mut self, small_blind: i32)
        requires
            old(self).wf(),
            old(self).current_players@.len() >= 2,
            small_blind >= 0,
            old(self).pot >= 0,
            old(self).pot + 3 * small_blind <= i32::MAX,
            old(self).current_players@[0].money_lost + small_blind <= i32::MAX,
            old(self).current_players@[1].money_lost + 2 * small_blind <= i32::MAX,
        ensures
            final(self).wf(),
            final(self).pot == old(self).pot + 3 * small_blind,
            final(self).current_bet == 2 * small_blind,
            final(self).players == old(self).players,
            final(self).deck == old(self).deck,
            final(self).community_cards == old(self).community_cards,
            final(self).current_players@.len() == old(self).current_players@.len(),
            final(self).current_players@[0].bet_amount == small_blind,
            final(self).current_players@[0].money_lost == old(self).current_players@[0].money_lost + small_blind,
            final(self).current_players@[1].bet_amount == 2 * small_blind,
            final(self).current_players@[1].money_lost == old(self).current_players@[1].money_lost + 2 * small_blind,
            forall|i: int| 0 <= i < old(self).current_players@.len() ==> {
                let p = #[trigger] final(self).current_players@[i];
                let q = old(self).current_players@[i];
                &&& p.id == q.id && p.hand == q.hand && p.folded == q.folded && p.money_won == q.money_won
                &&& i >= 2 ==> p == q
            },
    {
        let big_blind = 2 * small_blind;
        self.current_players[0].bet_amount = small_blind;
        self.current_players[0].money_lost = self.current_players[0].money_lost + small_blind;
        self.pot = self.pot + small_blind;
        self.current_players[1].bet_amount = big_blind;
        self.current_players[1].money_lost = self.current_players[1].money_lost + big_blind;
        self.pot = self.pot + big_blind;
        self.current_bet = big_blind;
        assert(hands_valid(self.current_players@)) by {
            assert forall|i: int| 0 <= i < self.current_players@.len() implies all_valid(#[trigger] self.current_players@[i].hand@) by {
                assert(all_valid(old(self).current_players@[i].hand@));
            }
        }
    }

    /// Takes a fresh shuffled deck and deals two hole cards to each player, one at a
    /// time around the table; hands are emptied and fold flags cleared first.
    pub fn deal_hole_cards(&mut self)
        requires
            old(self).wf(),
        ensures
            final(self).wf(),
            final(self).players == old(self).players,
            final(self).pot == old(self).pot,
            final(self).current_bet == old(self).current_bet,
            final(self).community_cards == old(self).community_cards,
            final(self).current_players@.len() == old(self).current_players@.len(),
            forall|i: int| 0 <= i < old(self).current_players@.len() ==> {
                let p = #[trigger] final(self).current_players@[i];
                let q = old(self).current_players@[i];
                &&& p.id == q.id && !p.folded && p.money_won == q.money_won
                &&& p.money_lost == q.money_lost && p.bet_amount == q.bet_amount
            },
            exists|d: Seq<Card>| #[trigger] full_deck(d) && final(self).deck.cards@ == d.subrange(
                0,
                52 - dealt_count(52, (2 * old(self).current_players@.len()) as int),
            ) && forall|i: int| 0 <= i < old(self).current_players@.len() ==> (#[trigger] final(self).current_players@[i]).hand@
                == pass_hand(d, old(self).current_players@.len() as int, i, 2 as nat),
            old(self).current_players@.len() * 2 <= 52 ==> forall|i: int| 0 <= i < old(self).current_players@.len()
                ==> (#[trigger] final(self).current_players@[i]).hand@.len() == 2,
    {
        self.deck = Deck::new();
        let ghost d = self.deck.cards@;
        reset_hands(&mut self.current_players);
        let ghost n = self.current_players@.len();
        let ghost reset = self.current_players@;
        deal_passes(&mut self.deck, &mut self.current_players, 2);
        proof {
            assert forall|i: int| 0 <= i < n implies (#[trigger] self.current_players@[i]).hand@
                == pass_hand(d, n as int, i, 2 as nat) by {
                assert(reset[i].hand@.len() == 0);
                assert(reset[i].hand@ + pass_hand(d, n as int, i, 2 as nat) =~= pass_hand(d, n as int, i, 2 as nat));
            }
            if n * 2 <= 52 {
                assert forall|i: int| 0 <= i < n implies (#[trigger] self.current_players@[i]).hand@.len() == 2 by {
                    lemma_pass_hand_full(d, n as int, i, 2 as nat);
                }
            }
            assert(full_deck(d));
        }
    }

    /// Burns the top card, then turns over `k` cards onto the table, while cards last.
    fn burn_and_deal(&mut self, k: usize)
        requires
            old(self).wf(),
        ensures
            final(self).wf(),
            final(self).players == old(self).players,
            final(self).pot == old(self).pot,
            final(self).current_bet == old(self).current_bet,
            final(self).current_players == old(self).current_players,
            (final(self).deck.cards@, final(self).community_cards@) == burn_and_turn(
                old(self).deck.cards@,
                old(self).community_cards@,
                k as int,
            ),
    {
        self.deck.deal_one();
        let ghost d1 = self.deck.cards@;
        let ghost c1 = self.community_cards@;
        let ghost m = if (k as int) < d1.len() { k as int } else { d1.len() as int };
        let mut t: usize = 0;
        while t < k
            invariant
                t <= k,
                self.wf(),
                self.players == old(self).players,
                self.pot == old(self).pot,
                self.current_bet == old(self).current_bet,
                self.current_players == old(self).current_players,
                d1 == (if old(self).deck.cards@.len() > 0 { old(self).deck.cards@.drop_last() } else { old(self).deck.cards@ }),
                c1 == old(self).community_cards@,
                m == (if (k as int) < d1.len() { k as int } else { d1.len() as int }),
                self.deck.cards@ == d1.subrange(0, d1.len() - (if (t as int) < m { t as int } else { m })),
                self.community_cards@ == c1 + d1.subrange(
                    d1.len() - (if (t as int) < m { t as int } else { m }),
                    d1.len() as int,
                ).reverse(),
            decreases k - t,
        {
            let ghost db = self.deck.cards@;
            if let Some(card) = self.deck.deal_one() {
                assert(valid_card(db[db.len() - 1]));
                self.community_cards.push(card);
                assert(self.community_cards@ =~= c1 + d1.subrange(d1.len() - (t + 1), d1.len() as int).reverse());
                assert(self.deck.cards@ =~= d1.subrange(0, d1.len() - (t + 1)));
            }
            t += 1;
        }
    }

    /// The flop: burns one card and turns over three.
    pub fn deal_flop(&mut self)
        requires
            old(self).wf(),
        ensures
            final(self).wf(),
            final(self).players == old(self).players,
            final(self).pot == old(self).pot,
            final(self).current_bet == old(self).current_bet,
            final(self).current_players == old(self).current_players,
            (final(self).deck.cards@, final(self).community_cards@) == burn_and_turn(
                old(self).deck.cards@,
                old(self).community_cards@,
                3,
            ),
    {
        self.burn_and_deal(3);
    }

    /// The turn: burns one card and turns over one.
    pub fn deal_turn(&mut self)
        requires
            old(self).wf(),
        ensures
            final(self).wf(),
            final(self).players == old(self).players,
            final(self).pot == old(self).pot,
            final(self).current_bet == old(self).current_bet,
            final(self).current_players == old(self).current_players,
            (final(self).deck.cards@, final(self).community_cards@) == burn_and_turn(
                old(self).deck.cards@,
                old(self).community_cards@,
                1,
            ),
    {
        self.burn_and_deal(1);
    }

    /// The river: burns one card and turns over the last one.
    pub fn deal_river(&mut self)
        requires
            old(self).wf(),
        ensures
            final(self).wf(),
            final(self).players == old(self).players,
            final(self).pot == old(self).pot,
            final(self).current_bet == old(self).current_bet,
            final(self).current_players == old(self).current_players,
            (final(self).deck.cards@, final(self).community_cards@) == burn_and_turn(
                old(self).deck.cards@,
                old(self).community_cards@,
                1,
            ),
    {
        self.burn_and_deal(1);
    }

    /// The winner at showdown: the unfolded player whose hole cards with the shared
    /// cards make the best five-card hand, the first listed among equals; `None`
    /// when every player has folded.
    pub fn showdown(&self) -> (r: Option<String>)
        requires
            self.wf(),
        ensures
            r is None <==> !any_eligible(not_folded(self.current_players@)),
            r matches Some(w) ==> exists|j: int| #[trigger] is_best_seat(
                showdown_scores(self.current_players@, self.community_cards@),
                not_folded(self.current_players@),
                j,
                false,
            ) && w@ == self.current_players@[j].id@,
    {
        showdown_winner(&self.current_players, &self.community_cards)
    }

    /// Opens betting round `k`. Before the flop (`k == 0`) play starts after the big
    /// blind (the third seat, or the first when only two play) and every player must
    /// bring their bet exactly to the big blind; the pass ends when play reaches the
    /// big blind. From the flop on, bets start again from zero and the first seat acts
    /// first.
    pub fn open_round(&mut self, k: usize) -> (r: BettingRound)
        requires
            old(self).current_players@.len() >= 2,
        ensures
            k == 0 ==> r == (BettingRound {
                actor: if 2 < old(self).current_players@.len() { 2 } else { 0 },
                current_bet: old(self).current_bet,
                leader: Some(1),
                mode: RoundMode::MatchOnly,
            }) && final(self).current_players == old(self).current_players,
            k > 0 ==> r == BettingRound::opened(0),
            final(self).current_players@.len() == old(self).current_players@.len(),
            final(self).players == old(self).players,
            final(self).deck == old(self).deck,
            final(self).pot == old(self).pot,
            final(self).current_bet == old(self).current_bet,
            final(self).community_cards == old(self).community_cards,
            forall|i: int| 0 <= i < old(self).current_players@.len() ==> {
                let p = #[trigger] final(self).current_players@[i];
                let q = old(self).current_players@[i];
                &&& p.id == q.id && p.hand == q.hand && p.folded == q.folded
                &&& p.money_won == q.money_won && p.money_lost == q.money_lost
                &&& p.bet_amount == if k > 0 { 0 } else { q.bet_amount }
            },
    {
        let n = self.current_players.len();
        if k == 0 {
            BettingRound::matching(2, 1, self.current_bet, n)
        } else {
            reset_bets(&mut self.current_players);
            BettingRound::open(0, n)
        }
    }

    /// The big blind's option once the first pre-flop pass is over: `None` when only
    /// one player is left or nobody named `big_blind` is still in; otherwise a round in
    /// which that player acts first and may check to close the betting.
    pub fn big_blind_option_round(&self, big_blind: &str, bet: i32) -> (r: Option<BettingRound>)
        ensures
            self.current_players@.len() <= 1 ==> r is None,
            self.current_players@.len() >= 2 ==> match first_named(self.current_players@, big_blind@) {
                None => r is None,
                Some(j) => r == Some(
                    BettingRound { actor: j as usize, current_bet: bet, leader: None, mode: RoundMode::CheckOption },
                ),
            },
    {
        let n = self.current_players.len();
        if n <= 1 {
            return None;
        }
        let found = find_player(&self.current_players, big_blind);
        match found {
            Some(j) => Some(BettingRound::big_blind_option(j, bet, n)),
            None => None,
        }
    }
}

} // verus!
