//! Seven card stud: two cards down and one up, three more up one street at a
//! time, a last card down, a betting round after each street, and a showdown on
//! the best five of seven.
use vstd::prelude::*;
use crate::card::{all_valid, valid_card, suit_order, suit_index};
use crate::deck::{Deck, full_deck};
use crate::eval::{Score, exposed_score, evaluate_exposed};
use crate::player::{Player, seat_players};
use crate::betting::BettingRound;
use crate::table::{
    hands_valid, deal_pass, reset_hands, best_seat, is_best_seat, any_eligible, score_views,
    same_but_hand, dealt_hand, lemma_best_seat_eligible_only, showdown_scores, not_folded,
    showdown_winner, reset_bets, dealt_count,
};

verus! {

/// State of a seven card stud game.
pub struct SevenCardStudGame {
    /// Players who have folded, in the order they folded.
    pub players: Vec<Player>,
    /// The deck being dealt from.
    pub deck: Deck,
    /// Chips in the pot.
    pub pot: i32,
    /// Players still in the hand, in turn order.
    pub current_players: Vec<Player>,
    /// The highest bet of the current round.
    pub current_bet: i32,
}

/// The ordering key of a player's first face-up card (the third card): rank, then suit.
pub open spec fn exposed_key(p: Player) -> int {
    p.hand@[2].rank * 4 + suit_order(p.hand@[2].suit)
}

/// The first `c` cards that player `i` gets on third street from deck `d`: each
/// player in turn takes three cards off the top.
pub open spec fn third_street_cards(d: Seq<crate::card::Card>, i: int, c: int) -> Seq<crate::card::Card> {
    Seq::new(c as nat, |k: int| d[d.len() - 1 - (3 * i + k)])
}

/// Players who may be asked for the bring-in: not folded, with a face-up card.
pub open spec fn can_bring_in(p: Player) -> bool {
    !p.folded && p.hand@.len() >= 3
}

/// The face-up cards of a hand once it holds `upto` cards: positions 2 .. upto.
pub open spec fn face_up(p: Player, upto: int) -> Seq<crate::card::Card> {
    p.hand@.subrange(2, upto)
}

/// The scores of the face-up cards of the players, by rank groups and high cards.
pub open spec fn face_up_scores(ps: Seq<Player>, upto: int) -> Seq<Score> {
    ps.map_values(|p: Player| exposed_score(face_up(p, upto)))
}

/// Players whose face-up cards count after `upto` cards: not folded, with that many cards.
pub open spec fn face_up_eligible(ps: Seq<Player>, upto: int) -> Seq<bool> {
    ps.map_values(|p: Player| !p.folded && p.hand@.len() >= upto)
}

/// The score of the face-up cards (positions 2 .. upto) of a hand holding at least `upto` cards.
fn face_up_score(p: &Player, upto: usize) -> (r: (u8, Vec<u8>))
    requires
        all_valid(p.hand@),
        3 <= upto <= p.hand@.len(),
    ensures
        crate::eval::score_view(r) == exposed_score(face_up(*p, upto as int)),
{
    let mut up: Vec<crate::card::Card> = Vec::new();
    let mut k: usize = 2;
    while k < upto
        invariant
            2 <= k <= upto,
            upto <= p.hand@.len(),
            up@ == p.hand@.subrange(2, k as int),
        decreases upto - k,
    {
        up.push(p.hand[k]);
        k += 1;
        assert(up@ =~= p.hand@.subrange(2, k as int));
    }
    assert(all_valid(up@)) by {
        assert forall|x: int| 0 <= x < up@.len() implies valid_card(#[trigger] up@[x]) by {
            assert(up@[x] == p.hand@[x + 2]);
        }
    }
    evaluate_exposed(up.as_slice())
}

/// The seat of the unfolded player whose face-up cards (positions 2 .. upto) score
/// best, the last listed among equals; `None` when no unfolded player holds `upto` cards.
fn best_face_up_seat(ps: &Vec<Player>, upto: usize) -> (r: Option<usize>)
    requires
        hands_valid(ps@),
        upto >= 3,
    ensures
        r is None <==> !any_eligible(face_up_eligible(ps@, upto as int)),
        r matches Some(j) ==> is_best_seat(
            face_up_scores(ps@, upto as int),
            face_up_eligible(ps@, upto as int),
            j as int,
            true,
        ),
{
    let ghost fs = face_up_scores(ps@, upto as int);
    let ghost fe = face_up_eligible(ps@, upto as int);
    let mut scores: Vec<(u8, Vec<u8>)> = Vec::new();
    let mut eligible: Vec<bool> = Vec::new();
    let mut i: usize = 0;
    while i < ps.len()
        invariant
            i <= ps@.len(),
            upto >= 3,
            hands_valid(ps@),
            fs == face_up_scores(ps@, upto as int),
            fe == face_up_eligible(ps@, upto as int),
            scores@.len() == i,
            eligible@ == fe.subrange(0, i as int),
            forall|x: int| 0 <= x < i && fe[x] ==> #[trigger] score_views(scores@)[x] == fs[x],
        decreases ps@.len() - i,
    {
        let p = &ps[i];
        let ok = !p.folded && p.hand.len() >= upto;
        let s: (u8, Vec<u8>) = if ok {
            face_up_score(p, upto)
        } else {
            (0, Vec::new())
        };
        let ghost before = scores@;
        scores.push(s);
        eligible.push(ok);
        assert(eligible@ =~= fe.subrange(0, i + 1));
        assert forall|x: int| 0 <= x < i + 1 && fe[x] implies #[trigger] score_views(scores@)[x] == fs[x] by {
            assert(score_views(scores@)[x] == crate::eval::score_view(scores@[x]));
            if x < i {
                assert(scores@[x] == before[x]);
                assert(score_views(before)[x] == fs[x]);
            } else {
                assert(fe[x] == ok);
                assert(fs[x] == exposed_score(face_up(ps@[x], upto as int)));
            }
        }
        i += 1;
    }
    assert(fe.subrange(0, i as int) =~= fe);
    let r = best_seat(&scores, &eligible, true);
    proof {
        if let Some(j) = r {
            lemma_best_seat_eligible_only(score_views(scores@), fs, fe, j as int, true);
        }
    }
    r
}

/// The name of the unfolded player whose face-up cards (positions 2 .. upto) score
/// best, the last listed among equals; `None` when no unfolded player holds `upto` cards.
fn best_face_up(ps: &Vec<Player>, upto: usize) -> (r: Option<String>)
    requires
        hands_valid(ps@),
        upto >= 3,
    ensures
        r is None <==> !any_eligible(face_up_eligible(ps@, upto as int)),
        r matches Some(w) ==> exists|j: int| #[trigger] is_best_seat(
            face_up_scores(ps@, upto as int),
            face_up_eligible(ps@, upto as int),
            j,
            true,
        ) && w@ == ps@[j].id@,
{
    match best_face_up_seat(ps, upto) {
        Some(j) => Some(ps[j].id.clone()),
        None => None,
    }
}

/// Seat `j` must post the bring-in: it holds a face-up card, no such card is lower,
/// and every earlier seat's is higher.
pub open spec fn is_bring_in_seat(ps: Seq<Player>, j: int) -> bool {
    &&& 0 <= j < ps.len()
    &&& can_bring_in(ps[j])
    &&& forall|k: int| 0 <= k < ps.len() && can_bring_in(#[trigger] ps[k]) ==> exposed_key(ps[j]) <= exposed_key(ps[k])
    &&& forall|k: int| 0 <= k < j && can_bring_in(#[trigger] ps[k]) ==> exposed_key(ps[j]) < exposed_key(ps[k])
}

/// The seat that must post the bring-in, if any player holds a face-up card.
fn bring_in_seat(ps: &Vec<Player>) -> (r: Option<usize>)
    ensures
        r is None <==> forall|k: int| 0 <= k < ps@.len() ==> !can_bring_in(#[trigger] ps@[k]),
        r matches Some(j) ==> is_bring_in_seat(ps@, j as int),
{
    let mut best: Option<usize> = None;
    let mut best_key: u32 = 0;
    let mut i: usize = 0;
    while i < ps.len()
        invariant
            i <= ps@.len(),
            best is None <==> forall|k: int| 0 <= k < i ==> !can_bring_in(#[trigger] ps@[k]),
            best matches Some(j) ==> {
                &&& j < i
                &&& can_bring_in(ps@[j as int])
                &&& best_key == exposed_key(ps@[j as int])
                &&& forall|k: int| 0 <= k < i && can_bring_in(#[trigger] ps@[k]) ==> exposed_key(ps@[j as int])
                    <= exposed_key(ps@[k])
                &&& forall|k: int| 0 <= k < j && can_bring_in(#[trigger] ps@[k]) ==> exposed_key(ps@[j as int])
                    < exposed_key(ps@[k])
            },
        decreases ps@.len() - i,
    {
        let p = &ps[i];
        if !p.folded && p.hand.len() >= 3 {
            let c = p.hand[2];
            let key: u32 = c.rank as u32 * 4 + suit_index(c.suit) as u32;
            let take = match best {
                None => true,
                Some(_) => key < best_key,
            };
            if take {
                best = Some(i);
                best_key = key;
            }
        }
        i += 1;
    }
    best
}

/// Deals the same card to each player in a pass (a street): the contract of each street.
pub open spec fn street_dealt(old_g: &SevenCardStudGame, new_g: &SevenCardStudGame) -> bool {
    &&& new_g.wf()
    &&& new_g.players == old_g.players
    &&& new_g.pot == old_g.pot
    &&& new_g.current_bet == old_g.current_bet
    &&& new_g.current_players@.len() == old_g.current_players@.len()
    &&& new_g.deck.cards@ == crate::table::deck_after_pass(old_g.deck.cards@, old_g.current_players@.len() as int)
    &&& forall|i: int| 0 <= i < old_g.current_players@.len() ==> same_but_hand(
        old_g.current_players@[i],
        #[trigger] new_g.current_players@[i],
    ) && new_g.current_players@[i].hand@ == dealt_hand(
        old_g.current_players@[i].hand@,
        old_g.deck.cards@,
        i,
    )
}

impl SevenCardStudGame {
    /// The game's invariant: the deck holds distinct valid cards and every hand holds valid cards.
    pub open spec fn wf(&self) -> bool {
        self.deck.wf() && hands_valid(self.current_players@) && hands_valid(self.players@)
    }

    /// A new game for the named players, seated in the given order, with a full deck.
    pub fn new(player_ids: Vec<String>) -> (g: SevenCardStudGame)
        ensures
            g.wf(),
            full_deck(g.deck.cards@),
            g.players@.len() == 0,
            g.pot == 0,
            g.current_bet == 0,
            g.current_players@.len() == player_ids@.len(),
            forall|i: int| 0 <= i < player_ids@.len() ==> (#[trigger] g.current_players@[i]).id@
                == player_ids@[i]@ && g.current_players@[i].hand@.len() == 0
                && !g.current_players@[i].folded && g.current_players@[i].money_won == 0
                && g.current_players@[i].money_lost == 0 && g.current_players@[i].bet_amount == 0,
    {
        let deck = Deck::new();
        let current_players = seat_players(player_ids);
        SevenCardStudGame { players: Vec::new(), deck, pot: 0, current_players, current_bet: 0 }
    }

    /// Collects the ante from every active player into the pot.
    pub fn collect_ante(&mut self, ante: i32)
        requires
            ante >= 0,
            old(self).pot >= 0,
            old(self).pot + old(self).current_players@.len() * ante <= i32::MAX,
            crate::table::can_pay(old(self).current_players@, ante as int),
            old(self).wf(),
        ensures
            final(self).wf(),
            final(self).pot == old(self).pot + old(self).current_players@.len() * ante,
            final(self).players == old(self).players,
            final(self).deck == old(self).deck,
            final(self).current_bet == old(self).current_bet,
            final(self).current_players@.len() == old(self).current_players@.len(),
            forall|i: int| 0 <= i < old(self).current_players@.len() ==> (#[trigger] final(self).current_players@[i]).money_lost
                == old(self).current_players@[i].money_lost + ante && final(self).current_players@[i].id
                == old(self).current_players@[i].id && final(self).current_players@[i].hand
                == old(self).current_players@[i].hand && final(self).current_players@[i].folded
                == old(self).current_players@[i].folded && final(self).current_players@[i].bet_amount
                == old(self).current_players@[i].bet_amount,
    {
        crate::table::collect_ante(&mut self.current_players, &mut self.pot, ante);
        assert(hands_valid(self.current_players@)) by {
            assert forall|i: int| 0 <= i < self.current_players@.len() implies all_valid(#[trigger] self.current_players@[i].hand@) by {
                assert(all_valid(old(self).current_players@[i].hand@));
            }
        }
    }

    /// Third street: a fresh shuffled deck; hands are emptied and fold flags cleared,
    /// then each player in turn gets two cards face down and one face up (the third).
    pub fn deal_third_street(&mut self)
        requires
            old(self).wf(),
        ensures
            final(self).wf(),
            final(self).players == old(self).players,
            final(self).pot == old(self).pot,
            final(self).current_bet == old(self).current_bet,
            final(self).current_players@.len() == old(self).current_players@.len(),
            forall|i: int| 0 <= i < old(self).current_players@.len() ==> {
                let p = #[trigger] final(self).current_players@[i];
                let q = old(self).current_players@[i];
                &&& p.id == q.id && !p.folded && p.money_won == q.money_won
                &&& p.money_lost == q.money_lost && p.bet_amount == q.bet_amount
            },
            exists|d: Seq<crate::card::Card>| #[trigger] full_deck(d) && (old(self).current_players@.len() * 3
                <= 52 ==> final(self).deck.cards@ == d.subrange(0, 52 - old(self).current_players@.len() * 3)
                && forall|i: int| 0 <= i < old(self).current_players@.len() ==> (#[trigger] final(self).current_players@[i]).hand@
                == third_street_cards(d, i, 3)),
    {
        self.deck = Deck::new();
        let ghost d = self.deck.cards@;
        reset_hands(&mut self.current_players);
        let ghost n = self.current_players@.len();
        let mut i: usize = 0;
        while i < self.current_players.len()
            invariant
                i <= n,
                self.wf(),
                self.current_players@.len() == n,
                n == old(self).current_players@.len(),
                self.players == old(self).players,
                self.pot == old(self).pot,
                self.current_bet == old(self).current_bet,
                full_deck(d),
                n * 3 <= 52 ==> self.deck.cards@ == d.subrange(0, 52 - 3 * i),
                forall|k: int| 0 <= k < n ==> {
                    let p = #[trigger] self.current_players@[k];
                    let q = old(self).current_players@[k];
                    &&& p.id == q.id && !p.folded && p.money_won == q.money_won
                    &&& p.money_lost == q.money_lost && p.bet_amount == q.bet_amount
                    &&& n * 3 <= 52 ==> p.hand@ == if k < i { third_street_cards(d, k, 3) } else { Seq::empty() }
                },
            decreases n - i,
        {
            let mut c: usize = 0;
            assert(third_street_cards(d, i as int, 0) =~= Seq::<crate::card::Card>::empty());
            while c < 3
                invariant
                    c <= 3,
                    i < n,
                    self.wf(),
                    self.current_players@.len() == n,
                    self.players == old(self).players,
                    self.pot == old(self).pot,
                    self.current_bet == old(self).current_bet,
                    full_deck(d),
                    n * 3 <= 52 ==> self.deck.cards@ == d.subrange(0, 52 - 3 * i - c),
                    forall|k: int| 0 <= k < n ==> {
                        let p = #[trigger] self.current_players@[k];
                        let q = old(self).current_players@[k];
                        &&& p.id == q.id && !p.folded && p.money_won == q.money_won
                        &&& p.money_lost == q.money_lost && p.bet_amount == q.bet_amount
                        &&& n * 3 <= 52 ==> p.hand@ == if k < i {
                            third_street_cards(d, k, 3)
                        } else if k == i {
                            third_street_cards(d, k, c as int)
                        } else {
                            Seq::empty()
                        }
                    },
                decreases 3 - c,
            {
                let ghost hb = self.current_players@[i as int].hand@;
                let ghost db = self.deck.cards@;
                if let Some(card) = self.deck.deal_one() {
                    assert(valid_card(db[db.len() - 1]));
                    self.current_players[i].hand.push(card);
                    assert(all_valid(self.current_players@[i as int].hand@)) by {
                        assert(all_valid(hb));
                    }
                    proof {
                        if n * 3 <= 52 {
                            assert(self.current_players@[i as int].hand@ =~= third_street_cards(d, i as int, c + 1));
                            assert(self.deck.cards@ =~= d.subrange(0, 52 - 3 * i - c - 1));
                        }
                    }
                } else {
                    proof {
                        if n * 3 <= 52 {
                            assert(3 * i + c < 52) by (nonlinear_arith)
                                requires
                                    i < n,
                                    c < 3,
                                    n * 3 <= 52,
                            ;
                        }
                    }
                }
                c += 1;
            }
            i += 1;
        }
        proof {
            assert(n * 3 == 3 * n);
        }
    }

    /// The player who must post the bring-in: among unfolded players holding a face-up
    /// card, the one whose face-up card (the third) is lowest by rank, then by suit;
    /// the first listed among equals. `None` when there is no such player.
    pub fn determine_bring_in(&self) -> (r: Option<String>)
        ensures
            r is None <==> forall|k: int| 0 <= k < self.current_players@.len() ==> !can_bring_in(
                #[trigger] self.current_players@[k],
            ),
            r matches Some(w) ==> exists|j: int| {
                &&& 0 <= j < self.current_players@.len()
                &&& can_bring_in(#[trigger] self.current_players@[j])
                &&& w@ == self.current_players@[j].id@
                &&& forall|k: int| 0 <= k < self.current_players@.len() && can_bring_in(
                    #[trigger] self.current_players@[k],
                ) ==> exposed_key(self.current_players@[j]) <= exposed_key(self.current_players@[k])
                &&& forall|k: int| 0 <= k < j && can_bring_in(#[trigger] self.current_players@[k])
                    ==> exposed_key(self.current_players@[j]) < exposed_key(self.current_players@[k])
            },
    {
        match bring_in_seat(&self.current_players) {
            Some(j) => Some(self.current_players[j].id.clone()),
            None => None,
        }
    }

    /// Fourth street: one card face up to each player, while cards last.
    pub fn deal_fourth_street(&mut self)
        requires
            old(self).wf(),
        ensures
            street_dealt(old(self), final(self)),
    {
        deal_pass(&mut self.deck, &mut self.current_players);
    }

    /// The player whose face-up cards after fourth street (the third and fourth) score
    /// best; see `best_face_up`.
    pub fn determine_best_faceup_hand_id(&self) -> (r: Option<String>)
        requires
            hands_valid(self.current_players@),
        ensures
            r is None <==> !any_eligible(face_up_eligible(self.current_players@, 4)),
            r matches Some(w) ==> exists|j: int| #[trigger] is_best_seat(
                face_up_scores(self.current_players@, 4),
                face_up_eligible(self.current_players@, 4),
                j,
                true,
            ) && w@ == self.current_players@[j].id@,
    {
        best_face_up(&self.current_players, 4)
    }

    /// Fifth street: one card face up to each player, while cards last.
    pub fn deal_fifth_street(&mut self)
        requires
            old(self).wf(),
        ensures
            street_dealt(old(self), final(self)),
    {
        deal_pass(&mut self.deck, &mut self.current_players);
    }

    /// The player whose face-up cards after fifth street (third to fifth) score best.
    pub fn determine_best_faceup_hand_after_fifth_street(&self) -> (r: Option<String>)
        requires
            hands_valid(self.current_players@),
        ensures
            r is None <==> !any_eligible(face_up_eligible(self.current_players@, 5)),
            r matches Some(w) ==> exists|j: int| #[trigger] is_best_seat(
                face_up_scores(self.current_players@, 5),
                face_up_eligible(self.current_players@, 5),
                j,
                true,
            ) && w@ == self.current_players@[j].id@,
    {
        best_face_up(&self.current_players, 5)
    }

    /// Sixth street: one card face up to each player, while cards last.
    pub fn deal_sixth_street(&mut self)
        requires
            old(self).wf(),
        ensures
            street_dealt(old(self), final(self)),
    {
        deal_pass(&mut self.deck, &mut self.current_players);
    }

    /// The player whose face-up cards after sixth street (third to sixth) score best.
    pub fn determine_best_faceup_hand_after_sixth_street(&self) -> (r: Option<String>)
        requires
            hands_valid(self.current_players@),
        ensures
            r is None <==> !any_eligible(face_up_eligible(self.current_players@, 6)),
            r matches Some(w) ==> exists|j: int| #[trigger] is_best_seat(
                face_up_scores(self.current_players@, 6),
                face_up_eligible(self.current_players@, 6),
                j,
                true,
            ) && w@ == self.current_players@[j].id@,
    {
        best_face_up(&self.current_players, 6)
    }

    /// Seventh street: one card face down to each player, while cards last.
    pub fn deal_seventh_street(&mut self)
        requires
            old(self).wf(),
        ensures
            street_dealt(old(self), final(self)),
    {
        deal_pass(&mut self.deck, &mut self.current_players);
    }

    /// The winner at showdown: the unfolded player whose best five of seven cards score
    /// best, the first listed among equals; `None` when every player has folded.
    pub fn showdown(&self) -> (r: Option<String>)
        requires
            hands_valid(self.current_players@),
        ensures
            r is None <==> !any_eligible(not_folded(self.current_players@)),
            r matches Some(w) ==> exists|j: int| #[trigger] is_best_seat(
                showdown_scores(self.current_players@, Seq::<crate::card::Card>::empty()),
                not_folded(self.current_players@),
                j,
                false,
            ) && w@ == self.current_players@[j].id@,
    {
        let none: Vec<crate::card::Card> = Vec::new();
        showdown_winner(&self.current_players, &none)
    }

    /// The seat that opens betting round `k`: on third street the bring-in, then the
    /// best face-up cards so far (after seventh street, the cards up after sixth);
    /// the first seat when no player qualifies.
    pub open spec fn opener(&self, k: usize, j: usize) -> bool {
        let ps = self.current_players@;
        if k == 0 {
            if exists|x: int| 0 <= x < ps.len() && can_bring_in(#[trigger] ps[x]) {
                is_bring_in_seat(ps, j as int)
            } else {
                j == 0
            }
        } else {
            let upto = if k >= 3 { 6int } else { k + 3 };
            if any_eligible(face_up_eligible(ps, upto)) {
                is_best_seat(face_up_scores(ps, upto), face_up_eligible(ps, upto), j as int, true)
            } else {
                j == 0
            }
        }
    }

    /// Opens betting round `k`: from fourth street on every player's bet starts again
    /// from zero, and the opener acts first.
    pub fn open_round(&mut self, k: usize) -> (r: BettingRound)
        requires
            old(self).current_players@.len() >= 1,
            hands_valid(old(self).current_players@),
        ensures
            r == BettingRound::opened(r.actor),
            old(self).opener(k, r.actor),
            final(self).current_players@.len() == old(self).current_players@.len(),
            final(self).players == old(self).players,
            final(self).deck == old(self).deck,
            final(self).pot == old(self).pot,
            final(self).current_bet == old(self).current_bet,
            forall|i: int| 0 <= i < old(self).current_players@.len() ==> {
                let p = #[trigger] final(self).current_players@[i];
                let q = old(self).current_players@[i];
                &&& p.id == q.id && p.hand == q.hand && p.folded == q.folded
                &&& p.money_won == q.money_won && p.money_lost == q.money_lost
                &&& p.bet_amount == if k > 0 { 0 } else { q.bet_amount }
            },
    {
        let seat = if k == 0 {
            bring_in_seat(&self.current_players)
        } else {
            let upto: usize = if k >= 3 { 6 } else { k + 3 };
            best_face_up_seat(&self.current_players, upto)
        };
        let start: usize = match seat {
            Some(j) => j,
            None => 0,
        };
        if k > 0 {
            reset_bets(&mut self.current_players);
        }
        BettingRound::open(start, self.current_players.len())
    }
}

} // verus!
