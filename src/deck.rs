//! The 52-card deck: built in full, shuffled, and dealt from the top.
use vstd::prelude::*;
use rand::seq::SliceRandom;
use crate::card::{Card, Suit, valid_card, all_valid, suit_order};

verus! {

/// The number of cards in a full deck.
pub const DECK_SIZE: usize = 52;

/// Position of a rank within a suit when the deck is built: ace first, then 2..K.
pub open spec fn rank_position(r: u8) -> int {
    if r == 14 { 0 } else { r - 1 }
}

/// Where a card stands in a freshly built, unshuffled deck.
pub open spec fn build_position(c: Card) -> int {
    suit_order(c.suit) * 13 + rank_position(c.rank)
}

/// A sequence of distinct valid cards: what a deck holds at any time.
pub open spec fn distinct_cards(s: Seq<Card>) -> bool {
    s.no_duplicates() && all_valid(s)
}

/// All 52 cards, each once, in some order.
pub open spec fn full_deck(s: Seq<Card>) -> bool {
    s.len() == DECK_SIZE && distinct_cards(s)
}

/// A deck of playing cards; the top card is the last one.
#[derive(Debug, Clone)]
pub struct Deck {
    pub cards: Vec<Card>,
}

/// Relies on rand's `SliceRandom::shuffle` with the thread-local generator: it
/// only swaps elements of the slice, so the result is a permutation of the input.
#[verifier::external_body]
fn shuffle_cards(cards: &mut Vec<Card>)
    ensures
        final(cards)@.to_multiset() == old(cards)@.to_multiset(),
{
    let mut rng = rand::thread_rng();
    cards.shuffle(&mut rng);
}

proof fn lemma_permutation_keeps_distinct(a: Seq<Card>, b: Seq<Card>)
    requires
        distinct_cards(a),
        a.to_multiset() == b.to_multiset(),
    ensures
        distinct_cards(b),
        b.len() == a.len(),
{
    a.to_multiset_ensures();
    b.to_multiset_ensures();
    a.lemma_multiset_has_no_duplicates();
    b.lemma_multiset_has_no_duplicates_conv();
    assert forall|i: int| 0 <= i < b.len() implies valid_card(#[trigger] b[i]) by {
        assert(b.to_multiset().count(b[i]) > 0);
        assert(a.contains(b[i]));
    }
}

impl Deck {
    /// The deck's invariant: distinct valid cards.
    pub open spec fn wf(&self) -> bool {
        distinct_cards(self.cards@)
    }

    /// Creates a new deck holding all 52 cards, shuffled.
    pub fn new() -> (d: Deck)
        ensures
            full_deck(d.cards@),
    {
        let suits = [Suit::Hearts, Suit::Diamonds, Suit::Clubs, Suit::Spades];
        let mut cards: Vec<Card> = Vec::with_capacity(DECK_SIZE);
        let mut si: usize = 0;
        while si < 4
            invariant
                si <= 4,
                cards@.len() == 13 * si,
                suits@ == seq![Suit::Hearts, Suit::Diamonds, Suit::Clubs, Suit::Spades],
                forall|j: int| 0 <= j < cards@.len() ==> valid_card(#[trigger] cards@[j])
                    && build_position(cards@[j]) == j,
            decreases 4 - si,
        {
            let suit = suits[si];
            assert(suit_order(suit) == si);
            let mut ri: u8 = 0;
            while ri < 13
                invariant
                    si < 4,
                    ri <= 13,
                    suit_order(suit) == si,
                    cards@.len() == 13 * si + ri,
                    forall|j: int| 0 <= j < cards@.len() ==> valid_card(#[trigger] cards@[j])
                        && build_position(cards@[j]) == j,
                decreases 13 - ri,
            {
                let rank: u8 = if ri == 0 { 14 } else { ri + 1 };
                cards.push(Card { rank, suit });
                ri += 1;
            }
            si += 1;
        }
        assert(cards@.no_duplicates()) by {
            assert forall|i: int, j: int|
                0 <= i < cards@.len() && 0 <= j < cards@.len() && i != j implies
                #[trigger] cards@[i] != #[trigger] cards@[j] by {
                assert(build_position(cards@[i]) == i);
                assert(build_position(cards@[j]) == j);
            }
        }
        let mut deck = Deck { cards };
        deck.shuffle();
        deck
    }

    /// Shuffles the deck: the same cards, in a random order.
    pub fn shuffle(&mut self)
        ensures
            final(self).cards@.to_multiset() == old(self).cards@.to_multiset(),
            old(self).wf() ==> final(self).wf(),
            final(self).cards@.len() == old(self).cards@.len(),
    {
        shuffle_cards(&mut self.cards);
        proof {
            old(self).cards@.to_multiset_ensures();
            self.cards@.to_multiset_ensures();
            if old(self).wf() {
                lemma_permutation_keeps_distinct(old(self).cards@, self.cards@);
            }
        }
    }

    /// Deals one card: removes and returns the top card, or `None` when the deck is empty.
    pub fn deal_one(&mut self) -> (r: Option<Card>)
        ensures
            old(self).cards@.len() == 0 ==> r is None && final(self).cards@ == old(self).cards@,
            old(self).cards@.len() > 0 ==> r == Some(old(self).cards@.last())
                && final(self).cards@ == old(self).cards@.drop_last(),
            old(self).wf() ==> final(self).wf(),
    {
        let r = self.cards.pop();
        proof {
            if old(self).cards@.len() > 0 && old(self).wf() {
                let s = old(self).cards@;
                assert forall|i: int, j: int|
                    0 <= i < s.len() - 1 && 0 <= j < s.len() - 1 && i != j implies
                    s.drop_last()[i] != s.drop_last()[j] by {
                    assert(s[i] != s[j]);
                }
            }
        }
        r
    }
}

} // verus!
