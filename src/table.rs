//! Work shared by the three variants: dealing a card to each seat, resetting
//! hands, collecting forced stakes and picking the best hand among the seats.
use vstd::prelude::*;
use crate::card::{Card, all_valid};
use crate::deck::Deck;
use crate::eval::{
    Score, score_le, score_lt, score_greater, score_view, lemma_score_order, best_five_score,
    best_score_of,
};
use crate::player::Player;

verus! {

/// `q` is `p` with possibly another hand.
pub open spec fn same_but_hand(p: Player, q: Player) -> bool {
    &&& q.id == p.id
    &&& q.folded == p.folded
    &&& q.money_won == p.money_won
    &&& q.money_lost == p.money_lost
    &&& q.bet_amount == p.bet_amount
}

/// Every player's hand holds valid cards only.
pub open spec fn hands_valid(ps: Seq<Player>) -> bool {
    forall|i: int| 0 <= i < ps.len() ==> all_valid(#[trigger] ps[i].hand@)
}

/// The cards that `n` seats get from one pass around the table: seat `i` gets the
/// `i`-th card from the top while cards last.
pub open spec fn dealt_hand(old_hand: Seq<Card>, deck: Seq<Card>, i: int) -> Seq<Card> {
    if i < deck.len() { old_hand.push(deck[deck.len() - 1 - i]) } else { old_hand }
}

/// What is left of the deck after a pass around `n` seats.
pub open spec fn deck_after_pass(deck: Seq<Card>, n: int) -> Seq<Card> {
    if n < deck.len() { deck.subrange(0, deck.len() - n) } else { seq![] }
}

/// Whether two texts are equal.
pub fn same_text(a: &str, b: &str) -> (r: bool)
    ensures
        r == (a@ == b@),
{
    let n = a.unicode_len();
    if n != b.unicode_len() {
        return false;
    }
    let mut i: usize = 0;
    while i < n
        invariant
            n == a@.len(),
            n == b@.len(),
            i <= n,
            forall|j: int| 0 <= j < i ==> a@[j] == b@[j],
        decreases n - i,
    {
        if a.get_char(i) != b.get_char(i) {
            return false;
        }
        i += 1;
    }
    assert(a@ =~= b@);
    true
}

/// Deals one card from the top of the deck to each seat in order, while cards last.
pub fn deal_pass(deck: &mut Deck, ps: &mut Vec<Player>)
    requires
        old(deck).wf(),
        hands_valid(old(ps)@),
    ensures
        final(deck).wf(),
        hands_valid(final(ps)@),
        final(deck).cards@ == deck_after_pass(old(deck).cards@, old(ps)@.len() as int),
        final(ps)@.len() == old(ps)@.len(),
        forall|i: int| 0 <= i < old(ps)@.len() ==> same_but_hand(old(ps)@[i], #[trigger] final(ps)@[i])
            && final(ps)@[i].hand@ == dealt_hand(old(ps)@[i].hand@, old(deck).cards@, i),
{
    let ghost d0 = deck.cards@;
    let mut i: usize = 0;
    while i < ps.len()
        invariant
            i <= ps@.len(),
            ps@.len() == old(ps)@.len(),
            deck.wf(),
            hands_valid(ps@),
            deck.cards@ == deck_after_pass(d0, i as int),
            d0 == old(deck).cards@,
            forall|j: int| 0 <= j < ps@.len() ==> same_but_hand(old(ps)@[j], #[trigger] ps@[j]),
            forall|j: int| 0 <= j < i ==> (#[trigger] ps@[j]).hand@ == dealt_hand(old(ps)@[j].hand@, d0, j),
            forall|j: int| i <= j < ps@.len() ==> (#[trigger] ps@[j]).hand@ == old(ps)@[j].hand@,
        decreases ps@.len() - i,
    {
        let ghost before = ps@;
        let ghost dk = deck.cards@;
        if let Some(card) = deck.deal_one() {
            assert(crate::card::valid_card(dk[dk.len() - 1]));
            assert(card == d0[d0.len() - 1 - i]) by {
                assert(dk =~= d0.subrange(0, d0.len() - i));
            }
            ps[i].hand.push(card);
            assert(all_valid(ps@[i as int].hand@)) by {
                assert(all_valid(before[i as int].hand@));
            }
            assert(deck.cards@ =~= deck_after_pass(d0, i + 1));
        } else {
            assert(deck.cards@ =~= deck_after_pass(d0, i + 1));
        }
        i += 1;
    }
}

/// Empties every hand and clears every fold flag.
pub fn reset_hands(ps: &mut Vec<Player>)
    ensures
        final(ps)@.len() == old(ps)@.len(),
        hands_valid(final(ps)@),
        forall|i: int| 0 <= i < old(ps)@.len() ==> (#[trigger] final(ps)@[i]).hand@.len() == 0
            && !final(ps)@[i].folded && final(ps)@[i].id == old(ps)@[i].id
            && final(ps)@[i].money_won == old(ps)@[i].money_won
            && final(ps)@[i].money_lost == old(ps)@[i].money_lost
            && final(ps)@[i].bet_amount == old(ps)@[i].bet_amount,
{
    let mut i: usize = 0;
    while i < ps.len()
        invariant
            i <= ps@.len(),
            ps@.len() == old(ps)@.len(),
            forall|j: int| 0 <= j < i ==> (#[trigger] ps@[j]).hand@.len() == 0 && !ps@[j].folded,
            forall|j: int| 0 <= j < ps@.len() ==> (#[trigger] ps@[j]).id == old(ps)@[j].id
                && ps@[j].money_won == old(ps)@[j].money_won
                && ps@[j].money_lost == old(ps)@[j].money_lost
                && ps@[j].bet_amount == old(ps)@[j].bet_amount,
        decreases ps@.len() - i,
    {
        ps[i].hand.clear();
        ps[i].folded = false;
        i += 1;
    }
}

/// Sets every player's bet for the round back to zero.
pub fn reset_bets(ps: &mut Vec<Player>)
    ensures
        final(ps)@.len() == old(ps)@.len(),
        forall|i: int| 0 <= i < old(ps)@.len() ==> (#[trigger] final(ps)@[i]).bet_amount == 0
            && final(ps)@[i].id == old(ps)@[i].id && final(ps)@[i].hand == old(ps)@[i].hand
            && final(ps)@[i].folded == old(ps)@[i].folded
            && final(ps)@[i].money_won == old(ps)@[i].money_won
            && final(ps)@[i].money_lost == old(ps)@[i].money_lost,
{
    let mut i: usize = 0;
    while i < ps.len()
        invariant
            i <= ps@.len(),
            ps@.len() == old(ps)@.len(),
            forall|j: int| 0 <= j < i ==> (#[trigger] ps@[j]).bet_amount == 0,
            forall|j: int| 0 <= j < ps@.len() ==> (#[trigger] ps@[j]).id == old(ps)@[j].id
                && ps@[j].hand == old(ps)@[j].hand && ps@[j].folded == old(ps)@[j].folded
                && ps@[j].money_won == old(ps)@[j].money_won
                && ps@[j].money_lost == old(ps)@[j].money_lost,
        decreases ps@.len() - i,
    {
        ps[i].bet_amount = 0;
        i += 1;
    }
}

/// The views of a list of scores.
pub open spec fn score_views(s: Seq<(u8, Vec<u8>)>) -> Seq<Score> {
    s.map_values(|x: (u8, Vec<u8>)| score_view(x))
}

/// Seat `j` is eligible and no eligible seat beats it; among equal best scores
/// it is the last one when `prefer_last`, else the first one.
pub open spec fn is_best_seat(scores: Seq<Score>, eligible: Seq<bool>, j: int, prefer_last: bool) -> bool {
    &&& 0 <= j < scores.len()
    &&& eligible[j]
    &&& forall|k: int| 0 <= k < scores.len() && eligible[k] ==> score_le(#[trigger] scores[k], scores[j])
    &&& forall|k: int|
        0 <= k < scores.len() && eligible[k] && (if prefer_last { k > j } else { k < j })
            ==> score_lt(#[trigger] scores[k], scores[j])
}

/// Some seat is eligible.
pub open spec fn any_eligible(eligible: Seq<bool>) -> bool {
    exists|k: int| 0 <= k < eligible.len() && #[trigger] eligible[k]
}

/// The index of the best-scoring eligible seat, ties going to the last such seat
/// when `prefer_last` and to the first otherwise; `None` when no seat is eligible.
pub fn best_seat(scores: &Vec<(u8, Vec<u8>)>, eligible: &Vec<bool>, prefer_last: bool) -> (r: Option<usize>)
    requires
        eligible@.len() == scores@.len(),
    ensures
        r is None <==> !any_eligible(eligible@),
        r matches Some(j) ==> is_best_seat(score_views(scores@), eligible@, j as int, prefer_last),
{
    let ghost sv = score_views(scores@);
    let mut best: Option<usize> = None;
    let mut k: usize = 0;
    while k < scores.len()
        invariant
            k <= scores@.len(),
            eligible@.len() == scores@.len(),
            sv == score_views(scores@),
            best is None <==> forall|q: int| 0 <= q < k ==> !#[trigger] eligible@[q],
            best matches Some(j) ==> j < k && is_best_seat(
                sv.subrange(0, k as int),
                eligible@.subrange(0, k as int),
                j as int,
                prefer_last,
            ),
        decreases scores@.len() - k,
    {
        if eligible[k] {
            let take = match best {
                None => true,
                Some(j) => if prefer_last {
                    !score_greater(&scores[j], &scores[k])
                } else {
                    score_greater(&scores[k], &scores[j])
                },
            };
            proof {
                if let Some(j) = best {
                    lemma_score_order(sv[k as int], sv[j as int], sv[j as int]);
                    assert forall|q: int| 0 <= q < k && eligible@[q] implies score_le(
                        #[trigger] sv[q],
                        sv[k as int],
                    ) || !take by {
                        assert(sv.subrange(0, k as int)[q] == sv[q]);
                        assert(eligible@.subrange(0, k as int)[q]);
                        lemma_score_order(sv[q], sv[j as int], sv[k as int]);
                    }
                    assert forall|q: int| 0 <= q < k && eligible@[q] && !prefer_last && take implies score_lt(
                        #[trigger] sv[q],
                        sv[k as int],
                    ) by {
                        assert(sv.subrange(0, k as int)[q] == sv[q]);
                        assert(eligible@.subrange(0, k as int)[q]);
                        lemma_score_order(sv[q], sv[j as int], sv[k as int]);
                    }
                }
            }
            if take {
                best = Some(k);
            }
        }
        proof {
            let n = (k + 1) as int;
            if let Some(j) = best {
                assert forall|q: int| 0 <= q < n && eligible@.subrange(0, n)[q] implies score_le(
                    #[trigger] sv.subrange(0, n)[q],
                    sv.subrange(0, n)[j as int],
                ) by {
                    if q < k {
                        assert(sv.subrange(0, k as int)[q] == sv[q]);
                        assert(eligible@.subrange(0, k as int)[q] == eligible@[q]);
                    }
                    if q == k && j != k {
                        lemma_score_order(sv[k as int], sv[j as int], sv[j as int]);
                    }
                }
                assert forall|q: int|
                    0 <= q < n && eligible@.subrange(0, n)[q] && (if prefer_last { q > j } else { q < j })
                        implies score_lt(#[trigger] sv.subrange(0, n)[q], sv.subrange(0, n)[j as int]) by {
                    if q < k {
                        assert(sv.subrange(0, k as int)[q] == sv[q]);
                        assert(eligible@.subrange(0, k as int)[q] == eligible@[q]);
                    }
                    if q == k && j != k {
                        lemma_score_order(sv[k as int], sv[j as int], sv[j as int]);
                    }
                }
            }
        }
        k += 1;
    }
    proof {
        assert(sv.subrange(0, scores@.len() as int) =~= sv);
        assert(eligible@.subrange(0, scores@.len() as int) =~= eligible@);
    }
    best
}

/// Only the scores of eligible seats matter for which seat is best.
pub proof fn lemma_best_seat_eligible_only(a: Seq<Score>, b: Seq<Score>, eligible: Seq<bool>, j: int, prefer_last: bool)
    requires
        a.len() == b.len(),
        forall|k: int| 0 <= k < a.len() && eligible[k] ==> #[trigger] a[k] == b[k],
        is_best_seat(a, eligible, j, prefer_last),
    ensures
        is_best_seat(b, eligible, j, prefer_last),
{
    assert forall|k: int| 0 <= k < b.len() && eligible[k] implies score_le(#[trigger] b[k], b[j]) by {
        assert(a[k] == b[k]);
        assert(score_le(a[k], a[j]));
    }
    assert forall|k: int|
        0 <= k < b.len() && eligible[k] && (if prefer_last { k > j } else { k < j }) implies score_lt(
        #[trigger] b[k],
        b[j],
    ) by {
        assert(a[k] == b[k]);
        assert(score_lt(a[k], a[j]));
    }
}

/// Each player's best five cards out of their hand and the shared cards.
pub open spec fn showdown_scores(ps: Seq<Player>, community: Seq<Card>) -> Seq<Score> {
    ps.map_values(|p: Player| best_five_score(p.hand@ + community))
}

/// Which players have not folded.
pub open spec fn not_folded(ps: Seq<Player>) -> Seq<bool> {
    ps.map_values(|p: Player| !p.folded)
}

/// The name of the unfolded player whose hand, with the shared cards, makes the best
/// five-card hand, the first listed among equals; `None` when every player has folded.
pub fn showdown_winner(ps: &Vec<Player>, community: &Vec<Card>) -> (r: Option<String>)
    requires
        hands_valid(ps@),
        all_valid(community@),
    ensures
        r is None <==> !any_eligible(not_folded(ps@)),
        r matches Some(w) ==> exists|j: int| #[trigger] is_best_seat(
            showdown_scores(ps@, community@),
            not_folded(ps@),
            j,
            false,
        ) && w@ == ps@[j].id@,
{
    let ghost fs = showdown_scores(ps@, community@);
    let ghost fe = not_folded(ps@);
    let mut scores: Vec<(u8, Vec<u8>)> = Vec::new();
    let mut eligible: Vec<bool> = Vec::new();
    let mut i: usize = 0;
    while i < ps.len()
        invariant
            i <= ps@.len(),
            hands_valid(ps@),
            all_valid(community@),
            fs == showdown_scores(ps@, community@),
            fe == not_folded(ps@),
            scores@.len() == i,
            eligible@ == fe.subrange(0, i as int),
            forall|x: int| 0 <= x < i ==> #[trigger] score_views(scores@)[x] == fs[x],
        decreases ps@.len() - i,
    {
        let p = &ps[i];
        let mut cards: Vec<Card> = p.hand.clone();
        let mut extra: Vec<Card> = community.clone();
        cards.append(&mut extra);
        assert(all_valid(cards@)) by {
            assert(all_valid(ps@[i as int].hand@));
            assert forall|x: int| 0 <= x < cards@.len() implies crate::card::valid_card(#[trigger] cards@[x]) by {
                if x < p.hand@.len() {
                    assert(cards@[x] == p.hand@[x]);
                } else {
                    assert(cards@[x] == community@[x - p.hand@.len()]);
                }
            }
        }
        let s = best_score_of(cards.as_slice());
        let ghost before = scores@;
        scores.push(s);
        eligible.push(!p.folded);
        assert(eligible@ =~= fe.subrange(0, i + 1));
        assert forall|x: int| 0 <= x < i + 1 implies #[trigger] score_views(scores@)[x] == fs[x] by {
            assert(score_views(scores@)[x] == score_view(scores@[x]));
            if x < i {
                assert(scores@[x] == before[x]);
                assert(score_views(before)[x] == fs[x]);
            } else {
                assert(fs[x] == best_five_score(ps@[x].hand@ + community@));
            }
        }
        i += 1;
    }
    assert(fe.subrange(0, i as int) =~= fe);
    assert(score_views(scores@) =~= fs);
    match best_seat(&scores, &eligible, false) {
        Some(j) => Some(ps[j].id.clone()),
        None => None,
    }
}

/// Every player can put in `ante` more without overflow.
pub open spec fn can_pay(ps: Seq<Player>, ante: int) -> bool {
    forall|i: int| 0 <= i < ps.len() ==> (#[trigger] ps[i]).money_lost + ante <= i32::MAX
}

/// Collects the same forced stake from every player: each one's money put in grows
/// by `ante` and the pot by `ante` per player.
pub fn collect_ante(ps: &mut Vec<Player>, pot: &mut i32, ante: i32)
    requires
        ante >= 0,
        *old(pot) >= 0,
        *old(pot) + old(ps)@.len() * ante <= i32::MAX,
        can_pay(old(ps)@, ante as int),
    ensures
        *final(pot) == *old(pot) + old(ps)@.len() * ante,
        final(ps)@.len() == old(ps)@.len(),
        forall|i: int| 0 <= i < old(ps)@.len() ==> (#[trigger] final(ps)@[i]).money_lost
            == old(ps)@[i].money_lost + ante && final(ps)@[i].id == old(ps)@[i].id
            && final(ps)@[i].hand == old(ps)@[i].hand && final(ps)@[i].folded == old(ps)@[i].folded
            && final(ps)@[i].money_won == old(ps)@[i].money_won
            && final(ps)@[i].bet_amount == old(ps)@[i].bet_amount,
{
    let ghost n = ps@.len();
    let mut i: usize = 0;
    while i < ps.len()
        invariant
            i <= n,
            n == ps@.len(),
            n == old(ps)@.len(),
            ante >= 0,
            *old(pot) >= 0,
            *old(pot) + n * ante <= i32::MAX,
            *pot == *old(pot) + i * ante,
            can_pay(old(ps)@, ante as int),
            forall|k: int| 0 <= k < n ==> (#[trigger] ps@[k]).money_lost == old(ps)@[k].money_lost + if k
                < i {
                ante as int
            } else {
                0
            } && ps@[k].id == old(ps)@[k].id && ps@[k].hand == old(ps)@[k].hand && ps@[k].folded
                == old(ps)@[k].folded && ps@[k].money_won == old(ps)@[k].money_won
                && ps@[k].bet_amount == old(ps)@[k].bet_amount,
        decreases n - i,
    {
        proof {
            assert(i * ante + ante <= n * ante) by (nonlinear_arith)
                requires
                    i < n,
                    ante >= 0,
            ;
            assert(i * ante + ante == (i + 1) * ante) by (nonlinear_arith);
            assert(i * ante >= 0) by (nonlinear_arith)
                requires
                    ante >= 0,
            ;
        }
        ps[i].money_lost = ps[i].money_lost + ante;
        *pot = *pot + ante;
        i += 1;
    }
}

/// The `k`-th card that seat `i` of `n` gets when passes are dealt around the table
/// from the top of `d`.
pub open spec fn pass_card(d: Seq<Card>, n: int, i: int, k: int) -> Card {
    d[d.len() - 1 - (k * n + i)]
}

/// The cards seat `i` of `n` gets from `passes` passes around the table from `d`:
/// in pass `k` it gets `pass_card(d, n, i, k)` if the deck still has a card for it.
pub open spec fn pass_hand(d: Seq<Card>, n: int, i: int, passes: nat) -> Seq<Card>
    decreases passes,
{
    if passes == 0 {
        seq![]
    } else {
        let h = pass_hand(d, n, i, (passes - 1) as nat);
        if (passes - 1) * n + i < d.len() { h.push(pass_card(d, n, i, passes - 1)) } else { h }
    }
}

/// How many of the first `m` cards of a deck of `len` cards can be dealt.
pub open spec fn dealt_count(len: int, m: int) -> int {
    if m < len { m } else { len }
}

/// With enough cards for every pass, each seat gets one card per pass.
pub proof fn lemma_pass_hand_full(d: Seq<Card>, n: int, i: int, passes: nat)
    requires
        0 <= i < n,
        passes * n <= d.len(),
    ensures
        pass_hand(d, n, i, passes).len() == passes,
    decreases passes,
{
    if passes > 0 {
        assert((passes - 1) * n + i < passes * n) by (nonlinear_arith)
            requires
                i < n,
                passes >= 1,
        ;
        assert((passes - 1) * n <= passes * n) by (nonlinear_arith)
            requires
                n >= 0,
                passes >= 1,
        ;
        lemma_pass_hand_full(d, n, i, (passes - 1) as nat);
    }
}

/// Deals `passes` passes around the table, one card per seat per pass while cards
/// last: seat `i` gets `pass_hand(deck, n, i, passes)` and the deck keeps the rest.
pub fn deal_passes(deck: &mut Deck, ps: &mut Vec<Player>, passes: usize)
    requires
        old(deck).wf(),
        hands_valid(old(ps)@),
    ensures
        final(deck).wf(),
        hands_valid(final(ps)@),
        final(ps)@.len() == old(ps)@.len(),
        forall|i: int| 0 <= i < old(ps)@.len() ==> same_but_hand(old(ps)@[i], #[trigger] final(ps)@[i]),
        final(deck).cards@ == old(deck).cards@.subrange(
            0,
            old(deck).cards@.len() - dealt_count(old(deck).cards@.len() as int, (passes * old(ps)@.len()) as int),
        ),
        forall|i: int| 0 <= i < old(ps)@.len() ==> (#[trigger] final(ps)@[i]).hand@ == old(ps)@[i].hand@
            + pass_hand(old(deck).cards@, old(ps)@.len() as int, i, passes as nat),
{
    let ghost d = deck.cards@;
    let ghost n = ps@.len() as int;
    let mut r: usize = 0;
    assert(d.subrange(0, d.len() as int) =~= d);
    while r < passes
        invariant
            r <= passes,
            deck.wf(),
            hands_valid(ps@),
            ps@.len() == n,
            n == old(ps)@.len(),
            d == old(deck).cards@,
            forall|i: int| 0 <= i < n ==> same_but_hand(old(ps)@[i], #[trigger] ps@[i]),
            deck.cards@ == d.subrange(0, d.len() - dealt_count(d.len() as int, r * n)),
            forall|i: int| 0 <= i < n ==> (#[trigger] ps@[i]).hand@ == old(ps)@[i].hand@ + pass_hand(
                d,
                n,
                i,
                r as nat,
            ),
        decreases passes - r,
    {
        let ghost db = deck.cards@;
        assert(r * n + n == (r + 1) * n) by (nonlinear_arith);
        assert(r * n >= 0) by (nonlinear_arith)
            requires
                n >= 0,
        ;
        deal_pass(deck, ps);
        proof {
            assert(deck.cards@ =~= d.subrange(0, d.len() - dealt_count(d.len() as int, (r + 1) * n)));
            assert forall|i: int| 0 <= i < n implies (#[trigger] ps@[i]).hand@ == old(ps)@[i].hand@
                + pass_hand(d, n, i, (r + 1) as nat) by {
                if r * n + i < d.len() {
                    assert(db[db.len() - 1 - i] == pass_card(d, n, i, r as int));
                    assert(old(ps)@[i].hand@ + pass_hand(d, n, i, (r + 1) as nat) =~= (old(ps)@[i].hand@
                        + pass_hand(d, n, i, r as nat)).push(pass_card(d, n, i, r as int)));
                } else {
                    assert(pass_hand(d, n, i, (r + 1) as nat) == pass_hand(d, n, i, r as nat));
                }
            }
        }
        r += 1;
    }
}

} // verus!
