//! Hand evaluation: a hand's score is a category (1 high card .. 10 royal flush)
//! and a list of tie-break ranks; scores compare category first, then the
//! tie-break list lexicographically.
use vstd::prelude::*;
use crate::card::{Card, Suit, all_valid, valid_card};
use itertools::Itertools;

verus! {

/// Number of slots in a per-rank table (ranks are at most 14).
pub const RANK_SLOTS: usize = 15;

/// How many cards of `h` carry rank `r`.
pub open spec fn rank_count(h: Seq<Card>, r: int) -> nat
    decreases h.len(),
{
    if h.len() == 0 {
        0
    } else {
        rank_count(h.drop_last(), r) + if h.last().rank == r { 1nat } else { 0nat }
    }
}

/// How many cards of `h` have rank at least `r`.
pub open spec fn count_at_least(h: Seq<Card>, r: int) -> nat
    decreases h.len(),
{
    if h.len() == 0 {
        0
    } else {
        count_at_least(h.drop_last(), r) + if h.last().rank >= r { 1nat } else { 0nat }
    }
}

/// The ranks of `h` that are at least `r`, highest first, each as often as it occurs.
pub open spec fn ranks_from(h: Seq<Card>, r: int) -> Seq<u8>
    decreases 15 - r,
{
    if r >= 15 {
        seq![]
    } else {
        ranks_from(h, r + 1) + Seq::new(rank_count(h, r), |_i: int| r as u8)
    }
}

/// All ranks of `h`, highest first.
pub open spec fn ranks_desc(h: Seq<Card>) -> Seq<u8> {
    ranks_from(h, 0)
}

/// The ranks at least `r` that occur exactly `m` times in `h`, highest first.
pub open spec fn groups_from(h: Seq<Card>, m: nat, r: int) -> Seq<u8>
    decreases 15 - r,
{
    if r >= 15 {
        seq![]
    } else {
        groups_from(h, m, r + 1) + if rank_count(h, r) == m { seq![r as u8] } else { seq![] }
    }
}

/// The ranks that occur exactly `m` times in `h`, highest first.
pub open spec fn groups(h: Seq<Card>, m: nat) -> Seq<u8> {
    groups_from(h, m, 0)
}

/// All cards of `h` share the suit of the first.
pub open spec fn is_flush(h: Seq<Card>) -> bool {
    forall|i: int| 0 <= i < h.len() ==> #[trigger] h[i].suit == h[0].suit
}

/// The ranks are A, 5, 4, 3, 2: the ace plays low.
pub open spec fn is_wheel(h: Seq<Card>) -> bool {
    ranks_desc(h) == seq![14u8, 5u8, 4u8, 3u8, 2u8]
}

/// The ranks run down by one from card to card, or form the wheel.
pub open spec fn is_straight(h: Seq<Card>) -> bool {
    let d = ranks_desc(h);
    is_wheel(h) || forall|i: int| 0 <= i < d.len() - 1 ==> #[trigger] d[i] == d[i + 1] + 1
}

/// The high card of a straight; the wheel's is the five.
pub open spec fn straight_high(h: Seq<Card>) -> u8 {
    if is_wheel(h) { 5 } else { ranks_desc(h)[0] }
}

/// Five cards with exactly `a` ranks occurring `ma` times and `b` ranks occurring `mb` times.
pub open spec fn shape(h: Seq<Card>, ma: nat, a: nat, mb: nat, b: nat) -> bool {
    h.len() == 5 && groups(h, ma).len() == a && groups(h, mb).len() == b
}

/// A score: the category and the tie-break ranks.
pub type Score = (u8, Seq<u8>);

/// The score of a hand. An empty hand scores `(0, [])`, below every real hand.
pub open spec fn score(h: Seq<Card>) -> Score {
    let d = ranks_desc(h);
    if h.len() == 0 {
        (0, seq![])
    } else if is_flush(h) && is_straight(h) {
        if d.last() == 10 { (10, seq![]) } else { (9, seq![straight_high(h)]) }
    } else if shape(h, 4, 1, 1, 1) {
        (8, groups(h, 4) + groups(h, 1))
    } else if shape(h, 3, 1, 2, 1) {
        (7, groups(h, 3) + groups(h, 2))
    } else if is_flush(h) {
        (6, d)
    } else if is_straight(h) {
        (5, seq![straight_high(h)])
    } else if shape(h, 3, 1, 1, 2) {
        (4, groups(h, 3) + groups(h, 1))
    } else if shape(h, 2, 2, 1, 1) {
        (3, groups(h, 2) + groups(h, 1))
    } else if shape(h, 2, 1, 1, 3) {
        (2, groups(h, 2) + groups(h, 1))
    } else {
        (1, d)
    }
}

/// Lexicographic order on rank lists; a proper prefix comes first.
pub open spec fn seq_lt(a: Seq<u8>, b: Seq<u8>) -> bool
    decreases a.len(),
{
    if a.len() == 0 {
        b.len() > 0
    } else if b.len() == 0 {
        false
    } else if a[0] != b[0] {
        a[0] < b[0]
    } else {
        seq_lt(a.drop_first(), b.drop_first())
    }
}

/// `a` scores strictly below `b`.
pub open spec fn score_lt(a: Score, b: Score) -> bool {
    a.0 < b.0 || (a.0 == b.0 && seq_lt(a.1, b.1))
}

/// `a` scores at most `b`.
pub open spec fn score_le(a: Score, b: Score) -> bool {
    a == b || score_lt(a, b)
}

/// The spec view of an executable score.
pub open spec fn score_view(s: (u8, Vec<u8>)) -> Score {
    (s.0, s.1@)
}

proof fn lemma_count_at_least_split(h: Seq<Card>, r: int)
    ensures
        count_at_least(h, r) == count_at_least(h, r + 1) + rank_count(h, r),
    decreases h.len(),
{
    if h.len() > 0 {
        lemma_count_at_least_split(h.drop_last(), r);
    }
}

proof fn lemma_count_at_least_bounds(h: Seq<Card>)
    requires
        all_valid(h),
    ensures
        count_at_least(h, 15) == 0,
        count_at_least(h, 0) == h.len(),
    decreases h.len(),
{
    if h.len() > 0 {
        assert(valid_card(h[h.len() - 1]));
        assert(all_valid(h.drop_last())) by {
            assert forall|i: int| 0 <= i < h.drop_last().len() implies valid_card(
                #[trigger] h.drop_last()[i],
            ) by {
                assert(valid_card(h[i]));
            }
        }
        lemma_count_at_least_bounds(h.drop_last());
    }
}

proof fn lemma_ranks_from_len(h: Seq<Card>, r: int)
    requires
        all_valid(h),
        0 <= r <= 15,
    ensures
        ranks_from(h, r).len() == count_at_least(h, r),
    decreases 15 - r,
{
    if r >= 15 {
        lemma_count_at_least_bounds(h);
    } else {
        lemma_ranks_from_len(h, r + 1);
        lemma_count_at_least_split(h, r);
    }
}

/// The descending rank list holds every card once.
pub proof fn lemma_ranks_desc_len(h: Seq<Card>)
    requires
        all_valid(h),
    ensures
        ranks_desc(h).len() == h.len(),
{
    lemma_ranks_from_len(h, 0);
    lemma_count_at_least_bounds(h);
}

/// Counts the cards of each rank: slot `r` holds `rank_count(hand, r)`.
fn rank_counts(hand: &[Card]) -> (counts: Vec<usize>)
    requires
        all_valid(hand@),
    ensures
        counts@.len() == RANK_SLOTS,
        forall|r: int| 0 <= r < RANK_SLOTS ==> #[trigger] counts@[r] == rank_count(hand@, r),
{
    let mut counts: Vec<usize> = vec![0usize; RANK_SLOTS];
    let mut i: usize = 0;
    while i < hand.len()
        invariant
            i <= hand@.len(),
            all_valid(hand@),
            counts@.len() == RANK_SLOTS,
            forall|r: int| 0 <= r < RANK_SLOTS ==> #[trigger] counts@[r] == rank_count(
                hand@.subrange(0, i as int),
                r,
            ),
        decreases hand@.len() - i,
    {
        let c = hand[i];
        assert(valid_card(hand@[i as int]));
        assert(hand@.subrange(0, i as int + 1).drop_last() =~= hand@.subrange(0, i as int));
        proof {
            assert forall|r: int| 0 <= r < RANK_SLOTS implies rank_count(
                hand@.subrange(0, i as int),
                r,
            ) <= i by {
                lemma_rank_count_le_len(hand@.subrange(0, i as int), r);
            }
        }
        let slot = c.rank as usize;
        counts.set(slot, counts[slot] + 1);
        i += 1;
        assert forall|r: int| 0 <= r < RANK_SLOTS implies #[trigger] counts@[r] == rank_count(
            hand@.subrange(0, i as int),
            r,
        ) by {
            assert(hand@.subrange(0, i as int).last() == c);
        }
    }
    assert(hand@.subrange(0, hand@.len() as int) =~= hand@);
    counts
}

proof fn lemma_rank_count_le_len(h: Seq<Card>, r: int)
    ensures
        rank_count(h, r) <= h.len(),
    decreases h.len(),
{
    if h.len() > 0 {
        lemma_rank_count_le_len(h.drop_last(), r);
    }
}

/// Lists the ranks highest first from the per-rank counts.
fn ranks_descending(Ghost(h): Ghost<Seq<Card>>, counts: &Vec<usize>) -> (d: Vec<u8>)
    requires
        counts@.len() == RANK_SLOTS,
        forall|r: int| 0 <= r < RANK_SLOTS ==> #[trigger] counts@[r] == rank_count(h, r),
    ensures
        d@ == ranks_desc(h),
{
    let mut d: Vec<u8> = Vec::new();
    let mut r: usize = RANK_SLOTS;
    while r > 0
        invariant
            r <= RANK_SLOTS,
            counts@.len() == RANK_SLOTS,
            forall|q: int| 0 <= q < RANK_SLOTS ==> #[trigger] counts@[q] == rank_count(h, q),
            d@ == ranks_from(h, r as int),
        decreases r,
    {
        r -= 1;
        let n = counts[r];
        let ghost base = d@;
        let mut j: usize = 0;
        while j < n
            invariant
                j <= n,
                r < RANK_SLOTS,
                d@ == base + Seq::new(j as nat, |_i: int| r as u8),
            decreases n - j,
        {
            d.push(r as u8);
            j += 1;
            assert(d@ =~= base + Seq::new(j as nat, |_i: int| r as u8));
        }
        assert(d@ =~= ranks_from(h, r as int));
    }
    d
}

/// Lists the ranks that occur exactly `m` times, highest first.
fn ranks_with_count(Ghost(h): Ghost<Seq<Card>>, counts: &Vec<usize>, m: usize) -> (g: Vec<u8>)
    requires
        counts@.len() == RANK_SLOTS,
        forall|r: int| 0 <= r < RANK_SLOTS ==> #[trigger] counts@[r] == rank_count(h, r),
    ensures
        g@ == groups(h, m as nat),
{
    let mut g: Vec<u8> = Vec::new();
    let mut r: usize = RANK_SLOTS;
    while r > 0
        invariant
            r <= RANK_SLOTS,
            counts@.len() == RANK_SLOTS,
            forall|q: int| 0 <= q < RANK_SLOTS ==> #[trigger] counts@[q] == rank_count(h, q),
            g@ == groups_from(h, m as nat, r as int),
        decreases r,
    {
        r -= 1;
        if counts[r] == m {
            g.push(r as u8);
        }
        assert(g@ =~= groups_from(h, m as nat, r as int));
    }
    g
}

/// The concatenation of two rank lists.
fn joined(a: Vec<u8>, b: Vec<u8>) -> (r: Vec<u8>)
    ensures
        r@ == a@ + b@,
{
    let mut a = a;
    let mut b = b;
    a.append(&mut b);
    a
}

/// Whether ranks listed highest first form a straight: each one more than the
/// next, or the wheel A-5-4-3-2 where the ace plays low.
pub fn is_5card_straight(ranks: &[u8]) -> (r: bool)
    requires
        ranks@.len() >= 1,
    ensures
        r == (ranks@ == seq![14u8, 5u8, 4u8, 3u8, 2u8] || forall|i: int|
            0 <= i < ranks@.len() - 1 ==> #[trigger] ranks@[i] == ranks@[i + 1] + 1),
{
    if ranks.len() == 5 && ranks[0] == 14 && ranks[1] == 5 && ranks[2] == 4 && ranks[3] == 3 && ranks[4]
        == 2 {
        assert(ranks@ =~= seq![14u8, 5u8, 4u8, 3u8, 2u8]);
        return true;
    }
    let mut k: usize = 0;
    while k < ranks.len() - 1
        invariant
            ranks@.len() >= 1,
            k < ranks@.len(),
            ranks@ != seq![14u8, 5u8, 4u8, 3u8, 2u8],
            forall|j: int| 0 <= j < k ==> #[trigger] ranks@[j] == ranks@[j + 1] + 1,
        decreases ranks@.len() - k,
    {
        if (ranks[k] as u16) != (ranks[k + 1] as u16) + 1 {
            return false;
        }
        k += 1;
    }
    true
}

/// Evaluates a hand: its category (1..10, higher is better) and its tie-break ranks.
/// Categories: 10 royal flush, 9 straight flush, 8 four of a kind, 7 full house,
/// 6 flush, 5 straight, 4 three of a kind, 3 two pairs, 2 one pair, 1 high card.
/// An empty hand scores `(0, [])`.
pub fn evaluate_hand(hand: &[Card]) -> (r: (u8, Vec<u8>))
    requires
        all_valid(hand@),
    ensures
        score_view(r) == score(hand@),
{
    if hand.len() == 0 {
        return (0, Vec::new());
    }
    let ghost h = hand@;
    let counts = rank_counts(hand);
    let d = ranks_descending(Ghost(h), &counts);
    proof {
        lemma_ranks_desc_len(h);
    }
    let first = hand[0].suit;
    let mut flush = true;
    let mut i: usize = 0;
    while i < hand.len()
        invariant
            i <= hand@.len(),
            hand@.len() > 0,
            first == hand@[0].suit,
            flush == forall|j: int| 0 <= j < i ==> #[trigger] hand@[j].suit == first,
        decreases hand@.len() - i,
    {
        if hand[i].suit != first {
            flush = false;
        }
        i += 1;
    }
    assert(flush == is_flush(h));
    let wheel = d.len() == 5 && d[0] == 14 && d[1] == 5 && d[2] == 4 && d[3] == 3 && d[4] == 2;
    proof {
        if wheel {
            assert(d@ =~= seq![14u8, 5u8, 4u8, 3u8, 2u8]);
        }
    }
    assert(wheel == is_wheel(h));
    let straight = is_5card_straight(d.as_slice());
    assert(straight == is_straight(h));
    let high: u8 = if wheel { 5 } else { d[0] };
    let low: u8 = d[d.len() - 1];
    let g4 = ranks_with_count(Ghost(h), &counts, 4);
    let g3 = ranks_with_count(Ghost(h), &counts, 3);
    let g2 = ranks_with_count(Ghost(h), &counts, 2);
    let g1 = ranks_with_count(Ghost(h), &counts, 1);
    let five = hand.len() == 5;
    if flush && straight {
        if low == 10 {
            (10, Vec::new())
        } else {
            let mut tb: Vec<u8> = Vec::new();
            tb.push(high);
            assert(tb@ =~= seq![straight_high(h)]);
            (9, tb)
        }
    } else if five && g4.len() == 1 && g1.len() == 1 {
        (8, joined(g4, g1))
    } else if five && g3.len() == 1 && g2.len() == 1 {
        (7, joined(g3, g2))
    } else if flush {
        (6, d)
    } else if straight {
        let mut tb: Vec<u8> = Vec::new();
        tb.push(high);
        assert(tb@ =~= seq![straight_high(h)]);
        (5, tb)
    } else if five && g3.len() == 1 && g1.len() == 2 {
        (4, joined(g3, g1))
    } else if five && g2.len() == 2 && g1.len() == 1 {
        (3, joined(g2, g1))
    } else if five && g2.len() == 1 && g1.len() == 3 {
        (2, joined(g2, g1))
    } else {
        (1, d)
    }
}

/// The score of exposed cards, as the stud leader is chosen from the face-up cards.
/// Five cards or more score as a hand. Fewer cards score by rank groups only (no
/// straights or flushes): four of a kind, three of a kind, two pairs, one pair,
/// then high cards, each followed by the remaining ranks highest first.
pub open spec fn exposed_score(h: Seq<Card>) -> Score {
    if h.len() >= 5 {
        score(h)
    } else if h.len() == 0 {
        (0, seq![])
    } else if groups(h, 4).len() == 1 {
        (8, groups(h, 4) + groups(h, 1))
    } else if groups(h, 3).len() == 1 {
        (4, groups(h, 3) + groups(h, 1))
    } else if groups(h, 2).len() == 2 {
        (3, groups(h, 2) + groups(h, 1))
    } else if groups(h, 2).len() == 1 {
        (2, groups(h, 2) + groups(h, 1))
    } else {
        (1, ranks_desc(h))
    }
}

/// Scores exposed cards: see `exposed_score`.
pub fn evaluate_exposed(hand: &[Card]) -> (r: (u8, Vec<u8>))
    requires
        all_valid(hand@),
    ensures
        score_view(r) == exposed_score(hand@),
{
    if hand.len() >= 5 {
        return evaluate_hand(hand);
    }
    if hand.len() == 0 {
        return (0, Vec::new());
    }
    let ghost h = hand@;
    let counts = rank_counts(hand);
    let g4 = ranks_with_count(Ghost(h), &counts, 4);
    let g3 = ranks_with_count(Ghost(h), &counts, 3);
    let g2 = ranks_with_count(Ghost(h), &counts, 2);
    let g1 = ranks_with_count(Ghost(h), &counts, 1);
    if g4.len() == 1 {
        (8, joined(g4, g1))
    } else if g3.len() == 1 {
        (4, joined(g3, g1))
    } else if g2.len() == 2 {
        (3, joined(g2, g1))
    } else if g2.len() == 1 {
        (2, joined(g2, g1))
    } else {
        (1, ranks_descending(Ghost(h), &counts))
    }
}

/// Whether rank list `a` comes before rank list `b` lexicographically.
fn ranks_less(a: &Vec<u8>, b: &Vec<u8>) -> (r: bool)
    ensures
        r == seq_lt(a@, b@),
{
    let mut i: usize = 0;
    assert(a@.skip(0) =~= a@);
    assert(b@.skip(0) =~= b@);
    loop
        invariant
            i <= a@.len(),
            i <= b@.len(),
            seq_lt(a@, b@) == seq_lt(a@.skip(i as int), b@.skip(i as int)),
        decreases a@.len() - i,
    {
        if i == a.len() {
            return i < b.len();
        }
        if i == b.len() {
            return false;
        }
        if a[i] != b[i] {
            return a[i] < b[i];
        }
        assert(a@.skip(i as int).drop_first() =~= a@.skip(i as int + 1));
        assert(b@.skip(i as int).drop_first() =~= b@.skip(i as int + 1));
        i += 1;
    }
}

/// Whether score `a` beats score `b`.
pub fn score_greater(a: &(u8, Vec<u8>), b: &(u8, Vec<u8>)) -> (r: bool)
    ensures
        r == score_lt(score_view(*b), score_view(*a)),
{
    if a.0 != b.0 {
        a.0 > b.0
    } else {
        ranks_less(&b.1, &a.1)
    }
}

proof fn lemma_seq_lt_trans(a: Seq<u8>, b: Seq<u8>, c: Seq<u8>)
    requires
        seq_lt(a, b),
        seq_lt(b, c),
    ensures
        seq_lt(a, c),
    decreases a.len(),
{
    if a.len() > 0 && b.len() > 0 && c.len() > 0 && a[0] == b[0] && b[0] == c[0] {
        lemma_seq_lt_trans(a.drop_first(), b.drop_first(), c.drop_first());
    }
}

proof fn lemma_seq_lt_total(a: Seq<u8>, b: Seq<u8>)
    ensures
        a == b || seq_lt(a, b) || seq_lt(b, a),
    decreases a.len(),
{
    if a.len() == 0 && b.len() == 0 {
        assert(a =~= b);
    } else if a.len() > 0 && b.len() > 0 && a[0] == b[0] {
        lemma_seq_lt_total(a.drop_first(), b.drop_first());
        if a.drop_first() == b.drop_first() {
            assert(a =~= seq![a[0]] + a.drop_first());
            assert(b =~= seq![b[0]] + b.drop_first());
        }
    }
}

proof fn lemma_seq_lt_irreflexive(a: Seq<u8>)
    ensures
        !seq_lt(a, a),
    decreases a.len(),
{
    if a.len() > 0 {
        lemma_seq_lt_irreflexive(a.drop_first());
    }
}

/// Scores are totally ordered: `score_lt` is transitive, irreflexive and total.
pub proof fn lemma_score_order(a: Score, b: Score, c: Score)
    ensures
        score_lt(a, b) && score_lt(b, c) ==> score_lt(a, c),
        !score_lt(a, a),
        a == b || score_lt(a, b) || score_lt(b, a),
        score_le(a, b) && score_le(b, c) ==> score_le(a, c),
{
    lemma_seq_lt_irreflexive(a.1);
    lemma_seq_lt_total(a.1, b.1);
    if a.0 == b.0 && b.0 == c.0 && seq_lt(a.1, b.1) && seq_lt(b.1, c.1) {
        lemma_seq_lt_trans(a.1, b.1, c.1);
    }
    if a.0 == b.0 && a.1 == b.1 {
        assert(a == (b.0, b.1));
    }
}

/// Category dominates: every non-empty hand scores in category 1..10, and a hand
/// of a higher category beats one of a lower category whatever their tie-breaks.
pub proof fn lemma_category_dominates(a: Seq<Card>, b: Seq<Card>)
    requires
        a.len() > 0,
        b.len() > 0,
    ensures
        1 <= score(a).0 <= 10,
        score(a).0 > score(b).0 ==> score_lt(score(b), score(a)),
{
}

/// `c` picks `k` distinct positions below `n`, in increasing order.
pub open spec fn is_choice(c: Seq<usize>, n: nat, k: nat) -> bool {
    &&& c.len() == k
    &&& forall|i: int| 0 <= i < k ==> #[trigger] c[i] < n
    &&& forall|i: int, j: int| 0 <= i < j < k ==> #[trigger] c[i] < #[trigger] c[j]
}

/// The cards of `cards` at the positions `c`.
pub open spec fn sub_hand(cards: Seq<Card>, c: Seq<usize>) -> Seq<Card> {
    c.map_values(|i: usize| cards[i as int])
}

/// Relies on itertools' `Itertools::combinations` over the range `0..n`: it yields
/// every `k`-element subset of the positions, each as an increasing list.
#[verifier::external_body]
fn index_combinations(n: usize, k: usize) -> (r: Vec<Vec<usize>>)
    ensures
        forall|i: int| 0 <= i < r@.len() ==> is_choice(#[trigger] r@[i]@, n as nat, k as nat),
        forall|c: Seq<usize>| #[trigger] is_choice(c, n as nat, k as nat) ==> exists|i: int|
            0 <= i < r@.len() && #[trigger] r@[i]@ == c,
{
    (0..n).combinations(k).collect()
}

/// Copies the cards at positions `c`.
fn pick_cards(cards: &[Card], c: &Vec<usize>) -> (r: Vec<Card>)
    requires
        forall|i: int| 0 <= i < c@.len() ==> #[trigger] c@[i] < cards@.len(),
    ensures
        r@ == sub_hand(cards@, c@),
{
    let mut r: Vec<Card> = Vec::new();
    let mut i: usize = 0;
    while i < c.len()
        invariant
            i <= c@.len(),
            forall|j: int| 0 <= j < c@.len() ==> #[trigger] c@[j] < cards@.len(),
            r@ == sub_hand(cards@, c@.subrange(0, i as int)),
        decreases c@.len() - i,
    {
        let p = c[i];
        r.push(cards[p]);
        i += 1;
        assert(r@ =~= sub_hand(cards@, c@.subrange(0, i as int)));
    }
    assert(c@.subrange(0, c@.len() as int) =~= c@);
    r
}

proof fn lemma_choice_needs_five(c: Seq<usize>, n: nat)
    requires
        is_choice(c, n, 5),
    ensures
        n >= 5,
{
    assert(c[0] < c[1]);
    assert(c[1] < c[2]);
    assert(c[2] < c[3]);
    assert(c[3] < c[4]);
    assert(c[4] < n);
}

proof fn lemma_sub_hand_valid(cards: Seq<Card>, c: Seq<usize>)
    requires
        all_valid(cards),
        is_choice(c, cards.len(), 5),
    ensures
        all_valid(sub_hand(cards, c)),
        sub_hand(cards, c).len() == 5,
{
    assert forall|i: int| 0 <= i < sub_hand(cards, c).len() implies valid_card(
        #[trigger] sub_hand(cards, c)[i],
    ) by {
        assert(c[i] < cards.len());
    }
}

/// The best five-card score among the cards: every five-card subset scores at most
/// the result, and with five cards or more some subset scores exactly the result.
/// With fewer than five cards there is no subset and the result is `(0, [])`.
pub fn best_hand_from_seven(cards: &[Card]) -> (r: (u8, Vec<u8>))
    requires
        all_valid(cards@),
    ensures
        forall|c: Seq<usize>| #[trigger] is_choice(c, cards@.len(), 5) ==> score_le(
            score(sub_hand(cards@, c)),
            score_view(r),
        ),
        cards@.len() >= 5 ==> exists|c: Seq<usize>| #[trigger] is_choice(c, cards@.len(), 5)
            && score_view(r) == score(sub_hand(cards@, c)),
        cards@.len() < 5 ==> score_view(r) == (0u8, Seq::<u8>::empty()),
{
    let combos = index_combinations(cards.len(), 5);
    let mut best: (u8, Vec<u8>) = (0, Vec::new());
    let mut j: usize = 0;
    while j < combos.len()
        invariant
            all_valid(cards@),
            j <= combos@.len(),
            forall|i: int| 0 <= i < combos@.len() ==> is_choice(
                #[trigger] combos@[i]@,
                cards@.len(),
                5,
            ),
            forall|l: int| 0 <= l < j ==> score_le(
                score(sub_hand(cards@, #[trigger] combos@[l]@)),
                score_view(best),
            ),
            (j == 0 && score_view(best) == (0u8, Seq::<u8>::empty())) || exists|l: int|
                0 <= l < j && score_view(best) == score(sub_hand(cards@, #[trigger] combos@[l]@)),
        decreases combos@.len() - j,
    {
        let ghost old_best = score_view(best);
        proof {
            lemma_sub_hand_valid(cards@, combos@[j as int]@);
        }
        let five = pick_cards(cards, &combos[j]);
        let eval = evaluate_hand(five.as_slice());
        let ghost e = score_view(eval);
        if score_greater(&eval, &best) {
            best = eval;
            proof {
                assert forall|l: int| 0 <= l < j + 1 implies score_le(
                    score(sub_hand(cards@, #[trigger] combos@[l]@)),
                    score_view(best),
                ) by {
                    if l < j {
                        lemma_score_order(score(sub_hand(cards@, combos@[l]@)), old_best, e);
                    }
                }
            }
        } else {
            proof {
                lemma_score_order(e, old_best, old_best);
                if j == 0 {
                    assert(score_lt(old_best, e));
                }
            }
        }
        j += 1;
    }
    proof {
        assert forall|c: Seq<usize>| #[trigger] is_choice(c, cards@.len(), 5) implies score_le(
            score(sub_hand(cards@, c)),
            score_view(best),
        ) by {
            let l = choose|l: int| 0 <= l < combos@.len() && #[trigger] combos@[l]@ == c;
        }
        if cards@.len() >= 5 {
            let w = seq![0usize, 1, 2, 3, 4];
            assert(is_choice(w, cards@.len(), 5));
            let l = choose|l: int| 0 <= l < combos@.len() && #[trigger] combos@[l]@ == w;
            let l2 = choose|l: int| 0 <= l < j && score_view(best) == score(
                sub_hand(cards@, #[trigger] combos@[l]@),
            );
            assert(is_choice(combos@[l2]@, cards@.len(), 5));
        } else if j > 0 {
            lemma_choice_needs_five(combos@[0]@, cards@.len());
        }
    }
    best
}

/// A hand's classification, highest last.
#[derive(Debug, PartialEq, Eq, PartialOrd, Ord)]
pub enum HandRank {
    /// The five ranks, highest first.
    HighCard(u8, u8, u8, u8, u8),
    /// The pair's rank, then the three kickers highest first.
    OnePair(u8, u8, u8, u8),
    /// The higher pair, the lower pair, the kicker.
    TwoPairs(u8, u8, u8),
    /// The triple's rank, then the two kickers highest first.
    ThreeOfAKind(u8, u8, u8),
    /// The straight's high card (five for the wheel).
    Straight(u8),
    /// The five ranks, highest first.
    Flush(u8, u8, u8, u8, u8),
    /// The triple's rank, then the pair's.
    FullHouse(u8, u8),
    /// The quad's rank, then the kicker.
    FourOfAKind(u8, u8),
    /// The straight's high card (five for the wheel).
    StraightFlush(u8),
    /// Ten to ace in one suit.
    RoyalFlush,
}

/// The classification that a five-card score stands for.
pub open spec fn hand_rank_of(s: Score) -> HandRank {
    let t = s.1;
    if s.0 == 10 {
        HandRank::RoyalFlush
    } else if s.0 == 9 {
        HandRank::StraightFlush(t[0])
    } else if s.0 == 8 {
        HandRank::FourOfAKind(t[0], t[1])
    } else if s.0 == 7 {
        HandRank::FullHouse(t[0], t[1])
    } else if s.0 == 6 {
        HandRank::Flush(t[0], t[1], t[2], t[3], t[4])
    } else if s.0 == 5 {
        HandRank::Straight(t[0])
    } else if s.0 == 4 {
        HandRank::ThreeOfAKind(t[0], t[1], t[2])
    } else if s.0 == 3 {
        HandRank::TwoPairs(t[0], t[1], t[2])
    } else if s.0 == 2 {
        HandRank::OnePair(t[0], t[1], t[2], t[3])
    } else {
        HandRank::HighCard(t[0], t[1], t[2], t[3], t[4])
    }
}

/// Ranks a five-card hand into its classification.
pub fn rank_poker_hand(cards: [Card; 5]) -> (r: HandRank)
    requires
        all_valid(cards@),
    ensures
        r == hand_rank_of(score(cards@)),
{
    let (cat, t) = evaluate_hand(cards.as_slice());
    proof {
        lemma_ranks_desc_len(cards@);
    }
    if cat == 10 {
        HandRank::RoyalFlush
    } else if cat == 9 {
        HandRank::StraightFlush(t[0])
    } else if cat == 8 {
        HandRank::FourOfAKind(t[0], t[1])
    } else if cat == 7 {
        HandRank::FullHouse(t[0], t[1])
    } else if cat == 6 {
        HandRank::Flush(t[0], t[1], t[2], t[3], t[4])
    } else if cat == 5 {
        HandRank::Straight(t[0])
    } else if cat == 4 {
        HandRank::ThreeOfAKind(t[0], t[1], t[2])
    } else if cat == 3 {
        HandRank::TwoPairs(t[0], t[1], t[2])
    } else if cat == 2 {
        HandRank::OnePair(t[0], t[1], t[2], t[3])
    } else {
        HandRank::HighCard(t[0], t[1], t[2], t[3], t[4])
    }
}

proof fn lemma_groups_empty(h: Seq<Card>, m: nat, r: int)
    requires
        forall|q: int| r <= q < 15 ==> rank_count(h, q) != m,
    ensures
        groups_from(h, m, r).len() == 0,
    decreases 15 - r,
{
    if r < 15 {
        lemma_groups_empty(h, m, r + 1);
    }
}

/// Five cards of ranks `a`..`e` in the given suits.
pub open spec fn five_of(a: u8, b: u8, c: u8, d: u8, e: u8, s: Seq<Suit>) -> Seq<Card> {
    seq![
        Card { rank: a, suit: s[0] },
        Card { rank: b, suit: s[1] },
        Card { rank: c, suit: s[2] },
        Card { rank: d, suit: s[3] },
        Card { rank: e, suit: s[4] },
    ]
}

/// Five suits that are not all the same.
pub open spec fn mixed_suits(s: Seq<Suit>) -> bool {
    s.len() == 5 && !(s[0] == s[1] && s[1] == s[2] && s[2] == s[3] && s[3] == s[4])
}

proof fn lemma_mixed_not_flush(h: Seq<Card>, s: Seq<Suit>)
    requires
        mixed_suits(s),
        h.len() == 5,
        forall|i: int| 0 <= i < 5 ==> #[trigger] h[i].suit == s[i],
    ensures
        !is_flush(h),
{
    if is_flush(h) {
        assert(h[1].suit == h[0].suit);
        assert(h[2].suit == h[0].suit);
        assert(h[3].suit == h[0].suit);
        assert(h[4].suit == h[0].suit);
    }
}

proof fn lemma_no_pairs(h: Seq<Card>)
    requires
        forall|q: int| 0 <= q < 15 ==> rank_count(h, q) <= 1,
    ensures
        groups(h, 4).len() == 0,
        groups(h, 3).len() == 0,
        groups(h, 2).len() == 0,
{
    lemma_groups_empty(h, 4, 0);
    lemma_groups_empty(h, 3, 0);
    lemma_groups_empty(h, 2, 0);
}

/// The wheel, A-2-3-4-5 in suits that are not all the same, is a straight whose
/// high card is the five, and it loses to a six-high straight (2-3-4-5-6 in
/// suits that are not all the same).
pub proof fn lemma_wheel_below_six_high(s: Seq<Suit>, t: Seq<Suit>)
    requires
        mixed_suits(s),
        mixed_suits(t),
    ensures
        score(five_of(14, 2, 3, 4, 5, s)) == (5u8, seq![5u8]),
        score(five_of(2, 3, 4, 5, 6, t)) == (5u8, seq![6u8]),
        score_lt(score(five_of(14, 2, 3, 4, 5, s)), score(five_of(2, 3, 4, 5, 6, t))),
{
    let w = five_of(14, 2, 3, 4, 5, s);
    let x = five_of(2, 3, 4, 5, 6, t);
    reveal_with_fuel(rank_count, 6);
    assert forall|q: int| #![auto] 0 <= q < 15 implies rank_count(w, q) == if q == 14 || (2 <= q
        <= 5) {
        1nat
    } else {
        0nat
    } by {
        assert(w.drop_last().drop_last().drop_last().drop_last().drop_last().len() == 0);
    }
    assert forall|q: int| #![auto] 0 <= q < 15 implies rank_count(x, q) == if 2 <= q <= 6 {
        1nat
    } else {
        0nat
    } by {
        assert(x.drop_last().drop_last().drop_last().drop_last().drop_last().len() == 0);
    }
    assert(ranks_from(w, 15) == Seq::<u8>::empty());
    assert(ranks_from(w, 14) =~= seq![14u8]);
    assert(ranks_from(w, 13) =~= seq![14u8]);
    assert(ranks_from(w, 12) =~= seq![14u8]);
    assert(ranks_from(w, 11) =~= seq![14u8]);
    assert(ranks_from(w, 10) =~= seq![14u8]);
    assert(ranks_from(w, 9) =~= seq![14u8]);
    assert(ranks_from(w, 8) =~= seq![14u8]);
    assert(ranks_from(w, 7) =~= seq![14u8]);
    assert(ranks_from(w, 6) =~= seq![14u8]);
    assert(ranks_from(w, 5) =~= seq![14u8, 5]);
    assert(ranks_from(w, 4) =~= seq![14u8, 5, 4]);
    assert(ranks_from(w, 3) =~= seq![14u8, 5, 4, 3]);
    assert(ranks_from(w, 2) =~= seq![14u8, 5, 4, 3, 2]);
    assert(ranks_from(w, 1) =~= seq![14u8, 5, 4, 3, 2]);
    assert(ranks_from(w, 0) =~= seq![14u8, 5, 4, 3, 2]);
    assert(is_wheel(w));
    assert(ranks_from(x, 15) == Seq::<u8>::empty());
    assert(ranks_from(x, 14) =~= Seq::<u8>::empty());
    assert(ranks_from(x, 13) =~= Seq::<u8>::empty());
    assert(ranks_from(x, 12) =~= Seq::<u8>::empty());
    assert(ranks_from(x, 11) =~= Seq::<u8>::empty());
    assert(ranks_from(x, 10) =~= Seq::<u8>::empty());
    assert(ranks_from(x, 9) =~= Seq::<u8>::empty());
    assert(ranks_from(x, 8) =~= Seq::<u8>::empty());
    assert(ranks_from(x, 7) =~= Seq::<u8>::empty());
    assert(ranks_from(x, 6) =~= seq![6u8]);
    assert(ranks_from(x, 5) =~= seq![6u8, 5]);
    assert(ranks_from(x, 4) =~= seq![6u8, 5, 4]);
    assert(ranks_from(x, 3) =~= seq![6u8, 5, 4, 3]);
    assert(ranks_from(x, 2) =~= seq![6u8, 5, 4, 3, 2]);
    assert(ranks_from(x, 1) =~= seq![6u8, 5, 4, 3, 2]);
    assert(ranks_from(x, 0) =~= seq![6u8, 5, 4, 3, 2]);
    let dx = ranks_desc(x);
    assert(forall|i: int| 0 <= i < dx.len() - 1 ==> #[trigger] dx[i] == dx[i + 1] + 1);
    assert(dx != seq![14u8, 5u8, 4u8, 3u8, 2u8]) by {
        assert(dx[0] == 6);
    }
    lemma_mixed_not_flush(w, s);
    lemma_mixed_not_flush(x, t);
    lemma_no_pairs(w);
    lemma_no_pairs(x);
    assert(seq![5u8][0] < seq![6u8][0]);
}

/// `c` picks a five-card subset of `cards` that no other five-card subset beats.
pub open spec fn is_best_choice(cards: Seq<Card>, c: Seq<usize>) -> bool {
    &&& is_choice(c, cards.len(), 5)
    &&& forall|c2: Seq<usize>| #[trigger] is_choice(c2, cards.len(), 5) ==> score_le(
        score(sub_hand(cards, c2)),
        score(sub_hand(cards, c)),
    )
}

/// The score of the best five-card subset of `cards`; `(0, [])` below five cards.
pub open spec fn best_five_score(cards: Seq<Card>) -> Score {
    if cards.len() < 5 {
        (0, seq![])
    } else {
        score(sub_hand(cards, choose|c: Seq<usize>| is_best_choice(cards, c)))
    }
}

/// Two scores that are each at most the other are equal.
pub proof fn lemma_score_antisymmetric(a: Score, b: Score)
    requires
        score_le(a, b),
        score_le(b, a),
    ensures
        a == b,
{
    lemma_score_order(a, b, a);
}

/// The best-of-seven result is the best five-card score of the cards.
pub fn best_score_of(cards: &[Card]) -> (r: (u8, Vec<u8>))
    requires
        all_valid(cards@),
    ensures
        score_view(r) == best_five_score(cards@),
{
    let r = best_hand_from_seven(cards);
    proof {
        if cards@.len() >= 5 {
            let c0 = choose|c: Seq<usize>| #[trigger] is_choice(c, cards@.len(), 5)
                && score_view(r) == score(sub_hand(cards@, c));
            assert(is_best_choice(cards@, c0));
            let cb = choose|c: Seq<usize>| is_best_choice(cards@, c);
            lemma_score_antisymmetric(score(sub_hand(cards@, cb)), score(sub_hand(cards@, c0)));
        }
    }
    r
}

} // verus!
