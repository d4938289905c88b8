//! The wire rules: every message travels in a frame of `FRAME_SIZE` bytes, the
//! UTF-8 text padded with zero bytes; a receiver keeps the bytes before the first
//! zero. Also what a snapshot shows of the current bet.
use vstd::prelude::*;

verus! {

/// The size of every frame on the wire.
pub const FRAME_SIZE: usize = 2048;

/// The frame carrying `p`: its bytes, cut at `FRAME_SIZE`, then zeros up to `FRAME_SIZE`.
pub open spec fn framed(p: Seq<u8>) -> Seq<u8> {
    Seq::new(FRAME_SIZE as nat, |i: int| if i < p.len() { p[i] } else { 0u8 })
}

/// The message in a frame: the bytes before the first zero (all of them if none is zero).
pub open spec fn unframed(f: Seq<u8>) -> Seq<u8>
    decreases f.len(),
{
    if f.len() == 0 || f[0] == 0 {
        seq![]
    } else {
        seq![f[0]] + unframed(f.drop_first())
    }
}

/// No byte of `p` is zero.
pub open spec fn zero_free(p: Seq<u8>) -> bool {
    forall|i: int| 0 <= i < p.len() ==> #[trigger] p[i] != 0
}

/// Pads a message with zero bytes to a full frame (a longer message is cut).
pub fn encode_frame(payload: &[u8]) -> (r: Vec<u8>)
    ensures
        r@ == framed(payload@),
{
    let mut r: Vec<u8> = Vec::with_capacity(FRAME_SIZE);
    let mut i: usize = 0;
    while i < FRAME_SIZE
        invariant
            i <= FRAME_SIZE,
            r@ == Seq::new(i as nat, |k: int| if k < payload@.len() { payload@[k] } else { 0u8 }),
        decreases FRAME_SIZE - i,
    {
        let b: u8 = if i < payload.len() { payload[i] } else { 0 };
        r.push(b);
        i += 1;
        assert(r@ =~= Seq::new(i as nat, |k: int| if k < payload@.len() { payload@[k] } else { 0u8 }));
    }
    r
}

proof fn lemma_unframed_prefix(f: Seq<u8>, n: int)
    requires
        0 <= n <= f.len(),
        forall|i: int| 0 <= i < n ==> #[trigger] f[i] != 0,
        n == f.len() || f[n] == 0,
    ensures
        unframed(f) == f.subrange(0, n),
    decreases n,
{
    if n == 0 {
        assert(f.subrange(0, 0) =~= Seq::<u8>::empty());
    } else {
        let g = f.drop_first();
        assert forall|i: int| 0 <= i < n - 1 implies #[trigger] g[i] != 0 by {
            assert(g[i] == f[i + 1]);
        }
        lemma_unframed_prefix(g, n - 1);
        assert(f.subrange(0, n) =~= seq![f[0]] + g.subrange(0, n - 1));
    }
}

/// The message carried by a frame: the bytes before the first zero byte.
pub fn decode_frame(frame: &[u8]) -> (r: Vec<u8>)
    ensures
        r@ == unframed(frame@),
{
    let mut r: Vec<u8> = Vec::new();
    let mut i: usize = 0;
    while i < frame.len() && frame[i] != 0
        invariant
            i <= frame@.len(),
            r@ == frame@.subrange(0, i as int),
            forall|k: int| 0 <= k < i ==> #[trigger] frame@[k] != 0,
        decreases frame@.len() - i,
    {
        r.push(frame[i]);
        i += 1;
        assert(r@ =~= frame@.subrange(0, i as int));
    }
    proof {
        lemma_unframed_prefix(frame@, i as int);
    }
    r
}

proof fn lemma_unframed_padded(p: Seq<u8>, z: Seq<u8>)
    requires
        zero_free(p),
        z.len() == 0 || z[0] == 0,
    ensures
        unframed(p + z) == p,
    decreases p.len(),
{
    if p.len() == 0 {
        assert(p + z =~= z);
    } else {
        lemma_unframed_padded(p.drop_first(), z);
        assert((p + z).drop_first() =~= p.drop_first() + z);
        assert(p =~= seq![p[0]] + p.drop_first());
    }
}

/// A message without zero bytes that fits in a frame comes out of its frame unchanged.
pub proof fn lemma_frame_round_trip(p: Seq<u8>)
    requires
        zero_free(p),
        p.len() <= FRAME_SIZE,
    ensures
        unframed(framed(p)) == p,
{
    let z = Seq::new((FRAME_SIZE - p.len()) as nat, |_i: int| 0u8);
    assert(framed(p) =~= p + z);
    lemma_unframed_padded(p, z);
}

/// The current bet as a snapshot shows it: the no-bet sentinel (any negative value) shows as 0.
pub fn displayed_bet(current_bet: i32) -> (r: i32)
    ensures
        r == if current_bet < 0 { 0 } else { current_bet },
{
    if current_bet < 0 { 0 } else { current_bet }
}

/// A white-space character (the Unicode `White_Space` property, which `str::trim` strips).
pub open spec fn is_space(c: char) -> bool {
    ('\u{9}' <= c && c <= '\u{d}') || c == ' ' || c == '\u{85}' || c == '\u{a0}' || c == '\u{1680}'
        || ('\u{2000}' <= c && c <= '\u{200a}') || c == '\u{2028}' || c == '\u{2029}' || c
        == '\u{202f}' || c == '\u{205f}' || c == '\u{3000}'
}

fn space(c: char) -> (r: bool)
    ensures
        r == is_space(c),
{
    ('\u{9}' <= c && c <= '\u{d}') || c == ' ' || c == '\u{85}' || c == '\u{a0}' || c == '\u{1680}'
        || ('\u{2000}' <= c && c <= '\u{200a}') || c == '\u{2028}' || c == '\u{2029}' || c
        == '\u{202f}' || c == '\u{205f}' || c == '\u{3000}'
}

/// The fields of `s` separated by commas (one empty field for an empty text).
pub open spec fn comma_fields(s: Seq<char>) -> Seq<Seq<char>>
    decreases s.len(),
{
    if s.len() == 0 {
        seq![seq![]]
    } else {
        let p = comma_fields(s.drop_last());
        if s.last() == ',' {
            p.push(seq![])
        } else {
            p.update(p.len() - 1, p.last().push(s.last()))
        }
    }
}

/// `s` without leading white space.
pub open spec fn trim_start(s: Seq<char>) -> Seq<char>
    decreases s.len(),
{
    if s.len() > 0 && is_space(s[0]) { trim_start(s.drop_first()) } else { s }
}

/// `s` without trailing white space.
pub open spec fn trim_end(s: Seq<char>) -> Seq<char>
    decreases s.len(),
{
    if s.len() > 0 && is_space(s.last()) { trim_end(s.drop_last()) } else { s }
}

/// The value of a string of decimal digits.
pub open spec fn digits_value(d: Seq<char>) -> nat
    decreases d.len(),
{
    if d.len() == 0 { 0 } else { digits_value(d.drop_last()) * 10 + (d.last() as nat - '0' as nat) as nat }
}

/// The digits of a position: the text without one leading '+'.
pub open spec fn digits_part(f: Seq<char>) -> Seq<char> {
    if f.len() > 0 && f[0] == '+' { f.drop_first() } else { f }
}

/// Every character is an ASCII digit.
pub open spec fn all_digits(d: Seq<char>) -> bool {
    forall|i: int| 0 <= i < d.len() ==> '0' <= #[trigger] d[i] <= '9'
}

/// A position written in decimal, with an optional leading '+', that fits in `usize`.
pub open spec fn index_of_text(f: Seq<char>) -> Option<usize> {
    let d = digits_part(f);
    if d.len() > 0 && all_digits(d) && digits_value(d) <= usize::MAX {
        Some(digits_value(d) as usize)
    } else {
        None
    }
}

/// The positions written in the fields, each trimmed; fields that are not a position are skipped.
pub open spec fn indices_of_fields(fs: Seq<Seq<char>>) -> Seq<usize>
    decreases fs.len(),
{
    if fs.len() == 0 {
        seq![]
    } else {
        indices_of_fields(fs.drop_last()) + match index_of_text(trim_end(trim_start(fs.last()))) {
            Some(v) => seq![v],
            None => seq![],
        }
    }
}

/// The card positions a swap selection names.
pub open spec fn swap_indices(s: Seq<char>) -> Seq<usize> {
    indices_of_fields(comma_fields(s))
}

proof fn lemma_trim_start_at(s: Seq<char>, a: int)
    requires
        0 <= a <= s.len(),
        forall|i: int| 0 <= i < a ==> is_space(#[trigger] s[i]),
        a == s.len() || !is_space(s[a]),
    ensures
        trim_start(s) == s.subrange(a, s.len() as int),
    decreases a,
{
    if a == 0 {
        assert(s.subrange(0, s.len() as int) =~= s);
    } else {
        let t = s.drop_first();
        assert forall|i: int| 0 <= i < a - 1 implies is_space(#[trigger] t[i]) by {
            assert(t[i] == s[i + 1]);
        }
        lemma_trim_start_at(t, a - 1);
        assert(t.subrange(a - 1, t.len() as int) =~= s.subrange(a, s.len() as int));
    }
}

proof fn lemma_trim_end_at(s: Seq<char>, b: int)
    requires
        0 <= b <= s.len(),
        forall|i: int| b <= i < s.len() ==> is_space(#[trigger] s[i]),
        b == 0 || !is_space(s[b - 1]),
    ensures
        trim_end(s) == s.subrange(0, b),
    decreases s.len() - b,
{
    if b == s.len() {
        assert(s.subrange(0, b) =~= s);
    } else {
        let t = s.drop_last();
        lemma_trim_end_at(t, b);
        assert(t.subrange(0, b) =~= s.subrange(0, b));
    }
}

/// Reads one trimmed field as a position.
fn index_of_field(f: &Vec<char>) -> (r: Option<usize>)
    ensures
        r == index_of_text(trim_end(trim_start(f@))),
{
    let n = f.len();
    let mut a: usize = 0;
    while a < n && space(f[a])
        invariant
            a <= n,
            n == f@.len(),
            forall|i: int| 0 <= i < a ==> is_space(#[trigger] f@[i]),
        decreases n - a,
    {
        a += 1;
    }
    proof {
        lemma_trim_start_at(f@, a as int);
    }
    let ghost t = f@.subrange(a as int, n as int);
    let mut b: usize = n;
    while b > a && space(f[b - 1])
        invariant
            a <= b <= n,
            n == f@.len(),
            t == f@.subrange(a as int, n as int),
            forall|i: int| b <= i < n ==> is_space(#[trigger] f@[i]),
        decreases b,
    {
        b -= 1;
    }
    proof {
        assert forall|i: int| (b - a) <= i < t.len() implies is_space(#[trigger] t[i]) by {
            assert(t[i] == f@[i + a]);
        }
        if b > a {
            assert(t[b - a - 1] == f@[b - 1]);
        }
        lemma_trim_end_at(t, (b - a) as int);
        assert(t.subrange(0, (b - a) as int) =~= f@.subrange(a as int, b as int));
    }
    let ghost w = f@.subrange(a as int, b as int);
    let mut start = a;
    if start < b && f[start] == '+' {
        start += 1;
    }
    let ghost d = f@.subrange(start as int, b as int);
    assert(d =~= digits_part(w));
    if start >= b {
        return None;
    }
    let mut value: usize = 0;
    let mut i: usize = start;
    while i < b
        invariant
            start <= i <= b,
            b <= n,
            n == f@.len(),
            d == f@.subrange(start as int, b as int),
            trim_end(trim_start(f@)) == w,
            d == digits_part(w),
            forall|k: int| start <= k < i ==> '0' <= #[trigger] f@[k] <= '9',
            value == digits_value(f@.subrange(start as int, i as int)),
        decreases b - i,
    {
        let c = f[i];
        if !('0' <= c && c <= '9') {
            proof {
                let k = (i - start) as int;
                assert(d[k] == f@[i as int]);
                assert(!('0' <= d[k] <= '9'));
                assert(!all_digits(d));
            }
            return None;
        }
        let digit = (c as u32 - '0' as u32) as usize;
        assert(f@.subrange(start as int, i + 1).drop_last() =~= f@.subrange(start as int, i as int));
        if value > (usize::MAX - digit) / 10 {
            proof {
                assert(value * 10 + digit > usize::MAX) by (nonlinear_arith)
                    requires
                        value > (usize::MAX - digit) / 10,
                        digit <= 9,
                ;
                let s1 = f@.subrange(start as int, i + 1);
                assert(s1.last() == c);
                assert(digits_value(s1) == value * 10 + digit);
                if all_digits(d) {
                    lemma_digits_grow(d, (i + 1 - start) as int);
                    assert(d.subrange(0, (i + 1 - start) as int) =~= f@.subrange(start as int, i + 1));
                }
            }
            return None;
        }
        proof {
            assert(value * 10 + digit <= usize::MAX) by (nonlinear_arith)
                requires
                    value <= (usize::MAX - digit) / 10,
                    digit <= 9,
            ;
        }
        value = value * 10 + digit;
        proof {
            let s1 = f@.subrange(start as int, i + 1);
            assert(s1.last() == c);
        }
        i += 1;
    }
    assert(f@.subrange(start as int, b as int) =~= d);
    Some(value)
}

proof fn lemma_digits_grow(d: Seq<char>, k: int)
    requires
        0 <= k <= d.len(),
        forall|i: int| 0 <= i < d.len() ==> '0' <= #[trigger] d[i] <= '9',
    ensures
        digits_value(d.subrange(0, k)) <= digits_value(d),
    decreases d.len() - k,
{
    if k < d.len() {
        lemma_digits_grow(d, k + 1);
        assert(d.subrange(0, k + 1).drop_last() =~= d.subrange(0, k));
    } else {
        assert(d.subrange(0, k) =~= d);
    }
}

/// The card positions named by a swap selection such as "0, 2,4": fields separated
/// by commas, each a decimal position once trimmed; other fields are skipped.
pub fn parse_swap_indices(text: &str) -> (r: Vec<usize>)
    ensures
        r@ == swap_indices(text@),
{
    let n = text.unicode_len();
    let mut out: Vec<usize> = Vec::new();
    let mut field: Vec<char> = Vec::new();
    let ghost mut done: Seq<Seq<char>> = seq![];
    let mut i: usize = 0;
    assert(text@.subrange(0, 0) =~= Seq::<char>::empty());
    assert(comma_fields(Seq::<char>::empty()) =~= done.push(field@));
    while i < n
        invariant
            i <= n,
            n == text@.len(),
            comma_fields(text@.subrange(0, i as int)) == done.push(field@),
            out@ == indices_of_fields(done),
        decreases n - i,
    {
        let c = text.get_char(i);
        assert(text@.subrange(0, i + 1).drop_last() =~= text@.subrange(0, i as int));
        if c == ',' {
            let v = index_of_field(&field);
            match v {
                Some(x) => out.push(x),
                None => {},
            }
            proof {
                assert(done.push(field@).drop_last() =~= done);
                assert(out@ =~= indices_of_fields(done.push(field@)));
                done = done.push(field@);
            }
            field = Vec::new();
            assert(comma_fields(text@.subrange(0, i + 1)) =~= done.push(field@));
        } else {
            field.push(c);
            assert(comma_fields(text@.subrange(0, i + 1)) =~= done.push(field@));
        }
        i += 1;
    }
    let v = index_of_field(&field);
    match v {
        Some(x) => out.push(x),
        None => {},
    }
    assert(text@.subrange(0, n as int) =~= text@);
    assert(done.push(field@).drop_last() =~= done);
    assert(out@ =~= indices_of_fields(done.push(field@)));
    out
}

} // verus!
