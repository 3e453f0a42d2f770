//! The text form of a coordinate pair: two decimal numbers of degrees,
//! separated by a comma or a semicolon, with blanks anywhere.
use vstd::arithmetic::div_mod::lemma_fundamental_div_mod_converse;
use vstd::prelude::*;

verus! {

/// Billionths of a degree per degree.
pub const NANOS_PER_DEGREE: u64 = 1_000_000_000;

/// The largest magnitude of a coordinate, in billionths of a degree.
pub const MAX_NANOS: u64 = 9_223_372_036_854_775_807;

/// Blank characters, which the parser drops wherever they stand: the
/// characters with the Unicode property White_Space.
pub open spec fn is_blank(c: char) -> bool {
    ('\u{9}' <= c && c <= '\u{d}') || c == ' ' || c == '\u{85}' || c == '\u{a0}' || c
        == '\u{1680}' || ('\u{2000}' <= c && c <= '\u{200a}') || c == '\u{2028}' || c
        == '\u{2029}' || c == '\u{202f}' || c == '\u{205f}' || c == '\u{3000}'
}

/// Whether `c` is a blank character.
pub fn is_blank_char(c: char) -> (r: bool)
    ensures
        r == is_blank(c),
{
    ('\u{9}' <= c && c <= '\u{d}') || c == ' ' || c == '\u{85}' || c == '\u{a0}' || c
        == '\u{1680}' || ('\u{2000}' <= c && c <= '\u{200a}') || c == '\u{2028}' || c
        == '\u{2029}' || c == '\u{202f}' || c == '\u{205f}' || c == '\u{3000}'
}

/// The characters that separate latitude from longitude.
pub open spec fn is_separator(c: char) -> bool {
    c == ',' || c == ';'
}

pub open spec fn is_digit(c: char) -> bool {
    '0' <= c && c <= '9'
}

pub open spec fn all_digits(s: Seq<char>) -> bool {
    forall|i: int| 0 <= i < s.len() ==> #[trigger] is_digit(s[i])
}

/// `s` without its blanks.
pub open spec fn strip_blanks(s: Seq<char>) -> Seq<char>
    decreases s.len(),
{
    if s.len() == 0 {
        s
    } else if is_blank(s.last()) {
        strip_blanks(s.drop_last())
    } else {
        strip_blanks(s.drop_last()).push(s.last())
    }
}

/// The number that a string of decimal digits writes.
pub open spec fn digits_value(s: Seq<char>) -> int
    decreases s.len(),
{
    if s.len() == 0 {
        0
    } else {
        digits_value(s.drop_last()) * 10 + (s.last() as int - '0' as int)
    }
}

pub open spec fn pow10(n: nat) -> int
    decreases n,
{
    if n == 0 {
        1
    } else {
        10 * pow10((n - 1) as nat)
    }
}

/// `u` is digits, a point at `p`, and digits, with at least one digit.
pub open spec fn is_point_split(u: Seq<char>, p: int) -> bool {
    &&& 0 <= p < u.len()
    &&& u[p] == '.'
    &&& u.len() >= 2
    &&& all_digits(u.subrange(0, p))
    &&& all_digits(u.subrange(p + 1, u.len() as int))
}

/// The whole and the fraction digits of a mantissa: digits with at most one
/// point, and at least one digit.
pub open spec fn mantissa_parts(m: Seq<char>) -> Option<(Seq<char>, Seq<char>)> {
    if m.len() > 0 && all_digits(m) {
        Some((m, Seq::<char>::empty()))
    } else if exists|p: int| is_point_split(m, p) {
        let p = choose|p: int| is_point_split(m, p);
        Some((m.subrange(0, p), m.subrange(p + 1, m.len() as int)))
    } else {
        None
    }
}

/// The power of ten that an exponent writes: an optional sign, then digits.
pub open spec fn exponent_value(x: Seq<char>) -> Option<int> {
    let signed = x.len() > 0 && (x[0] == '-' || x[0] == '+');
    let d = if signed {
        x.subrange(1, x.len() as int)
    } else {
        x
    };
    if d.len() > 0 && all_digits(d) {
        Some(
            if signed && x[0] == '-' {
                -digits_value(d)
            } else {
                digits_value(d)
            },
        )
    } else {
        None
    }
}

pub open spec fn is_exponent_mark(c: char) -> bool {
    c == 'e' || c == 'E'
}

/// `u` is a mantissa, an exponent mark at `k`, and an exponent.
pub open spec fn is_exponent_split(u: Seq<char>, k: int) -> bool {
    &&& 0 <= k < u.len()
    &&& is_exponent_mark(u[k])
    &&& mantissa_parts(u.subrange(0, k)) is Some
    &&& exponent_value(u.subrange(k + 1, u.len() as int)) is Some
}

/// The number `whole.frac` times ten to the power `e`, in billionths,
/// rounded toward zero.
pub open spec fn scaled_nanos(whole: Seq<char>, frac: Seq<char>, e: int) -> int {
    let n = digits_value(whole + frac);
    let s = 9 + e - frac.len();
    if s >= 0 {
        n * pow10(s as nat)
    } else {
        n / pow10((-s) as nat)
    }
}

/// The value of an unsigned decimal number, with an optional exponent, in
/// billionths of a degree.
pub open spec fn unsigned_nanos(u: Seq<char>) -> Option<int> {
    match mantissa_parts(u) {
        Some((w, f)) => Some(scaled_nanos(w, f, 0)),
        None => if exists|k: int| is_exponent_split(u, k) {
            let k = choose|k: int| is_exponent_split(u, k);
            let (w, f) = mantissa_parts(u.subrange(0, k)).unwrap();
            Some(scaled_nanos(w, f, exponent_value(u.subrange(k + 1, u.len() as int)).unwrap()))
        } else {
            None
        },
    }
}

/// The value of a decimal number with an optional sign, in billionths of a
/// degree, if it has at most `MAX_NANOS` of them.
pub open spec fn decimal_nanos(seg: Seq<char>) -> Option<int> {
    let negative = seg.len() > 0 && seg[0] == '-';
    let signed = seg.len() > 0 && (seg[0] == '-' || seg[0] == '+');
    let u = if signed {
        seg.subrange(1, seg.len() as int)
    } else {
        seg
    };
    match unsigned_nanos(u) {
        Some(v) => if v <= MAX_NANOS {
            Some(
                if negative {
                    -v
                } else {
                    v
                },
            )
        } else {
            None
        },
        None => None,
    }
}

/// The separator of `t` stands at `p`, and it is the only one.
pub open spec fn is_only_separator(t: Seq<char>, p: int) -> bool {
    &&& 0 <= p < t.len()
    &&& is_separator(t[p])
    &&& forall|j: int| 0 <= j < t.len() && j != p ==> !#[trigger] is_separator(t[j])
}

/// The latitude and longitude that the text `s` writes, in billionths of a degree.
pub open spec fn parse_spec(s: Seq<char>) -> Option<(int, int)> {
    let t = strip_blanks(s);
    if exists|p: int| is_only_separator(t, p) {
        let p = choose|p: int| is_only_separator(t, p);
        match (decimal_nanos(t.subrange(0, p)), decimal_nanos(t.subrange(p + 1, t.len() as int))) {
            (Some(lat), Some(lon)) => Some((lat, lon)),
            _ => None,
        }
    } else {
        None
    }
}

proof fn lemma_digits_step(s: Seq<char>, lo: int, i: int)
    requires
        0 <= lo <= i < s.len(),
    ensures
        digits_value(s.subrange(lo, i + 1)) == digits_value(s.subrange(lo, i)) * 10 + (s[i] as int
            - '0' as int),
{
    assert(s.subrange(lo, i + 1).drop_last() == s.subrange(lo, i));
}

/// Digits only add to the value.
proof fn lemma_digits_monotone(s: Seq<char>, lo: int, i: int, hi: int)
    requires
        0 <= lo <= i <= hi <= s.len(),
        all_digits(s.subrange(lo, hi)),
    ensures
        0 <= digits_value(s.subrange(lo, i)) <= digits_value(s.subrange(lo, hi)),
    decreases hi - i,
{
    assert forall|k: int| lo <= k < hi implies #[trigger] is_digit(s[k]) by {
        assert(s.subrange(lo, hi)[k - lo] == s[k]);
    }
    if i < hi {
        assert(all_digits(s.subrange(lo, hi - 1))) by {
            assert forall|k: int| 0 <= k < hi - 1 - lo implies #[trigger] is_digit(
                s.subrange(lo, hi - 1)[k],
            ) by {
                assert(s.subrange(lo, hi - 1)[k] == s.subrange(lo, hi)[k]);
            }
        }
        lemma_digits_monotone(s, lo, i, hi - 1);
        lemma_digits_step(s, lo, hi - 1);
        lemma_digits_nonneg(s, lo, hi - 1);
        assert(is_digit(s.subrange(lo, hi)[hi - 1 - lo]));
    } else {
        lemma_digits_nonneg(s, lo, i);
    }
}

proof fn lemma_digits_nonneg(s: Seq<char>, lo: int, hi: int)
    requires
        0 <= lo <= hi <= s.len(),
        forall|k: int| lo <= k < hi ==> #[trigger] is_digit(s[k]),
    ensures
        0 <= digits_value(s.subrange(lo, hi)),
    decreases hi - lo,
{
    if hi > lo {
        lemma_digits_nonneg(s, lo, hi - 1);
        lemma_digits_step(s, lo, hi - 1);
        assert(is_digit(s[hi - 1]));
    }
}

/// Index of the first character of `s[lo..hi]` that is not a digit, or `hi`.
fn first_non_digit(s: &Vec<char>, lo: usize, hi: usize) -> (p: usize)
    requires
        lo <= hi <= s@.len(),
    ensures
        lo <= p <= hi,
        all_digits(s@.subrange(lo as int, p as int)),
        p < hi ==> !is_digit(s@[p as int]),
{
    let mut p: usize = lo;
    while p < hi
        invariant
            lo <= p <= hi <= s@.len(),
            all_digits(s@.subrange(lo as int, p as int)),
        decreases hi - p,
    {
        let c = s[p];
        if !('0' <= c && c <= '9') {
            return p;
        }
        assert forall|k: int| 0 <= k < p + 1 - lo implies #[trigger] is_digit(
            s@.subrange(lo as int, p + 1)[k],
        ) by {
            if k < p - lo {
                assert(s@.subrange(lo as int, p + 1)[k] == s@.subrange(lo as int, p as int)[k]);
            }
        }
        p = p + 1;
    }
    p
}

/// The value of the digits `s[lo..hi]`, if it is at most `cap`.
fn digits_up_to(s: &Vec<char>, lo: usize, hi: usize, cap: u128) -> (r: Option<u128>)
    requires
        lo <= hi <= s@.len(),
        all_digits(s@.subrange(lo as int, hi as int)),
        cap <= 1_000_000_000_000_000_000_000_000_000_000,
    ensures
        match r {
            Some(v) => v == digits_value(s@.subrange(lo as int, hi as int)) && v <= cap,
            None => digits_value(s@.subrange(lo as int, hi as int)) > cap,
        },
{
    let mut v: u128 = 0;
    let mut i: usize = lo;
    while i < hi
        invariant
            lo <= i <= hi <= s@.len(),
            all_digits(s@.subrange(lo as int, hi as int)),
            v == digits_value(s@.subrange(lo as int, i as int)),
            v <= cap,
            cap <= 1_000_000_000_000_000_000_000_000_000_000,
        decreases hi - i,
    {
        assert(is_digit(s@.subrange(lo as int, hi as int)[i - lo]));
        let d: u128 = ((s[i] as u32) - ('0' as u32)) as u128;
        proof {
            lemma_digits_step(s@, lo as int, i as int);
        }
        let next: u128 = v * 10 + d;
        if next > cap {
            proof {
                lemma_digits_monotone(s@, lo as int, i + 1, hi as int);
            }
            return None;
        }
        v = next;
        i = i + 1;
    }
    Some(v)
}

proof fn lemma_pow10_monotone(a: nat, b: nat)
    requires
        a <= b,
    ensures
        1 <= pow10(a) <= pow10(b),
    decreases b,
{
    if b > a {
        lemma_pow10_monotone(a, (b - 1) as nat);
    } else if a > 0 {
        lemma_pow10_monotone((a - 1) as nat, (a - 1) as nat);
    }
}

/// A point split, where one exists, is the only one.
proof fn lemma_point_split_unique(u: Seq<char>, p: int, q: int)
    requires
        is_point_split(u, p),
        is_point_split(u, q),
    ensures
        p == q,
{
    if q < p {
        assert(u.subrange(0, p)[q] == u[q]);
        assert(is_digit(u.subrange(0, p)[q]));
    } else if p < q {
        assert(u.subrange(0, q)[p] == u[p]);
        assert(is_digit(u.subrange(0, q)[p]));
    }
}

/// A character that a mantissa may hold.
pub open spec fn is_mantissa_char(c: char) -> bool {
    is_digit(c) || c == '.'
}

proof fn lemma_mantissa_chars(m: Seq<char>)
    requires
        mantissa_parts(m) is Some,
    ensures
        forall|i: int| 0 <= i < m.len() ==> is_mantissa_char(#[trigger] m[i]),
{
    if !(m.len() > 0 && all_digits(m)) {
        let p = choose|p: int| is_point_split(m, p);
        assert forall|i: int| 0 <= i < m.len() implies is_mantissa_char(#[trigger] m[i]) by {
            if i < p {
                assert(is_digit(m.subrange(0, p)[i]));
            } else if i > p {
                assert(is_digit(m.subrange(p + 1, m.len() as int)[i - p - 1]));
            }
        }
    }
}

proof fn lemma_exponent_chars(x: Seq<char>)
    requires
        exponent_value(x) is Some,
    ensures
        forall|i: int| 0 <= i < x.len() ==> !is_exponent_mark(#[trigger] x[i]) && x[i] != '.',
{
    let signed = x.len() > 0 && (x[0] == '-' || x[0] == '+');
    assert forall|i: int| 0 <= i < x.len() implies !is_exponent_mark(#[trigger] x[i]) && x[i]
        != '.' by {
        if signed {
            if i > 0 {
                assert(is_digit(x.subrange(1, x.len() as int)[i - 1]));
            }
        } else {
            assert(is_digit(x[i]));
        }
    }
}

/// An exponent split, where one exists, is the only one.
proof fn lemma_exponent_split_unique(u: Seq<char>, k: int, q: int)
    requires
        is_exponent_split(u, k),
        is_exponent_split(u, q),
    ensures
        k == q,
{
    if k < q {
        lemma_exponent_chars(u.subrange(k + 1, u.len() as int));
        assert(u.subrange(k + 1, u.len() as int)[q - k - 1] == u[q]);
    } else if q < k {
        lemma_exponent_chars(u.subrange(q + 1, u.len() as int));
        assert(u.subrange(q + 1, u.len() as int)[k - q - 1] == u[k]);
    }
}

/// Digits written after others shift them up.
proof fn lemma_digits_concat(x: Seq<char>, y: Seq<char>)
    ensures
        digits_value(x + y) == digits_value(x) * pow10(y.len()) + digits_value(y),
    decreases y.len(),
{
    if y.len() == 0 {
        assert(x + y =~= x);
    } else {
        let y1 = y.drop_last();
        assert((x + y).drop_last() =~= x + y1);
        assert((x + y).last() == y.last());
        lemma_digits_concat(x, y1);
        let a = digits_value(x);
        let p = pow10(y1.len());
        let b = digits_value(y1);
        assert((a * p + b) * 10 == a * (10 * p) + b * 10) by (nonlinear_arith);
    }
}

/// Digits write less than ten to the power of their number.
proof fn lemma_digits_bound(y: Seq<char>)
    requires
        all_digits(y),
    ensures
        0 <= digits_value(y) < pow10(y.len()),
    decreases y.len(),
{
    if y.len() > 0 {
        let y1 = y.drop_last();
        assert(all_digits(y1)) by {
            assert forall|i: int| 0 <= i < y1.len() implies #[trigger] is_digit(y1[i]) by {
                assert(y1[i] == y[i]);
            }
        }
        assert(is_digit(y[y.len() - 1]));
        lemma_digits_bound(y1);
    }
}

/// The first `m` digits of `d` write the value of `d` divided by ten to the
/// power of the digits left out.
proof fn lemma_digits_prefix(d: Seq<char>, m: int)
    requires
        all_digits(d),
        0 <= m <= d.len(),
    ensures
        digits_value(d.subrange(0, m)) == digits_value(d) / pow10((d.len() - m) as nat),
{
    let x = d.subrange(0, m);
    let y = d.subrange(m, d.len() as int);
    assert(x + y =~= d);
    assert(all_digits(y)) by {
        assert forall|i: int| 0 <= i < y.len() implies #[trigger] is_digit(y[i]) by {
            assert(y[i] == d[i + m]);
        }
    }
    lemma_digits_concat(x, y);
    lemma_digits_bound(y);
    lemma_fundamental_div_mod_converse(
        digits_value(d),
        pow10(y.len()),
        digits_value(x),
        digits_value(y),
    );
}

/// Dividing by at least ten to the power of the number of digits leaves nothing.
proof fn lemma_digits_vanish(d: Seq<char>, k: nat)
    requires
        all_digits(d),
        d.len() <= k,
    ensures
        digits_value(d) / pow10(k) == 0,
{
    lemma_digits_bound(d);
    lemma_pow10_monotone(d.len(), k);
    lemma_fundamental_div_mod_converse(digits_value(d), pow10(k), 0, digits_value(d));
}

/// Appends `s[lo..hi]` to `d`.
fn push_range(d: &mut Vec<char>, s: &Vec<char>, lo: usize, hi: usize)
    requires
        lo <= hi <= s@.len(),
    ensures
        final(d)@ == old(d)@ + s@.subrange(lo as int, hi as int),
{
    let mut i: usize = lo;
    while i < hi
        invariant
            lo <= i <= hi <= s@.len(),
            d@ == old(d)@ + s@.subrange(lo as int, i as int),
        decreases hi - i,
    {
        d.push(s[i]);
        assert(old(d)@ + s@.subrange(lo as int, i + 1) =~= (old(d)@ + s@.subrange(
            lo as int,
            i as int,
        )).push(s@[i as int]));
        i = i + 1;
    }
}

/// The whole and fraction digits of the mantissa `s[lo..hi]`, one after the
/// other, with the number of whole digits.
fn mantissa_digits(s: &Vec<char>, lo: usize, hi: usize) -> (r: Option<(Vec<char>, usize)>)
    requires
        lo <= hi <= s@.len(),
    ensures
        match r {
            Some((d, w)) => match mantissa_parts(s@.subrange(lo as int, hi as int)) {
                Some((wp, fp)) => d@ == wp + fp && w == wp.len() && all_digits(d@),
                None => false,
            },
            None => mantissa_parts(s@.subrange(lo as int, hi as int)) is None,
        },
{
    let ghost u = s@.subrange(lo as int, hi as int);
    let p = first_non_digit(s, lo, hi);
    if p == hi {
        if hi == lo {
            return None;
        }
        assert(u == s@.subrange(lo as int, p as int));
        let mut d: Vec<char> = Vec::new();
        push_range(&mut d, s, lo, hi);
        assert(u + Seq::<char>::empty() =~= u);
        return Some((d, hi - lo));
    }
    assert(!is_digit(u[p - lo]));
    assert(!all_digits(u));
    if s[p] != '.' {
        assert forall|q: int| !is_point_split(u, q) by {
            if is_point_split(u, q) {
                if q < p - lo {
                    assert(s@.subrange(lo as int, p as int)[q] == u[q]);
                    assert(is_digit(s@.subrange(lo as int, p as int)[q]));
                } else if q > p - lo {
                    assert(u.subrange(0, q)[p - lo] == u[p - lo]);
                }
            }
        }
        return None;
    }
    let r = first_non_digit(s, p + 1, hi);
    if r < hi || hi - lo < 2 {
        assert forall|q: int| !is_point_split(u, q) by {
            if is_point_split(u, q) {
                if q < p - lo {
                    assert(s@.subrange(lo as int, p as int)[q] == u[q]);
                    assert(is_digit(s@.subrange(lo as int, p as int)[q]));
                } else if q > p - lo {
                    assert(u.subrange(0, q)[p - lo] == u[p - lo]);
                } else if r < hi {
                    assert(u.subrange(q + 1, u.len() as int)[r - p - 1] == s@[r as int]);
                    assert(is_digit(u.subrange(q + 1, u.len() as int)[r - p - 1]));
                }
            }
        }
        return None;
    }
    let ghost split = (p - lo) as int;
    assert(u.subrange(0, split) == s@.subrange(lo as int, p as int));
    assert(u.subrange(split + 1, u.len() as int) == s@.subrange(p + 1, hi as int));
    assert(is_point_split(u, split));
    proof {
        let q = choose|q: int| is_point_split(u, q);
        lemma_point_split_unique(u, split, q);
    }
    let mut d: Vec<char> = Vec::new();
    push_range(&mut d, s, lo, p);
    push_range(&mut d, s, p + 1, hi);
    assert(all_digits(d@)) by {
        assert forall|i: int| 0 <= i < d@.len() implies #[trigger] is_digit(d@[i]) by {
            if i < split {
                assert(d@[i] == s@.subrange(lo as int, p as int)[i]);
            } else {
                assert(d@[i] == s@.subrange(p + 1, hi as int)[i - split]);
            }
        }
    }
    Some((d, p - lo))
}

/// The exponent `s[lo..hi]`: whether it is negative, and its magnitude where
/// that is at most `cap`.
fn exponent_parts(s: &Vec<char>, lo: usize, hi: usize, cap: u128) -> (r: Option<(bool, Option<u128>)>)
    requires
        lo <= hi <= s@.len(),
        cap <= 1_000_000_000_000_000_000_000_000_000_000,
    ensures
        match r {
            None => exponent_value(s@.subrange(lo as int, hi as int)) is None,
            Some((negative, magnitude)) => match exponent_value(s@.subrange(lo as int, hi as int)) {
                Some(e) => (negative ==> e <= 0) && (!negative ==> e >= 0) && match magnitude {
                    Some(m) => m <= cap && e == if negative {
                        -m
                    } else {
                        m as int
                    },
                    None => e > cap || e < -cap,
                },
                None => false,
            },
        },
{
    let ghost x = s@.subrange(lo as int, hi as int);
    let negative = lo < hi && s[lo] == '-';
    let signed = lo < hi && (s[lo] == '-' || s[lo] == '+');
    let start: usize = if signed {
        lo + 1
    } else {
        lo
    };
    assert(signed ==> x.subrange(1, x.len() as int) == s@.subrange(start as int, hi as int));
    assert(!signed ==> x == s@.subrange(start as int, hi as int));
    let p = first_non_digit(s, start, hi);
    if p < hi || start == hi {
        assert(p < hi ==> s@.subrange(start as int, hi as int)[p - start] == s@[p as int]);
        return None;
    }
    assert(s@.subrange(start as int, p as int) == s@.subrange(start as int, hi as int));
    proof {
        assert forall|k: int| start <= k < hi implies #[trigger] is_digit(s@[k]) by {
            assert(s@.subrange(start as int, hi as int)[k - start] == s@[k]);
        }
        lemma_digits_nonneg(s@, start as int, hi as int);
    }
    match digits_up_to(s, start, hi, cap) {
        Some(m) => Some((negative, Some(m))),
        None => Some((negative, None)),
    }
}

/// The digits `d`, `w` of them whole, times ten to the power `e`, in
/// billionths rounded toward zero, if that is at most `MAX_NANOS`.
fn scale_digits(
    d: &Vec<char>,
    w: usize,
    negative: bool,
    magnitude: Option<u128>,
    Ghost(e): Ghost<int>,
) -> (r: Option<u64>)
    requires
        w <= d@.len(),
        all_digits(d@),
        negative ==> e <= 0,
        !negative ==> e >= 0,
        match magnitude {
            Some(m) => e == if negative {
                -m
            } else {
                m as int
            } && m <= d@.len() + 40,
            None => e > d@.len() + 40 || e < -(d@.len() + 40),
        },
    ensures
        match r {
            Some(v) => v == scaled_nanos(d@.subrange(0, w as int), d@.subrange(w as int, d@.len() as int), e)
                && v <= MAX_NANOS,
            None => scaled_nanos(d@.subrange(0, w as int), d@.subrange(w as int, d@.len() as int), e)
                > MAX_NANOS,
        },
{
    let ghost wp = d@.subrange(0, w as int);
    let ghost fp = d@.subrange(w as int, d@.len() as int);
    assert(wp + fp =~= d@);
    assert(d@.subrange(0, d@.len() as int) =~= d@);
    let len = d.len();
    let ghost sh = 9 + e - fp.len();
    proof {
        lemma_digits_bound(d@);
        reveal_with_fuel(pow10, 21);
    }
    assert(pow10(20) == 100_000_000_000_000_000_000);
    let all = digits_up_to(d, 0, len, MAX_NANOS as u128);
    match magnitude {
        None => {
            if negative {
                proof {
                    lemma_digits_vanish(d@, (-sh) as nat);
                }
                Some(0)
            } else {
                match all {
                    Some(n) => {
                        if n == 0 {
                            return Some(0);
                        }
                        proof {
                            lemma_pow10_monotone(20, sh as nat);
                            assert(n * pow10(sh as nat) >= pow10(sh as nat)) by (nonlinear_arith)
                                requires
                                    n >= 1,
                                    pow10(sh as nat) >= 1,
                            ;
                        }
                        None
                    },
                    None => {
                        proof {
                            lemma_pow10_monotone(0, sh as nat);
                            let n = digits_value(d@);
                            assert(n * pow10(sh as nat) >= n) by (nonlinear_arith)
                                requires
                                    n >= 0,
                                    pow10(sh as nat) >= 1,
                            ;
                        }
                        None
                    },
                }
            }
        },
        Some(m) => {
            let count: i128 = if negative {
                w as i128 - m as i128 + 9
            } else {
                w as i128 + m as i128 + 9
            };
            assert(count == w + e + 9);
            if count <= 0 {
                proof {
                    lemma_digits_vanish(d@, (-sh) as nat);
                }
                Some(0)
            } else if count <= len as i128 {
                proof {
                    lemma_digits_prefix(d@, count as int);
                    if sh >= 0 {
                        assert(sh == 0);
                        assert(d@.subrange(0, count as int) =~= d@);
                    }
                }
                match digits_up_to(d, 0, count as usize, MAX_NANOS as u128) {
                    Some(v) => Some(v as u64),
                    None => None,
                }
            } else {
                match all {
                    None => {
                        proof {
                            lemma_pow10_monotone(0, sh as nat);
                            let n = digits_value(d@);
                            assert(n * pow10(sh as nat) >= n) by (nonlinear_arith)
                                requires
                                    n >= 0,
                                    pow10(sh as nat) >= 1,
                            ;
                        }
                        None
                    },
                    Some(n) => {
                        let zeros: i128 = count - len as i128;
                        assert(zeros == sh);
                        let mut acc: u128 = n;
                        let mut j: i128 = 0;
                        assert(pow10(0) == 1);
                        assert(acc == n * pow10(0));
                        while j < zeros
                            invariant
                                0 <= j <= zeros,
                                zeros == sh,
                                acc == n * pow10(j as nat),
                                acc <= MAX_NANOS,
                                n == digits_value(d@),
                                wp + fp == d@,
                                wp == d@.subrange(0, w as int),
                                fp == d@.subrange(w as int, d@.len() as int),
                                sh == 9 + e - fp.len(),
                            decreases zeros - j,
                        {
                            if acc * 10 > MAX_NANOS as u128 {
                                proof {
                                    let a = (j + 1) as nat;
                                    let rest = (zeros - j - 1) as nat;
                                    lemma_pow10_monotone(0, rest);
                                    lemma_pow10_monotone(0, j as nat);
                                    lemma_pow10_split(a, rest);
                                    assert(a + rest == sh as nat);
                                    assert(pow10(a) == 10 * pow10(j as nat));
                                    let pj = pow10(j as nat);
                                    let pr = pow10(rest);
                                    assert(n * (10 * pj * pr) >= acc * 10) by (nonlinear_arith)
                                        requires
                                            acc == n * pj,
                                            n >= 0,
                                            pj >= 1,
                                            pr >= 1,
                                    ;
                                    assert(pow10(sh as nat) == 10 * pj * pr);
                                }
                                return None;
                            }
                            proof {
                                assert(pow10((j + 1) as nat) == 10 * pow10(j as nat));
                                assert(n * pow10(j as nat) * 10 == n * (10 * pow10(j as nat)))
                                    by (nonlinear_arith);
                            }
                            acc = acc * 10;
                            j = j + 1;
                        }
                        Some(acc as u64)
                    },
                }
            }
        },
    }
}

/// Ten to the power `a + b` is the product of the two powers.
proof fn lemma_pow10_split(a: nat, b: nat)
    ensures
        pow10(a + b) == pow10(a) * pow10(b),
    decreases b,
{
    if b > 0 {
        lemma_pow10_split(a, (b - 1) as nat);
        assert(pow10(a + b) == 10 * pow10((a + b - 1) as nat));
        assert(10 * (pow10(a) * pow10((b - 1) as nat)) == pow10(a) * (10 * pow10((b - 1) as nat)))
            by (nonlinear_arith);
    }
}

/// The value of the unsigned decimal number `s[lo..hi]`, with an optional
/// exponent, if it has at most `MAX_NANOS` billionths.
fn unsigned_value(s: &Vec<char>, lo: usize, hi: usize) -> (r: Option<u64>)
    requires
        lo <= hi <= s@.len(),
    ensures
        match r {
            Some(v) => unsigned_nanos(s@.subrange(lo as int, hi as int)) == Some(v as int) && v
                <= MAX_NANOS,
            None => match unsigned_nanos(s@.subrange(lo as int, hi as int)) {
                Some(v) => v > MAX_NANOS,
                None => true,
            },
        },
{
    let ghost u = s@.subrange(lo as int, hi as int);
    let k = find_exponent_mark(s, lo, hi);
    let ghost km = (k - lo) as int;
    if k == hi {
        assert(u == s@.subrange(lo as int, k as int));
        let m = mantissa_digits(s, lo, hi);
        match m {
            None => {
                assert forall|q: int| !is_exponent_split(u, q) by {
                    if is_exponent_split(u, q) {
                        assert(!is_exponent_mark(s@.subrange(lo as int, k as int)[q]));
                    }
                }
                None
            },
            Some((d, w)) => {
                proof {
                    let (wp, fp) = mantissa_parts(u).unwrap();
                    assert(d@.subrange(0, w as int) =~= wp);
                    assert(d@.subrange(w as int, d@.len() as int) =~= fp);
                }
                scale_digits(&d, w, false, Some(0), Ghost(0))
            },
        }
    } else {
        assert(is_exponent_mark(u[km]));
        assert(mantissa_parts(u) is None) by {
            if mantissa_parts(u) is Some {
                lemma_mantissa_chars(u);
                assert(is_mantissa_char(u[km]));
            }
        }
        assert(u.subrange(0, km) == s@.subrange(lo as int, k as int));
        assert(u.subrange(km + 1, u.len() as int) == s@.subrange(k + 1, hi as int));
        let m = mantissa_digits(s, lo, k);
        match m {
            None => {
                assert forall|q: int| !is_exponent_split(u, q) by {
                    if is_exponent_split(u, q) {
                        if q < km {
                            assert(!is_exponent_mark(s@.subrange(lo as int, k as int)[q]));
                        } else if q > km {
                            lemma_mantissa_chars(u.subrange(0, q));
                            assert(is_mantissa_char(u.subrange(0, q)[km]));
                        }
                    }
                }
                None
            },
            Some((d, w)) => {
                let cap: u128 = d.len() as u128 + 40;
                match exponent_parts(s, k + 1, hi, cap) {
                    None => {
                        assert forall|q: int| !is_exponent_split(u, q) by {
                            if is_exponent_split(u, q) {
                                if q < km {
                                    assert(!is_exponent_mark(s@.subrange(lo as int, k as int)[q]));
                                } else if q > km {
                                    lemma_mantissa_chars(u.subrange(0, q));
                                    assert(is_mantissa_char(u.subrange(0, q)[km]));
                                }
                            }
                        }
                        None
                    },
                    Some((negative, magnitude)) => {
                        assert(is_exponent_split(u, km));
                        proof {
                            let q = choose|q: int| is_exponent_split(u, q);
                            lemma_exponent_split_unique(u, km, q);
                        }
                        let ghost e = exponent_value(s@.subrange(k + 1, hi as int)).unwrap();
                        proof {
                            let (wp, fp) = mantissa_parts(u.subrange(0, km)).unwrap();
                            assert(d@.subrange(0, w as int) =~= wp);
                            assert(d@.subrange(w as int, d@.len() as int) =~= fp);
                        }
                        scale_digits(&d, w, negative, magnitude, Ghost(e))
                    },
                }
            },
        }
    }
}

/// The first index of `s[lo..hi]` that holds an exponent mark, or `hi`.
fn find_exponent_mark(s: &Vec<char>, lo: usize, hi: usize) -> (k: usize)
    requires
        lo <= hi <= s@.len(),
    ensures
        lo <= k <= hi,
        forall|j: int| lo <= j < k ==> !is_exponent_mark(#[trigger] s@[j]),
        k < hi ==> is_exponent_mark(s@[k as int]),
{
    let mut k: usize = lo;
    while k < hi
        invariant
            lo <= k <= hi <= s@.len(),
            forall|j: int| lo <= j < k ==> !is_exponent_mark(#[trigger] s@[j]),
        decreases hi - k,
    {
        if s[k] == 'e' || s[k] == 'E' {
            return k;
        }
        k = k + 1;
    }
    k
}

/// The value of the decimal number `s[lo..hi]`, with an optional sign, in
/// billionths of a degree.
pub fn decimal_value(s: &Vec<char>, lo: usize, hi: usize) -> (r: Option<i64>)
    requires
        lo <= hi <= s@.len(),
    ensures
        match r {
            Some(v) => decimal_nanos(s@.subrange(lo as int, hi as int)) == Some(v as int),
            None => decimal_nanos(s@.subrange(lo as int, hi as int)) is None,
        },
{
    let ghost seg = s@.subrange(lo as int, hi as int);
    let negative = lo < hi && s[lo] == '-';
    let signed = lo < hi && (s[lo] == '-' || s[lo] == '+');
    let start: usize = if signed {
        lo + 1
    } else {
        lo
    };
    assert(signed ==> seg.subrange(1, seg.len() as int) == s@.subrange(start as int, hi as int));
    assert(!signed ==> seg == s@.subrange(start as int, hi as int));
    match unsigned_value(s, start, hi) {
        Some(v) => {
            if negative {
                Some(-(v as i64))
            } else {
                Some(v as i64)
            }
        },
        None => None,
    }
}

/// The characters of `input` without its blanks.
pub fn strip_blank_chars(input: &str) -> (t: Vec<char>)
    ensures
        t@ == strip_blanks(input@),
{
    let n = input.unicode_len();
    let mut t: Vec<char> = Vec::new();
    let mut i: usize = 0;
    while i < n
        invariant
            n == input@.len(),
            i <= n,
            t@ == strip_blanks(input@.subrange(0, i as int)),
        decreases n - i,
    {
        let c = input.get_char(i);
        assert(input@.subrange(0, i + 1).drop_last() == input@.subrange(0, i as int));
        if !is_blank_char(c) {
            t.push(c);
        }
        i = i + 1;
    }
    assert(input@.subrange(0, n as int) == input@);
    t
}

/// The index of the only separator of `t`, if it has exactly one.
pub fn only_separator(t: &Vec<char>) -> (r: Option<usize>)
    ensures
        match r {
            Some(p) => is_only_separator(t@, p as int),
            None => forall|p: int| !is_only_separator(t@, p),
        },
{
    let mut found: Option<usize> = None;
    let mut i: usize = 0;
    while i < t.len()
        invariant
            i <= t@.len(),
            match found {
                Some(p) => p < i && is_separator(t@[p as int]) && forall|j: int|
                    0 <= j < i && j != p ==> !#[trigger] is_separator(t@[j]),
                None => forall|j: int| 0 <= j < i ==> !#[trigger] is_separator(t@[j]),
            },
        decreases t@.len() - i,
    {
        let c = t[i];
        if c == ',' || c == ';' {
            match found {
                Some(p) => {
                    assert forall|q: int| !is_only_separator(t@, q) by {
                        if is_only_separator(t@, q) {
                            if q != p as int {
                                assert(!is_separator(t@[p as int]));
                            } else {
                                assert(!is_separator(t@[i as int]));
                            }
                        }
                    }
                    return None;
                },
                None => {
                    found = Some(i);
                },
            }
        }
        i = i + 1;
    }
    match found {
        Some(p) => {},
        None => {
            assert forall|q: int| !is_only_separator(t@, q) by {
                if is_only_separator(t@, q) {
                    assert(is_separator(t@[q]));
                }
            }
        },
    }
    found
}

/// A character that no decimal number holds.
pub open spec fn is_foreign(c: char) -> bool {
    !is_digit(c) && c != '.' && c != '-' && c != '+' && !is_exponent_mark(c)
}

/// A decimal number holds nothing but digits, one point, a leading sign and an
/// exponent.
proof fn lemma_decimal_rejects_foreign(seg: Seq<char>, k: int)
    requires
        0 <= k < seg.len(),
        is_foreign(seg[k]),
    ensures
        decimal_nanos(seg) is None,
{
    let signed = seg.len() > 0 && (seg[0] == '-' || seg[0] == '+');
    let u = if signed {
        seg.subrange(1, seg.len() as int)
    } else {
        seg
    };
    let j = if signed {
        k - 1
    } else {
        k
    };
    assert(u[j] == seg[k]);
    if mantissa_parts(u) is Some {
        lemma_mantissa_chars(u);
        assert(is_mantissa_char(u[j]));
    }
    assert forall|q: int| !is_exponent_split(u, q) by {
        if is_exponent_split(u, q) {
            if j < q {
                lemma_mantissa_chars(u.subrange(0, q));
                assert(is_mantissa_char(u.subrange(0, q)[j]));
            } else if j > q {
                let x = u.subrange(q + 1, u.len() as int);
                assert(x[j - q - 1] == u[j]);
                let sx = x.len() > 0 && (x[0] == '-' || x[0] == '+');
                if sx {
                    if j - q - 1 > 0 {
                        assert(is_digit(x.subrange(1, x.len() as int)[j - q - 2]));
                    }
                } else {
                    assert(is_digit(x[j - q - 1]));
                }
            }
        }
    }
}

/// A text is no coordinate pair when, without its blanks, it has no separator
/// or more than one: zero, one, or more than two segments.
pub proof fn lemma_parse_needs_one_separator(s: Seq<char>)
    requires
        (forall|p: int| 0 <= p < strip_blanks(s).len() ==> !is_separator(#[trigger] strip_blanks(s)[p]))
            || exists|p: int, q: int|
            0 <= p < q < strip_blanks(s).len() && is_separator(#[trigger] strip_blanks(s)[p])
                && is_separator(#[trigger] strip_blanks(s)[q]),
    ensures
        parse_spec(s) is None,
{
    let t = strip_blanks(s);
    assert forall|p: int| !is_only_separator(t, p) by {
        if is_only_separator(t, p) {
            if exists|a: int, b: int|
                0 <= a < b < t.len() && is_separator(#[trigger] t[a]) && is_separator(#[trigger] t[b]) {
                let (a, b) = choose|a: int, b: int|
                    0 <= a < b < t.len() && is_separator(#[trigger] t[a]) && is_separator(
                        #[trigger] t[b],
                    );
                if a != p {
                    assert(!is_separator(t[a]));
                } else {
                    assert(!is_separator(t[b]));
                }
            } else {
                assert(!is_separator(t[p]));
            }
        }
    }
}

/// A text is no coordinate pair when, without its blanks, it holds a character
/// other than a separator, a digit, a point or a sign.
pub proof fn lemma_parse_rejects_foreign(s: Seq<char>, k: int)
    requires
        0 <= k < strip_blanks(s).len(),
        !is_separator(strip_blanks(s)[k]),
        is_foreign(strip_blanks(s)[k]),
    ensures
        parse_spec(s) is None,
{
    let t = strip_blanks(s);
    if exists|p: int| is_only_separator(t, p) {
        let p = choose|p: int| is_only_separator(t, p);
        if k < p {
            assert(t.subrange(0, p)[k] == t[k]);
            lemma_decimal_rejects_foreign(t.subrange(0, p), k);
        } else {
            assert(k != p);
            assert(t.subrange(p + 1, t.len() as int)[k - p - 1] == t[k]);
            lemma_decimal_rejects_foreign(t.subrange(p + 1, t.len() as int), k - p - 1);
        }
    }
}

/// The text of an exponent: a mark, an optional minus sign and digits.
pub open spec fn exponent_text(exponent: Option<(bool, Seq<char>)>) -> Seq<char> {
    match exponent {
        None => Seq::<char>::empty(),
        Some((negative, digits)) => seq!['e'] + (if negative {
            seq!['-']
        } else {
            Seq::<char>::empty()
        }) + digits,
    }
}

/// The power of ten that an exponent text writes.
pub open spec fn exponent_of(exponent: Option<(bool, Seq<char>)>) -> int {
    match exponent {
        None => 0,
        Some((negative, digits)) => if negative {
            -digits_value(digits)
        } else {
            digits_value(digits)
        },
    }
}

/// The text of a decimal number with a point: an optional minus sign, the
/// whole degrees, a point, the fraction digits, and an optional exponent.
pub open spec fn decimal_text(
    negative: bool,
    whole: Seq<char>,
    frac: Seq<char>,
    exponent: Option<(bool, Seq<char>)>,
) -> Seq<char> {
    (if negative {
        seq!['-']
    } else {
        Seq::<char>::empty()
    }) + whole + seq!['.'] + frac + exponent_text(exponent)
}

/// The value of that text in billionths of a degree, rounded toward zero.
pub open spec fn decimal_text_nanos(
    negative: bool,
    whole: Seq<char>,
    frac: Seq<char>,
    exponent: Option<(bool, Seq<char>)>,
) -> int {
    let v = scaled_nanos(whole, frac, exponent_of(exponent));
    if negative {
        -v
    } else {
        v
    }
}

/// The parts of a decimal number that the round trip speaks of.
pub open spec fn is_decimal_parts(
    whole: Seq<char>,
    frac: Seq<char>,
    exponent: Option<(bool, Seq<char>)>,
) -> bool {
    &&& whole.len() >= 1
    &&& all_digits(whole)
    &&& all_digits(frac)
    &&& match exponent {
        None => true,
        Some((_, digits)) => digits.len() >= 1 && all_digits(digits),
    }
    &&& scaled_nanos(whole, frac, exponent_of(exponent)) <= MAX_NANOS
}

pub open spec fn all_blank(s: Seq<char>) -> bool {
    forall|i: int| 0 <= i < s.len() ==> #[trigger] is_blank(s[i])
}

proof fn lemma_strip_concat(x: Seq<char>, y: Seq<char>)
    ensures
        strip_blanks(x + y) == strip_blanks(x) + strip_blanks(y),
    decreases y.len(),
{
    if y.len() == 0 {
        assert(x + y =~= x);
        assert(strip_blanks(x) + strip_blanks(y) =~= strip_blanks(x));
    } else {
        assert((x + y).drop_last() =~= x + y.drop_last());
        assert((x + y).last() == y.last());
        lemma_strip_concat(x, y.drop_last());
        if !is_blank(y.last()) {
            assert(strip_blanks(x) + strip_blanks(y.drop_last()).push(y.last()) =~= (strip_blanks(
                x,
            ) + strip_blanks(y.drop_last())).push(y.last()));
        }
    }
}

proof fn lemma_strip_blank(b: Seq<char>)
    requires
        all_blank(b),
    ensures
        strip_blanks(b) == Seq::<char>::empty(),
    decreases b.len(),
{
    if b.len() > 0 {
        assert(is_blank(b[b.len() - 1]));
        lemma_strip_blank(b.drop_last());
    } else {
        assert(b =~= Seq::<char>::empty());
    }
}

proof fn lemma_strip_no_blank(w: Seq<char>)
    requires
        forall|i: int| 0 <= i < w.len() ==> !#[trigger] is_blank(w[i]),
    ensures
        strip_blanks(w) == w,
    decreases w.len(),
{
    if w.len() > 0 {
        assert(!is_blank(w[w.len() - 1]));
        lemma_strip_no_blank(w.drop_last());
        assert(w.drop_last().push(w.last()) =~= w);
    } else {
        assert(w =~= Seq::<char>::empty());
    }
}

/// The characters of a decimal text are no blanks and no separators.
proof fn lemma_decimal_text_chars(
    negative: bool,
    whole: Seq<char>,
    frac: Seq<char>,
    exponent: Option<(bool, Seq<char>)>,
)
    requires
        is_decimal_parts(whole, frac, exponent),
    ensures
        forall|i: int|
            0 <= i < decimal_text(negative, whole, frac, exponent).len() ==> !#[trigger] is_blank(
                decimal_text(negative, whole, frac, exponent)[i],
            ),
        forall|i: int|
            0 <= i < decimal_text(negative, whole, frac, exponent).len() ==> !#[trigger] is_separator(
                decimal_text(negative, whole, frac, exponent)[i],
            ),
{
    let d = decimal_text(negative, whole, frac, exponent);
    let o: int = if negative {
        1
    } else {
        0
    };
    let x = exponent_text(exponent);
    let base = o + whole.len() + 1 + frac.len();
    assert forall|i: int| 0 <= i < d.len() implies !is_blank(#[trigger] d[i]) && !is_separator(
        d[i],
    ) by {
        if i < o {
            assert(d[i] == '-');
        } else if i < o + whole.len() {
            assert(d[i] == whole[i - o]);
            assert(is_digit(whole[i - o]));
        } else if i == o + whole.len() {
            assert(d[i] == '.');
        } else if i < base {
            assert(d[i] == frac[i - o - whole.len() - 1]);
            assert(is_digit(frac[i - o - whole.len() - 1]));
        } else {
            assert(d[i] == x[i - base]);
            let (en, ed) = exponent.unwrap();
            let eo: int = if en {
                2
            } else {
                1
            };
            if i - base >= eo {
                assert(x[i - base] == ed[i - base - eo]);
                assert(is_digit(ed[i - base - eo]));
            }
        }
    }
}

/// A decimal text parses to its value.
#[verifier::rlimit(60)]
proof fn lemma_decimal_text_value(
    negative: bool,
    whole: Seq<char>,
    frac: Seq<char>,
    exponent: Option<(bool, Seq<char>)>,
)
    requires
        is_decimal_parts(whole, frac, exponent),
    ensures
        decimal_nanos(decimal_text(negative, whole, frac, exponent)) == Some(
            decimal_text_nanos(negative, whole, frac, exponent),
        ),
{
    let seg = decimal_text(negative, whole, frac, exponent);
    let m = whole + seq!['.'] + frac;
    let u = m + exponent_text(exponent);
    let w = whole.len() as int;
    assert(is_digit(whole[0]));
    if negative {
        assert(seg.subrange(1, seg.len() as int) =~= u);
    } else {
        assert(seg =~= u);
        assert(seg[0] == whole[0]);
    }
    assert(m[w] == '.');
    assert(!is_digit(m[w]));
    assert(!all_digits(m));
    assert(m.subrange(0, w) =~= whole);
    assert(m.subrange(w + 1, m.len() as int) =~= frac);
    assert(is_point_split(m, w));
    let q = choose|q: int| is_point_split(m, q);
    lemma_point_split_unique(m, w, q);
    assert(mantissa_parts(m) == Some((whole, frac)));
    match exponent {
        None => {
            assert(u =~= m);
        },
        Some((en, ed)) => {
            let k = m.len() as int;
            let x = u.subrange(k + 1, u.len() as int);
            assert(u.subrange(0, k) =~= m);
            assert(u[k] == 'e');
            if en {
                assert(x =~= seq!['-'] + ed);
                assert(x.subrange(1, x.len() as int) =~= ed);
            } else {
                assert(x =~= ed);
                assert(is_digit(ed[0]));
            }
            assert(is_exponent_split(u, k));
            let q2 = choose|q2: int| is_exponent_split(u, q2);
            lemma_exponent_split_unique(u, k, q2);
            assert(mantissa_parts(u) is None) by {
                if mantissa_parts(u) is Some {
                    lemma_mantissa_chars(u);
                    assert(is_mantissa_char(u[k]));
                }
            }
        },
    }
}

/// Two decimal numbers of degrees, each written with a point and an optional
/// exponent, joined by a comma or a semicolon and padded with blanks anywhere
/// between the parts, parse back to those numbers: exactly where they have at
/// most nine places after the point once scaled, else rounded toward zero.
pub proof fn lemma_parse_round_trip(
    lat_negative: bool,
    lat_whole: Seq<char>,
    lat_frac: Seq<char>,
    lat_exponent: Option<(bool, Seq<char>)>,
    lon_negative: bool,
    lon_whole: Seq<char>,
    lon_frac: Seq<char>,
    lon_exponent: Option<(bool, Seq<char>)>,
    separator: char,
    blanks: (Seq<char>, Seq<char>, Seq<char>, Seq<char>),
)
    requires
        is_decimal_parts(lat_whole, lat_frac, lat_exponent),
        is_decimal_parts(lon_whole, lon_frac, lon_exponent),
        is_separator(separator),
        all_blank(blanks.0),
        all_blank(blanks.1),
        all_blank(blanks.2),
        all_blank(blanks.3),
    ensures
        parse_spec(
            blanks.0 + decimal_text(lat_negative, lat_whole, lat_frac, lat_exponent) + blanks.1 + seq![separator]
                + blanks.2 + decimal_text(lon_negative, lon_whole, lon_frac, lon_exponent) + blanks.3,
        ) == Some(
            (
                decimal_text_nanos(lat_negative, lat_whole, lat_frac, lat_exponent),
                decimal_text_nanos(lon_negative, lon_whole, lon_frac, lon_exponent),
            ),
        ),
{
    let d1 = decimal_text(lat_negative, lat_whole, lat_frac, lat_exponent);
    let d2 = decimal_text(lon_negative, lon_whole, lon_frac, lon_exponent);
    let sep = seq![separator];
    let (b0, b1, b2, b3) = blanks;
    lemma_decimal_text_chars(lat_negative, lat_whole, lat_frac, lat_exponent);
    lemma_decimal_text_chars(lon_negative, lon_whole, lon_frac, lon_exponent);
    lemma_strip_no_blank(d1);
    lemma_strip_no_blank(d2);
    lemma_strip_no_blank(sep);
    lemma_strip_blank(b0);
    lemma_strip_blank(b1);
    lemma_strip_blank(b2);
    lemma_strip_blank(b3);
    lemma_strip_concat(b0, d1);
    lemma_strip_concat(b0 + d1, b1);
    lemma_strip_concat(b0 + d1 + b1, sep);
    lemma_strip_concat(b0 + d1 + b1 + sep, b2);
    lemma_strip_concat(b0 + d1 + b1 + sep + b2, d2);
    lemma_strip_concat(b0 + d1 + b1 + sep + b2 + d2, b3);
    let text = b0 + d1 + b1 + sep + b2 + d2 + b3;
    let t = strip_blanks(text);
    assert(t =~= d1 + sep + d2);
    let p = d1.len() as int;
    assert(t[p] == separator);
    assert forall|j: int| 0 <= j < t.len() && j != p implies !#[trigger] is_separator(t[j]) by {
        if j < p {
            assert(t[j] == d1[j]);
            assert(!is_separator(d1[j]));
        } else {
            assert(t[j] == d2[j - p - 1]);
            assert(!is_separator(d2[j - p - 1]));
        }
    }
    assert(is_only_separator(t, p));
    let q = choose|q: int| is_only_separator(t, q);
    if q != p {
        assert(!is_separator(t[p]));
    }
    assert(t.subrange(0, p) =~= d1);
    assert(t.subrange(p + 1, t.len() as int) =~= d2);
    lemma_decimal_text_value(lat_negative, lat_whole, lat_frac, lat_exponent);
    lemma_decimal_text_value(lon_negative, lon_whole, lon_frac, lon_exponent);
}

} // verus!
