//! A fixed-point cosine of angles given in half-billionths of a degree.
use vstd::arithmetic::div_mod::{lemma_div_is_ordered, lemma_div_is_ordered_by_denominator};
use vstd::arithmetic::mul::lemma_mul_upper_bound;
use vstd::prelude::*;

verus! {

/// The fixed-point unit: a cosine of `COS_ONE` stands for 1.
pub const COS_ONE: i128 = 1_000_000_000_000_000;

/// Pi in units of `COS_ONE`.
pub const PI_FIXED: i128 = 3_141_592_653_589_793;

/// Half a turn (180 degrees) in half-billionths of a degree.
pub const HALF_TURN: u128 = 360_000_000_000;

/// A quarter turn (90 degrees) in half-billionths of a degree.
pub const QUARTER_TURN: u128 = 180_000_000_000;

/// A full turn (360 degrees) in half-billionths of a degree.
pub const FULL_TURN: u128 = 720_000_000_000;

/// The Horner form of the cosine series from the term of degree `2k` on,
/// with `y` the square of the angle in radians, scaled by `COS_ONE`.
/// The series is cut after the term of degree 16.
pub open spec fn series_from(y: int, k: nat) -> int
    decreases 9 - k,
{
    if k >= 9 || k == 0 {
        COS_ONE as int
    } else {
        COS_ONE - (y * series_from(y, k + 1)) / (COS_ONE * term_denominator(k))
    }
}

/// The denominator `(2k)(2k - 1)` that the term of degree `2k` adds.
pub open spec fn term_denominator(k: nat) -> int {
    if k == 1 {
        2
    } else if k == 2 {
        12
    } else if k == 3 {
        30
    } else if k == 4 {
        56
    } else if k == 5 {
        90
    } else if k == 6 {
        132
    } else if k == 7 {
        182
    } else {
        240
    }
}

/// The angle `t` (half-billionths of a degree) in radians, scaled by `COS_ONE`.
pub open spec fn radians_fixed(t: int) -> int {
    t * PI_FIXED / (HALF_TURN as int)
}

/// Cosine of an angle of at most a quarter turn.
pub open spec fn cos_first_quadrant(t: int) -> int {
    let u = radians_fixed(t);
    series_from(u * u / (COS_ONE as int), 1)
}

/// Cosine of any angle, by folding it into the first quadrant.
#[verifier::opaque]
pub open spec fn cos_spec(a: int) -> int {
    let t = abs(a) % (FULL_TURN as int);
    let q = QUARTER_TURN as int;
    if t <= q {
        cos_first_quadrant(t)
    } else if t <= 2 * q {
        -cos_first_quadrant(2 * q - t)
    } else if t <= 3 * q {
        -cos_first_quadrant(t - 2 * q)
    } else {
        cos_first_quadrant(4 * q - t)
    }
}

/// The absolute value of an integer.
pub open spec fn abs(a: int) -> int {
    if a < 0 {
        -a
    } else {
        a
    }
}

/// The cosine is even.
pub proof fn lemma_cos_even(a: int)
    ensures
        cos_spec(a) == cos_spec(-a),
{
    reveal(cos_spec);
}

/// The bounds of one step of the series, `y * acc / (COS_ONE * d)`.
proof fn lemma_series_step(y: int, acc: int, d: int)
    requires
        0 <= y <= 2_500_000_000_000_000,
        0 <= acc <= COS_ONE,
        2 <= d,
    ensures
        0 <= y * acc <= 2_500_000_000_000_000_000_000_000_000_000,
        0 <= (y * acc) / (COS_ONE * d) <= 1_250_000_000_000_000,
        d >= 12 ==> (y * acc) / (COS_ONE * d) <= 208_333_333_333_334,
{
    lemma_mul_upper_bound(y, 2_500_000_000_000_000, acc, COS_ONE as int);
    assert(0 <= y * acc) by (nonlinear_arith)
        requires
            0 <= y,
            0 <= acc,
    ;
    let big: int = 2_500_000_000_000_000_000_000_000_000_000;
    assert(COS_ONE * d >= 2_000_000_000_000_000) by (nonlinear_arith)
        requires
            d >= 2,
    ;
    lemma_div_is_ordered(y * acc, big, COS_ONE * d);
    lemma_div_is_ordered_by_denominator(big, 2_000_000_000_000_000, COS_ONE * d);
    assert(big / 2_000_000_000_000_000 == 1_250_000_000_000_000);
    if d >= 12 {
        assert(COS_ONE * d >= 12_000_000_000_000_000) by (nonlinear_arith)
            requires
                d >= 12,
        ;
        lemma_div_is_ordered_by_denominator(big, 12_000_000_000_000_000, COS_ONE * d);
        assert(big / 12_000_000_000_000_000 == 208_333_333_333_333);
    }
}

/// The denominator `(2k)(2k - 1)` of the series term of degree `2k`.
fn series_denominator(k: i128) -> (d: i128)
    requires
        1 <= k <= 8,
    ensures
        d == term_denominator(k as nat),
        2 <= d,
        k >= 2 ==> d >= 12,
{
    if k == 1 {
        2
    } else if k == 2 {
        12
    } else if k == 3 {
        30
    } else if k == 4 {
        56
    } else if k == 5 {
        90
    } else if k == 6 {
        132
    } else if k == 7 {
        182
    } else {
        240
    }
}

/// Cosine of an angle `t` of at most a quarter turn, in units of `COS_ONE`.
fn cos_first_quadrant_exec(t: u128) -> (r: i128)
    requires
        t <= QUARTER_TURN,
    ensures
        r == cos_first_quadrant(t as int),
        -COS_ONE <= r <= COS_ONE,
{
    assert(t * PI_FIXED <= QUARTER_TURN * PI_FIXED) by (nonlinear_arith)
        requires
            t <= QUARTER_TURN,
    ;
    let u: i128 = (t as i128) * PI_FIXED / (HALF_TURN as i128);
    assert(u <= 1_570_796_326_794_897) by {
        lemma_div_is_ordered((t * PI_FIXED) as int, (QUARTER_TURN * PI_FIXED) as int, HALF_TURN as int);
    }
    assert(0 <= u * u <= 1_570_796_326_794_897 * 1_570_796_326_794_897) by (nonlinear_arith)
        requires
            0 <= u <= 1_570_796_326_794_897,
    ;
    let y: i128 = u * u / COS_ONE;
    assert(y <= 2_500_000_000_000_000) by {
        lemma_div_is_ordered(
            (u * u) as int,
            (1_570_796_326_794_897 * 1_570_796_326_794_897) as int,
            COS_ONE as int,
        );
    }
    let mut acc: i128 = COS_ONE;
    let mut k: i128 = 8;
    while k >= 2
        invariant
            1 <= k <= 8,
            0 <= y <= 2_500_000_000_000_000,
            0 <= acc <= COS_ONE,
            acc == series_from(y as int, (k + 1) as nat),
        decreases k,
    {
        let d: i128 = series_denominator(k);
        proof {
            lemma_series_step(y as int, acc as int, d as int);
        }
        assert(0 <= y * acc <= 2_500_000_000_000_000_000_000_000_000_000);
        assert(COS_ONE * d <= 240_000_000_000_000_000);
        assert(0 <= (y * acc) / (COS_ONE * d) <= 208_333_333_333_334);
        acc = COS_ONE - (y * acc) / (COS_ONE * d);
        k = k - 1;
    }
    proof {
        lemma_series_step(y as int, acc as int, 2);
    }
    let r: i128 = COS_ONE - (y * acc) / (COS_ONE * 2);
    r
}

/// Cosine of the angle `a` (half-billionths of a degree), in units of `COS_ONE`.
pub fn cos_fixed(a: u128) -> (r: i128)
    ensures
        r == cos_spec(a as int),
        -COS_ONE <= r <= COS_ONE,
{
    reveal(cos_spec);
    let t: u128 = a % FULL_TURN;
    if t <= QUARTER_TURN {
        cos_first_quadrant_exec(t)
    } else if t <= 2 * QUARTER_TURN {
        -cos_first_quadrant_exec(2 * QUARTER_TURN - t)
    } else if t <= 3 * QUARTER_TURN {
        -cos_first_quadrant_exec(t - 2 * QUARTER_TURN)
    } else {
        cos_first_quadrant_exec(4 * QUARTER_TURN - t)
    }
}

} // verus!
