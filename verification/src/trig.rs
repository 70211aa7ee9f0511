//! Fixed-point sine and cosine.
//!
//! Angles are fixed-point radians (`SCALE` raw units per radian).  The sine
//! is a rational half-wave approximation; the cosine magnitude is recovered
//! from the sine through an exact integer square root, which makes
//! `sin^2 + cos^2 <= SCALE^2` a theorem.  That inequality is what the
//! broad-phase safety argument needs: a rotated point never leaves the disc
//! whose radius is its distance from the centre.

use vstd::prelude::*;

use crate::fixed::SCALE;

verus! {

/// Fixed-point pi (pi times `SCALE`, rounded down).
pub const PI_FP: i64 = 205887;

/// Fixed-point 2*pi, kept at exactly `2 * PI_FP` so that the half-wave
/// symmetry of the sine approximation is exact.
pub const TAU_FP: i64 = 411774;

/// Fixed-point pi/2, rounded up; only used to choose the cosine's sign.
pub const HALF_PI_FP: i64 = 102944;

/// An angle reduced to one full turn, `[0, TAU_FP)`.
pub open spec fn norm_angle(a: int) -> int {
    a % (TAU_FP as int)
}

/// The rational half-wave sine approximation on `[0, PI_FP]`, scaled by
/// `SCALE`: `16 g S / (5 pi^2 - 4 g)` with `g = x (pi - x)`.
pub open spec fn half_sine(x: int) -> int {
    let g = x * (PI_FP as int - x);
    (16 * g * (SCALE as int)) / (5 * (PI_FP as int) * (PI_FP as int) - 4 * g)
}

/// Fixed-point sine of an arbitrary angle.
pub open spec fn sin_spec(a: int) -> int {
    let x = norm_angle(a);
    if x <= PI_FP as int {
        half_sine(x)
    } else {
        -half_sine(x - PI_FP as int)
    }
}

/// The integer square root: the largest `r` with `r * r <= n`.
pub open spec fn isqrt_spec(n: int) -> int
    decreases n,
{
    if n < 1 {
        0
    } else {
        let r = isqrt_spec(n - 1);
        if (r + 1) * (r + 1) <= n {
            r + 1
        } else {
            r
        }
    }
}

/// Whether the cosine of a reduced angle is taken non-negative.
pub open spec fn cos_nonneg(x: int) -> bool {
    x <= HALF_PI_FP as int || x >= TAU_FP as int - HALF_PI_FP as int
}

/// Fixed-point cosine of an arbitrary angle: the Pythagorean complement of
/// the sine, signed by quadrant.
pub open spec fn cos_spec(a: int) -> int {
    let x = norm_angle(a);
    let s = sin_spec(a);
    let m = isqrt_spec((SCALE as int) * (SCALE as int) - s * s);
    if cos_nonneg(x) {
        m
    } else {
        -m
    }
}

pub proof fn lemma_isqrt_bracket(n: int)
    requires
        n >= 0,
    ensures
        0 <= isqrt_spec(n),
        isqrt_spec(n) * isqrt_spec(n) <= n,
        n < (isqrt_spec(n) + 1) * (isqrt_spec(n) + 1),
    decreases n,
{
    if n >= 1 {
        lemma_isqrt_bracket(n - 1);
        let r = isqrt_spec(n - 1);
        assert((r + 1) * (r + 1) < (r + 2) * (r + 2)) by (nonlinear_arith)
            requires r >= 0;
    }
}

pub proof fn lemma_isqrt_unique(n: int, r: int)
    requires
        n >= 0,
        r >= 0,
        r * r <= n,
        n < (r + 1) * (r + 1),
    ensures
        r == isqrt_spec(n),
{
    lemma_isqrt_bracket(n);
    let s = isqrt_spec(n);
    if r < s {
        assert((r + 1) * (r + 1) <= s * s) by (nonlinear_arith)
            requires 0 <= r && r < s;
        assert(false);
    }
    if s < r {
        assert((s + 1) * (s + 1) <= r * r) by (nonlinear_arith)
            requires 0 <= s && s < r;
        assert(false);
    }
}

/// The half-wave sine stays within `[0, SCALE]`.
pub proof fn lemma_half_sine_bounds(x: int)
    requires
        0 <= x <= PI_FP as int,
    ensures
        0 <= half_sine(x) <= SCALE as int,
{
    let p = PI_FP as int;
    let s = SCALE as int;
    let g = x * (p - x);
    let den = 5 * p * p - 4 * g;
    assert(0 <= x * (p - x) && 4 * (x * (p - x)) <= p * p) by (nonlinear_arith)
        requires 0 <= x <= p;
    assert(den >= p * p);
    vstd::arithmetic::div_mod::lemma_div_pos_is_pos(16 * g * s, den);
    assert(16 * g * s <= s * den) by (nonlinear_arith)
        requires 4 * g <= p * p && den == 5 * p * p - 4 * g && s >= 1;
    vstd::arithmetic::div_mod::lemma_div_is_ordered(16 * g * s, s * den, den);
    assert(s * den / den == s) by {
        vstd::arithmetic::div_mod::lemma_div_multiples_vanish(s, den);
        assert(s * den == den * s) by (nonlinear_arith);
    }
    if g == 0 {
        assert(half_sine(x) == 0int / den);
        vstd::arithmetic::div_mod::lemma_div_of0(den);
    }
}

/// The sine of any angle stays within `[-SCALE, SCALE]`.
pub proof fn lemma_sin_bounds(a: int)
    ensures
        -(SCALE as int) <= sin_spec(a) <= SCALE as int,
{
    let x = norm_angle(a);
    vstd::arithmetic::div_mod::lemma_mod_division_less_than_divisor(a, TAU_FP as int);
    if x <= PI_FP as int {
        lemma_half_sine_bounds(x);
    } else {
        lemma_half_sine_bounds(x - PI_FP as int);
    }
}

/// The fixed-point sine and cosine never name a point outside the unit
/// circle: `sin^2 + cos^2 <= SCALE^2`.
pub proof fn lemma_sin_cos_circle(a: int)
    ensures
        sin_spec(a) * sin_spec(a) + cos_spec(a) * cos_spec(a) <= (SCALE as int) * (SCALE as int),
        -(SCALE as int) <= sin_spec(a) <= SCALE as int,
        -(SCALE as int) <= cos_spec(a) <= SCALE as int,
{
    let s = sin_spec(a);
    let sq = SCALE as int;
    lemma_sin_bounds(a);
    assert(s * s <= sq * sq) by (nonlinear_arith)
        requires -sq <= s <= sq;
    assert(s * s >= 0) by (nonlinear_arith);
    lemma_isqrt_bracket(sq * sq - s * s);
    let m = isqrt_spec(sq * sq - s * s);
    assert(m * m <= sq * sq - s * s);
    assert(m <= sq) by (nonlinear_arith)
        requires m >= 0 && sq >= 1 && m * m <= sq * sq;
    assert(cos_spec(a) == m || cos_spec(a) == -m);
    assert(cos_spec(a) * cos_spec(a) == m * m) by (nonlinear_arith)
        requires cos_spec(a) == m || cos_spec(a) == -m;
}

/// The half-wave sine on `[0, PI_FP]`.
fn half_sine_fp(x: i64) -> (r: i64)
    requires
        0 <= x <= PI_FP,
    ensures
        r as int == half_sine(x as int),
        0 <= r <= SCALE,
{
    proof {
        lemma_half_sine_bounds(x as int);
        assert(0 <= x * (PI_FP as int - x) && 4 * (x * (PI_FP as int - x))
            <= (PI_FP as int) * (PI_FP as int)) by (nonlinear_arith)
            requires 0 <= x <= PI_FP as int;
    }
    let g: i64 = x * (PI_FP - x);
    let num: i64 = 16 * g * SCALE;
    let den: i64 = 5 * PI_FP * PI_FP - 4 * g;
    let r = match num.checked_div(den) {
        Some(q) => q,
        None => 0,  // unreachable: the divisor is positive
    };
    proof {
        if num > 0 {
        } else {
            vstd::arithmetic::div_mod::lemma_div_of0(den as int);
            assert(num == 0) by (nonlinear_arith)
                requires num == 16 * (x * (PI_FP as int - x)) * (SCALE as int) && num <= 0
                    && x * (PI_FP as int - x) >= 0;
        }
    }
    r
}

/// Fixed-point sine of any angle; exactly `sin_spec`.
pub fn sin_fp(a: i64) -> (r: i64)
    ensures
        r as int == sin_spec(a as int),
        -SCALE <= r <= SCALE,
{
    let x = match a.checked_rem_euclid(TAU_FP) {
        Some(x) => x,
        None => 0,  // unreachable: the modulus is positive
    };
    proof {
        vstd::arithmetic::div_mod::lemma_mod_division_less_than_divisor(a as int, TAU_FP as int);
        vstd::arithmetic::div_mod::lemma_mod_bound(a as int, TAU_FP as int);
    }
    if x <= PI_FP {
        half_sine_fp(x)
    } else {
        -half_sine_fp(x - PI_FP)
    }
}

/// The integer square root of `n <= SCALE^2`, by bisection.
fn isqrt_fp(n: u64) -> (r: u64)
    requires
        n <= (SCALE as u64) * (SCALE as u64),
    ensures
        r as int == isqrt_spec(n as int),
        r <= SCALE as u64,
{
    let mut lo: u64 = 0;
    let mut hi: u64 = SCALE as u64 + 1;
    proof {
        assert((SCALE as int + 1) * (SCALE as int + 1) > (SCALE as int) * (SCALE as int))
            by (nonlinear_arith);
    }
    while lo + 1 < hi
        invariant
            lo < hi <= SCALE as u64 + 1,
            lo * lo <= n,
            n < hi * hi,
        decreases hi - lo,
    {
        let mid = lo + (hi - lo) / 2;
        proof {
            vstd::arithmetic::div_mod::lemma_div_nonincreasing((hi - lo) as int, 2);
            assert(mid <= 65537);
            assert(mid * mid <= 65537 * 65537int) by (nonlinear_arith)
                requires mid <= 65537;
        }
        if mid * mid <= n {
            lo = mid;
        } else {
            hi = mid;
        }
    }
    proof {
        lemma_isqrt_unique(n as int, lo as int);
    }
    lo
}

/// Fixed-point cosine of any angle; exactly `cos_spec`.
pub fn cos_fp(a: i64) -> (r: i64)
    ensures
        r as int == cos_spec(a as int),
        -SCALE <= r <= SCALE,
{
    let x = match a.checked_rem_euclid(TAU_FP) {
        Some(x) => x,
        None => 0,  // unreachable: the modulus is positive
    };
    proof {
        vstd::arithmetic::div_mod::lemma_mod_division_less_than_divisor(a as int, TAU_FP as int);
        vstd::arithmetic::div_mod::lemma_mod_bound(a as int, TAU_FP as int);
    }
    let s = sin_fp(a);
    proof {
        assert(0 <= s * s <= (SCALE as int) * (SCALE as int)) by (nonlinear_arith)
            requires -(SCALE as int) <= s <= SCALE as int;
        lemma_sin_cos_circle(a as int);
    }
    let m = isqrt_fp((SCALE * SCALE - s * s) as u64);
    if x <= HALF_PI_FP || x >= TAU_FP - HALF_PI_FP {
        m as i64
    } else {
        -(m as i64)
    }
}

} // verus!
