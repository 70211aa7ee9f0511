//! Signed fixed-point scalars and 2D vectors.
//!
//! Every scalar the engine stores (positions, velocities, forces, masses,
//! angles) is an `i64` holding a real quantity scaled by `SCALE`.  All stored
//! values are kept inside `[-COORD_LIMIT, COORD_LIMIT]`; the clamping
//! operations below make every arithmetic step total and exactly specified.

use vstd::prelude::*;

verus! {

/// Number of raw units per world unit: stored values are reals times `SCALE`.
pub const SCALE: i64 = 65536;

/// Largest magnitude a stored scalar may take (2^47 - 1 raw units).
pub const COORD_LIMIT: i64 = 0x7fff_ffff_ffff;

/// Whether a mathematical value fits the stored-scalar range.
pub open spec fn in_range(x: int) -> bool {
    -(COORD_LIMIT as int) <= x <= COORD_LIMIT as int
}

/// Clamp a mathematical value into the stored-scalar range.
pub open spec fn clip(x: int) -> int {
    if x > COORD_LIMIT as int {
        COORD_LIMIT as int
    } else if x < -(COORD_LIMIT as int) {
        -(COORD_LIMIT as int)
    } else {
        x
    }
}

/// Division truncating towards zero (the machine semantics of `/` on signed
/// integers), written over the Euclidean `/` of specification arithmetic.
pub open spec fn div_tz(a: int, b: int) -> int {
    if a == 0 {
        0
    } else if a > 0 && b > 0 {
        a / b
    } else if a < 0 && b < 0 {
        (a * -1) / (b * -1)
    } else if a < 0 {
        ((a * -1) / b) * -1
    } else {
        (a / (b * -1)) * -1
    }
}

pub proof fn lemma_clip_in_range(x: int)
    ensures
        in_range(clip(x)),
        in_range(x) ==> clip(x) == x,
{
}

/// Truncating division by a positive divisor never grows the magnitude of a
/// value already divided by one, and preserves sign information.
pub proof fn lemma_div_tz_magnitude(a: int, b: int)
    requires
        b >= 1,
    ensures
        a >= 0 ==> 0 <= div_tz(a, b) <= a,
        a < 0 ==> a <= div_tz(a, b) <= 0,
{
    if a > 0 {
        vstd::arithmetic::div_mod::lemma_div_nonincreasing(a, b);
        vstd::arithmetic::div_mod::lemma_div_pos_is_pos(a, b);
    } else if a < 0 {
        vstd::arithmetic::div_mod::lemma_div_nonincreasing(a * -1, b);
        vstd::arithmetic::div_mod::lemma_div_pos_is_pos(a * -1, b);
    }
}

/// Exact division: dividing `k * a` by `k` recovers `a` exactly.
pub proof fn lemma_div_tz_exact(a: int, k: int)
    requires
        k >= 1,
    ensures
        div_tz(k * a, k) == a,
{
    if a > 0 {
        vstd::arithmetic::div_mod::lemma_div_multiples_vanish(a, k);
        assert(k * a == a * k) by (nonlinear_arith);
        assert(k * a > 0) by (nonlinear_arith)
            requires k >= 1 && a > 0;
    } else if a < 0 {
        vstd::arithmetic::div_mod::lemma_div_multiples_vanish(a * -1, k);
        assert(k * a < 0) by (nonlinear_arith)
            requires k >= 1 && a < 0;
        assert((k * a) * -1 == (a * -1) * k) by (nonlinear_arith);
    } else {
        assert(k * a == 0) by (nonlinear_arith)
            requires a == 0;
    }
}

/// Clamped addition of stored scalars.
pub fn cadd(a: i64, b: i64) -> (r: i64)
    requires
        in_range(a as int),
        in_range(b as int),
    ensures
        r as int == clip(a + b),
        in_range(r as int),
{
    let s = a + b;
    if s > COORD_LIMIT {
        COORD_LIMIT
    } else if s < -COORD_LIMIT {
        -COORD_LIMIT
    } else {
        s
    }
}

/// Clamp a wide intermediate result back into the stored-scalar range.
fn clamp_wide(q: i128) -> (r: i64)
    ensures
        r as int == clip(q as int),
{
    if q > COORD_LIMIT as i128 {
        COORD_LIMIT
    } else if q < -(COORD_LIMIT as i128) {
        -COORD_LIMIT
    } else {
        q as i64
    }
}

/// Divide a wide intermediate value by a positive divisor, truncating towards
/// zero, then clamp into the stored-scalar range.
fn div_clamp_wide(p: i128, d: i128) -> (r: i64)
    requires
        d >= 1,
        -0x8000_0000_0000_0000_0000_0000_0000_0000 < p,
    ensures
        r as int == clip(div_tz(p as int, d as int)),
{
    proof {
        lemma_div_tz_magnitude(p as int, d as int);
    }
    let q = match p.checked_div(d) {
        Some(q) => q,
        None => 0,  // unreachable: the quotient magnitude never exceeds |p|
    };
    clamp_wide(q)
}

/// `clip(div_tz(a * b, d))`: fixed-point multiply-divide with a positive
/// divisor, e.g. `cmul_div(v, dt, SCALE)` for a velocity times a time step.
pub fn cmul_div(a: i64, b: i64, d: i64) -> (r: i64)
    requires
        in_range(a as int),
        in_range(b as int),
        1 <= d,
    ensures
        r as int == clip(div_tz(a * b, d as int)),
{
    proof {
        assert(-(COORD_LIMIT as int) * (COORD_LIMIT as int) <= a * b
            <= (COORD_LIMIT as int) * (COORD_LIMIT as int)) by (nonlinear_arith)
            requires
                in_range(a as int) && in_range(b as int);
    }
    let p: i128 = (a as i128) * (b as i128);
    div_clamp_wide(p, d as i128)
}

/// `clip(div_tz(c1 * v1 + c2 * v2, d))`: the shape of the elastic-collision
/// velocity formula, with coefficients up to twice the stored-scalar range.
pub fn lin2_div(c1: i64, v1: i64, c2: i64, v2: i64, d: i64) -> (r: i64)
    requires
        -2 * (COORD_LIMIT as int) <= c1 <= 2 * (COORD_LIMIT as int),
        -2 * (COORD_LIMIT as int) <= c2 <= 2 * (COORD_LIMIT as int),
        in_range(v1 as int),
        in_range(v2 as int),
        1 <= d,
    ensures
        r as int == clip(div_tz(c1 * v1 + c2 * v2, d as int)),
{
    proof {
        assert(-2 * (COORD_LIMIT as int) * (COORD_LIMIT as int) <= c1 * v1
            <= 2 * (COORD_LIMIT as int) * (COORD_LIMIT as int)) by (nonlinear_arith)
            requires
                -2 * (COORD_LIMIT as int) <= c1 <= 2 * (COORD_LIMIT as int) && in_range(v1 as int);
        assert(-2 * (COORD_LIMIT as int) * (COORD_LIMIT as int) <= c2 * v2
            <= 2 * (COORD_LIMIT as int) * (COORD_LIMIT as int)) by (nonlinear_arith)
            requires
                -2 * (COORD_LIMIT as int) <= c2 <= 2 * (COORD_LIMIT as int) && in_range(v2 as int);
    }
    let p: i128 = (c1 as i128) * (v1 as i128) + (c2 as i128) * (v2 as i128);
    div_clamp_wide(p, d as i128)
}

/// Addition saturating at the `i64` machine bounds, for payload counters
/// that carry no range invariant.
pub open spec fn sat_add(a: int, b: int) -> int {
    if a + b > i64::MAX {
        i64::MAX as int
    } else if a + b < i64::MIN {
        i64::MIN as int
    } else {
        a + b
    }
}

/// Saturating addition on machine integers.
pub fn sat_add64(a: i64, b: i64) -> (r: i64)
    ensures
        r as int == sat_add(a as int, b as int),
{
    match a.checked_add(b) {
        Some(v) => v,
        None => {
            if b > 0 {
                i64::MAX
            } else {
                i64::MIN
            }
        },
    }
}

/// A two-dimensional vector of stored fixed-point scalars.
#[derive(Clone, Copy, Debug, PartialEq, Eq, Structural)]
pub struct Vec2 {
    pub x: i64,
    pub y: i64,
}

/// Whether both components fit the stored-scalar range.
pub open spec fn vec2_in_range(v: Vec2) -> bool {
    in_range(v.x as int) && in_range(v.y as int)
}

impl Vec2 {
    /// The origin.
    pub fn zero() -> (r: Vec2)
        ensures
            r == (Vec2 { x: 0, y: 0 }),
    {
        Vec2 { x: 0, y: 0 }
    }

    /// Component-wise clamped addition.
    pub fn cadd(self, other: Vec2) -> (r: Vec2)
        requires
            vec2_in_range(self),
            vec2_in_range(other),
        ensures
            r.x as int == clip(self.x + other.x),
            r.y as int == clip(self.y + other.y),
            vec2_in_range(r),
    {
        Vec2 { x: cadd(self.x, other.x), y: cadd(self.y, other.y) }
    }
}

} // verus!
