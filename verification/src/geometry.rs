//! Convex-polygon geometry: projection of polar hitbox descriptors to world
//! space, the bounding-radius broad phase, and the one-directional
//! vertex-containment narrow phase.
//!
//! The narrow phase deliberately tests only whether some vertex of the second
//! polygon lies inside the region bounded by the first polygon's edges; two
//! convex shapes can interpenetrate with crossing edges and no contained
//! vertex, and such a pair does not count as overlapping.  Gameplay balance
//! depends on this exact policy, so it is a deliberate choice, not a bug.

use vstd::prelude::*;

use crate::fixed::COORD_LIMIT;
use crate::fixed::SCALE;
use crate::fixed::Vec2;
use crate::fixed::cmul_div;
use crate::fixed::div_tz;
use crate::fixed::in_range;
use crate::fixed::lemma_div_tz_magnitude;
use crate::fixed::vec2_in_range;
use crate::trig::cos_fp;
use crate::trig::cos_spec;
use crate::trig::lemma_sin_cos_circle;
use crate::trig::sin_fp;
use crate::trig::sin_spec;

verus! {

/// A convex polygon in body-local polar coordinates: vertex `k` sits at
/// angle `angles[k]` (fixed-point radians) and distance `distances[k]` from
/// the body's origin.  Consecutive vertices, wrapping last-to-first, form
/// the polygon's edges.
#[derive(Debug)]
pub struct Polygon {
    pub angles: Vec<i64>,
    pub distances: Vec<i64>,
}

/// A well-formed collider: at least three vertices, one distance per angle,
/// angles in the stored-scalar range and distances non-negative.
pub open spec fn poly_valid(p: Polygon) -> bool {
    &&& p.angles@.len() >= 3
    &&& p.angles@.len() == p.distances@.len()
    &&& forall|i: int| 0 <= i < p.angles@.len() ==> in_range((#[trigger] p.angles@[i]) as int)
    &&& forall|i: int| 0 <= i < p.distances@.len() ==> 0 <= #[trigger] p.distances@[i] <= COORD_LIMIT
}

/// World-space vertex `k` of a polygon carried by a body with the given
/// rotation and position.
pub open spec fn wvert(p: Polygon, rot: int, pos: Vec2, k: int) -> (int, int) {
    let a = p.angles@[k] + rot;
    let d = p.distances@[k] as int;
    (pos.x + div_tz(d * cos_spec(a), SCALE as int), pos.y + div_tz(d * sin_spec(a), SCALE as int))
}

/// All world-space vertices, in descriptor order.
pub open spec fn poly_points(p: Polygon, rot: int, pos: Vec2) -> Seq<(int, int)> {
    Seq::new(p.angles@.len(), |k: int| wvert(p, rot, pos, k))
}

/// The squared distance between two points.
pub open spec fn dist2(a: (int, int), b: (int, int)) -> int {
    (a.0 - b.0) * (a.0 - b.0) + (a.1 - b.1) * (a.1 - b.1)
}

/// The cross product of `b - a` and `w - a`: positive when `w` lies to the
/// left of the directed edge `a -> b`.
pub open spec fn pcross(a: (int, int), b: (int, int), w: (int, int)) -> int {
    (b.0 - a.0) * (w.1 - a.1) - (b.1 - a.1) * (w.0 - a.0)
}

/// The cross product for edge `i` of the closed vertex cycle `vs`.
pub open spec fn edge_cross(vs: Seq<(int, int)>, i: int, w: (int, int)) -> int {
    pcross(vs[i], vs[if i + 1 == vs.len() { 0int } else { i + 1 }], w)
}

/// `w` lies on or to the left of every edge.
pub open spec fn all_left(vs: Seq<(int, int)>, w: (int, int)) -> bool {
    forall|i: int| 0 <= i < vs.len() ==> #[trigger] edge_cross(vs, i, w) >= 0
}

/// `w` lies on or to the right of every edge.
pub open spec fn all_right(vs: Seq<(int, int)>, w: (int, int)) -> bool {
    forall|i: int| 0 <= i < vs.len() ==> #[trigger] edge_cross(vs, i, w) <= 0
}

/// The standard boundary-inclusive inclusion test for a point against a
/// convex vertex cycle of either orientation.
pub open spec fn contains_point(vs: Seq<(int, int)>, w: (int, int)) -> bool {
    vs.len() >= 3 && (all_left(vs, w) || all_right(vs, w))
}

/// The largest hitbox distance: the polygon's bounding radius.
pub open spec fn max_distance(p: Polygon) -> int {
    max_dist_upto(p.distances@, p.distances@.len() as int)
}

pub open spec fn max_dist_upto(s: Seq<i64>, n: int) -> int
    decreases n,
{
    if n <= 0 {
        0
    } else if s[n - 1] as int > max_dist_upto(s, n - 1) {
        s[n - 1] as int
    } else {
        max_dist_upto(s, n - 1)
    }
}

/// Bounding-radius rejection: the centres are further apart than the two
/// radii combined, so no narrow-phase work is needed.
pub open spec fn broad_reject(pos1: Vec2, r1: int, pos2: Vec2, r2: int) -> bool {
    dist2((pos1.x as int, pos1.y as int), (pos2.x as int, pos2.y as int)) > (r1 + r2) * (r1 + r2)
}

/// The full overlap test: broad phase, then one-directional containment of
/// some vertex of the second polygon in the first.
pub open spec fn overlap_spec(
    p1: Polygon,
    rot1: int,
    pos1: Vec2,
    p2: Polygon,
    rot2: int,
    pos2: Vec2,
) -> bool {
    &&& !broad_reject(pos1, max_distance(p1), pos2, max_distance(p2))
    &&& exists|k: int|
        0 <= k < p2.angles@.len() && contains_point(
            poly_points(p1, rot1, pos1),
            #[trigger] poly_points(p2, rot2, pos2)[k],
        )
}

/// A rotated offset of length at most `d` stays inside the disc of radius
/// `d`: the offset components are individually bounded by `d` and their
/// squares sum to at most `d * d`.
pub proof fn lemma_offset_in_disc(d: int, a: int)
    requires
        0 <= d,
    ensures
        ({
            let ox = div_tz(d * cos_spec(a), SCALE as int);
            let oy = div_tz(d * sin_spec(a), SCALE as int);
            -d <= ox <= d && -d <= oy <= d && ox * ox + oy * oy <= d * d
        }),
{
    let s = SCALE as int;
    let c = cos_spec(a);
    let sn = sin_spec(a);
    let ox = div_tz(d * c, s);
    let oy = div_tz(d * sn, s);
    lemma_sin_cos_circle(a);
    lemma_div_tz_magnitude(d * c, s);
    lemma_div_tz_magnitude(d * sn, s);
    // |ox| * s <= |d * c| and |oy| * s <= |d * sn|
    lemma_abs_div_step(d * c, s);
    lemma_abs_div_step(d * sn, s);
    assert(d * c <= d * s && -(d * s) <= d * c) by (nonlinear_arith)
        requires 0 <= d && -s <= c <= s;
    assert(d * sn <= d * s && -(d * s) <= d * sn) by (nonlinear_arith)
        requires 0 <= d && -s <= sn <= s;
    assert(-d <= ox <= d) by (nonlinear_arith)
        requires
            abs_sp(ox) * s <= abs_sp(d * c) && abs_sp(d * c) <= d * s && s >= 1
                && abs_sp(ox) >= 0 && (ox == abs_sp(ox) || ox == -abs_sp(ox));
    assert(-d <= oy <= d) by (nonlinear_arith)
        requires
            abs_sp(oy) * s <= abs_sp(d * sn) && abs_sp(d * sn) <= d * s && s >= 1
                && abs_sp(oy) >= 0 && (oy == abs_sp(oy) || oy == -abs_sp(oy));
    // (ox^2 + oy^2) * s^2 <= d^2 * (c^2 + sn^2) <= d^2 * s^2
    assert(ox * ox * (s * s) <= (d * c) * (d * c)) by (nonlinear_arith)
        requires abs_sp(ox) * s <= abs_sp(d * c) && s >= 1;
    assert(oy * oy * (s * s) <= (d * sn) * (d * sn)) by (nonlinear_arith)
        requires abs_sp(oy) * s <= abs_sp(d * sn) && s >= 1;
    assert((d * c) * (d * c) + (d * sn) * (d * sn) <= (d * d) * (s * s)) by (nonlinear_arith)
        requires c * c + sn * sn <= s * s;
    assert(ox * ox + oy * oy <= d * d) by (nonlinear_arith)
        requires
            ox * ox * (s * s) + oy * oy * (s * s) <= (d * d) * (s * s) && s >= 1;
}

/// The absolute value of a specification integer.
pub open spec fn abs_sp(x: int) -> int {
    if x >= 0 {
        x
    } else {
        -x
    }
}

/// Truncating division by a positive divisor: the quotient magnitude times
/// the divisor never exceeds the dividend magnitude.
proof fn lemma_abs_div_step(p: int, s: int)
    requires
        s >= 1,
    ensures
        abs_sp(div_tz(p, s)) * s <= abs_sp(p),
        abs_sp(div_tz(p, s)) >= 0,
        div_tz(p, s) == abs_sp(div_tz(p, s)) || div_tz(p, s) == -abs_sp(div_tz(p, s)),
{
    lemma_div_tz_magnitude(p, s);
    if p >= 0 {
        vstd::arithmetic::div_mod::lemma_fundamental_div_mod(p, s);
        vstd::arithmetic::div_mod::lemma_mod_division_less_than_divisor(p, s);
        vstd::arithmetic::div_mod::lemma_mod_bound(p, s);
        assert(div_tz(p, s) * s <= p) by (nonlinear_arith)
            requires p == s * (p / s) + p % s && p % s >= 0 && div_tz(p, s) == p / s;
    } else {
        let q = p * -1;
        vstd::arithmetic::div_mod::lemma_fundamental_div_mod(q, s);
        vstd::arithmetic::div_mod::lemma_mod_division_less_than_divisor(q, s);
        vstd::arithmetic::div_mod::lemma_mod_bound(q, s);
        assert((q / s) * s <= q) by (nonlinear_arith)
            requires q == s * (q / s) + q % s && q % s >= 0;
    }
}

/// Every world vertex lies inside the disc around the body's position whose
/// radius is the polygon's bounding radius.
pub proof fn lemma_vertex_in_disc(p: Polygon, rot: int, pos: Vec2, k: int)
    requires
        poly_valid(p),
        0 <= k < p.angles@.len(),
    ensures
        dist2(poly_points(p, rot, pos)[k], (pos.x as int, pos.y as int)) <= max_distance(p)
            * max_distance(p),
{
    let d = p.distances@[k] as int;
    let a = p.angles@[k] + rot;
    lemma_offset_in_disc(d, a);
    lemma_max_dist_bounds(p.distances@, p.distances@.len() as int);
    assert(d <= max_distance(p));
    let m = max_distance(p);
    let ox = div_tz(d * cos_spec(a), SCALE as int);
    let oy = div_tz(d * sin_spec(a), SCALE as int);
    assert(poly_points(p, rot, pos)[k].0 - pos.x == ox);
    assert(poly_points(p, rot, pos)[k].1 - pos.y == oy);
    assert(d * d <= m * m) by (nonlinear_arith)
        requires 0 <= d <= m;
}

/// The running maximum dominates every prefix element and is attained.
pub proof fn lemma_max_dist_bounds(s: Seq<i64>, n: int)
    requires
        n <= s.len(),
    ensures
        forall|i: int| 0 <= i < n ==> (#[trigger] s[i]) as int <= max_dist_upto(s, n),
        max_dist_upto(s, n) >= 0,
    decreases n,
{
    if n > 0 {
        lemma_max_dist_bounds(s, n - 1);
    }
}

/// The dot product of two points taken as vectors.
pub open spec fn vdot(a: (int, int), b: (int, int)) -> int {
    a.0 * b.0 + a.1 * b.1
}

/// The cross product of two points taken as vectors.
pub open spec fn vcross(a: (int, int), b: (int, int)) -> int {
    a.0 * b.1 - a.1 * b.0
}

/// The difference of two points.
pub open spec fn vsub(a: (int, int), b: (int, int)) -> (int, int) {
    (a.0 - b.0, a.1 - b.1)
}

/// The index after `i` in the closed vertex cycle of length `n`.
pub open spec fn nxt(n: int, i: int) -> int {
    if i + 1 == n {
        0
    } else {
        i + 1
    }
}

/// The index before `i` in the closed vertex cycle of length `n`.
pub open spec fn prv(n: int, i: int) -> int {
    if i == 0 {
        n - 1
    } else {
        i - 1
    }
}

/// Edge `i` of the closed vertex cycle, as a vector.
pub open spec fn edge_vec(vs: Seq<(int, int)>, i: int) -> (int, int) {
    vsub(vs[nxt(vs.len() as int, i)], vs[i])
}

/// A strictly convex counter-clockwise vertex cycle: at every vertex the
/// boundary turns strictly left.
pub open spec fn strictly_convex_ccw(vs: Seq<(int, int)>) -> bool {
    forall|i: int|
        0 <= i < vs.len() ==> #[trigger] vcross(
            edge_vec(vs, i),
            edge_vec(vs, nxt(vs.len() as int, i)),
        ) > 0
}

/// The Cauchy-Schwarz inequality in the plane, by the Lagrange identity,
/// expanded one monomial regrouping at a time.
proof fn lemma_cauchy_schwarz(ux: int, uy: int, vx: int, vy: int)
    ensures
        (ux * vx + uy * vy) * (ux * vx + uy * vy) <= (ux * ux + uy * uy) * (vx * vx + vy * vy),
{
    let p = ux * vx;
    let q = uy * vy;
    let r = ux * vy;
    let s = uy * vx;
    assert((p + q) * (p + q) == p * p + 2 * (p * q) + q * q) by (nonlinear_arith);
    assert((r - s) * (r - s) == r * r - 2 * (r * s) + s * s) by (nonlinear_arith);
    let a = ux * ux;
    let b = uy * uy;
    let c = vx * vx;
    let d = vy * vy;
    assert((a + b) * (c + d) == a * c + a * d + b * c + b * d) by (nonlinear_arith);
    assert((ux * vx) * (ux * vx) == (ux * ux) * (vx * vx)) by (nonlinear_arith);
    assert((uy * vy) * (uy * vy) == (uy * uy) * (vy * vy)) by (nonlinear_arith);
    assert((ux * vy) * (ux * vy) == (ux * ux) * (vy * vy)) by (nonlinear_arith);
    assert((uy * vx) * (uy * vx) == (uy * uy) * (vx * vx)) by (nonlinear_arith);
    assert((ux * vx) * (uy * vy) == (ux * vy) * (uy * vx)) by (nonlinear_arith);
    assert((r - s) * (r - s) >= 0) by (nonlinear_arith);
}

/// The change of basis along a direction `u`: the cross product of two
/// vectors, scaled by `|u|^2`, equals the cross product of their
/// along-and-across components with respect to `u`.  Expanded one
/// monomial regrouping at a time.
proof fn lemma_rot_identity(ux: int, uy: int, ex: int, ey: int, fx: int, fy: int)
    ensures
        (ux * ux + uy * uy) * (ex * fy - ey * fx) == (ex * ux + ey * uy) * (ux * fy - uy * fx) - (
        ux * ey - uy * ex) * (fx * ux + fy * uy),
{
    let ea = ex * ux;
    let eb = ey * uy;
    let fc = ux * fy;
    let fd = uy * fx;
    let ga = ux * ey;
    let gb = uy * ex;
    let ha = fx * ux;
    let hb = fy * uy;
    assert((ea + eb) * (fc - fd) == ea * fc - ea * fd + eb * fc - eb * fd) by (nonlinear_arith);
    assert((ga - gb) * (ha + hb) == ga * ha + ga * hb - gb * ha - gb * hb) by (nonlinear_arith);
    let k = ux * ux;
    let l = uy * uy;
    let m = ex * fy;
    let n = ey * fx;
    assert((k + l) * (m - n) == k * m - k * n + l * m - l * n) by (nonlinear_arith);
    assert((ex * ux) * (ux * fy) == (ux * ux) * (ex * fy)) by (nonlinear_arith);
    assert((ey * uy) * (uy * fx) == (uy * uy) * (ey * fx)) by (nonlinear_arith);
    assert((ux * ey) * (fx * ux) == (ux * ux) * (ey * fx)) by (nonlinear_arith);
    assert((uy * ex) * (fy * uy) == (uy * uy) * (ex * fy)) by (nonlinear_arith);
    assert((ey * uy) * (ux * fy) == (ux * ey) * (fy * uy)) by (nonlinear_arith);
    assert((ex * ux) * (uy * fx) == (uy * ex) * (fx * ux)) by (nonlinear_arith);
}

/// Squares order values against a non-negative bound.
proof fn lemma_sq_le(a: int, b: int)
    requires
        a * a <= b * b,
        0 <= b,
    ensures
        a <= b,
{
    if a > b {
        assert(a * a > b * b) by (nonlinear_arith)
            requires a > b >= 0;
    }
}

/// The triangle inequality on squared lengths: two hops of squared length
/// at most `r1*r1` and `r2*r2` end within squared distance `(r1+r2)^2`.
proof fn lemma_triangle_sq(ux: int, uy: int, vx: int, vy: int, r1: int, r2: int)
    requires
        0 <= r1,
        0 <= r2,
        ux * ux + uy * uy <= r1 * r1,
        vx * vx + vy * vy <= r2 * r2,
    ensures
        (ux + vx) * (ux + vx) + (uy + vy) * (uy + vy) <= (r1 + r2) * (r1 + r2),
{
    lemma_cauchy_schwarz(ux, uy, vx, vy);
    assert(0 <= ux * ux + uy * uy && 0 <= vx * vx + vy * vy) by (nonlinear_arith);
    let s = ux * vx + uy * vy;
    assert(s * s <= (r1 * r2) * (r1 * r2)) by (nonlinear_arith)
        requires
            s * s <= (ux * ux + uy * uy) * (vx * vx + vy * vy) && ux * ux + uy * uy <= r1 * r1
                && vx * vx + vy * vy <= r2 * r2 && 0 <= ux * ux + uy * uy && 0 <= vx * vx + vy
                * vy,
    ;
    assert(r1 * r2 >= 0) by (nonlinear_arith)
        requires r1 >= 0 && r2 >= 0;
    lemma_sq_le(s, r1 * r2);
    assert((ux + vx) * (ux + vx) + (uy + vy) * (uy + vy) <= (r1 + r2) * (r1 + r2))
        by (nonlinear_arith)
        requires
            s == ux * vx + uy * vy && s <= r1 * r2 && ux * ux + uy * uy <= r1 * r1 && vx * vx + vy
                * vy <= r2 * r2,
    ;
}

/// The index of a vertex extreme in the direction `u`: it attains the
/// largest dot product with `u` among the first `n` vertices.
proof fn argmax_index(vs: Seq<(int, int)>, u: (int, int), n: int) -> (k: int)
    requires
        1 <= n <= vs.len(),
    ensures
        0 <= k < n,
        forall|i: int| 0 <= i < n ==> vdot(#[trigger] vs[i], u) <= vdot(vs[k], u),
    decreases n,
{
    if n == 1 {
        0
    } else {
        let k0 = argmax_index(vs, u, n - 1);
        if vdot(vs[n - 1], u) > vdot(vs[k0], u) {
            n - 1
        } else {
            k0
        }
    }
}

/// The index of a vertex extreme against the direction `u`.
proof fn argmin_index(vs: Seq<(int, int)>, u: (int, int), n: int) -> (k: int)
    requires
        1 <= n <= vs.len(),
    ensures
        0 <= k < n,
        forall|i: int| 0 <= i < n ==> vdot(#[trigger] vs[i], u) >= vdot(vs[k], u),
{
    let nu = (-u.0, -u.1);
    let k = argmax_index(vs, nu, n);
    assert forall|i: int| 0 <= i < n implies vdot(#[trigger] vs[i], u) >= vdot(vs[k], u) by {
        let px = vs[i].0;
        let py = vs[i].1;
        let kx = vs[k].0;
        let ky = vs[k].1;
        assert(px * (-u.0) + py * (-u.1) == -(px * u.0 + py * u.1)) by (nonlinear_arith);
        assert(kx * (-u.0) + ky * (-u.1) == -(kx * u.0 + ky * u.1)) by (nonlinear_arith);
        assert(vdot(vs[i], nu) <= vdot(vs[k], nu));
    }
    k
}

/// The supporting-edge argument in scalar form: at a strictly convex left
/// turn whose corner is extreme along the direction, a point on the
/// agreeing side of both incident edges cannot be strictly ahead of the
/// corner.
proof fn lemma_support_contradiction(
    uu: int,
    a1: int,
    b1: int,
    a2: int,
    b2: int,
    dp: int,
    dq: int,
    ce: int,
)
    requires
        uu > 0,
        uu * ce == a1 * b2 - b1 * a2,
        ce > 0,
        (a1 >= 0 && a2 <= 0 && a1 * dq - b1 * dp >= 0 && a2 * dq - b2 * dp >= 0) || (a1 <= 0 && a2
            >= 0 && a1 * dq - b1 * dp <= 0 && a2 * dq - b2 * dp <= 0),
    ensures
        dp <= 0,
{
    let cw = a1 * b2 - b1 * a2;
    vstd::arithmetic::mul::lemma_mul_strictly_positive(uu, ce);
    assert(cw > 0);
    if a1 >= 0 && a2 <= 0 && a1 * dq - b1 * dp >= 0 && a2 * dq - b2 * dp >= 0 {
        vstd::arithmetic::mul::lemma_mul_inequality(b2 * dp, a2 * dq, a1);
        vstd::arithmetic::mul::lemma_mul_inequality(b1 * dp, a1 * dq, -a2);
        assert((b2 * dp) * a1 == (a1 * b2) * dp) by (nonlinear_arith);
        assert((a2 * dq) * a1 == (a1 * a2) * dq) by (nonlinear_arith);
        assert((b1 * dp) * (-a2) == -((b1 * a2) * dp)) by (nonlinear_arith);
        assert((a1 * dq) * (-a2) == -((a1 * a2) * dq)) by (nonlinear_arith);
        assert((a1 * b2) * dp <= (a1 * a2) * dq);
        assert((a1 * a2) * dq <= (b1 * a2) * dp);
        assert((a1 * b2) * dp - (b1 * a2) * dp == cw * dp) by (nonlinear_arith)
            requires cw == a1 * b2 - b1 * a2;
        assert(cw * dp <= 0);
    } else {
        vstd::arithmetic::mul::lemma_mul_inequality(a2 * dq, b2 * dp, a1 * -1);
        vstd::arithmetic::mul::lemma_mul_inequality(a1 * dq, b1 * dp, a2);
        assert((b2 * dp) * (a1 * -1) == -((a1 * b2) * dp)) by (nonlinear_arith);
        assert((a2 * dq) * (a1 * -1) == -((a1 * a2) * dq)) by (nonlinear_arith);
        assert((b1 * dp) * a2 == (b1 * a2) * dp) by (nonlinear_arith);
        assert((a1 * dq) * a2 == (a1 * a2) * dq) by (nonlinear_arith);
        assert((a1 * b2) * dp <= (a1 * a2) * dq);
        assert((a1 * a2) * dq <= (b1 * a2) * dp);
        assert((a1 * b2) * dp - (b1 * a2) * dp == cw * dp) by (nonlinear_arith)
            requires cw == a1 * b2 - b1 * a2;
        assert(cw * dp <= 0);
    }
    if dp > 0 {
        vstd::arithmetic::mul::lemma_mul_strictly_positive(cw, dp);
    }
}

/// The corner analysis over bare coordinates: `(ax, ay)` is a corner with
/// incoming edge from `(px, py)` and outgoing edge to `(qx, qy)` turning
/// strictly left; the corner is extreme along `(ux, uy)` among the three
/// points that matter; and the point `w = (wx, wy)` is on the agreeing
/// side of both incident edges.  Then `w` does not lie strictly ahead of
/// the corner along `(ux, uy)`.
proof fn lemma_corner_core(
    ux: int,
    uy: int,
    ax: int,
    ay: int,
    px: int,
    py: int,
    qx: int,
    qy: int,
    wx: int,
    wy: int,
    left: bool,
)
    requires
        ux * ux + uy * uy > 0,
        (ax - px) * (qy - ay) - (ay - py) * (qx - ax) > 0,
        left ==> px * ux + py * uy <= ax * ux + ay * uy && qx * ux + qy * uy <= ax * ux + ay * uy,
        !left ==> px * ux + py * uy >= ax * ux + ay * uy && qx * ux + qy * uy >= ax * ux + ay * uy,
        left ==> (ax - px) * (wy - py) - (ay - py) * (wx - px) >= 0 && (qx - ax) * (wy - ay) - (qy
            - ay) * (wx - ax) >= 0,
        !left ==> (ax - px) * (wy - py) - (ay - py) * (wx - px) <= 0 && (qx - ax) * (wy - ay) - (
        qy - ay) * (wx - ax) <= 0,
    ensures
        (wx - ax) * ux + (wy - ay) * uy <= 0,
{
    let uu = ux * ux + uy * uy;
    let e1x = ax - px;
    let e1y = ay - py;
    let e2x = qx - ax;
    let e2y = qy - ay;
    let dx = wx - ax;
    let dy = wy - ay;
    let a1 = e1x * ux + e1y * uy;
    let b1 = ux * e1y - uy * e1x;
    let a2 = e2x * ux + e2y * uy;
    let b2 = ux * e2y - uy * e2x;
    let dp = dx * ux + dy * uy;
    let dq = ux * dy - uy * dx;
    let ce = e1x * e2y - e1y * e2x;
    // the incoming edge test, rebased at the corner
    assert(e1x * (wy - py) - e1y * (wx - px) == e1x * dy - e1y * dx) by (nonlinear_arith)
        requires
            e1x == ax - px && e1y == ay - py && dx == wx - ax && dy == wy - ay,
    ;
    // extremality gives the advance of each incident edge along u
    assert(a1 == (ax * ux + ay * uy) - (px * ux + py * uy)) by (nonlinear_arith)
        requires a1 == (ax - px) * ux + (ay - py) * uy;
    assert(a2 == (qx * ux + qy * uy) - (ax * ux + ay * uy)) by (nonlinear_arith)
        requires a2 == (qx - ax) * ux + (qy - ay) * uy;
    // the change of basis along u, for each vector pair involved
    lemma_rot_identity(ux, uy, e1x, e1y, dx, dy);
    lemma_rot_identity(ux, uy, e2x, e2y, dx, dy);
    lemma_rot_identity(ux, uy, e1x, e1y, e2x, e2y);
    assert(uu * (e1x * dy - e1y * dx) == a1 * dq - b1 * dp);
    assert(uu * (e2x * dy - e2y * dx) == a2 * dq - b2 * dp);
    assert(uu * ce == a1 * b2 - b1 * a2);
    if left {
        assert(a1 >= 0 && a2 <= 0);
        assert(e1x * dy - e1y * dx >= 0);
        assert(e2x * dy - e2y * dx >= 0);
        assert(a1 * dq - b1 * dp >= 0) by (nonlinear_arith)
            requires
                uu > 0 && e1x * dy - e1y * dx >= 0 && uu * (e1x * dy - e1y * dx) == a1 * dq - b1
                    * dp,
        ;
        assert(a2 * dq - b2 * dp >= 0) by (nonlinear_arith)
            requires
                uu > 0 && e2x * dy - e2y * dx >= 0 && uu * (e2x * dy - e2y * dx) == a2 * dq - b2
                    * dp,
        ;
        lemma_support_contradiction(uu, a1, b1, a2, b2, dp, dq, ce);
    } else {
        assert(a1 <= 0 && a2 >= 0);
        assert(e1x * dy - e1y * dx <= 0);
        assert(e2x * dy - e2y * dx <= 0);
        assert(a1 * dq - b1 * dp <= 0) by (nonlinear_arith)
            requires
                uu > 0 && e1x * dy - e1y * dx <= 0 && uu * (e1x * dy - e1y * dx) == a1 * dq - b1
                    * dp,
        ;
        assert(a2 * dq - b2 * dp <= 0) by (nonlinear_arith)
            requires
                uu > 0 && e2x * dy - e2y * dx <= 0 && uu * (e2x * dy - e2y * dx) == a2 * dq - b2
                    * dp,
        ;
        lemma_support_contradiction(uu, a1, b1, a2, b2, dp, dq, ce);
    }
}

/// A point strictly outside the disc lies strictly ahead of every point of
/// the disc, measured along its own offset from the centre.
proof fn lemma_outside_point_ahead(gx: int, gy: int, ux: int, uy: int, r: int)
    requires
        r >= 0,
        gx * gx + gy * gy <= r * r,
        ux * ux + uy * uy > r * r,
    ensures
        (ux - gx) * ux + (uy - gy) * uy > 0,
{
    let uu = ux * ux + uy * uy;
    let x = gx * ux + gy * uy;
    lemma_cauchy_schwarz(gx, gy, ux, uy);
    assert(0 <= r * r) by (nonlinear_arith)
        requires r >= 0;
    assert(x * x <= (r * r) * uu) by (nonlinear_arith)
        requires
            x * x <= (gx * gx + gy * gy) * uu && gx * gx + gy * gy <= r * r && 0 <= uu,
    ;
    assert(x * x < uu * uu) by (nonlinear_arith)
        requires x * x <= (r * r) * uu && r * r < uu && 0 < uu;
    assert(x < uu) by {
        if x >= uu {
            assert(x * x >= uu * uu) by (nonlinear_arith)
                requires x >= uu > 0;
        }
    }
    assert((ux - gx) * ux + (uy - gy) * uy == uu - x) by (nonlinear_arith)
        requires uu == ux * ux + uy * uy && x == gx * ux + gy * uy;
}

/// A point that passes the inclusion test against a strictly convex
/// counter-clockwise cycle lies in every disc that contains the cycle's
/// vertices.
pub proof fn lemma_contained_point_in_disc(
    vs: Seq<(int, int)>,
    c: (int, int),
    r: int,
    w: (int, int),
)
    requires
        vs.len() >= 3,
        r >= 0,
        forall|i: int| 0 <= i < vs.len() ==> dist2(#[trigger] vs[i], c) <= r * r,
        strictly_convex_ccw(vs),
        contains_point(vs, w),
    ensures
        dist2(w, c) <= r * r,
{
    if dist2(w, c) > r * r {
        let n = vs.len() as int;
        let ux = w.0 - c.0;
        let uy = w.1 - c.1;
        let u = vsub(w, c);
        assert(u == (ux, uy));
        assert(ux * ux + uy * uy == dist2(w, c));
        let left = all_left(vs, w);
        let k = if left {
            argmax_index(vs, u, n)
        } else {
            argmin_index(vs, u, n)
        };
        let kp = prv(n, k);
        let kn = nxt(n, k);
        assert(0 <= kp < n && 0 <= kn < n);
        assert(nxt(n, kp) == k);
        let ax = vs[k].0;
        let ay = vs[k].1;
        let px = vs[kp].0;
        let py = vs[kp].1;
        let qx = vs[kn].0;
        let qy = vs[kn].1;
        // the corner turns strictly left
        assert((ax - px) * (qy - ay) - (ay - py) * (qx - ax) > 0) by {
            assert(vcross(edge_vec(vs, kp), edge_vec(vs, nxt(n, kp))) > 0);
            assert(edge_vec(vs, kp) == (ax - px, ay - py));
            assert(edge_vec(vs, k) == (qx - ax, qy - ay));
        }
        // the corner is extreme along u
        assert(vdot(vs[kp], u) == px * ux + py * uy);
        assert(vdot(vs[kn], u) == qx * ux + qy * uy);
        assert(vdot(vs[k], u) == ax * ux + ay * uy);
        // the two incident edge tests
        assert(edge_cross(vs, kp, w) == (ax - px) * (w.1 - py) - (ay - py) * (w.0 - px));
        assert(edge_cross(vs, k, w) == (qx - ax) * (w.1 - ay) - (qy - ay) * (w.0 - ax));
        if left {
            assert(edge_cross(vs, kp, w) >= 0);
            assert(edge_cross(vs, k, w) >= 0);
        } else {
            assert(all_right(vs, w));
            assert(edge_cross(vs, kp, w) <= 0);
            assert(edge_cross(vs, k, w) <= 0);
        }
        // yet w sits strictly ahead of the extreme corner along u
        assert(dist2(vs[k], c) <= r * r);
        assert((ax - c.0) * (ax - c.0) + (ay - c.1) * (ay - c.1) == dist2(vs[k], c));
        lemma_outside_point_ahead(ax - c.0, ay - c.1, ux, uy, r);
        assert((ux - (ax - c.0)) * ux + (uy - (ay - c.1)) * uy > 0);
        assert(w.0 - ax == ux - (ax - c.0) && w.1 - ay == uy - (ay - c.1));
        lemma_corner_core(ux, uy, ax, ay, px, py, qx, qy, w.0, w.1, left);
        assert(false);
    }
}

/// Broad-phase safety: whenever the narrow phase would accept some vertex
/// of the second polygon as contained in the first (in a strictly convex
/// counter-clockwise placement), the bounding-radius broad phase does not
/// reject the pair — it has no false negatives.  Degenerate descriptors
/// whose world vertices are not strictly convex are outside this
/// guarantee: their edge half-planes can enclose points far outside every
/// bounding disc.
pub proof fn lemma_broad_phase_safe(
    p1: Polygon,
    rot1: int,
    pos1: Vec2,
    p2: Polygon,
    rot2: int,
    pos2: Vec2,
    k: int,
)
    requires
        poly_valid(p1),
        poly_valid(p2),
        strictly_convex_ccw(poly_points(p1, rot1, pos1)),
        0 <= k < p2.angles@.len(),
        contains_point(poly_points(p1, rot1, pos1), poly_points(p2, rot2, pos2)[k]),
    ensures
        !broad_reject(pos1, max_distance(p1), pos2, max_distance(p2)),
{
    let vs = poly_points(p1, rot1, pos1);
    let w = poly_points(p2, rot2, pos2)[k];
    let c1 = (pos1.x as int, pos1.y as int);
    let c2 = (pos2.x as int, pos2.y as int);
    let r1 = max_distance(p1);
    let r2 = max_distance(p2);
    lemma_max_dist_bounds(p1.distances@, p1.distances@.len() as int);
    lemma_max_dist_bounds(p2.distances@, p2.distances@.len() as int);
    assert forall|i: int| 0 <= i < vs.len() implies dist2(#[trigger] vs[i], c1) <= r1 * r1 by {
        lemma_vertex_in_disc(p1, rot1, pos1, i);
    }
    lemma_vertex_in_disc(p2, rot2, pos2, k);
    lemma_contained_point_in_disc(vs, c1, r1, w);
    let ux = c1.0 - w.0;
    let uy = c1.1 - w.1;
    let vx = w.0 - c2.0;
    let vy = w.1 - c2.1;
    assert(ux * ux + uy * uy == dist2(w, c1)) by {
        assert((c1.0 - w.0) * (c1.0 - w.0) + (c1.1 - w.1) * (c1.1 - w.1) == (w.0 - c1.0) * (w.0
            - c1.0) + (w.1 - c1.1) * (w.1 - c1.1)) by (nonlinear_arith);
    }
    assert(vx * vx + vy * vy == dist2(w, c2));
    lemma_triangle_sq(ux, uy, vx, vy, r1, r2);
    assert((ux + vx) * (ux + vx) + (uy + vy) * (uy + vy) == dist2(c1, c2)) by {
        assert(ux + vx == c1.0 - c2.0);
        assert(uy + vy == c1.1 - c2.1);
    }
}


/// The largest distance in a polygon descriptor.
pub fn max_distance_fp(p: &Polygon) -> (r: i64)
    requires
        poly_valid(*p),
    ensures
        r as int == max_distance(*p),
        0 <= r <= COORD_LIMIT,
{
    let mut r: i64 = 0;
    let n = p.distances.len();
    let mut i: usize = 0;
    while i < n
        invariant
            0 <= i <= n,
            n == p.distances@.len(),
            poly_valid(*p),
            r as int == max_dist_upto(p.distances@, i as int),
            0 <= r <= COORD_LIMIT,
        decreases n - i,
    {
        let d = p.distances[i];
        if d > r {
            r = d;
        }
        i = i + 1;
    }
    r
}

/// Project a polar hitbox descriptor to world space for a body at `pos`
/// rotated by `rot`.  Vertex `k` is `pos + rotate(distances[k], angles[k] +
/// rot)`, with fixed-point rounding towards zero.
pub fn polygon_cartesian_coords(p: &Polygon, rot: i64, pos: Vec2) -> (r: Vec<Vec2>)
    requires
        poly_valid(*p),
        in_range(rot as int),
        vec2_in_range(pos),
    ensures
        r@.len() == p.angles@.len(),
        seq_points(r@) == poly_points(*p, rot as int, pos),
        points_bounded(r@),
{
    let n = p.angles.len();
    let mut out: Vec<Vec2> = Vec::new();
    let mut k: usize = 0;
    while k < n
        invariant
            0 <= k <= n,
            n == p.angles@.len(),
            poly_valid(*p),
            in_range(rot as int),
            vec2_in_range(pos),
            out@.len() == k,
            forall|j: int|
                0 <= j < k ==> ((#[trigger] out@[j]).x as int, out@[j].y as int) == poly_points(
                    *p,
                    rot as int,
                    pos,
                )[j],
            points_bounded(out@),
        decreases n - k,
    {
        let a = p.angles[k] + rot;
        let d = p.distances[k];
        let c = cos_fp(a);
        let s = sin_fp(a);
        let ox = cmul_div(d, c, SCALE);
        let oy = cmul_div(d, s, SCALE);
        proof {
            lemma_offset_in_disc(d as int, a as int);
            crate::fixed::lemma_clip_in_range(div_tz(d * c, SCALE as int));
            crate::fixed::lemma_clip_in_range(div_tz(d * s, SCALE as int));
        }
        let vx = pos.x + ox;
        let vy = pos.y + oy;
        out.push(Vec2 { x: vx, y: vy });
        k = k + 1;
    }
    proof {
        assert(seq_points(out@) =~= poly_points(*p, rot as int, pos));
    }
    out
}

/// The boundary-inclusive inclusion test of `w` against the closed vertex
/// cycle `vs`: true when `w` is on one side of every edge.
fn point_in_poly(vs: &Vec<Vec2>, w: Vec2) -> (r: bool)
    requires
        points_bounded(vs@),
        -2 * (COORD_LIMIT as int) <= w.x as int <= 2 * (COORD_LIMIT as int),
        -2 * (COORD_LIMIT as int) <= w.y as int <= 2 * (COORD_LIMIT as int),
    ensures
        r == contains_point(seq_points(vs@), (w.x as int, w.y as int)),
{
    let n = vs.len();
    if n < 3 {
        return false;
    }
    let mut has_neg = false;
    let mut has_pos = false;
    let mut i: usize = 0;
    while i < n
        invariant
            0 <= i <= n,
            n == vs@.len(),
            3 <= n,
            points_bounded(vs@),
            -2 * (COORD_LIMIT as int) <= w.x as int <= 2 * (COORD_LIMIT as int),
            -2 * (COORD_LIMIT as int) <= w.y as int <= 2 * (COORD_LIMIT as int),
            !has_neg <==> (forall|j: int|
                0 <= j < i ==> #[trigger] edge_cross(seq_points(vs@), j, (w.x as int, w.y as int))
                    >= 0),
            !has_pos <==> (forall|j: int|
                0 <= j < i ==> #[trigger] edge_cross(seq_points(vs@), j, (w.x as int, w.y as int))
                    <= 0),
        decreases n - i,
    {
        let a = vs[i];
        let b = if i + 1 == n {
            vs[0]
        } else {
            vs[i + 1]
        };
        let ex: i128 = (b.x as i128) - (a.x as i128);
        let ey: i128 = (b.y as i128) - (a.y as i128);
        let wx: i128 = (w.x as i128) - (a.x as i128);
        let wy: i128 = (w.y as i128) - (a.y as i128);
        proof {
            let lim = 4 * (COORD_LIMIT as int);
            assert(-lim <= ex <= lim && -lim <= ey <= lim && -lim <= wx <= lim && -lim <= wy
                <= lim);
            assert(-lim * lim <= ex * wy <= lim * lim) by (nonlinear_arith)
                requires -lim <= ex <= lim && -lim <= wy <= lim;
            assert(-lim * lim <= ey * wx <= lim * lim) by (nonlinear_arith)
                requires -lim <= ey <= lim && -lim <= wx <= lim;
        }
        let cr: i128 = ex * wy - ey * wx;
        proof {
            assert(cr == edge_cross(seq_points(vs@), i as int, (w.x as int, w.y as int)));
        }
        if cr < 0 {
            has_neg = true;
        }
        if cr > 0 {
            has_pos = true;
        }
        i = i + 1;
    }
    !has_neg || !has_pos
}

/// The specification-level points of a vector of world vertices.
pub open spec fn seq_points(vs: Seq<Vec2>) -> Seq<(int, int)> {
    Seq::new(vs.len(), |i: int| (vs[i].x as int, vs[i].y as int))
}

/// All coordinates within twice the stored-scalar range, as world vertices
/// of in-range bodies always are.
pub open spec fn points_bounded(vs: Seq<Vec2>) -> bool {
    forall|k: int|
        0 <= k < vs.len() ==> -2 * (COORD_LIMIT as int) <= (#[trigger] vs[k]).x as int <= 2 * (
        COORD_LIMIT as int) && -2 * (COORD_LIMIT as int) <= vs[k].y as int <= 2 * (
        COORD_LIMIT as int)
}

/// Whether the hitboxes of two bodies overlap: a bounding-radius broad
/// phase, then containment of some vertex of the second polygon in the
/// first.  False negatives of the broad phase cannot occur for convex
/// descriptors; see `lemma_broad_phase_safe`.
pub fn polygons_collide(
    p1: &Polygon,
    rot1: i64,
    pos1: Vec2,
    p2: &Polygon,
    rot2: i64,
    pos2: Vec2,
) -> (r: bool)
    requires
        poly_valid(*p1),
        poly_valid(*p2),
        in_range(rot1 as int),
        in_range(rot2 as int),
        vec2_in_range(pos1),
        vec2_in_range(pos2),
    ensures
        r == overlap_spec(*p1, rot1 as int, pos1, *p2, rot2 as int, pos2),
{
    let r1 = max_distance_fp(p1);
    let r2 = max_distance_fp(p2);
    let dx: i128 = (pos1.x as i128) - (pos2.x as i128);
    let dy: i128 = (pos1.y as i128) - (pos2.y as i128);
    let rr: i128 = (r1 as i128) + (r2 as i128);
    proof {
        let lim = 2 * (COORD_LIMIT as int);
        assert(0 <= dx * dx <= lim * lim && 0 <= dy * dy <= lim * lim) by (nonlinear_arith)
            requires -lim <= dx <= lim && -lim <= dy <= lim;
        assert(0 <= rr * rr <= lim * lim) by (nonlinear_arith)
            requires 0 <= rr <= lim;
    }
    if dx * dx + dy * dy > rr * rr {
        return false;
    }
    let verts1 = polygon_cartesian_coords(p1, rot1, pos1);
    let verts2 = polygon_cartesian_coords(p2, rot2, pos2);
    proof {
        assert(seq_points(verts1@) =~= poly_points(*p1, rot1 as int, pos1));
        assert(seq_points(verts2@) =~= poly_points(*p2, rot2 as int, pos2));
    }
    let n2 = verts2.len();
    let mut k: usize = 0;
    let mut found = false;
    while k < n2
        invariant
            0 <= k <= n2,
            n2 == p2.angles@.len(),
            verts2@.len() == n2,
            points_bounded(verts1@),
            points_bounded(verts2@),
            seq_points(verts1@) == poly_points(*p1, rot1 as int, pos1),
            seq_points(verts2@) == poly_points(*p2, rot2 as int, pos2),
            found <==> (exists|j: int|
                0 <= j < k && contains_point(
                    poly_points(*p1, rot1 as int, pos1),
                    #[trigger] poly_points(*p2, rot2 as int, pos2)[j],
                )),
        decreases n2 - k,
    {
        if !found {
            let w = verts2[k];
            if point_in_poly(&verts1, w) {
                proof {
                    assert(poly_points(*p2, rot2 as int, pos2)[k as int] == (
                    w.x as int,
                    w.y as int,
                    ));
                }
                found = true;
            } else {
                proof {
                    assert(poly_points(*p2, rot2 as int, pos2)[k as int] == (
                    w.x as int,
                    w.y as int,
                    ));
                }
            }
        }
        k = k + 1;
    }
    found
}

} // verus!
