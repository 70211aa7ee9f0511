//! Engine-level laws, proved against the specification model that
//! `PhysicsEngine::update` is contracted to follow.

use vstd::prelude::*;

use crate::fixed::Vec2;
use crate::fixed::clip;
use crate::fixed::div_tz;
use crate::fixed::in_range;
use crate::fixed::lemma_div_tz_exact;
use crate::physics::CollisionResponse;
use crate::physics::Payload;
use crate::physics::PhysicsModule;
use crate::physics::collide_body;
use crate::physics::elastic_v1;
use crate::physics::engine_step;
use crate::physics::gc;
use crate::physics::gc_rec;
use crate::physics::has_id;
use crate::physics::has_partner_ref;
use crate::physics::integrated;
use crate::physics::run_from;
use crate::physics::step_body;

verus! {

/// Force reset: whatever forces were accumulated before the tick, every
/// body that comes out of a completed tick has force exactly zero; a push
/// lasts one frame unless it is re-applied.
pub proof fn lemma_update_resets_forces<T: Payload>(bs: Seq<PhysicsModule<T>>, dt: int)
    requires
        engine_step(bs, dt) is Some,
    ensures
        forall|k: int|
            0 <= k < engine_step(bs, dt)->0.len() ==> (#[trigger] engine_step(bs, dt)->0[k]).force
                == (Vec2 { x: 0, y: 0 }),
{
    lemma_run_from_forces(gc(bs), dt, 0);
}

/// The collision phase never touches a force accumulator, and never
/// changes the number of bodies.
proof fn lemma_collide_keeps_forces<T: Payload>(bs: Seq<PhysicsModule<T>>, i: int)
    requires
        0 <= i < bs.len(),
        collide_body(bs, i) is Some,
    ensures
        collide_body(bs, i)->0.len() == bs.len(),
        forall|k: int|
            0 <= k < bs.len() ==> (#[trigger] collide_body(bs, i)->0[k]).force == bs[k].force,
{
    let out = collide_body(bs, i)->0;
    let m = bs[i];
    match m.current_collider {
        Some(pid) => {
            crate::physics::lemma_index_of_id_props(bs, pid, 0);
            assert forall|k: int| 0 <= k < bs.len() implies (#[trigger] out[k]).force
                == bs[k].force by {}
        },
        None => {
            crate::physics::lemma_scan_from_props(bs, i, 0);
            let j = crate::physics::scan_from(bs, i, 0);
            if j >= 0 {
                assert forall|k: int| 0 <= k < bs.len() implies (#[trigger] out[k]).force
                    == bs[k].force by {}
            }
        },
    }
}

/// A body's turn leaves the number of bodies unchanged.
proof fn lemma_step_body_len<T: Payload>(bs: Seq<PhysicsModule<T>>, dt: int, i: int)
    requires
        0 <= i < bs.len(),
        step_body(bs, dt, i) is Some,
    ensures
        step_body(bs, dt, i)->0.len() == bs.len(),
{
    lemma_collide_keeps_forces(bs.update(i, integrated(bs[i], dt)), i);
}

/// After the turns from `i` on, every body at an index `>= i` has been
/// integrated (so its force is zero) and no turn writes a force, so if
/// the prefix already had zero forces the whole outcome does.
proof fn lemma_run_from_forces<T: Payload>(bs: Seq<PhysicsModule<T>>, dt: int, i: int)
    requires
        0 <= i,
        run_from(bs, dt, i) is Some,
        forall|k: int| 0 <= k < i && k < bs.len() ==> (#[trigger] bs[k]).force == (Vec2 {
            x: 0,
            y: 0,
        }),
    ensures
        forall|k: int|
            0 <= k < run_from(bs, dt, i)->0.len() ==> (#[trigger] run_from(bs, dt, i)->0[k]).force
                == (Vec2 { x: 0, y: 0 }),
    decreases bs.len() - i,
{
    if 0 <= i < bs.len() {
        let bs1 = bs.update(i, integrated(bs[i], dt));
        let b2 = step_body(bs, dt, i)->0;
        lemma_collide_keeps_forces(bs1, i);
        assert(b2.len() == bs.len());
        assert forall|k: int| 0 <= k < i + 1 && k < b2.len() implies (#[trigger] b2[k]).force == (
        Vec2 { x: 0, y: 0 }) by {
            assert(b2[k].force == bs1[k].force);
            if k < i {
                assert(bs1[k] == bs[k]);
            } else {
                assert(bs1[k] == integrated(bs[i], dt));
            }
        }
        lemma_run_from_forces(b2, dt, i + 1);
        assert(run_from(bs, dt, i) == run_from(b2, dt, i + 1));
    } else {
        assert(run_from(bs, dt, i)->0 == bs);
    }
}

/// Collision symmetry: when a payload type's two sides always agree (the
/// second side judging the first side's already-committed update), no tick
/// can hit the fatal inconsistent-response case, whatever the geometry.
pub proof fn lemma_agreeing_payloads_never_fault<T: Payload>(bs: Seq<PhysicsModule<T>>, dt: int)
    requires
        forall|a: T, b: T| #[trigger] a.contact_response(b) == b.contact_response(
            a.contact_updated(b),
        ),
    ensures
        engine_step(bs, dt) is Some,
{
    lemma_run_from_agreeing(gc(bs), dt, 0);
}

proof fn lemma_run_from_agreeing<T: Payload>(bs: Seq<PhysicsModule<T>>, dt: int, i: int)
    requires
        forall|a: T, b: T| #[trigger] a.contact_response(b) == b.contact_response(
            a.contact_updated(b),
        ),
    ensures
        run_from(bs, dt, i) is Some,
    decreases bs.len() - i,
{
    if 0 <= i < bs.len() {
        let bs1 = bs.update(i, integrated(bs[i], dt));
        assert(collide_body(bs1, i) is Some) by {
            let m = bs1[i];
            match m.current_collider {
                Some(_) => {},
                None => {
                    let j = crate::physics::scan_from(bs1, i, 0);
                    crate::physics::lemma_scan_from_props(bs1, i, 0);
                    if j >= 0 {
                        let p1 = m.inner.contact_updated(bs1[j].inner);
                        assert(m.inner.contact_response(bs1[j].inner) == bs1[j].inner
                            .contact_response(p1));
                    }
                },
            }
        }
        let b2 = step_body(bs, dt, i)->0;
        lemma_step_body_len(bs, dt, i);
        lemma_run_from_agreeing(b2, dt, i + 1);
        assert(run_from(bs, dt, i) == run_from(b2, dt, i + 1));
    }
}

/// The `hit` callback always agrees with itself, so a registry of
/// `HitType` bodies never faults.
pub proof fn lemma_hit_registry_never_faults(
    bs: Seq<PhysicsModule<crate::contact::HitType>>,
    dt: int,
)
    ensures
        engine_step(bs, dt) is Some,
{
    assert forall|a: crate::contact::HitType, b: crate::contact::HitType| #[trigger] a
        .contact_response(b) == b.contact_response(a.contact_updated(b)) by {
        crate::contact::lemma_hit_always_agrees(a, b);
    }
    lemma_agreeing_payloads_never_fault(bs, dt);
}

/// Elastic exchange at equal mass: the classic two-body formula reduces to
/// an exact velocity swap, with no rounding residue.
pub proof fn lemma_elastic_equal_mass_swaps(m: int, v1: int, v2: int)
    requires
        1 <= m,
        in_range(v1),
        in_range(v2),
    ensures
        elastic_v1(m, m, v1, v2) == v2,
        elastic_v1(m, m, v2, v1) == v1,
{
    assert((m - m) * v1 + 2 * m * v2 == (2 * m) * v2) by (nonlinear_arith);
    assert((m - m) * v2 + 2 * m * v1 == (2 * m) * v1) by (nonlinear_arith);
    lemma_div_tz_exact(v2, 2 * m);
    lemma_div_tz_exact(v1, 2 * m);
}

/// The per-tick velocity increment a constant force produces: acceleration
/// from force and mass, times the time step, with the integrator's own
/// clamping and rounding.
pub open spec fn tick_dv(f: int, mass: int, dt: int) -> int {
    clip(div_tz(clip(div_tz(f * (crate::fixed::SCALE as int), mass)) * dt, crate::fixed::SCALE as int))
}

/// A body taken through `n` ticks, with the same force re-applied before
/// every tick (the integrator resets it each time).
pub open spec fn ticks_with_force<T: Payload>(
    m: PhysicsModule<T>,
    f: Vec2,
    dt: int,
    n: nat,
) -> PhysicsModule<T>
    decreases n,
{
    if n == 0 {
        m
    } else {
        integrated(
            crate::physics::with_force(ticks_with_force(m, f, dt, (n - 1) as nat), f),
            dt,
        )
    }
}

/// Integration determinism: under a constant re-applied force, `n` ticks
/// of size `dt` change the velocity by exactly `n` times the one-tick
/// increment `tick_dv` — the semi-implicit Euler recurrence has no hidden
/// state, and, being a function, is reproducible bit for bit.  The
/// hypotheses only rule out clamping at the range ends.
pub proof fn lemma_constant_force_velocity<T: Payload>(
    m: PhysicsModule<T>,
    f: Vec2,
    dt: int,
    n: nat,
)
    requires
        in_range(m.velocity.x as int),
        in_range(m.velocity.y as int),
        in_range(m.velocity.x + n * tick_dv(f.x as int, m.mass as int, dt)),
        in_range(m.velocity.y + n * tick_dv(f.y as int, m.mass as int, dt)),
    ensures
        ticks_with_force(m, f, dt, n).velocity.x as int == m.velocity.x + n * tick_dv(
            f.x as int,
            m.mass as int,
            dt,
        ),
        ticks_with_force(m, f, dt, n).velocity.y as int == m.velocity.y + n * tick_dv(
            f.y as int,
            m.mass as int,
            dt,
        ),
        ticks_with_force(m, f, dt, n).mass == m.mass,
    decreases n,
{
    let dvx = tick_dv(f.x as int, m.mass as int, dt);
    let dvy = tick_dv(f.y as int, m.mass as int, dt);
    if n > 0 {
        let k = (n - 1) as nat;
        assert(in_range(m.velocity.x + k * dvx) && in_range(m.velocity.x + n * dvx)
            && in_range(m.velocity.y + k * dvy) && in_range(m.velocity.y + n * dvy)) by {
            lemma_partial_sum_in_range(m.velocity.x as int, dvx, k as int, n as int);
            lemma_partial_sum_in_range(m.velocity.y as int, dvy, k as int, n as int);
        }
        lemma_constant_force_velocity(m, f, dt, k);
        let prev = ticks_with_force(m, f, dt, k);
        let pushed = crate::physics::with_force(prev, f);
        assert(n * dvx == k * dvx + dvx) by (nonlinear_arith)
            requires n == k + 1;
        assert(n * dvy == k * dvy + dvy) by (nonlinear_arith)
            requires n == k + 1;
        assert(integrated(pushed, dt).velocity.x as int == clip(prev.velocity.x + dvx));
        assert(integrated(pushed, dt).velocity.y as int == clip(prev.velocity.y + dvy));
    } else {
        assert(n * dvx == 0) by (nonlinear_arith)
            requires n == 0;
        assert(n * dvy == 0) by (nonlinear_arith)
            requires n == 0;
    }
}

/// A value reached part-way through `n` equal increments lies between the
/// start and the end, so it stays in range when both do.
proof fn lemma_partial_sum_in_range(v: int, dv: int, k: int, n: int)
    requires
        0 <= k <= n,
        in_range(v),
        in_range(v + n * dv),
    ensures
        in_range(v + k * dv),
{
    if dv >= 0 {
        assert(0 <= k * dv <= n * dv) by (nonlinear_arith)
            requires 0 <= k <= n && dv >= 0;
    } else {
        assert(n * dv <= k * dv <= 0) by (nonlinear_arith)
            requires 0 <= k <= n && dv < 0;
    }
}

/// A registry holding one externally-owned free body: a tick is exactly
/// the integration of that body — no collision work happens.
pub proof fn lemma_single_body_step<T: Payload>(m: PhysicsModule<T>, dt: int)
    requires
        m.external_refs > 0,
        m.current_collider is None,
    ensures
        engine_step(seq![m], dt) == Some(seq![integrated(m, dt)]),
{
    let bs = seq![m];
    assert(bs.drop_first() =~= Seq::<PhysicsModule<T>>::empty());
    assert(Seq::<PhysicsModule<T>>::empty().push(m) =~= bs);
    assert(gc(bs) == bs) by {
        assert(gc_rec(Seq::<PhysicsModule<T>>::empty().push(m), bs.drop_first()) == Seq::<
            PhysicsModule<T>,
        >::empty().push(m));
    }
    let im = integrated(m, dt);
    let bs1 = bs.update(0, im);
    assert(bs1 =~= seq![im]);
    assert(im.current_collider is None);
    assert(crate::physics::scan_from(bs1, 0, 1) == -1);
    assert(crate::physics::scan_from(bs1, 0, 0) == -1);
    assert(collide_body(bs1, 0) == Some(bs1));
    assert(step_body(bs, dt, 0) == Some(bs1));
    assert(run_from(bs1, dt, 1) == Some(bs1));
    assert(run_from(bs, dt, 0) == Some(bs1));
}

/// Both bodies of an externally-owned pair survive garbage collection.
proof fn lemma_gc_pair<T>(a: PhysicsModule<T>, b: PhysicsModule<T>)
    requires
        a.external_refs > 0,
        b.external_refs > 0,
    ensures
        gc(seq![a, b]) == seq![a, b],
{
    let bs = seq![a, b];
    let e = Seq::<PhysicsModule<T>>::empty();
    assert(bs.drop_first() =~= seq![b]);
    assert(seq![b].drop_first() =~= e);
    assert(e.push(a) =~= seq![a]);
    assert(seq![a].push(b) =~= bs);
    assert(gc_rec(e, bs) == gc_rec(e.push(a), seq![b]));
    assert(gc_rec(seq![a], seq![b]) == gc_rec(seq![a].push(b), e));
}

/// Two geometry-equal bodies overlap the same partners: the overlap test
/// reads only the hitbox and its placement.
proof fn lemma_overlap_same_geometry<T>(
    a: PhysicsModule<T>,
    a2: PhysicsModule<T>,
    b: PhysicsModule<T>,
)
    requires
        a2.hitbox == a.hitbox,
        a2.rotation == a.rotation,
        a2.position == a.position,
    ensures
        crate::physics::modules_overlap(a2, b) == crate::physics::modules_overlap(a, b),
        crate::physics::modules_overlap(b, a2) == crate::physics::modules_overlap(b, a),
{
}

/// Lock persistence: a locked pair whose hitboxes still overlap after
/// integration comes out of the tick integrated, still locked, with no
/// callback run and no impulse applied — a sustained contact is a single
/// collision event.
pub proof fn lemma_lock_persistence<T: Payload>(
    a: PhysicsModule<T>,
    b: PhysicsModule<T>,
    dt: int,
)
    requires
        a.external_refs > 0,
        b.external_refs > 0,
        a.id != b.id,
        a.current_collider == Some(b.id),
        b.current_collider == Some(a.id),
        crate::physics::modules_overlap(integrated(a, dt), b),
        crate::physics::modules_overlap(integrated(b, dt), integrated(a, dt)),
    ensures
        engine_step(seq![a, b], dt) == Some(seq![integrated(a, dt), integrated(b, dt)]),
{
    let bs = seq![a, b];
    lemma_gc_pair(a, b);
    let ia = integrated(a, dt);
    let ib = integrated(b, dt);
    // body 0's turn: still overlapping its partner, so nothing changes
    let bs1 = bs.update(0, ia);
    assert(bs1 =~= seq![ia, b]);
    assert(ia.id == a.id);
    assert(crate::physics::index_of_id(bs1, b.id, 1) == 1);
    assert(crate::physics::index_of_id(bs1, b.id, 0) == 1);
    assert(collide_body(bs1, 0) == Some(bs1));
    assert(step_body(bs, dt, 0) == Some(bs1));
    // body 1's turn likewise
    let bs2 = bs1.update(1, ib);
    assert(bs2 =~= seq![ia, ib]);
    assert(crate::physics::index_of_id(bs2, a.id, 0) == 0);
    assert(collide_body(bs2, 1) == Some(bs2));
    assert(step_body(bs1, dt, 1) == Some(bs2));
    assert(run_from(bs2, dt, 2) == Some(bs2));
    assert(run_from(bs1, dt, 1) == Some(bs2));
    assert(run_from(bs, dt, 0) == Some(bs2));
}

/// Lock release: once a locked pair's hitboxes separate, both bodies come
/// out of the tick free, silently — no callback fires on disengagement.
/// A later fresh overlap is a new first contact and runs the callbacks
/// again, by the free-body case of `collide_body`.
pub proof fn lemma_lock_release<T: Payload>(a: PhysicsModule<T>, b: PhysicsModule<T>, dt: int)
    requires
        a.external_refs > 0,
        b.external_refs > 0,
        a.id != b.id,
        a.current_collider == Some(b.id),
        b.current_collider == Some(a.id),
        !crate::physics::modules_overlap(integrated(a, dt), b),
        !crate::physics::modules_overlap(integrated(b, dt), integrated(a, dt)),
    ensures
        engine_step(seq![a, b], dt) == Some(
            seq![
                crate::physics::with_partner_cleared(integrated(a, dt)),
                crate::physics::with_partner_cleared(integrated(b, dt)),
            ],
        ),
{
    let bs = seq![a, b];
    lemma_gc_pair(a, b);
    let ia = integrated(a, dt);
    let ib = integrated(b, dt);
    let ca = crate::physics::with_partner_cleared(ia);
    let cb = crate::physics::with_partner_cleared(ib);
    // body 0's turn: the shapes have separated, so the lock is released
    let bs1 = bs.update(0, ia);
    assert(bs1 =~= seq![ia, b]);
    assert(ia.id == a.id);
    assert(crate::physics::index_of_id(bs1, b.id, 1) == 1);
    assert(crate::physics::index_of_id(bs1, b.id, 0) == 1);
    let bs1c = bs1.update(0, ca);
    assert(bs1c =~= seq![ca, b]);
    assert(collide_body(bs1, 0) == Some(bs1c));
    assert(step_body(bs, dt, 0) == Some(bs1c));
    // body 1's turn: its partner's geometry is unchanged by the release
    let bs2 = bs1c.update(1, ib);
    assert(bs2 =~= seq![ca, ib]);
    assert(crate::physics::index_of_id(bs2, a.id, 0) == 0);
    lemma_overlap_same_geometry(ia, ca, ib);
    assert(!crate::physics::modules_overlap(bs2[1], bs2[0]));
    let bs2c = bs2.update(1, cb);
    assert(bs2c =~= seq![ca, cb]);
    assert(collide_body(bs2, 1) == Some(bs2c));
    assert(step_body(bs1c, dt, 1) == Some(bs2c));
    assert(run_from(bs2c, dt, 2) == Some(bs2c));
    assert(run_from(bs1c, dt, 1) == Some(bs2c));
    assert(run_from(bs, dt, 0) == Some(bs2c));
}

/// A tick of size zero moves nothing: integration only clears the force
/// accumulator.
proof fn lemma_integrated_rest<T: Payload>(m: PhysicsModule<T>)
    requires
        crate::physics::module_wf(m),
    ensures
        integrated(m, 0) == crate::physics::with_force(m, Vec2 { x: 0, y: 0 }),
{
    let ax = clip(div_tz(m.force.x * (crate::fixed::SCALE as int), m.mass as int));
    assert(ax * 0 == 0) by (nonlinear_arith);
    assert(m.angular_velocity * 0 == 0) by (nonlinear_arith);
    assert(integrated(m, 0).velocity == m.velocity);
    assert(m.velocity.x * 0 == 0 && m.velocity.y * 0 == 0) by (nonlinear_arith);
    assert(integrated(m, 0).position == m.position);
}

/// First contact, resolved in place (a tick of size zero): a free
/// overlapping pair whose callbacks both answer `Collide` commits both
/// payload updates in order, exchanges the elastic impulse, and locks.
/// With equal masses the exchange is an exact velocity swap
/// (`lemma_elastic_equal_mass_swaps`).
pub proof fn lemma_first_contact_collides<T: Payload>(a: PhysicsModule<T>, b: PhysicsModule<T>)
    requires
        crate::physics::module_wf(a),
        crate::physics::module_wf(b),
        a.external_refs > 0,
        b.external_refs > 0,
        a.id != b.id,
        a.current_collider is None,
        b.current_collider is None,
        crate::physics::modules_overlap(a, b),
        crate::physics::modules_overlap(b, a),
        a.inner.contact_response(b.inner) == CollisionResponse::Collide,
        b.inner.contact_response(a.inner.contact_updated(b.inner)) == CollisionResponse::Collide,
    ensures
        ({
            let p1 = a.inner.contact_updated(b.inner);
            let p2 = b.inner.contact_updated(p1);
            let a2 = crate::physics::with_inner(integrated(a, 0), p1);
            let b2 = crate::physics::with_inner(integrated(b, 0), p2);
            let (va, vb) = crate::physics::elastic_pair(a2, b2);
            engine_step(seq![a, b], 0) == Some(
                seq![
                    crate::physics::with_impulse(a2, va, b.id),
                    crate::physics::with_impulse(b2, vb, a.id),
                ],
            )
        }),
{
    let bs = seq![a, b];
    lemma_gc_pair(a, b);
    let ia = integrated(a, 0);
    let ib = integrated(b, 0);
    lemma_integrated_rest(a);
    lemma_integrated_rest(b);
    let p1 = a.inner.contact_updated(b.inner);
    let p2 = b.inner.contact_updated(p1);
    let a2 = crate::physics::with_inner(ia, p1);
    let b2 = crate::physics::with_inner(ib, p2);
    let (va, vb) = crate::physics::elastic_pair(a2, b2);
    let af = crate::physics::with_impulse(a2, va, b.id);
    let bf = crate::physics::with_impulse(b2, vb, a.id);
    // body 0's turn: the scan finds body 1, both callbacks say Collide
    let bs1 = bs.update(0, ia);
    assert(bs1 =~= seq![ia, b]);
    lemma_overlap_same_geometry(a, ia, b);
    assert(crate::physics::modules_overlap(bs1[0], bs1[1]));
    assert(crate::physics::scan_from(bs1, 0, 1) == 1);
    assert(crate::physics::scan_from(bs1, 0, 0) == 1);
    let bsp = bs1.update(0, crate::physics::with_inner(bs1[0], p1)).update(
        1,
        crate::physics::with_inner(bs1[1], p2),
    );
    assert(bsp =~= seq![a2, crate::physics::with_inner(b, p2)]);
    let bsi = bsp.update(0, crate::physics::with_impulse(bsp[0], va, bsp[1].id)).update(
        1,
        crate::physics::with_impulse(bsp[1], vb, bsp[0].id),
    );
    assert(crate::physics::elastic_pair(bsp[0], bsp[1]) == (va, vb)) by {
        assert(bsp[0] == a2);
        assert(bsp[1].mass == b2.mass && bsp[1].velocity == b2.velocity);
    }
    let bwi = crate::physics::with_impulse(crate::physics::with_inner(b, p2), vb, a.id);
    assert(bsi =~= seq![af, bwi]);
    assert(collide_body(bs1, 0) == Some(bsi));
    assert(step_body(bs, 0, 0) == Some(bsi));
    // body 1's turn: freshly locked and still overlapping, it stays put
    let bs2 = bsi.update(1, integrated(bsi[1], 0));
    assert(bwi.force == b.force && bwi.mass == b.mass && bwi.position == b.position && bwi.rotation
        == b.rotation && bwi.angular_velocity == b.angular_velocity && bwi.velocity == vb
        && bwi.hitbox == b.hitbox);
    assert(crate::physics::module_wf(bwi)) by {
        crate::fixed::lemma_clip_in_range(
            div_tz(
                (b2.mass - a2.mass) * b2.velocity.x + 2 * a2.mass * a2.velocity.x,
                b2.mass + a2.mass,
            ),
        );
        crate::fixed::lemma_clip_in_range(
            div_tz(
                (b2.mass - a2.mass) * b2.velocity.y + 2 * a2.mass * a2.velocity.y,
                b2.mass + a2.mass,
            ),
        );
    }
    lemma_integrated_rest(bwi);
    assert(integrated(bwi, 0) == bf) by {
        assert(bf.force == (Vec2 { x: 0, y: 0 }));
    }
    assert(bs2 =~= seq![af, bf]);
    assert(crate::physics::index_of_id(bs2, a.id, 0) == 0);
    lemma_overlap_same_geometry(b, bs2[1], a);
    lemma_overlap_same_geometry(a, bs2[0], bs2[1]);
    assert(crate::physics::modules_overlap(bs2[1], bs2[0]));
    assert(collide_body(bs2, 1) == Some(bs2));
    assert(step_body(bsi, 0, 1) == Some(bs2));
    assert(run_from(bs2, 0, 2) == Some(bs2));
    assert(run_from(bsi, 0, 1) == Some(bs2));
    assert(run_from(bs, 0, 0) == Some(bs2));
}

/// Consistency violation: a pair of free bodies whose payloads answer a
/// fresh contact differently makes the tick fail rather than complete.
pub proof fn lemma_one_sided_pair_faults(
    a: PhysicsModule<crate::contact::OneSided>,
    b: PhysicsModule<crate::contact::OneSided>,
    dt: int,
)
    requires
        a.external_refs > 0,
        b.external_refs > 0,
        a.id != b.id,
        a.current_collider is None,
        b.current_collider is None,
        a.inner.solid != b.inner.solid,
        crate::physics::modules_overlap(integrated(a, dt), b),
    ensures
        engine_step(seq![a, b], dt) is None,
{
    let bs = seq![a, b];
    lemma_gc_pair(a, b);
    let ia = integrated(a, dt);
    let bs1 = bs.update(0, ia);
    assert(bs1 =~= seq![ia, b]);
    assert(crate::physics::scan_from(bs1, 0, 1) == 1);
    assert(crate::physics::scan_from(bs1, 0, 0) == 1);
    assert(collide_body(bs1, 0) is None);
    assert(step_body(bs, dt, 0) is None);
    assert(run_from(bs, dt, 0) is None);
}

/// Garbage collection keeps its prefix of already-retained bodies.
proof fn lemma_gc_rec_prefix<T>(done: Seq<PhysicsModule<T>>, rest: Seq<PhysicsModule<T>>)
    ensures
        gc_rec(done, rest).len() >= done.len(),
        forall|l: int| 0 <= l < done.len() ==> #[trigger] gc_rec(done, rest)[l] == done[l],
    decreases rest.len(),
{
    if rest.len() > 0 {
        let m = rest[0];
        let tail = rest.drop_first();
        if m.external_refs > 0 || has_partner_ref(done, m.id) || has_partner_ref(tail, m.id) {
            lemma_gc_rec_prefix(done.push(m), tail);
        } else {
            lemma_gc_rec_prefix(done, tail);
        }
    }
}

/// Garbage collection never drops a body that an external owner still
/// holds: the body itself survives into the collected registry.
pub proof fn lemma_gc_keeps_live<T>(bs: Seq<PhysicsModule<T>>, k: int)
    requires
        0 <= k < bs.len(),
        bs[k].external_refs > 0,
    ensures
        exists|l: int| 0 <= l < gc(bs).len() && #[trigger] gc(bs)[l] == bs[k],
{
    lemma_gc_rec_keeps_live(Seq::empty(), bs, k);
    assert(gc(bs) == gc_rec(Seq::<PhysicsModule<T>>::empty(), bs));
    let l = choose|l: int|
        0 <= l < gc_rec(Seq::<PhysicsModule<T>>::empty(), bs).len() && #[trigger] gc_rec(
            Seq::<PhysicsModule<T>>::empty(),
            bs,
        )[l] == bs[k];
    assert(0 <= l < gc(bs).len() && gc(bs)[l] == bs[k]);
}

proof fn lemma_gc_rec_keeps_live<T>(
    done: Seq<PhysicsModule<T>>,
    rest: Seq<PhysicsModule<T>>,
    k: int,
)
    requires
        0 <= k < rest.len(),
        rest[k].external_refs > 0,
    ensures
        exists|l: int| 0 <= l < gc_rec(done, rest).len() && #[trigger] gc_rec(done, rest)[l]
            == rest[k],
    decreases rest.len(),
{
    let m = rest[0];
    let tail = rest.drop_first();
    let kept = m.external_refs > 0 || has_partner_ref(done, m.id) || has_partner_ref(tail, m.id);
    if k == 0 {
        let done2 = done.push(m);
        lemma_gc_rec_prefix(done2, tail);
        assert(gc_rec(done, rest)[done.len() as int] == m);
    } else {
        assert(tail[k - 1] == rest[k]);
        if kept {
            lemma_gc_rec_keeps_live(done.push(m), tail, k - 1);
        } else {
            lemma_gc_rec_keeps_live(done, tail, k - 1);
        }
    }
}

/// Garbage collection drops a body whose last external handle is gone and
/// that no other body tracks as its collision partner: its id is absent
/// from the collected registry.
pub proof fn lemma_gc_drops_dead<T>(bs: Seq<PhysicsModule<T>>, k: int)
    requires
        0 <= k < bs.len(),
        bs[k].external_refs == 0,
        forall|j: int| 0 <= j < bs.len() ==> (#[trigger] bs[j]).current_collider != Some(bs[k].id),
        forall|j: int| 0 <= j < bs.len() && j != k ==> (#[trigger] bs[j]).id != bs[k].id,
    ensures
        !has_id(gc(bs), bs[k].id),
{
    lemma_gc_rec_drops_dead(Seq::empty(), bs, bs[k].id);
}

proof fn lemma_gc_rec_drops_dead<T>(
    done: Seq<PhysicsModule<T>>,
    rest: Seq<PhysicsModule<T>>,
    id: u64,
)
    requires
        forall|j: int| 0 <= j < done.len() ==> (#[trigger] done[j]).id != id,
        forall|j: int| 0 <= j < done.len() ==> (#[trigger] done[j]).current_collider != Some(id),
        forall|j: int| 0 <= j < rest.len() ==> (#[trigger] rest[j]).current_collider != Some(id),
        forall|j: int|
            0 <= j < rest.len() && (#[trigger] rest[j]).id == id ==> rest[j].external_refs == 0,
    ensures
        !has_id(gc_rec(done, rest), id),
    decreases rest.len(),
{
    if rest.len() > 0 {
        let m = rest[0];
        let tail = rest.drop_first();
        assert forall|j: int| 0 <= j < tail.len() implies (#[trigger] tail[j]).current_collider
            != Some(id) && ((#[trigger] tail[j]).id == id ==> tail[j].external_refs == 0) by {
            assert(tail[j] == rest[j + 1]);
        }
        if m.id == id {
            assert(m.external_refs == 0);
            assert(!has_partner_ref(done, m.id));
            assert(!has_partner_ref(tail, m.id));
            lemma_gc_rec_drops_dead(done, tail, id);
        } else {
            if m.external_refs > 0 || has_partner_ref(done, m.id) || has_partner_ref(
                tail,
                m.id,
            ) {
                lemma_gc_rec_drops_dead(done.push(m), tail, id);
            } else {
                lemma_gc_rec_drops_dead(done, tail, id);
            }
        }
    }
}

} // verus!
