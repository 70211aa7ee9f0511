//! The rigid-body registry, integrator and collision engine.
//!
//! Bodies are owned by the engine and addressed through stable integer
//! handles.  External owners hold a per-body reference count; a body whose
//! count has dropped to zero, and which no other body still tracks as its
//! collision partner, is collected at the start of the next `update`.  Each
//! `update(dt)` tick integrates every live body (semi-implicit Euler, then
//! force reset) and resolves collisions: a free body locks onto the first
//! overlapping body, both payload callbacks run, and on a mutual `Collide`
//! a perfectly-elastic impulse is exchanged.  The pair stays locked, with
//! no further callbacks, until the hitboxes separate.
//!
//! The whole tick is mirrored by the specification function `engine_step`,
//! and `update`'s contract pins the executable state transition to it.

use vstd::prelude::*;

use crate::fixed::COORD_LIMIT;
use crate::fixed::SCALE;
use crate::fixed::Vec2;
use crate::fixed::cadd;
use crate::fixed::clip;
use crate::fixed::cmul_div;
use crate::fixed::div_tz;
use crate::fixed::in_range;
use crate::fixed::lin2_div;
use crate::fixed::vec2_in_range;
use crate::geometry::Polygon;
use crate::geometry::overlap_spec;
use crate::geometry::poly_valid;
use crate::geometry::polygons_collide;

verus! {

/// What a collision-response callback decides for its own side of a
/// contact: take part in the collision, or let the other body through.
#[derive(Clone, Copy, Debug, PartialEq, Eq, Structural)]
pub enum CollisionResponse {
    Collide,
    Pass,
}

/// The error a tick reports instead of completing: the two sides of a
/// fresh contact returned different `CollisionResponse`s, which the
/// callback authors are required to rule out.
#[derive(Clone, Copy, Debug, PartialEq, Eq, Structural)]
pub enum PhysicsFault {
    InconsistentResponse,
}

/// The payload protocol: a body carries an opaque value of a `Payload`
/// type, and on first contact the engine calls `on_contact` symmetrically
/// for both bodies of the pair.  The two specification functions name the
/// exact effect of the callback, so that a whole tick stays a function of
/// the previous state.
pub trait Payload: Sized {
    /// The payload value after a contact with `other`.
    spec fn contact_updated(self, other: Self) -> Self;

    /// The decision this side reports for a contact with `other`.
    spec fn contact_response(self, other: Self) -> CollisionResponse;

    /// The collision-response callback: mutate the own payload in view of
    /// the other and decide `Collide` or `Pass`.
    fn on_contact(&mut self, other: &Self) -> (r: CollisionResponse)
        ensures
            *final(self) == old(self).contact_updated(*other),
            r == old(self).contact_response(*other),
    ;

    /// An exact copy, for the engine's clone-mutate-commit sequence.
    fn dup(&self) -> (r: Self)
        ensures
            r == *self,
    ;
}

/// One simulated rigid body.
pub struct PhysicsModule<T> {
    pub position: Vec2,
    pub velocity: Vec2,
    pub mass: i64,
    pub force: Vec2,
    pub rotation: i64,
    pub angular_velocity: i64,
    pub hitbox: Polygon,
    pub inner: T,
    /// The body currently locked with this one, by id.
    pub current_collider: Option<u64>,
    /// This body's stable handle.
    pub id: u64,
    /// How many external owners still hold the handle.
    pub external_refs: u64,
}

/// A well-formed body: every scalar in the stored range, a strictly
/// positive mass, and a valid convex hitbox descriptor.
pub open spec fn module_wf<T>(m: PhysicsModule<T>) -> bool {
    &&& vec2_in_range(m.position)
    &&& vec2_in_range(m.velocity)
    &&& vec2_in_range(m.force)
    &&& in_range(m.rotation as int)
    &&& in_range(m.angular_velocity as int)
    &&& 1 <= m.mass <= COORD_LIMIT
    &&& poly_valid(m.hitbox)
}

/// The first index at or after `i` whose body has the given id, or -1.
pub open spec fn index_of_id<T>(bs: Seq<PhysicsModule<T>>, id: u64, i: int) -> int
    decreases bs.len() - i,
{
    if i < 0 || i >= bs.len() {
        -1
    } else if bs[i].id == id {
        i
    } else {
        index_of_id(bs, id, i + 1)
    }
}

/// Whether some body in the registry has the given id.
pub open spec fn has_id<T>(bs: Seq<PhysicsModule<T>>, id: u64) -> bool {
    exists|j: int| 0 <= j < bs.len() && (#[trigger] bs[j]).id == id
}

/// A well-formed registry: well-formed bodies, distinct ids, and every
/// recorded collision partner present and distinct from its owner.
pub open spec fn bodies_wf<T>(bs: Seq<PhysicsModule<T>>) -> bool {
    &&& forall|i: int| 0 <= i < bs.len() ==> module_wf(#[trigger] bs[i])
    &&& forall|i: int, j: int|
        0 <= i < bs.len() && 0 <= j < bs.len() && i != j ==> (#[trigger] bs[i]).id != (
        #[trigger] bs[j]).id
    &&& forall|i: int|
        0 <= i < bs.len() && (#[trigger] bs[i]).current_collider is Some ==> has_id(
            bs,
            bs[i].current_collider->0,
        ) && bs[i].current_collider->0 != bs[i].id
}

/// Semi-implicit Euler integration of one body over `dt`, with the force
/// accumulator reset: acceleration from force and mass, velocity from
/// acceleration, position from the updated velocity, rotation from angular
/// velocity, every step clamped into the stored range.
pub open spec fn integrated<T>(m: PhysicsModule<T>, dt: int) -> PhysicsModule<T> {
    let ax = clip(div_tz(m.force.x * (SCALE as int), m.mass as int));
    let ay = clip(div_tz(m.force.y * (SCALE as int), m.mass as int));
    let vx = clip(m.velocity.x + clip(div_tz(ax * dt, SCALE as int)));
    let vy = clip(m.velocity.y + clip(div_tz(ay * dt, SCALE as int)));
    let px = clip(m.position.x + clip(div_tz(vx * dt, SCALE as int)));
    let py = clip(m.position.y + clip(div_tz(vy * dt, SCALE as int)));
    let rot = clip(m.rotation + clip(div_tz(m.angular_velocity * dt, SCALE as int)));
    PhysicsModule {
        position: Vec2 { x: px as i64, y: py as i64 },
        velocity: Vec2 { x: vx as i64, y: vy as i64 },
        mass: m.mass,
        force: Vec2 { x: 0, y: 0 },
        rotation: rot as i64,
        angular_velocity: m.angular_velocity,
        hitbox: m.hitbox,
        inner: m.inner,
        current_collider: m.current_collider,
        id: m.id,
        external_refs: m.external_refs,
    }
}

/// Whether the hitboxes of two bodies overlap, in their current placement.
pub open spec fn modules_overlap<T>(a: PhysicsModule<T>, b: PhysicsModule<T>) -> bool {
    overlap_spec(a.hitbox, a.rotation as int, a.position, b.hitbox, b.rotation as int, b.position)
}

/// The classic perfectly-elastic two-body formula along each axis:
/// `v1' = (m1-m2)/(m1+m2) v1 + 2 m2/(m1+m2) v2`, clamped.
pub open spec fn elastic_v1(m1: int, m2: int, v1: int, v2: int) -> int {
    clip(div_tz((m1 - m2) * v1 + 2 * m2 * v2, m1 + m2))
}

/// The first body after index `j` (skipping `i` itself) whose hitbox
/// overlaps body `i`, or -1: the registry-order candidate scan.
pub open spec fn scan_from<T>(bs: Seq<PhysicsModule<T>>, i: int, j: int) -> int
    decreases bs.len() - j,
{
    if j < 0 || j >= bs.len() {
        -1
    } else if j != i && modules_overlap(bs[i], bs[j]) {
        j
    } else {
        scan_from(bs, i, j + 1)
    }
}

/// A body with a fresh payload value.
pub open spec fn with_inner<T>(m: PhysicsModule<T>, p: T) -> PhysicsModule<T> {
    PhysicsModule {
        position: m.position,
        velocity: m.velocity,
        mass: m.mass,
        force: m.force,
        rotation: m.rotation,
        angular_velocity: m.angular_velocity,
        hitbox: m.hitbox,
        inner: p,
        current_collider: m.current_collider,
        id: m.id,
        external_refs: m.external_refs,
    }
}

/// A body after an elastic impulse: new velocity, locked onto `pid`.
pub open spec fn with_impulse<T>(m: PhysicsModule<T>, v: Vec2, pid: u64) -> PhysicsModule<T> {
    PhysicsModule {
        position: m.position,
        velocity: v,
        mass: m.mass,
        force: m.force,
        rotation: m.rotation,
        angular_velocity: m.angular_velocity,
        hitbox: m.hitbox,
        inner: m.inner,
        current_collider: Some(pid),
        id: m.id,
        external_refs: m.external_refs,
    }
}

/// A body with its collision lock released.
pub open spec fn with_partner_cleared<T>(m: PhysicsModule<T>) -> PhysicsModule<T> {
    PhysicsModule {
        position: m.position,
        velocity: m.velocity,
        mass: m.mass,
        force: m.force,
        rotation: m.rotation,
        angular_velocity: m.angular_velocity,
        hitbox: m.hitbox,
        inner: m.inner,
        current_collider: None,
        id: m.id,
        external_refs: m.external_refs,
    }
}

/// The elastic velocities for a colliding pair `(a, b)`.
pub open spec fn elastic_pair<T>(a: PhysicsModule<T>, b: PhysicsModule<T>) -> (Vec2, Vec2) {
    let m1 = a.mass as int;
    let m2 = b.mass as int;
    let va = Vec2 {
        x: elastic_v1(m1, m2, a.velocity.x as int, b.velocity.x as int) as i64,
        y: elastic_v1(m1, m2, a.velocity.y as int, b.velocity.y as int) as i64,
    };
    let vb = Vec2 {
        x: elastic_v1(m2, m1, b.velocity.x as int, a.velocity.x as int) as i64,
        y: elastic_v1(m2, m1, b.velocity.y as int, a.velocity.y as int) as i64,
    };
    (va, vb)
}

/// The collision phase of one body's turn, after its integration: a locked
/// body re-tests only its partner and silently disengages when the shapes
/// have separated; a free body scans for the first overlapping body, runs
/// both callbacks (the second seeing the first's committed update), and on
/// mutual `Collide` exchanges the elastic impulse and locks the pair.
/// `None` is the fatal case: the two callbacks disagreed.
pub open spec fn collide_body<T: Payload>(bs: Seq<PhysicsModule<T>>, i: int) -> Option<
    Seq<PhysicsModule<T>>,
> {
    let m = bs[i];
    match m.current_collider {
        Some(pid) => {
            let j = index_of_id(bs, pid, 0);
            if j >= 0 && !modules_overlap(bs[i], bs[j]) {
                Some(bs.update(i, with_partner_cleared(m)))
            } else {
                Some(bs)
            }
        },
        None => {
            let j = scan_from(bs, i, 0);
            if j < 0 {
                Some(bs)
            } else {
                let p1 = m.inner.contact_updated(bs[j].inner);
                let r1 = m.inner.contact_response(bs[j].inner);
                let p2 = bs[j].inner.contact_updated(p1);
                let r2 = bs[j].inner.contact_response(p1);
                if r1 != r2 {
                    None
                } else {
                    let bs2 = bs.update(i, with_inner(bs[i], p1)).update(j, with_inner(bs[j], p2));
                    if r1 == CollisionResponse::Collide {
                        let (va, vb) = elastic_pair(bs2[i], bs2[j]);
                        Some(
                            bs2.update(i, with_impulse(bs2[i], va, bs2[j].id)).update(
                                j,
                                with_impulse(bs2[j], vb, bs2[i].id),
                            ),
                        )
                    } else {
                        Some(bs2)
                    }
                }
            }
        },
    }
}

/// One body's full turn: integrate, then resolve collisions.
pub open spec fn step_body<T: Payload>(bs: Seq<PhysicsModule<T>>, dt: int, i: int) -> Option<
    Seq<PhysicsModule<T>>,
> {
    collide_body(bs.update(i, integrated(bs[i], dt)), i)
}

/// The bodies' turns from index `i` on, in registry order.
pub open spec fn run_from<T: Payload>(bs: Seq<PhysicsModule<T>>, dt: int, i: int) -> Option<
    Seq<PhysicsModule<T>>,
>
    decreases bs.len() - i,
{
    if i < 0 || i >= bs.len() {
        Some(bs)
    } else {
        match step_body(bs, dt, i) {
            Option::None => None,
            Option::Some(b2) => {
                // the guard only carries the termination measure: a body's
                // turn never changes the number of bodies
                if b2.len() == bs.len() {
                    run_from(b2, dt, i + 1)
                } else {
                    None
                }
            },
        }
    }
}

/// Whether some body in `bs` tracks `id` as its collision partner.
pub open spec fn has_partner_ref<T>(bs: Seq<PhysicsModule<T>>, id: u64) -> bool {
    exists|j: int| 0 <= j < bs.len() && (#[trigger] bs[j]).current_collider == Some(id)
}

/// The garbage-collection pass, one body at a time in registry order: a
/// body survives while an external owner still holds its handle or some
/// not-yet-dropped body still tracks it as a collision partner.
pub open spec fn gc_rec<T>(done: Seq<PhysicsModule<T>>, rest: Seq<PhysicsModule<T>>) -> Seq<
    PhysicsModule<T>,
>
    decreases rest.len(),
{
    if rest.len() == 0 {
        done
    } else {
        let m = rest[0];
        let tail = rest.drop_first();
        if m.external_refs > 0 || has_partner_ref(done, m.id) || has_partner_ref(tail, m.id) {
            gc_rec(done.push(m), tail)
        } else {
            gc_rec(done, tail)
        }
    }
}

/// The live set after garbage collection.
pub open spec fn gc<T>(bs: Seq<PhysicsModule<T>>) -> Seq<PhysicsModule<T>> {
    gc_rec(Seq::empty(), bs)
}

/// One whole engine tick over the registry: collect unreferenced bodies,
/// then give every remaining body its turn in order.  `None` is the fatal
/// inconsistent-response case.
pub open spec fn engine_step<T: Payload>(bs: Seq<PhysicsModule<T>>, dt: int) -> Option<
    Seq<PhysicsModule<T>>,
> {
    run_from(gc(bs), dt, 0)
}

/// A freshly created body: at rest at the origin, unlocked, with one
/// external handle.
pub open spec fn fresh_module<T>(hitbox: Polygon, inner: T, mass: i64, id: u64) -> PhysicsModule<
    T,
> {
    PhysicsModule {
        position: Vec2 { x: 0, y: 0 },
        velocity: Vec2 { x: 0, y: 0 },
        mass,
        force: Vec2 { x: 0, y: 0 },
        rotation: 0,
        angular_velocity: 0,
        hitbox,
        inner,
        current_collider: None,
        id,
        external_refs: 1,
    }
}

/// A body with one field replaced; used by the per-field accessors.
pub open spec fn with_position<T>(m: PhysicsModule<T>, v: Vec2) -> PhysicsModule<T> {
    PhysicsModule { position: v, ..m }
}

pub open spec fn with_velocity<T>(m: PhysicsModule<T>, v: Vec2) -> PhysicsModule<T> {
    PhysicsModule { velocity: v, ..m }
}

pub open spec fn with_force<T>(m: PhysicsModule<T>, v: Vec2) -> PhysicsModule<T> {
    PhysicsModule { force: v, ..m }
}

pub open spec fn with_rotation<T>(m: PhysicsModule<T>, v: i64) -> PhysicsModule<T> {
    PhysicsModule { rotation: v, ..m }
}

pub open spec fn with_angular_velocity<T>(m: PhysicsModule<T>, v: i64) -> PhysicsModule<T> {
    PhysicsModule { angular_velocity: v, ..m }
}

pub open spec fn with_external_refs<T>(m: PhysicsModule<T>, n: u64) -> PhysicsModule<T> {
    PhysicsModule { external_refs: n, ..m }
}

/// Replacing one body with a well-formed body of the same id and partner
/// keeps the registry well-formed.
pub proof fn lemma_wf_update_module<T>(bs: Seq<PhysicsModule<T>>, i: int, m2: PhysicsModule<T>)
    requires
        bodies_wf(bs),
        0 <= i < bs.len(),
        module_wf(m2),
        m2.id == bs[i].id,
        m2.current_collider == bs[i].current_collider,
    ensures
        bodies_wf(bs.update(i, m2)),
{
    let b2 = bs.update(i, m2);
    assert forall|k: int| 0 <= k < b2.len() implies module_wf(#[trigger] b2[k]) by {
        if k != i {
            assert(b2[k] == bs[k]);
        }
    }
    assert forall|k: int|
        0 <= k < b2.len() && (#[trigger] b2[k]).current_collider is Some implies has_id(
        b2,
        b2[k].current_collider->0,
    ) && b2[k].current_collider->0 != b2[k].id by {
        let p = b2[k].current_collider->0;
        assert(bs[k].current_collider == Some(p));
        let j = choose|j: int| 0 <= j < bs.len() && (#[trigger] bs[j]).id == p;
        assert(b2[j].id == p);
    }
}

/// The registry of all simulated bodies.
pub struct PhysicsEngine<T> {
    bodies: Vec<PhysicsModule<T>>,
    next_id: u64,
}

impl<T: Payload> PhysicsEngine<T> {
    /// The bodies in registry order; the order is also the collision-scan
    /// and garbage-collection order.
    pub closed spec fn bodies_view(&self) -> Seq<PhysicsModule<T>> {
        self.bodies@
    }

    /// The registry invariant: a well-formed body list whose ids all lie
    /// below the id counter.
    pub closed spec fn inv(&self) -> bool {
        &&& bodies_wf(self.bodies@)
        &&& forall|i: int|
            0 <= i < self.bodies@.len() ==> (#[trigger] self.bodies@[i]).id < self.next_id
    }

    /// Whether a fresh id can still be allocated.
    pub closed spec fn ids_available(&self) -> bool {
        self.next_id < 0xffff_ffff_ffff_ffff
    }

    /// An empty registry.
    pub fn new() -> (r: Self)
        ensures
            r.inv(),
            r.ids_available(),
            r.bodies_view().len() == 0,
    {
        PhysicsEngine { bodies: Vec::new(), next_id: 0 }
    }

    /// Register a new body with the given hitbox, payload and mass, and
    /// return its handle.  The body starts at rest at the origin with no
    /// accumulated force and no collision partner.  A non-positive mass,
    /// like a malformed hitbox, is a configuration error the caller must
    /// rule out.
    pub fn new_module(&mut self, hitbox: Polygon, inner: T, mass: i64) -> (id: u64)
        requires
            old(self).inv(),
            old(self).ids_available(),
            poly_valid(hitbox),
            1 <= mass <= COORD_LIMIT,
        ensures
            final(self).inv(),
            final(self).bodies_view() == old(self).bodies_view().push(
                fresh_module(hitbox, inner, mass, id),
            ),
            !has_id(old(self).bodies_view(), id),
    {
        let id = self.next_id;
        self.next_id = self.next_id + 1;
        let module = PhysicsModule {
            position: Vec2 { x: 0, y: 0 },
            velocity: Vec2 { x: 0, y: 0 },
            mass,
            force: Vec2 { x: 0, y: 0 },
            rotation: 0,
            angular_velocity: 0,
            hitbox,
            inner,
            current_collider: None,
            id,
            external_refs: 1,
        };
        self.bodies.push(module);
        proof {
            let bs0 = old(self).bodies@;
            let bs1 = self.bodies@;
            assert forall|i: int|
                0 <= i < bs1.len() && (#[trigger] bs1[i]).current_collider is Some implies has_id(
                bs1,
                bs1[i].current_collider->0,
            ) && bs1[i].current_collider->0 != bs1[i].id by {
                if i < bs0.len() {
                    assert(bs0[i].current_collider is Some);
                    let p = bs0[i].current_collider->0;
                    let j = choose|j: int| 0 <= j < bs0.len() && (#[trigger] bs0[j]).id == p;
                    assert(bs1[j].id == p);
                }
            }
        }
        id
    }

    /// The index a handle currently resolves to, if the body is live.
    fn find_index(&self, id: u64) -> (r: Option<usize>)
        ensures
            match r {
                Some(j) => j < self.bodies_view().len() && j as int == index_of_id(
                    self.bodies_view(),
                    id,
                    0,
                ) && self.bodies_view()[j as int].id == id,
                None => !has_id(self.bodies_view(), id),
            },
    {
        find_in(&self.bodies, id)
    }

    /// One tick of the simulation over the wall-clock delta `dt` (in
    /// fixed-point seconds): collect bodies that nothing references any
    /// more, then, in registry order, integrate each body and resolve its
    /// collision state.  The whole transition is the specification
    /// function `engine_step`; the tick fails, leaving the registry
    /// well-formed but partially stepped, exactly when a fresh contact's
    /// two callbacks disagree.
    pub fn update(&mut self, dt: i64) -> (r: Result<(), PhysicsFault>)
        requires
            old(self).inv(),
            0 <= dt <= COORD_LIMIT,
        ensures
            final(self).inv(),
            final(self).ids_available() == old(self).ids_available(),
            r is Ok <==> engine_step(old(self).bodies_view(), dt as int) is Some,
            r is Ok ==> engine_step(old(self).bodies_view(), dt as int) == Some(
                final(self).bodies_view(),
            ),
    {
        let ghost bs_orig = self.bodies@;
        gc_pass(&mut self.bodies);
        let ghost bs_gc = self.bodies@;
        proof {
            lemma_gc_rec_id_bound(Seq::empty(), bs_orig, self.next_id);
            assert(bs_gc == gc_rec(Seq::<PhysicsModule<T>>::empty(), bs_orig));
        }
        let n: usize = self.bodies.len();
        let mut i: usize = 0;
        while i < n
            invariant
                0 <= i <= n,
                self.bodies@.len() == n,
                bodies_wf(self.bodies@),
                0 <= dt <= COORD_LIMIT,
                run_from(bs_gc, dt as int, 0) == run_from(self.bodies@, dt as int, i as int),
                engine_step(old(self).bodies_view(), dt as int) == run_from(bs_gc, dt as int, 0),
                forall|k: int|
                    0 <= k < n ==> (#[trigger] self.bodies@[k]).id < self.next_id,
                self.next_id == old(self).next_id,
            decreases n - i,
        {
            let ghost pre = self.bodies@;
            match step_one(&mut self.bodies, dt, i) {
                Ok(_) => {
                    proof {
                        assert(step_body(pre, dt as int, i as int) == Some(self.bodies@));
                        assert(run_from(pre, dt as int, i as int) == run_from(
                            self.bodies@,
                            dt as int,
                            i + 1,
                        ));
                    }
                },
                Err(e) => {
                    proof {
                        assert(step_body(pre, dt as int, i as int) is None);
                        assert(run_from(bs_gc, dt as int, 0) is None);
                    }
                    return Err(e);
                },
            }
            i = i + 1;
        }
        proof {
            assert(run_from(self.bodies@, dt as int, i as int) == Some(self.bodies@));
        }
        Ok(())
    }

    /// How many bodies are currently live.
    pub fn body_count(&self) -> (r: usize)
        ensures
            r == self.bodies_view().len(),
    {
        self.bodies.len()
    }

    /// Whether a handle still resolves to a live body.
    pub fn contains(&self, id: u64) -> (r: bool)
        ensures
            r == has_id(self.bodies_view(), id),
    {
        self.find_index(id).is_some()
    }

    /// A shared borrow of a live body, for reading its state.
    pub fn body(&self, id: u64) -> (r: Option<&PhysicsModule<T>>)
        ensures
            match r {
                Some(m) => has_id(self.bodies_view(), id) && *m == self.bodies_view()[index_of_id(
                    self.bodies_view(),
                    id,
                    0,
                )],
                None => !has_id(self.bodies_view(), id),
            },
    {
        match self.find_index(id) {
            Some(j) => Some(&self.bodies[j]),
            None => None,
        }
    }

    /// Record one more external owner of the handle.
    pub fn clone_handle(&mut self, id: u64) -> (r: bool)
        requires
            old(self).inv(),
        ensures
            final(self).inv(),
            final(self).ids_available() == old(self).ids_available(),
            r == has_id(old(self).bodies_view(), id),
            r ==> {
                let bs = old(self).bodies_view();
                let j = index_of_id(bs, id, 0);
                let n = bs[j].external_refs;
                final(self).bodies_view() == bs.update(
                    j,
                    with_external_refs(bs[j], if n < 0xffff_ffff_ffff_ffff {
                        (n + 1) as u64
                    } else {
                        n
                    }),
                )
            },
            !r ==> final(self).bodies_view() == old(self).bodies_view(),
    {
        match self.find_index(id) {
            Some(j) => {
                let n: u64 = self.bodies[j].external_refs;
                if n < 0xffff_ffff_ffff_ffff {
                    self.bodies[j].external_refs = n + 1;
                }
                proof {
                    let bs = old(self).bodies@;
                    let jj = j as int;
                    let m2 = with_external_refs(bs[jj], if n < 0xffff_ffff_ffff_ffff {
                        (n + 1) as u64
                    } else {
                        n
                    });
                    assert(self.bodies@ =~= bs.update(jj, m2));
                    lemma_wf_update_module(bs, jj, m2);
                }
                true
            },
            None => false,
        }
    }

    /// Record that one external owner dropped the handle.  A body whose
    /// count reaches zero is collected at the start of the next `update`,
    /// unless a locked partner still references it.
    pub fn drop_handle(&mut self, id: u64) -> (r: bool)
        requires
            old(self).inv(),
        ensures
            final(self).inv(),
            final(self).ids_available() == old(self).ids_available(),
            r == has_id(old(self).bodies_view(), id),
            r ==> {
                let bs = old(self).bodies_view();
                let j = index_of_id(bs, id, 0);
                let n = bs[j].external_refs;
                final(self).bodies_view() == bs.update(
                    j,
                    with_external_refs(bs[j], if n > 0 {
                        (n - 1) as u64
                    } else {
                        0
                    }),
                )
            },
            !r ==> final(self).bodies_view() == old(self).bodies_view(),
    {
        match self.find_index(id) {
            Some(j) => {
                let n: u64 = self.bodies[j].external_refs;
                if n > 0 {
                    self.bodies[j].external_refs = n - 1;
                }
                proof {
                    let bs = old(self).bodies@;
                    let jj = j as int;
                    let m2 = with_external_refs(bs[jj], if n > 0 {
                        (n - 1) as u64
                    } else {
                        0
                    });
                    assert(self.bodies@ =~= bs.update(jj, m2));
                    lemma_wf_update_module(bs, jj, m2);
                }
                true
            },
            None => false,
        }
    }

    /// Move a live body.
    pub fn set_position(&mut self, id: u64, v: Vec2) -> (r: bool)
        requires
            old(self).inv(),
            vec2_in_range(v),
        ensures
            final(self).inv(),
            final(self).ids_available() == old(self).ids_available(),
            r == has_id(old(self).bodies_view(), id),
            r ==> final(self).bodies_view() == old(self).bodies_view().update(
                index_of_id(old(self).bodies_view(), id, 0),
                with_position(old(self).bodies_view()[index_of_id(old(self).bodies_view(), id, 0)], v),
            ),
            !r ==> final(self).bodies_view() == old(self).bodies_view(),
    {
        match self.find_index(id) {
            Some(j) => {
                self.bodies[j].position = v;
                proof {
                    let bs = old(self).bodies@;
                    let jj = j as int;
                    assert(self.bodies@ =~= bs.update(jj, with_position(bs[jj], v)));
                    lemma_wf_update_module(bs, jj, with_position(bs[jj], v));
                }
                true
            },
            None => false,
        }
    }

    /// Set a live body's velocity.
    pub fn set_velocity(&mut self, id: u64, v: Vec2) -> (r: bool)
        requires
            old(self).inv(),
            vec2_in_range(v),
        ensures
            final(self).inv(),
            final(self).ids_available() == old(self).ids_available(),
            r == has_id(old(self).bodies_view(), id),
            r ==> final(self).bodies_view() == old(self).bodies_view().update(
                index_of_id(old(self).bodies_view(), id, 0),
                with_velocity(old(self).bodies_view()[index_of_id(old(self).bodies_view(), id, 0)], v),
            ),
            !r ==> final(self).bodies_view() == old(self).bodies_view(),
    {
        match self.find_index(id) {
            Some(j) => {
                self.bodies[j].velocity = v;
                proof {
                    let bs = old(self).bodies@;
                    let jj = j as int;
                    assert(self.bodies@ =~= bs.update(jj, with_velocity(bs[jj], v)));
                    lemma_wf_update_module(bs, jj, with_velocity(bs[jj], v));
                }
                true
            },
            None => false,
        }
    }

    /// Accumulate force on a live body for the coming tick; the integrator
    /// resets it to zero every `update`, so a persistent push must be
    /// re-applied every frame.
    pub fn set_force(&mut self, id: u64, v: Vec2) -> (r: bool)
        requires
            old(self).inv(),
            vec2_in_range(v),
        ensures
            final(self).inv(),
            final(self).ids_available() == old(self).ids_available(),
            r == has_id(old(self).bodies_view(), id),
            r ==> final(self).bodies_view() == old(self).bodies_view().update(
                index_of_id(old(self).bodies_view(), id, 0),
                with_force(old(self).bodies_view()[index_of_id(old(self).bodies_view(), id, 0)], v),
            ),
            !r ==> final(self).bodies_view() == old(self).bodies_view(),
    {
        match self.find_index(id) {
            Some(j) => {
                self.bodies[j].force = v;
                proof {
                    let bs = old(self).bodies@;
                    let jj = j as int;
                    assert(self.bodies@ =~= bs.update(jj, with_force(bs[jj], v)));
                    lemma_wf_update_module(bs, jj, with_force(bs[jj], v));
                }
                true
            },
            None => false,
        }
    }

    /// Set a live body's rotation.
    pub fn set_rotation(&mut self, id: u64, v: i64) -> (r: bool)
        requires
            old(self).inv(),
            in_range(v as int),
        ensures
            final(self).inv(),
            final(self).ids_available() == old(self).ids_available(),
            r == has_id(old(self).bodies_view(), id),
            r ==> final(self).bodies_view() == old(self).bodies_view().update(
                index_of_id(old(self).bodies_view(), id, 0),
                with_rotation(old(self).bodies_view()[index_of_id(old(self).bodies_view(), id, 0)], v),
            ),
            !r ==> final(self).bodies_view() == old(self).bodies_view(),
    {
        match self.find_index(id) {
            Some(j) => {
                self.bodies[j].rotation = v;
                proof {
                    let bs = old(self).bodies@;
                    let jj = j as int;
                    assert(self.bodies@ =~= bs.update(jj, with_rotation(bs[jj], v)));
                    lemma_wf_update_module(bs, jj, with_rotation(bs[jj], v));
                }
                true
            },
            None => false,
        }
    }

    /// Set a live body's angular velocity.
    pub fn set_angular_velocity(&mut self, id: u64, v: i64) -> (r: bool)
        requires
            old(self).inv(),
            in_range(v as int),
        ensures
            final(self).inv(),
            final(self).ids_available() == old(self).ids_available(),
            r == has_id(old(self).bodies_view(), id),
            r ==> final(self).bodies_view() == old(self).bodies_view().update(
                index_of_id(old(self).bodies_view(), id, 0),
                with_angular_velocity(
                    old(self).bodies_view()[index_of_id(old(self).bodies_view(), id, 0)],
                    v,
                ),
            ),
            !r ==> final(self).bodies_view() == old(self).bodies_view(),
    {
        match self.find_index(id) {
            Some(j) => {
                self.bodies[j].angular_velocity = v;
                proof {
                    let bs = old(self).bodies@;
                    let jj = j as int;
                    assert(self.bodies@ =~= bs.update(jj, with_angular_velocity(bs[jj], v)));
                    lemma_wf_update_module(bs, jj, with_angular_velocity(bs[jj], v));
                }
                true
            },
            None => false,
        }
    }

    /// Replace a live body's payload value.
    pub fn set_inner(&mut self, id: u64, v: T) -> (r: bool)
        requires
            old(self).inv(),
        ensures
            final(self).inv(),
            final(self).ids_available() == old(self).ids_available(),
            r == has_id(old(self).bodies_view(), id),
            r ==> final(self).bodies_view() == old(self).bodies_view().update(
                index_of_id(old(self).bodies_view(), id, 0),
                with_inner(old(self).bodies_view()[index_of_id(old(self).bodies_view(), id, 0)], v),
            ),
            !r ==> final(self).bodies_view() == old(self).bodies_view(),
    {
        match self.find_index(id) {
            Some(j) => {
                self.bodies[j].inner = v;
                proof {
                    let bs = old(self).bodies@;
                    let jj = j as int;
                    assert(self.bodies@ =~= bs.update(jj, with_inner(bs[jj], self.bodies@[jj].inner)));
                    lemma_wf_update_module(bs, jj, with_inner(bs[jj], self.bodies@[jj].inner));
                }
                true
            },
            None => false,
        }
    }
}

impl<T: Payload> Default for PhysicsEngine<T> {
    /// An empty registry.
    fn default() -> (r: Self)
        ensures
            r.inv(),
            r.ids_available(),
            r.bodies_view().len() == 0,
    {
        PhysicsEngine::new()
    }
}

/// What the candidate scan returns: the first body after `j0` (other than
/// `i` itself) whose hitbox overlaps body `i`, with nothing overlapping
/// before it.
pub proof fn lemma_scan_from_props<T>(bs: Seq<PhysicsModule<T>>, i: int, j0: int)
    requires
        0 <= j0,
    ensures
        scan_from(bs, i, j0) == -1 ==> forall|k: int|
            j0 <= k < bs.len() ==> k == i || !modules_overlap(bs[i], #[trigger] bs[k]),
        scan_from(bs, i, j0) != -1 ==> {
            let r = scan_from(bs, i, j0);
            &&& j0 <= r < bs.len()
            &&& r != i
            &&& modules_overlap(bs[i], bs[r])
            &&& forall|k: int| j0 <= k < r ==> k == i || !modules_overlap(bs[i], #[trigger] bs[k])
        },
    decreases bs.len() - j0,
{
    if j0 < bs.len() {
        if j0 != i && modules_overlap(bs[i], bs[j0]) {
        } else {
            lemma_scan_from_props(bs, i, j0 + 1);
        }
    }
}

/// What the id lookup returns: the first index holding the id, with no
/// earlier occurrence.
pub proof fn lemma_index_of_id_props<T>(bs: Seq<PhysicsModule<T>>, id: u64, j0: int)
    requires
        0 <= j0,
    ensures
        index_of_id(bs, id, j0) == -1 ==> forall|k: int|
            j0 <= k < bs.len() ==> (#[trigger] bs[k]).id != id,
        index_of_id(bs, id, j0) != -1 ==> {
            let r = index_of_id(bs, id, j0);
            &&& j0 <= r < bs.len()
            &&& bs[r].id == id
        },
    decreases bs.len() - j0,
{
    if j0 < bs.len() {
        if bs[j0].id == id {
        } else {
            lemma_index_of_id_props(bs, id, j0 + 1);
        }
    }
}

/// Integration keeps a body well-formed: every scalar it writes is
/// clamped, and mass, hitbox and bookkeeping are untouched.
pub proof fn lemma_integrated_wf<T>(m: PhysicsModule<T>, dt: int)
    requires
        module_wf(m),
    ensures
        module_wf(integrated(m, dt)),
        integrated(m, dt).id == m.id,
        integrated(m, dt).current_collider == m.current_collider,
        integrated(m, dt).external_refs == m.external_refs,
{
}

/// A body's turn preserves the number of bodies, their ids and external
/// reference counts, and the registry invariant.
pub proof fn lemma_step_body_wf<T: Payload>(bs: Seq<PhysicsModule<T>>, dt: int, i: int)
    requires
        bodies_wf(bs),
        0 <= i < bs.len(),
    ensures
        step_body(bs, dt, i) is Some ==> {
            let b2 = step_body(bs, dt, i)->0;
            &&& b2.len() == bs.len()
            &&& bodies_wf(b2)
            &&& forall|k: int|
                0 <= k < bs.len() ==> (#[trigger] b2[k]).id == bs[k].id && b2[k].external_refs
                    == bs[k].external_refs
        },
{
    lemma_integrated_wf(bs[i], dt);
    let m1 = integrated(bs[i], dt);
    let bs1 = bs.update(i, m1);
    assert(bodies_wf(bs1)) by {
        assert forall|k: int| 0 <= k < bs1.len() implies module_wf(#[trigger] bs1[k]) by {
            if k != i {
                assert(bs1[k] == bs[k]);
            }
        }
        assert forall|k: int|
            0 <= k < bs1.len() && (#[trigger] bs1[k]).current_collider is Some implies has_id(
            bs1,
            bs1[k].current_collider->0,
        ) && bs1[k].current_collider->0 != bs1[k].id by {
            let p = bs1[k].current_collider->0;
            assert(bs[k].current_collider == bs1[k].current_collider);
            let j = choose|j: int| 0 <= j < bs.len() && (#[trigger] bs[j]).id == p;
            assert(bs1[j].id == p);
        }
    }
    match m1.current_collider {
        Some(pid) => {
            lemma_index_of_id_props(bs1, pid, 0);
            let j = index_of_id(bs1, pid, 0);
            if j >= 0 && !modules_overlap(bs1[i], bs1[j]) {
                let b2 = bs1.update(i, with_partner_cleared(m1));
                assert(bodies_wf(b2)) by {
                    lemma_wf_partner_edit(bs1, b2);
                }
            }
        },
        None => {
            lemma_scan_from_props(bs1, i, 0);
            let j = scan_from(bs1, i, 0);
            if j >= 0 {
                let m = bs1[i];
                let p1 = m.inner.contact_updated(bs1[j].inner);
                let r1 = m.inner.contact_response(bs1[j].inner);
                let p2 = bs1[j].inner.contact_updated(p1);
                let r2 = bs1[j].inner.contact_response(p1);
                if r1 == r2 {
                    let bs2 = bs1.update(i, with_inner(bs1[i], p1)).update(
                        j,
                        with_inner(bs1[j], p2),
                    );
                    assert(bodies_wf(bs2)) by {
                        lemma_wf_partner_edit(bs1, bs2);
                    }
                    if r1 == CollisionResponse::Collide {
                        let (va, vb) = elastic_pair(bs2[i], bs2[j]);
                        let b3 = bs2.update(i, with_impulse(bs2[i], va, bs2[j].id)).update(
                            j,
                            with_impulse(bs2[j], vb, bs2[i].id),
                        );
                        assert(bodies_wf(b3)) by {
                            crate::fixed::lemma_clip_in_range(
                                div_tz(
                                    (bs2[i].mass - bs2[j].mass) * bs2[i].velocity.x + 2
                                        * bs2[j].mass * bs2[j].velocity.x,
                                    bs2[i].mass + bs2[j].mass,
                                ),
                            );
                            assert forall|k: int| 0 <= k < b3.len() implies module_wf(
                                #[trigger] b3[k],
                            ) by {
                                if k != i && k != j {
                                    assert(b3[k] == bs2[k]);
                                }
                            }
                            assert forall|k: int|
                                0 <= k < b3.len() && (#[trigger] b3[k]).current_collider
                                    is Some implies has_id(b3, b3[k].current_collider->0)
                                && b3[k].current_collider->0 != b3[k].id by {
                                let p = b3[k].current_collider->0;
                                if k == i {
                                    assert(b3[j].id == p);
                                } else if k == j {
                                    assert(b3[i].id == p);
                                } else {
                                    assert(bs2[k].current_collider == b3[k].current_collider);
                                    let jj = choose|jj: int|
                                        0 <= jj < bs2.len() && (#[trigger] bs2[jj]).id == p;
                                    assert(b3[jj].id == p);
                                }
                            }
                        }
                    }
                }
            }
        },
    }
}

/// An edit that changes neither ids nor partners nor any constrained
/// scalar (payload updates, lock releases) keeps the registry well-formed.
proof fn lemma_wf_partner_edit<T>(bs: Seq<PhysicsModule<T>>, b2: Seq<PhysicsModule<T>>)
    requires
        bodies_wf(bs),
        b2.len() == bs.len(),
        forall|k: int|
            0 <= k < bs.len() ==> {
                let a = #[trigger] bs[k];
                let b = #[trigger] b2[k];
                &&& b.position == a.position
                &&& b.velocity == a.velocity
                &&& b.mass == a.mass
                &&& b.force == a.force
                &&& b.rotation == a.rotation
                &&& b.angular_velocity == a.angular_velocity
                &&& b.hitbox == a.hitbox
                &&& b.id == a.id
                &&& (b.current_collider == a.current_collider || b.current_collider is None)
            },
    ensures
        bodies_wf(b2),
{
    assert forall|k: int| 0 <= k < b2.len() implies module_wf(#[trigger] b2[k]) by {
        assert(module_wf(bs[k]));
    }
    assert forall|i: int, j: int|
        0 <= i < b2.len() && 0 <= j < b2.len() && i != j implies (#[trigger] b2[i]).id != (
    #[trigger] b2[j]).id by {
        assert(b2[i].id == bs[i].id && b2[j].id == bs[j].id);
        assert(bs[i].id != bs[j].id);
    }
    assert forall|k: int|
        0 <= k < b2.len() && (#[trigger] b2[k]).current_collider is Some implies has_id(
        b2,
        b2[k].current_collider->0,
    ) && b2[k].current_collider->0 != b2[k].id by {
        let p = b2[k].current_collider->0;
        assert(bs[k].current_collider == Some(p));
        let j = choose|j: int| 0 <= j < bs.len() && (#[trigger] bs[j]).id == p;
        assert(b2[j].id == p);
    }
}

/// Dropping a body that nothing references any more keeps the registry
/// well-formed, so the whole garbage-collection pass does.
proof fn lemma_gc_rec_wf<T>(done: Seq<PhysicsModule<T>>, rest: Seq<PhysicsModule<T>>)
    requires
        bodies_wf(done + rest),
    ensures
        bodies_wf(gc_rec(done, rest)),
    decreases rest.len(),
{
    if rest.len() == 0 {
        assert(done + rest =~= done);
    } else {
        let m = rest[0];
        let tail = rest.drop_first();
        let s1 = done + rest;
        if m.external_refs > 0 || has_partner_ref(done, m.id) || has_partner_ref(tail, m.id) {
            assert(done.push(m) + tail =~= s1);
            lemma_gc_rec_wf(done.push(m), tail);
        } else {
            let s2 = done + tail;
            let dl = done.len() as int;
            assert forall|k: int| 0 <= k < s2.len() implies s2[k] == (if k < dl {
                s1[k]
            } else {
                s1[k + 1]
            }) by {}
            assert forall|i: int|
                0 <= i < s2.len() && (#[trigger] s2[i]).current_collider is Some implies has_id(
                s2,
                s2[i].current_collider->0,
            ) && s2[i].current_collider->0 != s2[i].id by {
                let i1 = if i < dl {
                    i
                } else {
                    i + 1
                };
                assert(s2[i] == s1[i1]);
                let p = s1[i1].current_collider->0;
                let j1 = choose|j: int| 0 <= j < s1.len() && (#[trigger] s1[j]).id == p;
                if j1 == dl {
                    // the referenced body would be the dropped one, but the
                    // reference itself would have kept it alive
                    assert(s1[j1] == m);
                    if i < dl {
                        assert(done[i].current_collider == Some(m.id));
                        assert(has_partner_ref(done, m.id));
                    } else {
                        assert(tail[i - dl].current_collider == Some(m.id));
                        assert(has_partner_ref(tail, m.id));
                    }
                    assert(false);
                } else {
                    let j2 = if j1 < dl {
                        j1
                    } else {
                        j1 - 1
                    };
                    assert(s2[j2].id == p);
                }
            }
            lemma_gc_rec_wf(done, tail);
        }
    }
}

/// Garbage collection only ever drops bodies, so an upper bound on the ids
/// in the registry survives it.
pub proof fn lemma_gc_rec_id_bound<T>(
    done: Seq<PhysicsModule<T>>,
    rest: Seq<PhysicsModule<T>>,
    bound: u64,
)
    requires
        forall|k: int| 0 <= k < done.len() ==> (#[trigger] done[k]).id < bound,
        forall|k: int| 0 <= k < rest.len() ==> (#[trigger] rest[k]).id < bound,
    ensures
        forall|k: int|
            0 <= k < gc_rec(done, rest).len() ==> (#[trigger] gc_rec(done, rest)[k]).id < bound,
    decreases rest.len(),
{
    if rest.len() > 0 {
        let m = rest[0];
        let tail = rest.drop_first();
        assert forall|k: int| 0 <= k < tail.len() implies (#[trigger] tail[k]).id < bound by {
            assert(tail[k] == rest[k + 1]);
        }
        if m.external_refs > 0 || has_partner_ref(done, m.id) || has_partner_ref(tail, m.id) {
            lemma_gc_rec_id_bound(done.push(m), tail, bound);
        } else {
            lemma_gc_rec_id_bound(done, tail, bound);
        }
    }
}

/// Whether any body in the list tracks `id` as its collision partner.
fn any_partner_ref<T>(bs: &Vec<PhysicsModule<T>>, id: u64) -> (r: bool)
    ensures
        r == has_partner_ref(bs@, id),
{
    let n = bs.len();
    let mut j: usize = 0;
    while j < n
        invariant
            0 <= j <= n,
            n == bs@.len(),
            forall|k: int| 0 <= k < j ==> (#[trigger] bs@[k]).current_collider != Some(id),
        decreases n - j,
    {
        let here = match bs[j].current_collider {
            Some(p) => p == id,
            None => false,
        };
        if here {
            return true;
        }
        j = j + 1;
    }
    false
}

/// The garbage-collection pass: drop every body that no external owner and
/// no locked partner still references.
fn gc_pass<T>(bodies: &mut Vec<PhysicsModule<T>>)
    ensures
        final(bodies)@ == gc(old(bodies)@),
        bodies_wf(old(bodies)@) ==> bodies_wf(final(bodies)@),
{
    let ghost orig = old(bodies)@;
    let mut pending: Vec<PhysicsModule<T>> = Vec::new();
    core::mem::swap(bodies, &mut pending);
    let mut kept: Vec<PhysicsModule<T>> = Vec::new();
    while pending.len() > 0
        invariant
            gc_rec(kept@, pending@) == gc(orig),
        decreases pending.len(),
    {
        let ghost pend0 = pending@;
        let m = pending.remove(0);
        proof {
            assert(pend0.drop_first() =~= pending@);
        }
        let live = m.external_refs > 0 || any_partner_ref(&kept, m.id) || any_partner_ref(
            &pending,
            m.id,
        );
        if live {
            kept.push(m);
        }
    }
    proof {
        assert(gc_rec(kept@, pending@) == kept@);
    }
    *bodies = kept;
    proof {
        assert(Seq::<PhysicsModule<T>>::empty() + orig =~= orig);
        if bodies_wf(orig) {
            lemma_gc_rec_wf(Seq::empty(), orig);
        }
    }
}

/// One body's turn of the tick: integrate body `i`, then resolve its
/// collision state, mutating the registry in place exactly as `step_body`
/// describes.
fn step_one<T: Payload>(bodies: &mut Vec<PhysicsModule<T>>, dt: i64, i: usize) -> (r: Result<
    (),
    PhysicsFault,
>)
    requires
        bodies_wf(old(bodies)@),
        i < old(bodies)@.len(),
        0 <= dt <= COORD_LIMIT,
    ensures
        final(bodies)@.len() == old(bodies)@.len(),
        bodies_wf(final(bodies)@),
        forall|k: int|
            0 <= k < old(bodies)@.len() ==> (#[trigger] final(bodies)@[k]).id == old(
                bodies,
            )@[k].id,
        match r {
            Ok(_) => step_body(old(bodies)@, dt as int, i as int) == Some(final(bodies)@),
            Err(_) => step_body(old(bodies)@, dt as int, i as int) is None,
        },
{
    let ghost bs0 = old(bodies)@;
    proof {
        assert(module_wf(bs0[i as int]));
    }
    // Integration: acceleration from force and mass, then velocity,
    // position (with the fresh velocity), rotation; force reset to zero.
    let m_force: Vec2 = bodies[i].force;
    let m_mass: i64 = bodies[i].mass;
    let m_vel: Vec2 = bodies[i].velocity;
    let m_pos: Vec2 = bodies[i].position;
    let m_rot: i64 = bodies[i].rotation;
    let m_av: i64 = bodies[i].angular_velocity;
    let ax: i64 = cmul_div(m_force.x, SCALE, m_mass);
    let ay: i64 = cmul_div(m_force.y, SCALE, m_mass);
    let vx: i64 = cadd(m_vel.x, cmul_div(ax, dt, SCALE));
    let vy: i64 = cadd(m_vel.y, cmul_div(ay, dt, SCALE));
    let px: i64 = cadd(m_pos.x, cmul_div(vx, dt, SCALE));
    let py: i64 = cadd(m_pos.y, cmul_div(vy, dt, SCALE));
    let rot: i64 = cadd(m_rot, cmul_div(m_av, dt, SCALE));
    bodies[i].position = Vec2 { x: px, y: py };
    bodies[i].velocity = Vec2 { x: vx, y: vy };
    bodies[i].force = Vec2 { x: 0, y: 0 };
    bodies[i].rotation = rot;
    proof {
        lemma_integrated_wf(bs0[i as int], dt as int);
        assert(bodies@[i as int] == integrated(bs0[i as int], dt as int));
        assert(bodies@ =~= bs0.update(i as int, integrated(bs0[i as int], dt as int)));
        lemma_step_body_wf(bs0, dt as int, i as int);
    }
    let ghost bs1 = bodies@;
    proof {
        assert(bodies_wf(bs1)) by {
            assert forall|k: int| 0 <= k < bs1.len() implies module_wf(#[trigger] bs1[k]) by {
                if k != i as int {
                    assert(bs1[k] == bs0[k]);
                }
            }
            assert forall|k: int|
                0 <= k < bs1.len() && (#[trigger] bs1[k]).current_collider is Some implies has_id(
                bs1,
                bs1[k].current_collider->0,
            ) && bs1[k].current_collider->0 != bs1[k].id by {
                let p = bs1[k].current_collider->0;
                assert(bs0[k].current_collider == bs1[k].current_collider);
                let j = choose|j: int| 0 <= j < bs0.len() && (#[trigger] bs0[j]).id == p;
                assert(bs1[j].id == p);
            }
        }
    }
    let partner: Option<u64> = bodies[i].current_collider;
    match partner {
        Some(pid) => {
            proof {
                lemma_index_of_id_props(bs1, pid, 0);
            }
            match find_in(bodies, pid) {
                Some(j) => {
                    proof {
                        assert(module_wf(bs1[i as int]) && module_wf(bs1[j as int]));
                    }
                    let still = polygons_collide(
                        &bodies[i].hitbox,
                        bodies[i].rotation,
                        bodies[i].position,
                        &bodies[j].hitbox,
                        bodies[j].rotation,
                        bodies[j].position,
                    );
                    if !still {
                        bodies[i].current_collider = None;
                        proof {
                            assert(bodies@[i as int] == with_partner_cleared(bs1[i as int]));
                            assert(bodies@ =~= bs1.update(
                                i as int,
                                with_partner_cleared(bs1[i as int]),
                            ));
                        }
                    }
                    Ok(())
                },
                None => {
                    // unreachable: a recorded partner is always live
                    proof {
                        assert(has_id(bs1, pid));
                        assert(false);
                    }
                    Ok(())
                },
            }
        },
        None => {
            let n: usize = bodies.len();
            let mut j: usize = 0;
            let mut hit: Option<usize> = None;
            while j < n
                invariant
                    0 <= j <= n,
                    n == bodies@.len(),
                    i < n,
                    bodies@ == bs1,
                    bodies_wf(bs1),
                    match hit {
                        Option::None => scan_from(bs1, i as int, 0) == scan_from(
                            bs1,
                            i as int,
                            j as int,
                        ),
                        Option::Some(jj) => jj < n && jj != i && scan_from(bs1, i as int, 0)
                            == jj as int,
                    },
                decreases n - j,
            {
                if hit.is_none() && j != i {
                    proof {
                        assert(module_wf(bs1[i as int]) && module_wf(bs1[j as int]));
                    }
                    let o = polygons_collide(
                        &bodies[i].hitbox,
                        bodies[i].rotation,
                        bodies[i].position,
                        &bodies[j].hitbox,
                        bodies[j].rotation,
                        bodies[j].position,
                    );
                    if o {
                        hit = Some(j);
                    }
                }
                j = j + 1;
            }
            match hit {
                None => {
                    proof {
                        assert(scan_from(bs1, i as int, 0) == -1);
                    }
                    Ok(())
                },
                Some(j) => {
                    // First contact: run both callbacks with the
                    // clone-mutate-commit sequence, the second seeing the
                    // first body's committed payload.
                    let mut own = bodies[i].inner.dup();
                    let r1 = own.on_contact(&bodies[j].inner);
                    bodies[i].inner = own;
                    let ghost p1 = bs1[i as int].inner.contact_updated(bs1[j as int].inner);
                    proof {
                        assert(bodies@[i as int] == with_inner(bs1[i as int], p1));
                    }
                    let mut other = bodies[j].inner.dup();
                    let r2 = other.on_contact(&bodies[i].inner);
                    bodies[j].inner = other;
                    let ghost p2 = bs1[j as int].inner.contact_updated(p1);
                    let ghost bs2 = bs1.update(i as int, with_inner(bs1[i as int], p1)).update(
                        j as int,
                        with_inner(bs1[j as int], p2),
                    );
                    proof {
                        assert(bodies@ =~= bs2);
                        lemma_wf_partner_edit(bs1, bs2);
                    }
                    if r1 != r2 {
                        // Fatal: the two sides of the contact disagreed.
                        return Err(PhysicsFault::InconsistentResponse);
                    }
                    if matches!(r1, CollisionResponse::Collide) {
                        let m1: i64 = bodies[i].mass;
                        let m2: i64 = bodies[j].mass;
                        let v1: Vec2 = bodies[i].velocity;
                        let v2: Vec2 = bodies[j].velocity;
                        proof {
                            assert(module_wf(bs2[i as int]) && module_wf(bs2[j as int]));
                        }
                        let vax: i64 = lin2_div(m1 - m2, v1.x, 2 * m2, v2.x, m1 + m2);
                        let vay: i64 = lin2_div(m1 - m2, v1.y, 2 * m2, v2.y, m1 + m2);
                        let vbx: i64 = lin2_div(m2 - m1, v2.x, 2 * m1, v1.x, m1 + m2);
                        let vby: i64 = lin2_div(m2 - m1, v2.y, 2 * m1, v1.y, m1 + m2);
                        let id_i: u64 = bodies[i].id;
                        let id_j: u64 = bodies[j].id;
                        bodies[i].velocity = Vec2 { x: vax, y: vay };
                        bodies[i].current_collider = Some(id_j);
                        bodies[j].velocity = Vec2 { x: vbx, y: vby };
                        bodies[j].current_collider = Some(id_i);
                        proof {
                            let ghost (va, vb) = elastic_pair(bs2[i as int], bs2[j as int]);
                            assert(bodies@[i as int] == with_impulse(
                                bs2[i as int],
                                va,
                                bs2[j as int].id,
                            ));
                            assert(bodies@[j as int] == with_impulse(
                                bs2[j as int],
                                vb,
                                bs2[i as int].id,
                            ));
                            assert(bodies@ =~= bs2.update(
                                i as int,
                                with_impulse(bs2[i as int], va, bs2[j as int].id),
                            ).update(j as int, with_impulse(bs2[j as int], vb, bs2[i as int].id)));
                        }
                    }
                    proof {
                        lemma_step_body_wf(bs0, dt as int, i as int);
                    }
                    Ok(())
                },
            }
        },
    }
}

/// The first index holding the given id, if any.
fn find_in<T>(bs: &Vec<PhysicsModule<T>>, id: u64) -> (r: Option<usize>)
    ensures
        match r {
            Some(j) => j < bs@.len() && j as int == index_of_id(bs@, id, 0) && bs@[j as int].id
                == id,
            None => !has_id(bs@, id),
        },
{
    let n = bs.len();
    let mut j: usize = 0;
    while j < n
        invariant
            0 <= j <= n,
            n == bs@.len(),
            forall|k: int| 0 <= k < j ==> (#[trigger] bs@[k]).id != id,
            index_of_id(bs@, id, 0) == index_of_id(bs@, id, j as int),
        decreases n - j,
    {
        if bs[j].id == id {
            return Some(j);
        }
        j = j + 1;
    }
    None
}

} // verus!
