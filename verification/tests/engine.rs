//! End-to-end tests of the collision engine: locking, elastic exchange,
//! force reset, garbage collection and the fatal inconsistent-response
//! case.

use polyphys::SCALE;
use polyphys::Vec2;
use polyphys::contact::HitType;
use polyphys::contact::OneSided;
use polyphys::geometry::Polygon;
use polyphys::physics::PhysicsEngine;
use polyphys::physics::PhysicsFault;

const PI_FP: i64 = polyphys::trig::PI_FP;
const DT_60: i64 = 1092; // roughly 1/60 s in fixed point

/// An equilateral triangle of the given radius (world units), pointing
/// along +x.
fn triangle_right(radius_units: i64) -> Polygon {
    let d = radius_units * SCALE;
    Polygon {
        angles: vec![0, 2 * PI_FP / 3, 4 * PI_FP / 3],
        distances: vec![d, d, d],
    }
}

/// An equilateral triangle of the given radius, pointing along -x.
fn triangle_left(radius_units: i64) -> Polygon {
    let d = radius_units * SCALE;
    Polygon {
        angles: vec![PI_FP, PI_FP / 3, 5 * PI_FP / 3],
        distances: vec![d, d, d],
    }
}

fn units(n: i64) -> i64 {
    n * SCALE
}

/// Two triangles, radius 60, at (0,0) and (50,0): the left-pointing one's
/// apex reaches (-10, 0), well inside the right-pointing one.
fn overlapping_pair(
    engine: &mut PhysicsEngine<HitType>,
    a_inner: HitType,
    b_inner: HitType,
    mass: i64,
) -> (u64, u64) {
    let a = engine.new_module(triangle_right(60), a_inner, mass);
    let b = engine.new_module(triangle_left(60), b_inner, mass);
    assert!(engine.set_position(b, Vec2 { x: units(50), y: 0 }));
    (a, b)
}

#[test]
fn two_bodies_lock_and_stay_locked() {
    let mut engine: PhysicsEngine<HitType> = PhysicsEngine::new();
    let (a, b) = overlapping_pair(
        &mut engine,
        HitType::Asteroid { dmg: units(1), dmg_taken: 0 },
        HitType::Asteroid { dmg: units(1), dmg_taken: 0 },
        SCALE, // mass 1
    );
    assert!(engine.update(DT_60).is_ok());
    // both locked onto each other
    assert_eq!(engine.body(a).unwrap().current_collider, Some(b));
    assert_eq!(engine.body(b).unwrap().current_collider, Some(a));
    // equal masses and zero relative velocity: the exchange is a no-op
    assert_eq!(engine.body(a).unwrap().velocity, Vec2 { x: 0, y: 0 });
    assert_eq!(engine.body(b).unwrap().velocity, Vec2 { x: 0, y: 0 });
    assert_eq!(engine.body(a).unwrap().position, Vec2 { x: 0, y: 0 });
    // a second tick with no movement keeps the lock
    assert!(engine.update(DT_60).is_ok());
    assert_eq!(engine.body(a).unwrap().current_collider, Some(b));
    assert_eq!(engine.body(b).unwrap().current_collider, Some(a));
}

#[test]
fn force_resets_to_zero_after_update() {
    let mut engine: PhysicsEngine<HitType> = PhysicsEngine::new();
    let id = engine.new_module(triangle_right(10), HitType::Inert, SCALE);
    assert!(engine.set_force(id, Vec2 { x: units(3), y: units(-7) }));
    assert!(engine.update(DT_60).is_ok());
    assert_eq!(engine.body(id).unwrap().force, Vec2 { x: 0, y: 0 });
    // and the velocity picked up exactly force / mass * dt
    let expected = 3 * DT_60;
    assert_eq!(engine.body(id).unwrap().velocity.x, expected);
    assert_eq!(engine.body(id).unwrap().velocity.y, -7 * DT_60);
}

#[test]
fn constant_force_integrates_linearly() {
    // mass 1, force 1 unit, dt = 0.5 s: each tick adds exactly 0.5 units/s
    let mut engine: PhysicsEngine<HitType> = PhysicsEngine::new();
    let id = engine.new_module(triangle_right(10), HitType::Inert, SCALE);
    let half_second: i64 = SCALE / 2;
    let mut positions: Vec<i64> = Vec::new();
    for _ in 0..4 {
        assert!(engine.set_force(id, Vec2 { x: SCALE, y: 0 }));
        assert!(engine.update(half_second).is_ok());
        positions.push(engine.body(id).unwrap().position.x);
    }
    // velocities 0.5, 1.0, 1.5, 2.0 units/s; semi-implicit Euler positions
    assert_eq!(engine.body(id).unwrap().velocity.x, 2 * SCALE);
    assert_eq!(positions, vec![16384, 49152, 98304, 163840]);
}

#[test]
fn equal_mass_elastic_exchange_swaps_velocities() {
    let mut engine: PhysicsEngine<HitType> = PhysicsEngine::new();
    let (a, b) = overlapping_pair(
        &mut engine,
        HitType::Asteroid { dmg: 0, dmg_taken: 0 },
        HitType::Asteroid { dmg: 0, dmg_taken: 0 },
        7 * SCALE,
    );
    assert!(engine.set_velocity(a, Vec2 { x: units(10), y: 0 }));
    assert!(engine.set_velocity(b, Vec2 { x: units(-10), y: 0 }));
    // dt = 0: no motion, only the collision resolution
    assert!(engine.update(0).is_ok());
    assert_eq!(engine.body(a).unwrap().velocity, Vec2 { x: units(-10), y: 0 });
    assert_eq!(engine.body(b).unwrap().velocity, Vec2 { x: units(10), y: 0 });
}

#[test]
fn callbacks_fire_once_while_locked() {
    let mut engine: PhysicsEngine<HitType> = PhysicsEngine::new();
    let (a, b) = overlapping_pair(
        &mut engine,
        HitType::Player { dmgp: units(50), dmg_takenp: 0 },
        HitType::Asteroid { dmg: units(100), dmg_taken: 0 },
        SCALE,
    );
    for _ in 0..5 {
        assert!(engine.update(0).is_ok());
    }
    // the player took exactly one damage tick, the asteroid exactly dmgp
    match engine.body(a).unwrap().inner {
        HitType::Player { dmg_takenp, .. } => assert_eq!(dmg_takenp, SCALE),
        _ => panic!("payload kind changed"),
    }
    match engine.body(b).unwrap().inner {
        HitType::Asteroid { dmg_taken, .. } => assert_eq!(dmg_taken, units(50)),
        _ => panic!("payload kind changed"),
    }
    assert_eq!(engine.body(a).unwrap().current_collider, Some(b));
}

#[test]
fn lock_releases_when_shapes_separate_and_rearms() {
    let mut engine: PhysicsEngine<HitType> = PhysicsEngine::new();
    let (a, b) = overlapping_pair(
        &mut engine,
        HitType::Player { dmgp: units(50), dmg_takenp: 0 },
        HitType::Asteroid { dmg: units(100), dmg_taken: 0 },
        SCALE,
    );
    assert!(engine.update(0).is_ok());
    assert_eq!(engine.body(a).unwrap().current_collider, Some(b));
    // move the asteroid far away: the lock is released silently
    assert!(engine.set_position(b, Vec2 { x: units(1000), y: 0 }));
    assert!(engine.update(0).is_ok());
    assert_eq!(engine.body(a).unwrap().current_collider, None);
    assert_eq!(engine.body(b).unwrap().current_collider, None);
    match engine.body(a).unwrap().inner {
        HitType::Player { dmg_takenp, .. } => assert_eq!(dmg_takenp, SCALE),
        _ => panic!("payload kind changed"),
    }
    // a fresh overlap is a new contact and fires the callbacks again
    assert!(engine.set_position(b, Vec2 { x: units(50), y: 0 }));
    assert!(engine.update(0).is_ok());
    assert_eq!(engine.body(a).unwrap().current_collider, Some(b));
    match engine.body(a).unwrap().inner {
        HitType::Player { dmg_takenp, .. } => assert_eq!(dmg_takenp, 2 * SCALE),
        _ => panic!("payload kind changed"),
    }
}

#[test]
fn dropped_handle_is_collected_surviving_handle_is_not() {
    let mut engine: PhysicsEngine<HitType> = PhysicsEngine::new();
    let gone = engine.new_module(triangle_right(5), HitType::Inert, SCALE);
    let kept = engine.new_module(triangle_right(5), HitType::Inert, SCALE);
    assert!(engine.set_position(kept, Vec2 { x: units(500), y: 0 }));
    assert!(engine.drop_handle(gone));
    assert!(engine.contains(gone)); // not collected until the next tick
    assert!(engine.update(DT_60).is_ok());
    assert!(!engine.contains(gone));
    for _ in 0..10 {
        assert!(engine.update(DT_60).is_ok());
    }
    assert!(engine.contains(kept));
    assert_eq!(engine.body_count(), 1);
}

#[test]
fn locked_partner_keeps_a_dropped_body_alive() {
    let mut engine: PhysicsEngine<HitType> = PhysicsEngine::new();
    let (a, b) = overlapping_pair(
        &mut engine,
        HitType::Asteroid { dmg: 0, dmg_taken: 0 },
        HitType::Asteroid { dmg: 0, dmg_taken: 0 },
        SCALE,
    );
    assert!(engine.update(0).is_ok());
    assert_eq!(engine.body(a).unwrap().current_collider, Some(b));
    // drop the only external handle of b: the lock still references it
    assert!(engine.drop_handle(b));
    assert!(engine.update(0).is_ok());
    assert!(engine.contains(b));
    // separate the pair: the lock is released, then b is collected
    assert!(engine.set_position(a, Vec2 { x: units(-1000), y: 0 }));
    assert!(engine.update(0).is_ok());
    assert_eq!(engine.body(a).unwrap().current_collider, None);
    assert!(engine.update(0).is_ok());
    assert!(!engine.contains(b));
    assert!(engine.contains(a));
}

#[test]
fn disagreeing_callbacks_abort_the_tick() {
    let mut engine: PhysicsEngine<OneSided> = PhysicsEngine::new();
    let _a = engine.new_module(triangle_right(60), OneSided { solid: true }, SCALE);
    let b = engine.new_module(triangle_left(60), OneSided { solid: false }, SCALE);
    assert!(engine.set_position(b, Vec2 { x: units(50), y: 0 }));
    assert_eq!(engine.update(DT_60), Err(PhysicsFault::InconsistentResponse));
}

#[test]
fn agreeing_pass_callbacks_do_not_lock() {
    let mut engine: PhysicsEngine<HitType> = PhysicsEngine::new();
    let (a, b) = overlapping_pair(
        &mut engine,
        HitType::Bullet { dmgb: units(10), bounce: 3 },
        HitType::Bullet { dmgb: units(10), bounce: 3 },
        SCALE,
    );
    assert!(engine.set_velocity(a, Vec2 { x: units(1), y: 0 }));
    assert!(engine.update(0).is_ok());
    // both passed: no lock, no impulse
    assert_eq!(engine.body(a).unwrap().current_collider, None);
    assert_eq!(engine.body(b).unwrap().current_collider, None);
    assert_eq!(engine.body(a).unwrap().velocity, Vec2 { x: units(1), y: 0 });
}

#[test]
fn rotation_follows_angular_velocity() {
    let mut engine: PhysicsEngine<HitType> = PhysicsEngine::new();
    let id = engine.new_module(triangle_right(5), HitType::Inert, SCALE);
    assert!(engine.set_angular_velocity(id, PI_FP));
    assert!(engine.update(SCALE).is_ok()); // a full second
    assert_eq!(engine.body(id).unwrap().rotation, PI_FP);
}

#[test]
fn empty_engine_updates() {
    let mut engine: PhysicsEngine<HitType> = PhysicsEngine::new();
    assert!(engine.update(DT_60).is_ok());
    assert_eq!(engine.body_count(), 0);
}

#[test]
fn clone_handle_defers_collection() {
    let mut engine: PhysicsEngine<HitType> = PhysicsEngine::new();
    let id = engine.new_module(triangle_right(5), HitType::Inert, SCALE);
    assert!(engine.clone_handle(id));
    assert!(engine.drop_handle(id));
    assert!(engine.update(0).is_ok());
    assert!(engine.contains(id)); // one owner left
    assert!(engine.drop_handle(id));
    assert!(engine.update(0).is_ok());
    assert!(!engine.contains(id));
}
