//! Tests of the fixed-point trigonometry, the world-space projection and
//! the two collision phases.

use polyphys::SCALE;
use polyphys::Vec2;
use polyphys::geometry::Polygon;
use polyphys::geometry::max_distance_fp;
use polyphys::geometry::polygon_cartesian_coords;
use polyphys::geometry::polygons_collide;
use polyphys::trig::HALF_PI_FP;
use polyphys::trig::PI_FP;
use polyphys::trig::TAU_FP;
use polyphys::trig::cos_fp;
use polyphys::trig::sin_fp;

fn units(n: i64) -> i64 {
    n * SCALE
}

fn square(radius_units: i64) -> Polygon {
    let d = units(radius_units);
    Polygon {
        angles: vec![0, HALF_PI_FP, PI_FP, PI_FP + HALF_PI_FP],
        distances: vec![d, d, d, d],
    }
}

#[test]
fn trig_exact_points() {
    assert_eq!(sin_fp(0), 0);
    assert_eq!(sin_fp(PI_FP), 0);
    assert_eq!(cos_fp(0), SCALE);
    assert_eq!(cos_fp(TAU_FP), SCALE);
}

#[test]
fn trig_quarter_turns() {
    // the half-wave rational sine is within a fraction of a percent
    let s = sin_fp(HALF_PI_FP);
    assert!(s > 65300 && s <= SCALE, "sin(pi/2) = {}", s);
    let c = cos_fp(PI_FP);
    assert!(c < -65300 && c >= -SCALE, "cos(pi) = {}", c);
    let s3 = sin_fp(PI_FP + HALF_PI_FP);
    assert!(s3 < -65300 && s3 >= -SCALE, "sin(3pi/2) = {}", s3);
}

#[test]
fn trig_stays_on_unit_circle() {
    let mut a: i64 = -3 * TAU_FP;
    while a < 3 * TAU_FP {
        let s = sin_fp(a) as i128;
        let c = cos_fp(a) as i128;
        assert!(s * s + c * c <= (SCALE as i128) * (SCALE as i128));
        a += 7919;
    }
}

#[test]
fn cartesian_projection_of_unrotated_vertex() {
    let p = Polygon { angles: vec![0, HALF_PI_FP, PI_FP], distances: vec![
        units(10),
        units(10),
        units(10),
    ] };
    let pos = Vec2 { x: units(100), y: units(-3) };
    let verts = polygon_cartesian_coords(&p, 0, pos);
    assert_eq!(verts.len(), 3);
    // angle 0: cos is exactly SCALE, sin is exactly 0
    assert_eq!(verts[0], Vec2 { x: units(110), y: units(-3) });
}

#[test]
fn cartesian_projection_respects_rotation() {
    let p = Polygon { angles: vec![0, HALF_PI_FP, PI_FP], distances: vec![
        units(10),
        units(10),
        units(10),
    ] };
    // rotating the body by pi sends the angle-0 vertex to the left
    let verts = polygon_cartesian_coords(&p, PI_FP, Vec2 { x: 0, y: 0 });
    assert_eq!(verts[0].y, 0);
    assert!(verts[0].x < -units(9));
}

#[test]
fn max_distance_is_the_largest_entry() {
    let p = Polygon { angles: vec![0, HALF_PI_FP, PI_FP], distances: vec![
        units(10),
        units(75),
        units(50),
    ] };
    assert_eq!(max_distance_fp(&p), units(75));
}

#[test]
fn distant_bodies_do_not_collide() {
    let a = square(60);
    let b = square(60);
    // centres 1000 units apart, radii 60 + 60: broad phase rejects
    let far = Vec2 { x: units(1000), y: 0 };
    assert!(!polygons_collide(&a, 0, Vec2 { x: 0, y: 0 }, &b, 0, far));
}

#[test]
fn contained_vertex_means_collision() {
    let a = square(60);
    let b = square(60);
    let near = Vec2 { x: units(50), y: 0 };
    assert!(polygons_collide(&a, 0, Vec2 { x: 0, y: 0 }, &b, 0, near));
}

#[test]
fn broad_phase_never_rejects_an_overlap() {
    // sliding one square across another: wherever the vertex-containment
    // test reports contact, the pair must also have passed the broad phase
    let a = square(60);
    let b = square(60);
    let mut hits: i64 = 0;
    let mut dx: i64 = -130;
    while dx <= 130 {
        let pos2 = Vec2 { x: units(dx), y: units(7) };
        if polygons_collide(&a, 0, Vec2 { x: 0, y: 0 }, &b, 0, pos2) {
            // the composite test only reports contact inside the
            // bounding-radius sum
            assert!(dx * dx + 7 * 7 <= 120 * 120, "contact outside radii at {}", dx);
            hits += 1;
        }
        dx += 1;
    }
    assert!(hits > 50, "the sweep never made contact");
}

#[test]
fn touching_at_the_boundary_counts_as_contact() {
    // the inclusion test is boundary-inclusive: a vertex exactly on the
    // other polygon's corner is contained
    let a = square(60);
    let b = square(60);
    let touching = Vec2 { x: units(120), y: 0 };
    assert!(polygons_collide(&a, 0, Vec2 { x: 0, y: 0 }, &b, 0, touching));
}

#[test]
fn edge_crossing_without_contained_vertex_is_not_contact() {
    // two long thin diamonds in a plus-sign arrangement: their edges
    // cross, but no vertex of the second lies inside the first, and the
    // one-directional test deliberately reports no contact
    let wide = Polygon {
        angles: vec![0, HALF_PI_FP, PI_FP, PI_FP + HALF_PI_FP],
        distances: vec![units(100), units(1), units(100), units(1)],
    };
    let tall = Polygon {
        angles: vec![0, HALF_PI_FP, PI_FP, PI_FP + HALF_PI_FP],
        distances: vec![units(1), units(100), units(1), units(100)],
    };
    let pos2 = Vec2 { x: units(50), y: units(2) };
    assert!(!polygons_collide(&wide, 0, Vec2 { x: 0, y: 0 }, &tall, 0, pos2));
}
