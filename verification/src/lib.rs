//! A fixed-timestep rigid-body physics and collision engine for arbitrary
//! convex polygons.
//!
//! Bodies live in a registry, carry a convex polygonal hitbox described in
//! body-local polar coordinates, and exchange perfectly-elastic impulses when
//! their hitboxes first overlap.  A sticky pairwise "locked" state suppresses
//! repeated collision callbacks while two bodies remain in contact.  All
//! scalar state is kept in signed fixed-point arithmetic so that every step
//! of the simulation is an exactly specified function of the previous state.

pub mod contact;
pub mod control;
pub mod fixed;
pub mod geometry;
pub mod laws;
pub mod physics;
pub mod progression;
pub mod trig;

pub use fixed::Vec2;
pub use fixed::COORD_LIMIT;
pub use fixed::SCALE;
