//! The game-facing collision payloads.
//!
//! `HitType` is the damage-bookkeeping payload the surrounding game attaches
//! to players, asteroids and bullets, with `hit` as its collision-response
//! callback; damage values are fixed-point scalars (`SCALE` per damage
//! unit), counters are plain integers, and every mutation saturates instead
//! of wrapping.  `OneSided` is a deliberately asymmetric payload whose two
//! sides can disagree; it exercises the engine's fatal
//! inconsistent-response path.

use vstd::prelude::*;

use crate::fixed::SCALE;
use crate::fixed::sat_add;
use crate::fixed::sat_add64;
use crate::physics::CollisionResponse;
use crate::physics::Payload;

verus! {

/// What kind of game entity a body is, with its damage bookkeeping.
#[derive(Clone, Copy, Debug, PartialEq, Eq, Structural)]
pub enum HitType {
    Player { dmgp: i64, dmg_takenp: i64 },
    Asteroid { dmg: i64, dmg_taken: i64 },
    Bullet { dmgb: i64, bounce: i64 },
    Inert,
}

/// The payload after `hit`: players struck by asteroids take one damage
/// unit, asteroids accumulate the striker's damage, bullets hitting an
/// asteroid spend one bounce.
pub open spec fn hit_updated(one: HitType, two: HitType) -> HitType {
    match (one, two) {
        (HitType::Player { dmgp, dmg_takenp }, HitType::Asteroid { .. }) => HitType::Player {
            dmgp,
            dmg_takenp: sat_add(dmg_takenp as int, SCALE as int) as i64,
        },
        (HitType::Asteroid { dmg, dmg_taken }, HitType::Player { dmgp, .. }) => HitType::Asteroid {
            dmg,
            dmg_taken: sat_add(dmg_taken as int, dmgp as int) as i64,
        },
        (HitType::Bullet { dmgb, bounce }, HitType::Asteroid { .. }) => HitType::Bullet {
            dmgb,
            bounce: sat_add(bounce as int, -1) as i64,
        },
        (HitType::Asteroid { dmg, dmg_taken }, HitType::Bullet { dmgb, .. }) => HitType::Asteroid {
            dmg,
            dmg_taken: sat_add(dmg_taken as int, dmgb as int) as i64,
        },
        _ => one,
    }
}

/// The decision `hit` reports: asteroids collide with players, bullets and
/// each other; bullets pass through players and other bullets.
pub open spec fn hit_response(one: HitType, two: HitType) -> CollisionResponse {
    match (one, two) {
        (HitType::Player { .. }, HitType::Asteroid { .. }) => CollisionResponse::Collide,
        (HitType::Asteroid { .. }, HitType::Player { .. }) => CollisionResponse::Collide,
        (HitType::Bullet { .. }, HitType::Asteroid { .. }) => CollisionResponse::Collide,
        (HitType::Asteroid { .. }, HitType::Bullet { .. }) => CollisionResponse::Collide,
        (HitType::Asteroid { .. }, HitType::Asteroid { .. }) => CollisionResponse::Collide,
        _ => CollisionResponse::Pass,
    }
}

/// The game's collision-response callback: update the own side's damage
/// bookkeeping in view of the other and decide `Collide` or `Pass`.
pub fn hit(one: &mut HitType, two: &HitType) -> (r: CollisionResponse)
    ensures
        *final(one) == hit_updated(*old(one), *two),
        r == hit_response(*old(one), *two),
{
    match (*one, *two) {
        (HitType::Player { dmgp, dmg_takenp }, HitType::Asteroid { .. }) => {
            *one = HitType::Player { dmgp, dmg_takenp: sat_add64(dmg_takenp, SCALE) };
            CollisionResponse::Collide
        },
        (HitType::Asteroid { dmg, dmg_taken }, HitType::Player { dmgp, .. }) => {
            *one = HitType::Asteroid { dmg, dmg_taken: sat_add64(dmg_taken, dmgp) };
            CollisionResponse::Collide
        },
        (HitType::Bullet { dmgb, bounce }, HitType::Asteroid { .. }) => {
            *one = HitType::Bullet { dmgb, bounce: sat_add64(bounce, -1) };
            CollisionResponse::Collide
        },
        (HitType::Asteroid { dmg, dmg_taken }, HitType::Bullet { dmgb, .. }) => {
            *one = HitType::Asteroid { dmg, dmg_taken: sat_add64(dmg_taken, dmgb) };
            CollisionResponse::Collide
        },
        (HitType::Bullet { .. }, HitType::Player { .. }) => CollisionResponse::Pass,
        (HitType::Player { .. }, HitType::Bullet { .. }) => CollisionResponse::Pass,
        (HitType::Asteroid { .. }, HitType::Asteroid { .. }) => CollisionResponse::Collide,
        (HitType::Bullet { .. }, HitType::Bullet { .. }) => CollisionResponse::Pass,
        _ => CollisionResponse::Pass,
    }
}

impl Payload for HitType {
    open spec fn contact_updated(self, other: Self) -> Self {
        hit_updated(self, other)
    }

    open spec fn contact_response(self, other: Self) -> CollisionResponse {
        hit_response(self, other)
    }

    fn on_contact(&mut self, other: &Self) -> (r: CollisionResponse) {
        hit(self, other)
    }

    fn dup(&self) -> (r: Self) {
        *self
    }
}

/// The two sides of a `hit` contact always agree, whatever damage the
/// first side's committed update recorded: the decision depends only on
/// the entity kinds, which `hit` never changes.
pub proof fn lemma_hit_always_agrees(a: HitType, b: HitType)
    ensures
        hit_response(a, b) == hit_response(b, hit_updated(a, b)),
{
}

/// A deliberately one-sided payload: each side answers only from its own
/// flag, so a solid body meeting a pass-through body breaks the
/// symmetric-response contract and makes the tick fail.
#[derive(Clone, Copy, Debug, PartialEq, Eq, Structural)]
pub struct OneSided {
    pub solid: bool,
}

impl Payload for OneSided {
    open spec fn contact_updated(self, other: Self) -> Self {
        self
    }

    open spec fn contact_response(self, other: Self) -> CollisionResponse {
        if self.solid {
            CollisionResponse::Collide
        } else {
            CollisionResponse::Pass
        }
    }

    fn on_contact(&mut self, other: &Self) -> (r: CollisionResponse) {
        if self.solid {
            CollisionResponse::Collide
        } else {
            CollisionResponse::Pass
        }
    }

    fn dup(&self) -> (r: Self) {
        *self
    }
}

} // verus!
