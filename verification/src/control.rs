//! Player steering input, reduced to the turn direction the physics layer
//! acts on.

use vstd::prelude::*;

verus! {

/// Which way the ship should turn.
#[derive(Clone, Copy, Debug, PartialEq, Eq, Structural)]
pub enum SteeringDirection {
    Left,
    Straight,
    Right,
}

/// The currently held steering keys.
#[derive(Clone, Copy, Debug, PartialEq, Eq, Structural)]
pub struct SteeringKeys {
    pub left: bool,
    pub right: bool,
    pub forward: bool,
}

impl SteeringKeys {
    /// The turn direction the held keys ask for; both or neither of the
    /// turn keys cancel out.
    pub open spec fn direction_spec(self) -> SteeringDirection {
        match (self.left, self.right) {
            (true, false) => SteeringDirection::Left,
            (false, true) => SteeringDirection::Right,
            _ => SteeringDirection::Straight,
        }
    }

    /// The turn direction the held keys ask for.
    pub fn direction(&self) -> (r: SteeringDirection)
        ensures
            r == self.direction_spec(),
    {
        match (self.left, self.right) {
            (true, false) => SteeringDirection::Left,
            (false, true) => SteeringDirection::Right,
            _ => SteeringDirection::Straight,
        }
    }
}

} // verus!
