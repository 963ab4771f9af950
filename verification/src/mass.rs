//! A point mass moving through the plane.

use vstd::prelude::*;
use crate::vector::Vec2;

verus! {

/// A body of the simulation: a mass, a position and a velocity, all
/// fixed-point scalars.
#[derive(Clone, Copy, Debug, PartialEq, Eq, Structural)]
pub struct MassPoint {
    pub mass: i64,
    pub position: Vec2,
    pub velocity: Vec2,
}

impl MassPoint {
    /// The point mass with the given mass, position and velocity.
    pub fn new(mass: i64, position: Vec2, velocity: Vec2) -> (m: MassPoint)
        ensures
            m.mass == mass,
            m.position == position,
            m.velocity == velocity,
    {
        MassPoint { mass, position, velocity }
    }
}

} // verus!
