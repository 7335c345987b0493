//! A plain two-component integer vector, the coordinate type of the kernel.

use vstd::prelude::*;

verus! {

/// A 2D vector of fixed-point sub-units.
#[derive(Clone, Copy, Debug, PartialEq, Eq, Structural)]
pub struct Vec2 {
    pub x: i64,
    pub y: i64,
}

impl Vec2 {
    /// Builds the vector with the given components.
    pub fn new(x: i64, y: i64) -> (v: Vec2)
        ensures
            v.x == x,
            v.y == y,
    {
        Vec2 { x, y }
    }

    /// The zero vector.
    pub fn zero() -> (v: Vec2)
        ensures
            v.is_zero(),
    {
        Vec2 { x: 0, y: 0 }
    }

    /// Whether both components are zero.
    pub open spec fn is_zero(self) -> bool {
        self.x == 0 && self.y == 0
    }
}

} // verus!
