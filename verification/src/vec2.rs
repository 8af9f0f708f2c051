//! Two-dimensional vectors with fixed-point coordinates.
use vstd::prelude::*;

verus! {

/// A point or displacement in the plane, each coordinate a fixed-point number.
#[derive(Clone, Copy, Debug, PartialEq, Eq, Structural)]
pub struct Vec2 {
    pub x: i32,
    pub y: i32,
}

impl Vec2 {
    /// The origin.
    pub open spec fn zero() -> Vec2 {
        Vec2 { x: 0, y: 0 }
    }

    pub fn new(x: i32, y: i32) -> (v: Vec2)
        ensures
            v == (Vec2 { x, y }),
    {
        Vec2 { x, y }
    }
}

} // verus!
