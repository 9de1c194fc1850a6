//! Quarter-turn rotations of an integer point about the origin.

use vstd::prelude::*;

verus! {

/// A point in the plane with integer coordinates.
pub struct Point {
    pub x: i32,
    pub y: i32,
}

impl Point {
    /// The point rotated a quarter turn clockwise.
    pub fn clockwise(&self) -> (r: Point)
        requires
            self.x > i32::MIN,
        ensures
            r.x == self.y,
            r.y == -self.x,
    {
        Point { x: self.y, y: -self.x }
    }

    /// The point rotated a quarter turn counterclockwise.
    pub fn counterclockwise(&self) -> (r: Point)
        requires
            self.y > i32::MIN,
        ensures
            r.x == -self.y,
            r.y == self.x,
    {
        Point { x: -self.y, y: self.x }
    }
}

} // verus!
