//! Points of the integer grid.

use vstd::prelude::*;

verus! {

/// A position on the grid. Coordinates are exact grid units, so two points are
/// equal exactly when both coordinates agree.
#[derive(Copy, Clone, Debug, PartialEq, Eq, Structural)]
pub struct Point {
    pub x: i32,
    pub y: i32,
}

impl Point {
    /// The point with the given coordinates.
    pub fn new(x: i32, y: i32) -> (p: Self)
        ensures
            p.x == x,
            p.y == y,
    {
        Self { x, y }
    }
}

/// The sum of two coordinates fits a coordinate.
pub open spec fn coord_fits(v: int) -> bool {
    i32::MIN <= v <= i32::MAX
}

impl core::ops::Add for Point {
    type Output = Point;

    /// The point moved by `other`, coordinate by coordinate.
    fn add(self, other: Point) -> (p: Point) {
        Point { x: self.x + other.x, y: self.y + other.y }
    }
}

impl vstd::std_specs::ops::AddSpecImpl for Point {
    open spec fn obeys_add_spec() -> bool {
        true
    }

    open spec fn add_req(self, other: Point) -> bool {
        coord_fits(self.x + other.x) && coord_fits(self.y + other.y)
    }

    open spec fn add_spec(self, other: Point) -> Point {
        Point { x: (self.x + other.x) as i32, y: (self.y + other.y) as i32 }
    }
}

impl core::ops::Sub for Point {
    type Output = Point;

    /// The point moved back by `other`, coordinate by coordinate.
    fn sub(self, other: Point) -> (p: Point) {
        Point { x: self.x - other.x, y: self.y - other.y }
    }
}

impl vstd::std_specs::ops::SubSpecImpl for Point {
    open spec fn obeys_sub_spec() -> bool {
        true
    }

    open spec fn sub_req(self, other: Point) -> bool {
        coord_fits(self.x - other.x) && coord_fits(self.y - other.y)
    }

    open spec fn sub_spec(self, other: Point) -> Point {
        Point { x: (self.x - other.x) as i32, y: (self.y - other.y) as i32 }
    }
}

} // verus!
