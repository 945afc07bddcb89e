//! Integer screen geometry used by the drop-position calculators.
//!
//! Cursor positions and container rectangles reach the engine as plain
//! integer coordinates; the host rounds whatever its windowing system
//! reports before calling in.

use vstd::prelude::*;

verus! {

/// A point in absolute screen coordinates.
#[derive(Clone, Copy, Debug, PartialEq, Eq, Structural)]
pub struct Point {
    pub x: i64,
    pub y: i64,
}

/// An axis-aligned rectangle: origin plus size.
#[derive(Clone, Copy, Debug, PartialEq, Eq, Structural)]
pub struct Rect {
    pub x: i64,
    pub y: i64,
    pub width: i64,
    pub height: i64,
}

impl Rect {
    /// Whether a point lies inside the rectangle, all four edges included.
    pub open spec fn spec_contains(self, p: Point) -> bool {
        &&& self.x <= p.x <= self.x + self.width
        &&& self.y <= p.y <= self.y + self.height
    }

    /// Edge-inclusive containment test.
    pub fn contains(&self, p: Point) -> (r: bool)
        requires
            0 <= self.width,
            0 <= self.height,
            self.x + self.width <= i64::MAX,
            self.y + self.height <= i64::MAX,
        ensures
            r == self.spec_contains(p),
    {
        self.x <= p.x && p.x <= self.x + self.width && self.y <= p.y && p.y <= self.y + self.height
    }
}

} // verus!
