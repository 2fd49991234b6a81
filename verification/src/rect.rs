//! Screen geometry: points in unsigned pixel coordinates and axis-aligned
//! rectangles, with the containment test used for hit-testing.

use vstd::prelude::*;

verus! {

/// A point on the screen, in unsigned pixel coordinates.
#[derive(Debug, Copy, Clone, PartialEq, Eq, Structural)]
pub struct Point {
    pub x: u64,
    pub y: u64,
}

/// Shorthand constructor for [`Point`], mirroring a positional literal.
#[allow(non_snake_case)]
pub fn Point(x: u64, y: u64) -> (p: Point)
    ensures
        p == (Point { x, y }),
{
    Point { x, y }
}

impl Point {
    /// Component-wise addition; the caller rules out overflow.
    pub fn add(self, rhs: Point) -> (r: Point)
        requires
            self.x + rhs.x <= u64::MAX,
            self.y + rhs.y <= u64::MAX,
        ensures
            r.x == self.x + rhs.x,
            r.y == self.y + rhs.y,
    {
        Point { x: self.x + rhs.x, y: self.y + rhs.y }
    }

    /// Component-wise subtraction; the caller rules out underflow.
    pub fn sub(self, rhs: Point) -> (r: Point)
        requires
            rhs.x <= self.x,
            rhs.y <= self.y,
        ensures
            r.x == self.x - rhs.x,
            r.y == self.y - rhs.y,
    {
        Point { x: self.x - rhs.x, y: self.y - rhs.y }
    }

    /// The point moved by `rhs`, with each coordinate clamped at `u64::MAX`.
    pub open spec fn spec_sat_add(self, rhs: Point) -> Point {
        Point { x: sat_add_coord(self.x, rhs.x), y: sat_add_coord(self.y, rhs.y) }
    }

    /// The point moved back by `rhs`, with each coordinate clamped at zero.
    pub open spec fn spec_sat_sub(self, rhs: Point) -> Point {
        Point { x: sat_sub_coord(self.x, rhs.x), y: sat_sub_coord(self.y, rhs.y) }
    }

    /// Saturating component-wise addition: coordinates pushed past the end of
    /// the `u64` range stop there instead of wrapping.
    pub fn sat_add(self, rhs: Point) -> (r: Point)
        ensures
            r == self.spec_sat_add(rhs),
    {
        let x = if self.x > u64::MAX - rhs.x { u64::MAX } else { self.x + rhs.x };
        let y = if self.y > u64::MAX - rhs.y { u64::MAX } else { self.y + rhs.y };
        Point { x, y }
    }

    /// Saturating component-wise subtraction: coordinates pushed below zero
    /// stop there instead of wrapping.
    pub fn sat_sub(self, rhs: Point) -> (r: Point)
        ensures
            r == self.spec_sat_sub(rhs),
    {
        let x = if self.x < rhs.x { 0 } else { self.x - rhs.x };
        let y = if self.y < rhs.y { 0 } else { self.y - rhs.y };
        Point { x, y }
    }
}

/// `a + b`, clamped at `u64::MAX`.
pub open spec fn sat_add_coord(a: u64, b: u64) -> u64 {
    if a + b > u64::MAX {
        u64::MAX
    } else {
        (a + b) as u64
    }
}

/// `a - b`, clamped at zero.
pub open spec fn sat_sub_coord(a: u64, b: u64) -> u64 {
    if a < b {
        0
    } else {
        (a - b) as u64
    }
}

/// An axis-aligned rectangle given by its top-left and bottom-right corners.
#[derive(Debug, Copy, Clone, PartialEq, Eq, Structural)]
pub struct Rect {
    pub top_left: Point,
    pub bot_right: Point,
}

impl Rect {
    /// The corners are ordered: top-left no further right or down than
    /// bottom-right.
    pub open spec fn wf(self) -> bool {
        self.top_left.x <= self.bot_right.x && self.top_left.y <= self.bot_right.y
    }

    /// Geometric containment: `p` lies within the rectangle, each coordinate
    /// compared on its own, with the border counting as inside.
    pub open spec fn spec_contains(self, p: Point) -> bool {
        self.top_left.x <= p.x <= self.bot_right.x && self.top_left.y <= p.y <= self.bot_right.y
    }

    /// Whether `point` lies inside the rectangle. The test is component-wise:
    /// both coordinates must lie between the corresponding corner
    /// coordinates, so a point past the right edge is outside no matter how
    /// high up it sits.
    pub fn contains(&self, point: Point) -> (r: bool)
        ensures
            r == self.spec_contains(point),
    {
        self.top_left.x <= point.x && point.x <= self.bot_right.x && self.top_left.y <= point.y
            && point.y <= self.bot_right.y
    }
}

/// Shorthand constructor for [`Rect`] from corner coordinates; the corners
/// must be ordered.
#[allow(non_snake_case)]
pub fn Rect(x0: u64, y0: u64, x1: u64, y1: u64) -> (r: Rect)
    requires
        x0 <= x1,
        y0 <= y1,
    ensures
        r == (Rect { top_left: Point { x: x0, y: y0 }, bot_right: Point { x: x1, y: y1 } }),
        r.wf(),
{
    Rect { top_left: Point { x: x0, y: y0 }, bot_right: Point { x: x1, y: y1 } }
}

} // verus!
