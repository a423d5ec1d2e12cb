//! Axis-aligned rectangles used as room footprints by the dungeon generator.

use vstd::prelude::*;

verus! {

/// A rectangle with top-left corner `(x, y)`, extents `(w, h)`, and the
/// derived far corner `(x2, y2) == (x + w, y + h)`.
#[derive(Clone, Copy, PartialEq, Eq, Structural, Debug)]
pub struct Rect {
    pub x: i32,
    pub y: i32,
    pub w: i32,
    pub h: i32,
    pub x2: i32,
    pub y2: i32,
}

impl Rect {
    /// The far corner fields agree with the corner and the extents,
    /// and both extents are positive.
    pub open spec fn wf(self) -> bool {
        &&& self.w > 0
        &&& self.h > 0
        &&& self.x2 == self.x + self.w
        &&& self.y2 == self.y + self.h
    }

    /// Closed-interval overlap on both axes: rectangles that merely touch
    /// count as intersecting.
    pub open spec fn intersects(self, other: Rect) -> bool {
        &&& self.x <= other.x2
        &&& self.x2 >= other.x
        &&& self.y <= other.y2
        &&& self.y2 >= other.y
    }

    /// The integer-truncated midpoint `(x + w / 2, y + h / 2)`.
    pub open spec fn center_spec(self) -> (int, int) {
        (self.x + self.w / 2, self.y + self.h / 2)
    }

    pub fn new(x: i32, y: i32, w: i32, h: i32) -> (r: Rect)
        requires
            i32::MIN <= x + w <= i32::MAX,
            i32::MIN <= y + h <= i32::MAX,
        ensures
            r.x == x,
            r.y == y,
            r.w == w,
            r.h == h,
            r.x2 == x + w,
            r.y2 == y + h,
            w > 0 && h > 0 ==> r.wf(),
    {
        Rect { x, y, w, h, x2: x + w, y2: y + h }
    }

    pub fn intersect(&self, other: &Rect) -> (r: bool)
        ensures
            r == self.intersects(*other),
    {
        self.x <= other.x2 && self.x2 >= other.x && self.y <= other.y2 && self.y2 >= other.y
    }

    pub fn center(&self) -> (r: (i32, i32))
        requires
            self.w >= 0,
            self.h >= 0,
            self.x + self.w <= i32::MAX,
            self.y + self.h <= i32::MAX,
        ensures
            (r.0 as int, r.1 as int) == self.center_spec(),
    {
        (self.x + self.w / 2, self.y + self.h / 2)
    }
}

} // verus!
