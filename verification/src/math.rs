//! Integer 2D points and half-open axis-aligned rectangles.

use vstd::prelude::*;

verus! {

/// A 2D point (or vector) with integer coordinates.
#[derive(Clone, Copy, Debug, PartialEq, Eq, Structural)]
pub struct V2 {
    pub x: i32,
    pub y: i32,
}

impl V2 {
    pub fn new(x: i32, y: i32) -> (r: V2)
        ensures
            r.x == x,
            r.y == y,
    {
        V2 { x, y }
    }
}

/// A half-open rectangle: the cells (x, y) with
/// `mins.x <= x < maxs.x` and `mins.y <= y < maxs.y`.
#[derive(Clone, Copy, Debug, PartialEq, Eq, Structural)]
pub struct Rect {
    pub mins: V2,
    pub maxs: V2,
}

impl Rect {
    /// A rectangle is well-formed when its bounds are ordered, so its
    /// width and height are non-negative.
    pub open spec fn wf(self) -> bool {
        self.mins.x <= self.maxs.x && self.mins.y <= self.maxs.y
    }

    /// Membership of a cell given by its coordinates.
    pub open spec fn contains_cell(self, x: int, y: int) -> bool {
        &&& self.mins.x <= x < self.maxs.x
        &&& self.mins.y <= y < self.maxs.y
    }

    /// Membership of a point in the half-open region.
    pub open spec fn spec_contains(self, p: V2) -> bool {
        self.contains_cell(p.x as int, p.y as int)
    }

    /// Two rectangles are disjoint when no point lies in both.
    pub open spec fn disjoint(self, other: Rect) -> bool {
        forall|p: V2| !(self.spec_contains(p) && other.spec_contains(p))
    }

    /// The smallest rectangle holding both corner arguments, in any order.
    pub fn new(a: V2, b: V2) -> (r: Rect)
        ensures
            r.mins.x == if a.x <= b.x { a.x } else { b.x },
            r.mins.y == if a.y <= b.y { a.y } else { b.y },
            r.maxs.x == if a.x <= b.x { b.x } else { a.x },
            r.maxs.y == if a.y <= b.y { b.y } else { a.y },
            r.wf(),
    {
        let xmin = if a.x <= b.x { a.x } else { b.x };
        let ymin = if a.y <= b.y { a.y } else { b.y };
        let xmax = if a.x <= b.x { b.x } else { a.x };
        let ymax = if a.y <= b.y { b.y } else { a.y };
        let mins = V2::new(xmin, ymin);
        let maxs = V2::new(xmax, ymax);
        Rect { mins, maxs }
    }

    /// Builds a rectangle from already ordered corners.
    pub fn new_unchecked(mins: V2, maxs: V2) -> (r: Rect)
        requires
            mins.x <= maxs.x,
            mins.y <= maxs.y,
        ensures
            r.mins == mins,
            r.maxs == maxs,
            r.wf(),
    {
        Rect { mins, maxs }
    }

    pub fn width(&self) -> (w: i32)
        requires
            self.wf(),
            self.maxs.x - self.mins.x <= i32::MAX,
        ensures
            w == self.maxs.x - self.mins.x,
            w >= 0,
    {
        self.maxs.x - self.mins.x
    }

    pub fn height(&self) -> (h: i32)
        requires
            self.wf(),
            self.maxs.y - self.mins.y <= i32::MAX,
        ensures
            h == self.maxs.y - self.mins.y,
            h >= 0,
    {
        self.maxs.y - self.mins.y
    }

    /// Componentwise intersection; the result may be empty (unordered bounds)
    /// when the arguments do not overlap.
    pub fn intersect(&self, other: Rect) -> (r: Rect)
        ensures
            r.mins.x == if self.mins.x >= other.mins.x { self.mins.x } else { other.mins.x },
            r.mins.y == if self.mins.y >= other.mins.y { self.mins.y } else { other.mins.y },
            r.maxs.x == if self.maxs.x <= other.maxs.x { self.maxs.x } else { other.maxs.x },
            r.maxs.y == if self.maxs.y <= other.maxs.y { self.maxs.y } else { other.maxs.y },
            forall|p: V2| r.spec_contains(p) <==> self.spec_contains(p) && other.spec_contains(p),
    {
        let xmin = if self.mins.x >= other.mins.x { self.mins.x } else { other.mins.x };
        let ymin = if self.mins.y >= other.mins.y { self.mins.y } else { other.mins.y };
        let xmax = if self.maxs.x <= other.maxs.x { self.maxs.x } else { other.maxs.x };
        let ymax = if self.maxs.y <= other.maxs.y { self.maxs.y } else { other.maxs.y };
        let mins = V2::new(xmin, ymin);
        let maxs = V2::new(xmax, ymax);
        Rect { mins, maxs }
    }

    pub fn contains(&self, p: V2) -> (r: bool)
        ensures
            r == self.spec_contains(p),
    {
        p.x >= self.mins.x && p.y >= self.mins.y && p.x < self.maxs.x && p.y < self.maxs.y
    }
}

} // verus!
