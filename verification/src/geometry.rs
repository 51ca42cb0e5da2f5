//! Points and axis-aligned bounding boxes, with the quadrant geometry the
//! spatial index is built on.

use vstd::prelude::*;

verus! {

/// A point in the 2D integer plane.
#[derive(Clone, Copy, PartialEq, Eq, Structural, Debug)]
pub struct Point {
    pub x: i32,
    pub y: i32,
}

/// An axis-aligned bounding box: the rectangle spanned by the corner
/// points `min` and `max`, edges parallel to the axes and included.
#[derive(Clone, Copy, PartialEq, Eq, Structural, Debug)]
pub struct Aabb {
    pub min: Point,
    pub max: Point,
}

impl Aabb {
    /// A box is well formed when `min` does not exceed `max` on either axis.
    pub open spec fn wf(self) -> bool {
        self.min.x <= self.max.x && self.min.y <= self.max.y
    }

    /// Does `self` fully contain `other`, edges included?
    pub open spec fn spec_contains(self, other: Aabb) -> bool {
        &&& self.min.x <= other.min.x
        &&& other.max.x <= self.max.x
        &&& self.min.y <= other.min.y
        &&& other.max.y <= self.max.y
    }

    /// Do `self` and `other` overlap?  Touching edges count as overlap.
    pub open spec fn spec_intersects(self, other: Aabb) -> bool {
        &&& self.min.x <= other.max.x
        &&& other.min.x <= self.max.x
        &&& self.min.y <= other.max.y
        &&& other.min.y <= self.max.y
    }

    /// Half the width, rounded down.
    pub open spec fn half_x(self) -> int {
        (self.max.x - self.min.x) / 2
    }

    /// Half the height, rounded down.
    pub open spec fn half_y(self) -> int {
        (self.max.y - self.min.y) / 2
    }

    /// The x coordinate of the center (width split rounded down).
    pub open spec fn center_x(self) -> int {
        self.min.x + self.half_x()
    }

    /// The y coordinate of the center (height split rounded down).
    pub open spec fn center_y(self) -> int {
        self.min.y + self.half_y()
    }

    /// The squared length of the half-size vector.
    pub open spec fn spec_half_sq(self) -> int {
        self.half_x() * self.half_x() + self.half_y() * self.half_y()
    }

    /// Width plus height: the measure that shrinks from a node's boundary
    /// to each of its quadrants.
    pub open spec fn extent(self) -> int {
        (self.max.x - self.min.x) + (self.max.y - self.min.y)
    }

    /// The center as a point (exact for well-formed boxes).
    pub open spec fn spec_center(self) -> Point {
        Point { x: self.center_x() as i32, y: self.center_y() as i32 }
    }

    /// Quadrant `i` of `self`: the four quadrants meet at the center and are
    /// laid out `0` left-top, `1` right-top, `2` right-bottom, `3` left-bottom
    /// (x grows to the right, y grows upward).
    pub open spec fn quadrant(self, i: int) -> Aabb
        recommends
            self.wf(),
            0 <= i < 4,
    {
        let c = self.spec_center();
        if i == 0 {
            Aabb { min: Point { x: self.min.x, y: c.y }, max: Point { x: c.x, y: self.max.y } }
        } else if i == 1 {
            Aabb { min: c, max: self.max }
        } else if i == 2 {
            Aabb { min: Point { x: c.x, y: self.min.y }, max: Point { x: self.max.x, y: c.y } }
        } else {
            Aabb { min: self.min, max: c }
        }
    }

    /// The first quadrant of `self` that fully contains `item`, if any.
    /// Scanning order is the quadrant order, so an item that touches a
    /// shared edge goes to the lowest-numbered quadrant that contains it.
    pub open spec fn quad_target(self, item: Aabb) -> Option<int>
        recommends
            self.wf(),
    {
        if self.quadrant(0).spec_contains(item) {
            Some(0int)
        } else if self.quadrant(1).spec_contains(item) {
            Some(1int)
        } else if self.quadrant(2).spec_contains(item) {
            Some(2int)
        } else if self.quadrant(3).spec_contains(item) {
            Some(3int)
        } else {
            None
        }
    }

    /// Is the integer point `(px, py)` inside `self`, edges included?
    pub open spec fn contains_point(self, px: int, py: int) -> bool {
        self.min.x <= px <= self.max.x && self.min.y <= py <= self.max.y
    }

    /// Is the integer point `(px, py)` strictly inside `self`?
    pub open spec fn strictly_contains_point(self, px: int, py: int) -> bool {
        self.min.x < px < self.max.x && self.min.y < py < self.max.y
    }

    /// Containment test, edges included.
    pub fn contains(&self, other: &Aabb) -> (r: bool)
        ensures
            r == self.spec_contains(*other),
    {
        self.min.x <= other.min.x && other.max.x <= self.max.x && self.min.y <= other.min.y
            && other.max.y <= self.max.y
    }

    /// Overlap test, touching edges included.
    pub fn intersects(&self, other: &Aabb) -> (r: bool)
        ensures
            r == self.spec_intersects(*other),
    {
        self.min.x <= other.max.x && other.min.x <= self.max.x && self.min.y <= other.max.y
            && other.min.y <= self.max.y
    }

    /// The center point, each axis split rounded down.
    pub fn center(&self) -> (c: Point)
        requires
            self.wf(),
        ensures
            c == self.spec_center(),
            c.x == self.center_x(),
            c.y == self.center_y(),
    {
        let w: u64 = ((self.max.x as i64) - (self.min.x as i64)) as u64;
        let h: u64 = ((self.max.y as i64) - (self.min.y as i64)) as u64;
        let cx: i32 = ((self.min.x as i64) + ((w / 2) as i64)) as i32;
        let cy: i32 = ((self.min.y as i64) + ((h / 2) as i64)) as i32;
        Point { x: cx, y: cy }
    }

    /// The half-size vector, each component rounded down.
    pub fn half_size(&self) -> (p: Point)
        requires
            self.wf(),
        ensures
            p.x == self.half_x(),
            p.y == self.half_y(),
    {
        let w: u64 = ((self.max.x as i64) - (self.min.x as i64)) as u64;
        let h: u64 = ((self.max.y as i64) - (self.min.y as i64)) as u64;
        Point { x: (w / 2) as i32, y: (h / 2) as i32 }
    }

    /// The squared length of the half-size vector.
    pub fn half_sq(&self) -> (r: u64)
        requires
            self.wf(),
        ensures
            r == self.spec_half_sq(),
    {
        let hx: u64 = (((self.max.x as i64) - (self.min.x as i64)) as u64) / 2;
        let hy: u64 = (((self.max.y as i64) - (self.min.y as i64)) as u64) / 2;
        proof {
            assert(hx <= 0x7fffffff && hy <= 0x7fffffff);
            assert(hx * hx + hy * hy <= 0x7fffffff * 0x7fffffff + 0x7fffffff * 0x7fffffff)
                by (nonlinear_arith)
                requires
                    hx <= 0x7fffffff && hy <= 0x7fffffff,
            ;
        }
        hx * hx + hy * hy
    }
}

/// An item that fits inside a box also overlaps whatever the box overlaps;
/// in particular a region disjoint from the box is disjoint from the item.
pub proof fn lemma_contained_intersects(outer: Aabb, inner: Aabb, region: Aabb)
    requires
        outer.spec_contains(inner),
        inner.spec_intersects(region),
    ensures
        outer.spec_intersects(region),
{
}

/// For a well-formed box the four quadrants are well formed, contained in
/// the box, and their corners stand where the definition says.
pub proof fn lemma_quadrants_wf(b: Aabb)
    requires
        b.wf(),
    ensures
        forall|i: int| 0 <= i < 4 ==> (#[trigger] b.quadrant(i)).wf(),
        forall|i: int| 0 <= i < 4 ==> b.spec_contains(#[trigger] b.quadrant(i)),
{
}

/// A box whose half-size vector is not zero has quadrants of strictly
/// smaller extent; recursing into a quadrant therefore terminates.
pub proof fn lemma_quadrant_extent(b: Aabb)
    requires
        b.wf(),
        b.spec_half_sq() >= 1,
    ensures
        forall|i: int| 0 <= i < 4 ==> (#[trigger] b.quadrant(i)).extent() < b.extent(),
{
    let hx = b.half_x();
    let hy = b.half_y();
    assert(hx >= 1 || hy >= 1) by {
        if hx == 0 && hy == 0 {
            assert(hx * hx + hy * hy == 0) by (nonlinear_arith)
                requires
                    hx == 0 && hy == 0,
            ;
        }
    }
}

} // verus!
