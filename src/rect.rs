use vstd::prelude::*;

verus! {

/// An axis-aligned rectangle given by two opposite corners.
#[derive(Clone, Copy, Debug, PartialEq, Eq, Structural)]
pub struct Rect {
    pub x1: i32,
    pub y1: i32,
    pub x2: i32,
    pub y2: i32,
}

/// Half of `s`, rounded down.
fn half_floor(s: i64) -> (r: i32)
    requires
        2 * (i32::MIN as int) <= s <= 2 * (i32::MAX as int),
    ensures
        r as int == s as int / 2,
{
    if s >= 0 {
        (s / 2) as i32
    } else {
        (-((-s + 1) / 2)) as i32
    }
}

impl Rect {
    pub open spec fn spec_intersect(self, other: Rect) -> bool {
        self.x1 <= other.x2 && self.x2 >= other.x1 && self.y1 <= other.y2 && self.y2 >= other.y1
    }

    pub open spec fn spec_center(self) -> (int, int) {
        ((self.x1 + self.x2) / 2, (self.y1 + self.y2) / 2)
    }

    /// Whether (x, y) lies strictly inside the rectangle's border, where a room is carved.
    pub open spec fn interior_contains(self, x: int, y: int) -> bool {
        self.x1 < x <= self.x2 && self.y1 < y <= self.y2
    }

    pub fn new(x: i32, y: i32, w: i32, h: i32) -> (r: Rect)
        requires
            x + w <= i32::MAX,
            y + h <= i32::MAX,
            x + w >= i32::MIN,
            y + h >= i32::MIN,
        ensures
            r == (Rect { x1: x, y1: y, x2: (x + w) as i32, y2: (y + h) as i32 }),
    {
        Rect { x1: x, y1: y, x2: x + w, y2: y + h }
    }

    /// Returns true if this rectangle overlaps (or touches) the other.
    pub fn intersect(&self, other: &Rect) -> (r: bool)
        ensures
            r == self.spec_intersect(*other),
    {
        self.x1 <= other.x2 && self.x2 >= other.x1 && self.y1 <= other.y2 && self.y2 >= other.y1
    }

    pub fn center(&self) -> (r: (i32, i32))
        ensures
            r.0 as int == self.spec_center().0,
            r.1 as int == self.spec_center().1,
    {
        (half_floor(self.x1 as i64 + self.x2 as i64), half_floor(self.y1 as i64 + self.y2 as i64))
    }
}

} // verus!
