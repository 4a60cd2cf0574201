use vstd::prelude::*;
use crate::config::{MAP_HEIGHT, MAP_WIDTH};

verus! {

/// A rectangle on the map, used while rooms are laid out.
#[derive(Clone, Copy, Debug, PartialEq, Eq, Structural)]
pub struct Rect {
    pub x1: i32,
    pub y1: i32,
    pub x2: i32,
    pub y2: i32,
}

/// `v / 2`, rounded toward zero.
pub open spec fn half(v: int) -> int {
    if v >= 0 { v / 2 } else { -((-v) / 2) }
}

impl Rect {
    /// Lies within the map, corners included, with room for an interior.
    pub open spec fn within_map(self) -> bool {
        0 <= self.x1 && self.x1 < self.x2 && self.x2 < MAP_WIDTH
            && 0 <= self.y1 && self.y1 < self.y2 && self.y2 < MAP_HEIGHT
    }

    /// The cell lies strictly inside the rectangle's border.
    pub open spec fn in_interior(self, x: int, y: int) -> bool {
        self.x1 < x && x < self.x2 && self.y1 < y && y < self.y2
    }

    /// The midpoint, each coordinate halved toward zero.
    pub open spec fn spec_center(self) -> (int, int) {
        (half(self.x1 + self.x2), half(self.y1 + self.y2))
    }

    /// The two rectangles share a cell, borders included.
    pub open spec fn overlaps(self, other: Rect) -> bool {
        self.x1 <= other.x2 && self.x2 >= other.x1 && self.y1 <= other.y2 && self.y2 >= other.y1
    }

    pub fn new(x: i32, y: i32, w: i32, h: i32) -> (r: Rect)
        requires
            x + w <= i32::MAX,
            y + h <= i32::MAX,
            x + w >= i32::MIN,
            y + h >= i32::MIN,
        ensures
            r == (Rect { x1: x, y1: y, x2: (x + w) as i32, y2: (y + h) as i32 }),
    {
        Rect { x1: x, y1: y, x2: x + w, y2: y + h }
    }

    pub fn center(&self) -> (c: (i32, i32))
        requires
            i32::MIN <= self.x1 + self.x2 <= i32::MAX,
            i32::MIN <= self.y1 + self.y2 <= i32::MAX,
        ensures
            c.0 == self.spec_center().0,
            c.1 == self.spec_center().1,
    {
        ((self.x1 + self.x2) / 2, (self.y1 + self.y2) / 2)
    }

    pub fn intersects_with(&self, other: &Rect) -> (b: bool)
        ensures
            b == self.overlaps(*other),
    {
        (self.x1 <= other.x2) && (self.x2 >= other.x1) && (self.y1 <= other.y2) && (self.y2 >= other.y1)
    }
}

} // verus!
