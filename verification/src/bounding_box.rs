use crate::position::Position;
use vstd::prelude::*;

verus! {

/// An axis-aligned box, given by two opposite corners.
#[derive(Clone, PartialEq, Eq, Debug, Copy, Structural)]
pub struct BoundingBox {
    /// Top left corner.
    pub top_left: Position,
    /// Bottom right corner.
    pub bottom_right: Position,
}

/// Half of `n`, rounded towards zero.
pub open spec fn half(n: int) -> int {
    if n >= 0 {
        n / 2
    } else {
        -((-n) / 2)
    }
}

impl BoundingBox {
    /// The top left corner is not to the right of, nor below, the bottom
    /// right corner.
    pub open spec fn wf(&self) -> bool {
        self.top_left.x <= self.bottom_right.x && self.top_left.y <= self.bottom_right.y
    }

    /// Distance between the top and the bottom edge.
    pub fn height(&self) -> (h: i32)
        requires
            i32::MIN <= self.bottom_right.y - self.top_left.y <= i32::MAX,
        ensures
            h == self.bottom_right.y - self.top_left.y,
            self.wf() ==> h >= 0,
    {
        self.bottom_right.y - self.top_left.y
    }

    /// Distance between the left and the right edge.
    pub fn width(&self) -> (w: i32)
        requires
            i32::MIN <= self.bottom_right.x - self.top_left.x <= i32::MAX,
        ensures
            w == self.bottom_right.x - self.top_left.x,
            self.wf() ==> w >= 0,
    {
        self.bottom_right.x - self.top_left.x
    }

    /// The point midway between the two corners, each coordinate rounded
    /// towards zero.
    pub fn centre(&self) -> (c: Position)
        requires
            i32::MIN <= self.top_left.x + self.bottom_right.x <= i32::MAX,
            i32::MIN <= self.top_left.y + self.bottom_right.y <= i32::MAX,
        ensures
            c.x == half(self.top_left.x + self.bottom_right.x),
            c.y == half(self.top_left.y + self.bottom_right.y),
            self.wf() ==> self.top_left.x <= c.x <= self.bottom_right.x && self.top_left.y <= c.y
                <= self.bottom_right.y,
    {
        let x = (self.top_left.x + self.bottom_right.x) / 2;
        let y = (self.top_left.y + self.bottom_right.y) / 2;
        Position { x, y }
    }
}

} // verus!
