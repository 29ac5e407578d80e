//! Points and half-open rectangles in database units.

use vstd::prelude::*;

use crate::cells::Cells;

verus! {

/// A vertex of an outline.
#[derive(Debug, Clone, Copy, PartialEq, Eq, Structural)]
pub struct Point {
    pub x: i32,
    pub y: i32,
}

/// The unit cells with `x0 <= x < x1` and `y0 <= y < y1`.
#[derive(Debug, Clone, Copy, PartialEq, Eq, Structural)]
pub struct Rect {
    pub x0: i32,
    pub y0: i32,
    pub x1: i32,
    pub y1: i32,
}

impl Rect {
    /// Whether the unit cell at `p` lies in the rectangle.
    pub open spec fn covers(self, p: (int, int)) -> bool {
        self.x0 <= p.0 < self.x1 && self.y0 <= p.1 < self.y1
    }

    /// The cells of the rectangle.
    pub open spec fn cells(self) -> Cells {
        Set::new(|p: (int, int)| self.covers(p))
    }

    /// Whether the rectangle holds no cell.
    pub open spec fn empty(self) -> bool {
        self.x0 >= self.x1 || self.y0 >= self.y1
    }

    pub fn new(x0: i32, y0: i32, x1: i32, y1: i32) -> (r: Rect)
        ensures
            r == (Rect { x0, y0, x1, y1 }),
    {
        Rect { x0, y0, x1, y1 }
    }

    pub fn width(&self) -> (w: i32)
        requires
            i32::MIN <= self.x1 - self.x0 <= i32::MAX,
        ensures
            w == self.x1 - self.x0,
    {
        self.x1 - self.x0
    }

    pub fn height(&self) -> (h: i32)
        requires
            i32::MIN <= self.y1 - self.y0 <= i32::MAX,
        ensures
            h == self.y1 - self.y0,
    {
        self.y1 - self.y0
    }

    pub fn is_empty(&self) -> (b: bool)
        ensures
            b == self.empty(),
            b == (self.cells() =~= Set::<(int, int)>::empty()),
    {
        let b = self.x0 >= self.x1 || self.y0 >= self.y1;
        proof {
            if !b {
                assert(self.cells().contains((self.x0 as int, self.y0 as int)));
            }
        }
        b
    }
}

} // verus!
