//! The geometry primitive: an axis-aligned sub-region of the canvas.

use vstd::prelude::*;

verus! {

/// An axis-aligned rectangular region of the canvas, given by its top-left
/// origin `(x, y)` and its extents `(width, height)`, all in pixels.
/// A rectangle with either extent equal to 0 is degenerate: it has zero area
/// and covers no pixel.
#[derive(Debug, Clone, Copy, PartialEq, Eq, Structural)]
pub struct Rectangle {
    pub x: u32,
    pub y: u32,
    pub width: u32,
    pub height: u32,
}

impl Rectangle {
    /// True iff a target of the given width and height fits inside this
    /// rectangle. A zero extent of the target is trivially accepted.
    pub open spec fn spec_can_fit(self, w: u32, h: u32) -> bool {
        w <= self.width && h <= self.height
    }

    /// True iff the pixel column `i`, row `j` lies inside this rectangle.
    pub open spec fn covers(self, i: int, j: int) -> bool {
        &&& self.x <= i < self.x + self.width
        &&& self.y <= j < self.y + self.height
    }

    /// The far edges of the rectangle can be named without wrapping around
    /// the coordinate type.
    pub open spec fn in_bounds(self) -> bool {
        &&& self.x + self.width <= u32::MAX
        &&& self.y + self.height <= u32::MAX
    }

    pub fn new(x: u32, y: u32, width: u32, height: u32) -> (r: Rectangle)
        ensures
            r == (Rectangle { x, y, width, height }),
    {
        Rectangle { x, y, width, height }
    }

    /// Indicates whether the given width and height
    /// will fit inside this rectangle.
    pub fn can_fit(&self, size: &(u32, u32)) -> (r: bool)
        ensures
            r == self.spec_can_fit(size.0, size.1),
    {
        size.0 <= self.width && size.1 <= self.height
    }
}

} // verus!
