//! Axis-aligned rectangles in picture coordinates (origin at the top left).

use vstd::prelude::*;

verus! {

/// A rectangle `width` pixels wide and `height` pixels high whose top left
/// corner is at (`x`, `y`).
#[derive(Debug, Clone, Copy, PartialEq, Eq, Structural)]
pub struct Rect {
    pub x: u32,
    pub y: u32,
    pub width: u32,
    pub height: u32,
}

impl Rect {
    /// The column just past the right edge.
    pub open spec fn right(self) -> int {
        self.x + self.width
    }

    /// The row just past the bottom edge.
    pub open spec fn bottom(self) -> int {
        self.y + self.height
    }

    /// Whether the pixel at (`x`, `y`) lies inside the rectangle.
    pub open spec fn contains(self, x: int, y: int) -> bool {
        self.x <= x < self.right() && self.y <= y < self.bottom()
    }

    /// Whether the rectangle lies inside a picture of the given size.
    pub open spec fn fits_within(self, width: int, height: int) -> bool {
        self.right() <= width && self.bottom() <= height
    }
}

} // verus!
