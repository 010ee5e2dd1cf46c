//! The rectangle and cell-position value types.

use vstd::prelude::*;

verus! {

/// An immutable axis-aligned rectangle on the `u16` grid, given by its origin
/// and its extents. A width or height of zero is valid and denotes an empty
/// iteration domain.
#[derive(Clone, Copy, Debug, PartialEq, Eq, Structural)]
pub struct Rect {
    /// The x coordinate of the top-left corner.
    pub x: u16,
    /// The y coordinate of the top-left corner.
    pub y: u16,
    /// The width of the rectangle.
    pub width: u16,
    /// The height of the rectangle.
    pub height: u16,
}

/// `a - b`, clamped at zero: the meaning of a saturating subtraction.
pub open spec fn sat_sub(a: int, b: int) -> int {
    if a >= b {
        a - b
    } else {
        0
    }
}

/// A single cell position on the `u16` grid.
#[derive(Clone, Copy, Debug, PartialEq, Eq, Structural)]
pub struct Position {
    /// The x coordinate of the cell.
    pub x: u16,
    /// The y coordinate of the cell.
    pub y: u16,
}

impl Rect {
    /// The exclusive right edge, saturating at the largest `u16`.
    pub open spec fn spec_right(self) -> int {
        if self.x + self.width <= u16::MAX {
            self.x + self.width
        } else {
            u16::MAX as int
        }
    }

    /// The exclusive bottom edge, saturating at the largest `u16`.
    pub open spec fn spec_bottom(self) -> int {
        if self.y + self.height <= u16::MAX {
            self.y + self.height
        } else {
            u16::MAX as int
        }
    }

    /// Whether the cell at `(px, py)` lies inside the rectangle.
    pub open spec fn spec_contains(self, px: int, py: int) -> bool {
        &&& self.x <= px < self.spec_right()
        &&& self.y <= py < self.spec_bottom()
    }

    /// Creates a new rectangle from its origin and extents.
    pub fn new(x: u16, y: u16, width: u16, height: u16) -> (rect: Rect)
        ensures
            rect.x == x,
            rect.y == y,
            rect.width == width,
            rect.height == height,
    {
        Rect { x, y, width, height }
    }

    /// The exclusive right edge, saturating at the largest `u16`.
    pub fn right(&self) -> (r: u16)
        ensures
            r == self.spec_right(),
    {
        self.x.saturating_add(self.width)
    }

    /// The exclusive bottom edge, saturating at the largest `u16`.
    pub fn bottom(&self) -> (b: u16)
        ensures
            b == self.spec_bottom(),
    {
        self.y.saturating_add(self.height)
    }
}

impl Position {
    /// Creates a new position from its coordinates.
    pub fn new(x: u16, y: u16) -> (pos: Position)
        ensures
            pos.x == x,
            pos.y == y,
    {
        Position { x, y }
    }
}

} // verus!
