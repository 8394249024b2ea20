//! Cell coordinates and the bounds of the playing field.

use vstd::prelude::*;

verus! {

/// Number of columns of the playing field.
pub const WIDTH: usize = 11;

/// Number of rows of the playing field.
pub const HEIGHT: usize = 22;

/// Number of slots of the playing field.
pub const SLOTS: usize = 242;

/// Largest magnitude of a column or row that the moves of a piece accept, so
/// that no sum of coordinates leaves the range of the machine integers.
pub const REACH: i64 = 0x1000_0000_0000;

/// A cell coordinate: `x` is the column, counted from the left wall, and `y`
/// is the row, counted from the floor. A coordinate may lie outside the field.
#[derive(Clone, Copy, Debug, PartialEq, Eq, Structural)]
pub struct Coord {
    pub x: i64,
    pub y: i64,
}

impl Coord {
    /// The coordinate lies inside the playing field.
    pub open spec fn in_bounds(self) -> bool {
        0 <= self.x < WIDTH && 0 <= self.y < HEIGHT
    }

    /// Position of an in-bounds coordinate in a row-major table of the field.
    pub open spec fn slot(self) -> int {
        self.y * WIDTH + self.x
    }

    /// Column and row are at most `REACH` in magnitude.
    pub open spec fn within_reach(self) -> bool {
        -REACH <= self.x <= REACH && -REACH <= self.y <= REACH
    }

    /// The coordinate of column `x` and row `y`.
    pub fn new(x: i64, y: i64) -> (c: Coord)
        ensures
            c == (Coord { x, y }),
    {
        Coord { x, y }
    }

    /// Position of the coordinate in a row-major table of the field.
    pub fn slot_index(&self) -> (i: usize)
        requires
            self.in_bounds(),
        ensures
            i == self.slot(),
            i < SLOTS,
    {
        let row: usize = self.y as usize;
        let col: usize = self.x as usize;
        row * WIDTH + col
    }

    /// Tells whether the coordinate lies inside the playing field.
    pub fn is_in_bounds(&self) -> (b: bool)
        ensures
            b == self.in_bounds(),
    {
        0 <= self.x && self.x < WIDTH as i64 && 0 <= self.y && self.y < HEIGHT as i64
    }
}

} // verus!
