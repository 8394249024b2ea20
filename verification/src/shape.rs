//! The catalog of piece shapes.

use vstd::prelude::*;
use crate::coord::Coord;

verus! {

/// The shapes a piece can have. Each is four cells, given by their offsets
/// from an anchor at the upper left corner of the shape's bounding box.
#[derive(Clone, Copy, Debug, PartialEq, Eq, Structural)]
pub enum ShapeTypes {
    /// Two by two.
    Square,
    /// Four in a row.
    Line,
    /// Three in a row with one on top of the middle.
    SquareTop,
    /// Two in a row, and two more one row lower and one column further right.
    Zigzag,
    /// Three in a row with one on top of the right end.
    LShape,
}

/// Number of shapes in the catalog.
pub const SHAPE_COUNT: u32 = 5;

impl ShapeTypes {
    /// Offset of cell `i` of the shape from its anchor, as columns to the
    /// right and rows up.
    pub open spec fn offset(self, i: int) -> (int, int) {
        match self {
            ShapeTypes::Square => if i == 0 {
                (0, 0)
            } else if i == 1 {
                (1, 0)
            } else if i == 2 {
                (0, -1)
            } else {
                (1, -1)
            },
            ShapeTypes::Line => if i == 0 {
                (0, 0)
            } else if i == 1 {
                (1, 0)
            } else if i == 2 {
                (2, 0)
            } else {
                (3, 0)
            },
            ShapeTypes::SquareTop => if i == 0 {
                (0, -1)
            } else if i == 1 {
                (1, -1)
            } else if i == 2 {
                (2, -1)
            } else {
                (1, 0)
            },
            ShapeTypes::Zigzag => if i == 0 {
                (0, 0)
            } else if i == 1 {
                (1, 0)
            } else if i == 2 {
                (1, -1)
            } else {
                (2, -1)
            },
            ShapeTypes::LShape => if i == 0 {
                (0, -1)
            } else if i == 1 {
                (1, -1)
            } else if i == 2 {
                (2, -1)
            } else {
                (2, 0)
            },
        }
    }

    /// The four cells of the shape with its anchor at column `x`, row `y`.
    pub open spec fn cells_at(self, x: int, y: int) -> Seq<Coord> {
        Seq::new(
            4,
            |i: int| Coord { x: (x + self.offset(i).0) as i64, y: (y + self.offset(i).1) as i64 },
        )
    }

    /// The shape with number `index` in the catalog.
    pub open spec fn of_index(index: int) -> ShapeTypes {
        if index == 0 {
            ShapeTypes::Square
        } else if index == 1 {
            ShapeTypes::Line
        } else if index == 2 {
            ShapeTypes::SquareTop
        } else if index == 3 {
            ShapeTypes::Zigzag
        } else {
            ShapeTypes::LShape
        }
    }

    /// The shape with number `index` in the catalog. Drawing `index` evenly
    /// from the numbers below `SHAPE_COUNT` draws evenly from the shapes.
    pub fn from_index(index: u32) -> (shape: ShapeTypes)
        requires
            index < SHAPE_COUNT,
        ensures
            shape == ShapeTypes::of_index(index as int),
    {
        if index == 0 {
            ShapeTypes::Square
        } else if index == 1 {
            ShapeTypes::Line
        } else if index == 2 {
            ShapeTypes::SquareTop
        } else if index == 3 {
            ShapeTypes::Zigzag
        } else {
            ShapeTypes::LShape
        }
    }

    /// The four cells of the shape with its anchor at column `x`, row `y`.
    pub fn build(self, x: i32, y: i32) -> (cells: [Coord; 4])
        ensures
            cells@ == self.cells_at(x as int, y as int),
    {
        let x: i64 = x as i64;
        let y: i64 = y as i64;
        let cells = match self {
            ShapeTypes::Square => [
                Coord { x, y },
                Coord { x: x + 1, y },
                Coord { x, y: y - 1 },
                Coord { x: x + 1, y: y - 1 },
            ],
            ShapeTypes::Line => [
                Coord { x, y },
                Coord { x: x + 1, y },
                Coord { x: x + 2, y },
                Coord { x: x + 3, y },
            ],
            ShapeTypes::SquareTop => [
                Coord { x, y: y - 1 },
                Coord { x: x + 1, y: y - 1 },
                Coord { x: x + 2, y: y - 1 },
                Coord { x: x + 1, y },
            ],
            ShapeTypes::Zigzag => [
                Coord { x, y },
                Coord { x: x + 1, y },
                Coord { x: x + 1, y: y - 1 },
                Coord { x: x + 2, y: y - 1 },
            ],
            ShapeTypes::LShape => [
                Coord { x, y: y - 1 },
                Coord { x: x + 1, y: y - 1 },
                Coord { x: x + 2, y: y - 1 },
                Coord { x: x + 2, y },
            ],
        };
        assert(cells@ =~= self.cells_at(x as int, y as int));
        cells
    }
}

/// Distinct numbers below `SHAPE_COUNT` stand for distinct shapes, and every
/// shape has such a number.
pub proof fn lemma_shape_numbering(shape: ShapeTypes)
    ensures
        exists|i: int| 0 <= i < SHAPE_COUNT && #[trigger] ShapeTypes::of_index(i) == shape,
        forall|i: int, j: int|
            0 <= i < SHAPE_COUNT && 0 <= j < SHAPE_COUNT && i != j
                ==> #[trigger] ShapeTypes::of_index(i) != #[trigger] ShapeTypes::of_index(j),
{
    match shape {
        ShapeTypes::Square => assert(ShapeTypes::of_index(0) == shape),
        ShapeTypes::Line => assert(ShapeTypes::of_index(1) == shape),
        ShapeTypes::SquareTop => assert(ShapeTypes::of_index(2) == shape),
        ShapeTypes::Zigzag => assert(ShapeTypes::of_index(3) == shape),
        ShapeTypes::LShape => assert(ShapeTypes::of_index(4) == shape),
    }
}

} // verus!
