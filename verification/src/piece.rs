//! The falling piece: its cells, and the moves that carry it as one rigid
//! unit.

use vstd::prelude::*;
use crate::coord::Coord;

verus! {

/// A colour, as red, green and blue.
#[derive(Clone, Copy, Debug, PartialEq, Eq, Structural)]
pub struct Color {
    pub r: u8,
    pub g: u8,
    pub b: u8,
}

impl Color {
    /// The colour of the parts `red`, `green` and `blue`, each a number
    /// below 256, as a draw of `generate_random_color` gives them.
    pub fn from_parts(red: u32, green: u32, blue: u32) -> (color: Color)
        requires
            red < 256,
            green < 256,
            blue < 256,
        ensures
            color.r == red,
            color.g == green,
            color.b == blue,
    {
        Color { r: red as u8, g: green as u8, b: blue as u8 }
    }
}

/// A piece: four cells with their identifiers and coordinates, in one
/// colour.
#[derive(Clone, Copy, Debug, PartialEq, Eq)]
pub struct Piece {
    pub ids: [usize; 4],
    pub cells: [Coord; 4],
    pub color: Color,
}

/// Every coordinate of `cells` is within reach.
pub open spec fn all_within_reach(cells: Seq<Coord>) -> bool {
    forall|i: int| 0 <= i < cells.len() ==> (#[trigger] cells[i]).within_reach()
}

/// Every coordinate of `cells` lies inside the playing field.
pub open spec fn all_in_bounds(cells: Seq<Coord>) -> bool {
    forall|i: int| 0 <= i < cells.len() ==> (#[trigger] cells[i]).in_bounds()
}

/// No two of `cells` are the same coordinate.
pub open spec fn all_distinct(cells: Seq<Coord>) -> bool {
    forall|i: int, j: int| 0 <= i < j < cells.len() ==> cells[i] != cells[j]
}

/// The cells moved `dx` columns to the right and `dy` rows up.
pub open spec fn translated_cells(cells: Seq<Coord>, dx: int, dy: int) -> Seq<Coord> {
    Seq::new(
        cells.len(),
        |i: int| Coord { x: (cells[i].x + dx) as i64, y: (cells[i].y + dy) as i64 },
    )
}

/// Sum of the columns of four cells.
pub open spec fn sum_x(cells: Seq<Coord>) -> int {
    cells[0].x + cells[1].x + cells[2].x + cells[3].x
}

/// Sum of the rows of four cells.
pub open spec fn sum_y(cells: Seq<Coord>) -> int {
    cells[0].y + cells[1].y + cells[2].y + cells[3].y
}

/// Magnitude of an integer.
pub open spec fn magnitude(v: int) -> int {
    if v < 0 {
        -v
    } else {
        v
    }
}

/// Four times the distance of cell `i` from the centroid of the four cells,
/// columns and rows added up.
pub open spec fn spread(cells: Seq<Coord>, i: int) -> int {
    magnitude(4 * cells[i].x - sum_x(cells)) + magnitude(4 * cells[i].y - sum_y(cells))
}

/// Cell `i` is the pivot of the four cells: none is nearer to their
/// centroid, and none that is as near stands earlier in the piece.
pub open spec fn is_pivot(cells: Seq<Coord>, i: int) -> bool {
    &&& 0 <= i < 4
    &&& forall|j: int|
        0 <= j < 4 ==> spread(cells, i) <= #[trigger] spread(cells, j) && (spread(cells, j)
            == spread(cells, i) ==> i <= j)
}

/// The number of the pivot among four cells.
pub open spec fn pivot_of(cells: Seq<Coord>) -> int {
    choose|i: int| is_pivot(cells, i)
}

/// The coordinate `c` after a quarter turn about `pivot`: what lies above
/// the pivot comes to lie on its right.
pub open spec fn turned(c: Coord, pivot: Coord) -> Coord {
    Coord { x: (c.y - pivot.y + pivot.x) as i64, y: (-(c.x - pivot.x) + pivot.y) as i64 }
}

/// The four cells after a quarter turn about their pivot.
pub open spec fn rotated_cells(cells: Seq<Coord>) -> Seq<Coord> {
    Seq::new(4, |i: int| turned(cells[i], cells[pivot_of(cells)]))
}

/// Four cells have exactly one pivot.
pub proof fn lemma_pivot_unique(cells: Seq<Coord>, i: int)
    requires
        cells.len() == 4,
        is_pivot(cells, i),
    ensures
        pivot_of(cells) == i,
{
    let p = pivot_of(cells);
    assert(is_pivot(cells, p));
    assert(spread(cells, i) <= spread(cells, p));
    assert(spread(cells, p) <= spread(cells, i));
}

/// Moves four cells `dx` columns to the right and `dy` rows up.
pub fn translate(cells: &[Coord; 4], dx: i32, dy: i32) -> (moved: [Coord; 4])
    requires
        all_within_reach(cells@),
    ensures
        moved@ == translated_cells(cells@, dx as int, dy as int),
{
    let mut moved: [Coord; 4] = *cells;
    let mut i: usize = 0;
    while i < 4
        invariant
            i <= 4,
            all_within_reach(cells@),
            moved@.len() == 4,
            cells@.len() == 4,
            forall|k: int|
                0 <= k < i ==> moved@[k] == (Coord {
                    x: (cells@[k].x + dx) as i64,
                    y: (cells@[k].y + dy) as i64,
                }),
        decreases 4 - i,
    {
        let c = cells[i];
        assert(c.within_reach());
        moved[i] = Coord { x: c.x + dx as i64, y: c.y + dy as i64 };
        i += 1;
    }
    assert(moved@ =~= translated_cells(cells@, dx as int, dy as int));
    moved
}

/// Finds the pivot of four cells: the cell nearest to their centroid, the
/// earliest of those that are equally near.
pub fn pivot_index(cells: &[Coord; 4]) -> (p: usize)
    requires
        all_within_reach(cells@),
    ensures
        is_pivot(cells@, p as int),
        p == pivot_of(cells@),
{
    assert(cells@[0].within_reach() && cells@[1].within_reach() && cells@[2].within_reach()
        && cells@[3].within_reach());
    let sx: i64 = cells[0].x + cells[1].x + cells[2].x + cells[3].x;
    let sy: i64 = cells[0].y + cells[1].y + cells[2].y + cells[3].y;
    let mut best: usize = 0;
    let mut best_spread: i64 = distance(4 * cells[0].x - sx) + distance(4 * cells[0].y - sy);
    let mut i: usize = 1;
    while i < 4
        invariant
            1 <= i <= 4,
            cells@.len() == 4,
            all_within_reach(cells@),
            sx == sum_x(cells@),
            sy == sum_y(cells@),
            best < i,
            best_spread == spread(cells@, best as int),
            forall|j: int|
                0 <= j < i ==> best_spread <= #[trigger] spread(cells@, j) && (spread(cells@, j)
                    == best_spread ==> best <= j),
        decreases 4 - i,
    {
        assert(cells@[i as int].within_reach());
        let d: i64 = distance(4 * cells[i].x - sx) + distance(4 * cells[i].y - sy);
        if d < best_spread {
            best = i;
            best_spread = d;
        }
        i += 1;
    }
    proof {
        lemma_pivot_unique(cells@, best as int);
    }
    best
}

/// Magnitude of a number that is not the least of its type.
fn distance(v: i64) -> (d: i64)
    requires
        v > i64::MIN,
    ensures
        d == magnitude(v as int),
{
    if v < 0 {
        -v
    } else {
        v
    }
}

/// Turns four cells a quarter about their pivot.
pub fn rotate(cells: &[Coord; 4]) -> (turned_cells: [Coord; 4])
    requires
        all_within_reach(cells@),
    ensures
        turned_cells@ == rotated_cells(cells@),
{
    let p = pivot_index(cells);
    let pivot = cells[p];
    assert(pivot.within_reach());
    let mut out: [Coord; 4] = *cells;
    let mut i: usize = 0;
    while i < 4
        invariant
            i <= 4,
            all_within_reach(cells@),
            pivot.within_reach(),
            out@.len() == 4,
            cells@.len() == 4,
            forall|k: int| 0 <= k < i ==> out@[k] == turned(cells@[k], pivot),
        decreases 4 - i,
    {
        let c = cells[i];
        assert(c.within_reach());
        out[i] = Coord { x: c.y - pivot.y + pivot.x, y: -(c.x - pivot.x) + pivot.y };
        i += 1;
    }
    assert(out@ =~= rotated_cells(cells@));
    out
}

/// A quarter turn leaves the pivot where it is, and the same cell is the
/// pivot afterwards.
pub proof fn lemma_rotation_keeps_pivot(cells: Seq<Coord>)
    requires
        cells.len() == 4,
        all_within_reach(cells),
    ensures
        pivot_of(rotated_cells(cells)) == pivot_of(cells),
        rotated_cells(cells)[pivot_of(cells)] == cells[pivot_of(cells)],
{
    let p = lemma_pivot_exists(cells);
    let r = rotated_cells(cells);
    assert(cells[0].within_reach() && cells[1].within_reach() && cells[2].within_reach()
        && cells[3].within_reach());
    assert(sum_x(r) == sum_y(cells) - 4 * cells[p].y + 4 * cells[p].x);
    assert(sum_y(r) == -sum_x(cells) + 4 * cells[p].x + 4 * cells[p].y);
    assert forall|j: int| 0 <= j < 4 implies #[trigger] spread(r, j) == spread(cells, j) by {
        assert(4 * r[j].x - sum_x(r) == 4 * cells[j].y - sum_y(cells));
        assert(4 * r[j].y - sum_y(r) == -(4 * cells[j].x - sum_x(cells)));
    }
    assert(is_pivot(r, p));
    lemma_pivot_unique(r, p);
}

/// Four cells have a pivot.
pub proof fn lemma_pivot_exists(cells: Seq<Coord>) -> (p: int)
    requires
        cells.len() == 4,
    ensures
        is_pivot(cells, p),
        p == pivot_of(cells),
{
    let s0 = spread(cells, 0);
    let s1 = spread(cells, 1);
    let s2 = spread(cells, 2);
    let s3 = spread(cells, 3);
    let p: int = if s0 <= s1 && s0 <= s2 && s0 <= s3 {
        0
    } else if s1 <= s2 && s1 <= s3 {
        1
    } else if s2 <= s3 {
        2
    } else {
        3
    };
    assert(is_pivot(cells, p));
    lemma_pivot_unique(cells, p);
    p
}

/// Four quarter turns bring every cell back to where it was.
pub proof fn lemma_four_rotations(cells: Seq<Coord>)
    requires
        cells.len() == 4,
        all_in_bounds(cells),
    ensures
        rotated_cells(rotated_cells(rotated_cells(rotated_cells(cells)))) == cells,
{
    let p = lemma_pivot_exists(cells);
    let pivot = cells[p];
    assert(cells[0].in_bounds() && cells[1].in_bounds() && cells[2].in_bounds()
        && cells[3].in_bounds());
    let r1 = rotated_cells(cells);
    lemma_rotation_keeps_pivot(cells);
    assert(forall|i: int| 0 <= i < 4 ==> (#[trigger] r1[i]).within_reach());
    let r2 = rotated_cells(r1);
    lemma_rotation_keeps_pivot(r1);
    assert(forall|i: int| 0 <= i < 4 ==> (#[trigger] r2[i]).within_reach());
    let r3 = rotated_cells(r2);
    lemma_rotation_keeps_pivot(r2);
    assert(forall|i: int| 0 <= i < 4 ==> (#[trigger] r3[i]).within_reach());
    let r4 = rotated_cells(r3);
    assert forall|i: int| 0 <= i < 4 implies r4[i] == cells[i] by {
        assert(r1[i] == turned(cells[i], pivot));
        assert(r2[i] == turned(r1[i], pivot));
        assert(r3[i] == turned(r2[i], pivot));
        assert(r4[i] == turned(r3[i], pivot));
    }
    assert(r4 =~= cells);
}

/// A quarter turn of distinct cells gives distinct cells.
pub proof fn lemma_rotation_distinct(cells: Seq<Coord>)
    requires
        cells.len() == 4,
        all_within_reach(cells),
        all_distinct(cells),
    ensures
        all_distinct(rotated_cells(cells)),
{
    let p = lemma_pivot_exists(cells);
    let r = rotated_cells(cells);
    assert(cells[0].within_reach() && cells[1].within_reach() && cells[2].within_reach()
        && cells[3].within_reach());
    assert forall|i: int, j: int| 0 <= i < j < 4 implies r[i] != r[j] by {
        assert(cells[i] != cells[j]);
    }
}

} // verus!
