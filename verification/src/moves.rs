//! The moves of a piece, planned against the grid before anything is
//! changed: where the four cells are to stand, or what blocks them.

use vstd::prelude::*;
use crate::collider::{
    Collision, Side, boundary_side, cell_blocked, collision_of, hits, is_first_hit,
    lemma_no_collision, wall_of,
};
use crate::coord::Coord;
use crate::grid::Grid;
use crate::piece::{
    all_distinct, all_in_bounds, all_within_reach, pivot_index, pivot_of, rotate, rotated_cells,
    translate, translated_cells,
};

verus! {

/// The plan of moving the cells `dx` columns to the right and `dy` rows up:
/// the places they come to stand at, or the collision that forbids it.
pub open spec fn translation_plan(cells: Seq<Coord>, dx: int, dy: int, slots: Seq<Option<usize>>)
    -> Result<Seq<Coord>, Collision> {
    let target = translated_cells(cells, dx, dy);
    match collision_of(cells, target, slots) {
        Some(c) => Err(c),
        None => Ok(target),
    }
}

/// The plan of turning the cells a quarter about their pivot: the places
/// they come to stand at, or the collision that forbids it. A pivot outside
/// the field forbids the turn as the wall that it lies behind.
pub open spec fn rotation_plan(cells: Seq<Coord>, slots: Seq<Option<usize>>) -> Result<
    Seq<Coord>,
    Collision,
> {
    let pivot = cells[pivot_of(cells)];
    match boundary_side(pivot) {
        Some(side) => Err(Collision { side, blocking_coord: pivot }),
        None => {
            let target = rotated_cells(cells);
            match collision_of(cells, target, slots) {
                Some(c) => Err(c),
                None => Ok(target),
            }
        },
    }
}

/// The cells `made` are those of the plan `plan`, or the collision is.
pub open spec fn carries_out(made: Result<[Coord; 4], Collision>, plan: Result<Seq<Coord>, Collision>)
    -> bool {
    match made {
        Ok(cells) => plan == Ok::<Seq<Coord>, Collision>(cells@),
        Err(c) => plan == Err::<Seq<Coord>, Collision>(c),
    }
}

/// Where a plan lets the cells move, they stand free: inside the field, on
/// empty slots, so that the collision test of the piece at its new place
/// reports nothing.
pub proof fn lemma_planned_place_is_free(
    cells: Seq<Coord>,
    target: Seq<Coord>,
    slots: Seq<Option<usize>>,
)
    requires
        cells.len() == 4,
        target.len() == 4,
        collision_of(cells, target, slots).is_none(),
    ensures
        all_in_bounds(target),
        forall|i: int| 0 <= i < 4 ==> slots[(#[trigger] target[i]).slot()].is_none(),
        collision_of(target, target, slots).is_none(),
{
    lemma_no_collision(cells, target, slots);
    assert forall|i: int| 0 <= i < 4 implies (#[trigger] target[i]).in_bounds()
        && slots[target[i].slot()].is_none() && cell_blocked(target[i], target[i], slots).is_none() by {
        assert(cell_blocked(cells[i], target[i], slots).is_none());
    }
    lemma_no_collision(target, target, slots);
}

/// A piece that stands inside the field and is to come down one row is
/// blocked, if at all, from below.
pub proof fn lemma_blocked_from_below(cells: Seq<Coord>, slots: Seq<Option<usize>>)
    requires
        cells.len() == 4,
        all_in_bounds(cells),
    ensures
        translation_plan(cells, 0, -1, slots) matches Err(c) ==> c.side == Side::Bottom,
{
    let to = translated_cells(cells, 0, -1);
    if collision_of(cells, to, slots).is_some() {
        let i = choose|i: int| is_first_hit(cells, to, slots, i);
        assert(hits(cells, to, slots, i));
        assert(cells[i].in_bounds());
    }
}

/// Moving distinct cells by the same step gives distinct cells.
pub proof fn lemma_translation_distinct(cells: Seq<Coord>, dx: int, dy: int)
    requires
        cells.len() == 4,
        all_within_reach(cells),
        -0x8000_0000 <= dx <= 0x7fff_ffff,
        -0x8000_0000 <= dy <= 0x7fff_ffff,
        all_distinct(cells),
    ensures
        all_distinct(translated_cells(cells, dx, dy)),
{
    let t = translated_cells(cells, dx, dy);
    assert forall|i: int, j: int| 0 <= i < j < 4 implies t[i] != t[j] by {
        assert(cells[i] != cells[j]);
        assert(cells[i].within_reach() && cells[j].within_reach());
    }
}

/// Plans the move of the cells `dx` columns to the right and `dy` rows up.
/// Nothing is changed.
pub fn plan_translation(cells: &[Coord; 4], dx: i32, dy: i32, grid: &Grid) -> (made: Result<
    [Coord; 4],
    Collision,
>)
    requires
        grid.wf(),
        all_within_reach(cells@),
    ensures
        carries_out(made, translation_plan(cells@, dx as int, dy as int, grid@)),
{
    let target = translate(cells, dx, dy);
    match crate::collider::test(cells, &target, grid) {
        Some(c) => Err(c),
        None => Ok(target),
    }
}

/// Plans the quarter turn of the cells about their pivot, the cell nearest
/// to their centroid. Nothing is changed.
pub fn plan_rotation(cells: &[Coord; 4], grid: &Grid) -> (made: Result<[Coord; 4], Collision>)
    requires
        grid.wf(),
        all_within_reach(cells@),
    ensures
        carries_out(made, rotation_plan(cells@, grid@)),
{
    let pivot = cells[pivot_index(cells)];
    match wall_of(pivot) {
        Some(side) => Err(Collision { side, blocking_coord: pivot }),
        None => {
            let target = rotate(cells);
            match crate::collider::test(cells, &target, grid) {
                Some(c) => Err(c),
                None => Ok(target),
            }
        },
    }
}

} // verus!
