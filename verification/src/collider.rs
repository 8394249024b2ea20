//! Collision test of a piece against the walls and the settled cells.

use vstd::prelude::*;
use crate::coord::{Coord, WIDTH, HEIGHT};
use crate::grid::Grid;

verus! {

/// The side on which a piece is blocked.
#[derive(Clone, Copy, Debug, PartialEq, Eq, Structural)]
pub enum Side {
    Left,
    Right,
    Top,
    Bottom,
    Inside,
}

/// A detected collision: the blocked coordinate and the side it lies on.
#[derive(Clone, Copy, Debug, PartialEq, Eq, Structural)]
pub struct Collision {
    pub side: Side,
    pub blocking_coord: Coord,
}

/// The wall that a coordinate outside the field lies behind. A coordinate
/// beyond a side wall counts for that wall, whatever its row.
pub open spec fn boundary_side(to: Coord) -> Option<Side> {
    if to.x < 0 {
        Some(Side::Left)
    } else if to.x >= WIDTH {
        Some(Side::Right)
    } else if to.y < 0 {
        Some(Side::Bottom)
    } else if to.y >= HEIGHT {
        Some(Side::Top)
    } else {
        None
    }
}

/// Where the coordinate `to` lies as seen from `from`, the place of the cell
/// that is to move there: sideways before up or down, and `Inside` when the
/// two are the same place.
pub open spec fn approach_side(from: Coord, to: Coord) -> Side {
    if to.x < from.x {
        Side::Left
    } else if to.x > from.x {
        Side::Right
    } else if to.y < from.y {
        Side::Bottom
    } else if to.y > from.y {
        Side::Top
    } else {
        Side::Inside
    }
}

/// The side on which a cell that stands at `from` is blocked from standing at
/// `to`: by a wall, or else by an occupied slot of the table `slots`.
pub open spec fn cell_blocked(from: Coord, to: Coord, slots: Seq<Option<usize>>) -> Option<Side> {
    match boundary_side(to) {
        Some(side) => Some(side),
        None => if slots[to.slot()].is_some() {
            Some(approach_side(from, to))
        } else {
            None
        },
    }
}

/// `a` comes before `b` in the order of the test: lower rows first, and in a
/// row the lower columns first.
pub open spec fn comes_before(a: Coord, b: Coord) -> bool {
    a.y < b.y || (a.y == b.y && a.x < b.x)
}

/// Cell `i` of the piece is blocked.
pub open spec fn hits(from: Seq<Coord>, to: Seq<Coord>, slots: Seq<Option<usize>>, i: int) -> bool {
    0 <= i < to.len() && cell_blocked(from[i], to[i], slots).is_some()
}

/// Cell `i` is blocked, and no blocked cell comes before it, by coordinate
/// or, at the same coordinate, by its place in the piece.
pub open spec fn is_first_hit(
    from: Seq<Coord>,
    to: Seq<Coord>,
    slots: Seq<Option<usize>>,
    i: int,
) -> bool {
    &&& hits(from, to, slots, i)
    &&& forall|j: int| #[trigger]
        hits(from, to, slots, j) ==> !comes_before(to[j], to[i]) && (to[j] == to[i] ==> i <= j)
}

/// The collision that the test reports for a piece whose cells stand at
/// `from` and are to stand at `to`: that of the first blocked cell, if any.
pub open spec fn collision_of(from: Seq<Coord>, to: Seq<Coord>, slots: Seq<Option<usize>>)
    -> Option<Collision> {
    if exists|i: int| is_first_hit(from, to, slots, i) {
        let i = choose|i: int| is_first_hit(from, to, slots, i);
        Some(Collision { side: cell_blocked(from[i], to[i], slots)->0, blocking_coord: to[i] })
    } else {
        None
    }
}

/// There is at most one first blocked cell.
pub proof fn lemma_first_hit_unique(
    from: Seq<Coord>,
    to: Seq<Coord>,
    slots: Seq<Option<usize>>,
    i: int,
    j: int,
)
    requires
        is_first_hit(from, to, slots, i),
        is_first_hit(from, to, slots, j),
    ensures
        i == j,
{
    assert(hits(from, to, slots, i));
    assert(hits(from, to, slots, j));
}

/// The test reports nothing exactly when no cell is blocked.
pub proof fn lemma_no_collision(from: Seq<Coord>, to: Seq<Coord>, slots: Seq<Option<usize>>)
    requires
        from.len() == to.len(),
    ensures
        collision_of(from, to, slots).is_none() <==> forall|i: int|
            0 <= i < to.len() ==> cell_blocked(#[trigger] from[i], to[i], slots).is_none(),
{
    if exists|i: int| 0 <= i < to.len() && cell_blocked(from[i], to[i], slots).is_some() {
        let k = choose|i: int| 0 <= i < to.len() && cell_blocked(from[i], to[i], slots).is_some();
        let i = lemma_first_hit_exists(from, to, slots, to.len() as int, k);
        assert(is_first_hit(from, to, slots, i));
    } else {
        assert forall|i: int| !is_first_hit(from, to, slots, i) by {
            if hits(from, to, slots, i) {
                assert(cell_blocked(from[i], to[i], slots).is_some());
            }
        }
    }
}

/// Among the first `n` cells, if cell `k` is blocked then one of them is
/// blocked with no blocked cell among them before it.
proof fn lemma_first_hit_exists(
    from: Seq<Coord>,
    to: Seq<Coord>,
    slots: Seq<Option<usize>>,
    n: int,
    k: int,
) -> (i: int)
    requires
        0 <= k < n <= to.len(),
        hits(from, to, slots, k),
    ensures
        is_first_hit_among(from, to, slots, n, i),
    decreases n,
{
    let l = n - 1;
    if exists|m: int| 0 <= m < l && hits(from, to, slots, m) {
        let m = choose|m: int| 0 <= m < l && hits(from, to, slots, m);
        let p = lemma_first_hit_exists(from, to, slots, l, m);
        if hits(from, to, slots, l) && comes_before(to[l], to[p]) {
            l
        } else {
            p
        }
    } else {
        k
    }
}

/// Cell `i` is among the first `n`, is blocked, and no blocked cell among
/// the first `n` comes before it.
pub open spec fn is_first_hit_among(
    from: Seq<Coord>,
    to: Seq<Coord>,
    slots: Seq<Option<usize>>,
    n: int,
    i: int,
) -> bool {
    &&& 0 <= i < n
    &&& hits(from, to, slots, i)
    &&& forall|j: int|
        j < n && #[trigger] hits(from, to, slots, j) ==> !comes_before(to[j], to[i]) && (to[j]
            == to[i] ==> i <= j)
}

/// Sorts a coordinate outside the field to its wall.
pub fn wall_of(to: Coord) -> (side: Option<Side>)
    ensures
        side == boundary_side(to),
{
    if to.x < 0 {
        Some(Side::Left)
    } else if to.x >= WIDTH as i64 {
        Some(Side::Right)
    } else if to.y < 0 {
        Some(Side::Bottom)
    } else if to.y >= HEIGHT as i64 {
        Some(Side::Top)
    } else {
        None
    }
}

/// Tells where `to` lies as seen from `from`.
fn side_from(from: Coord, to: Coord) -> (side: Side)
    ensures
        side == approach_side(from, to),
{
    if to.x < from.x {
        Side::Left
    } else if to.x > from.x {
        Side::Right
    } else if to.y < from.y {
        Side::Bottom
    } else if to.y > from.y {
        Side::Top
    } else {
        Side::Inside
    }
}

/// Tests one cell against the walls and the grid.
pub fn test_cell(from: Coord, to: Coord, grid: &Grid) -> (side: Option<Side>)
    requires
        grid.wf(),
    ensures
        side == cell_blocked(from, to, grid@),
{
    match wall_of(to) {
        Some(side) => Some(side),
        None => {
            if grid.occupied(to).is_some() {
                Some(side_from(from, to))
            } else {
                None
            }
        },
    }
}

/// Tests whether a piece whose cells stand at `from` can stand at `to`.
///
/// Each cell is held against the walls first and the grid second. Of the
/// blocked cells the one lowest in the field, and among those of one row the
/// leftmost, is reported, with the side on which it is blocked: the wall, or
/// the direction in which the occupied slot lies from where that cell stands.
/// The grid is only read.
pub fn test(from: &[Coord; 4], to: &[Coord; 4], grid: &Grid) -> (r: Option<Collision>)
    requires
        grid.wf(),
    ensures
        r == collision_of(from@, to@, grid@),
{
    let mut best: Option<Collision> = None;
    let ghost mut best_index: int = -1;
    let mut i: usize = 0;
    while i < 4
        invariant
            grid.wf(),
            i <= 4,
            from@.len() == 4,
            to@.len() == 4,
            best.is_none() ==> forall|j: int| 0 <= j < i ==> !hits(from@, to@, grid@, j),
            best.is_some() ==> is_first_hit_among(from@, to@, grid@, i as int, best_index)
                && best == Some(
                Collision {
                    side: cell_blocked(from@[best_index], to@[best_index], grid@)->0,
                    blocking_coord: to@[best_index],
                },
            ),
        decreases 4 - i,
    {
        match test_cell(from[i], to[i], grid) {
            Some(side) => {
                let earlier = match best {
                    Some(b) => b.blocking_coord.y < to[i].y || (b.blocking_coord.y == to[i].y
                        && b.blocking_coord.x <= to[i].x),
                    None => false,
                };
                if !earlier {
                    best = Some(Collision { side, blocking_coord: to[i] });
                    proof {
                        best_index = i as int;
                    }
                }
            },
            None => {},
        }
        i += 1;
    }
    proof {
        if best.is_some() {
            assert(is_first_hit(from@, to@, grid@, best_index));
            let k = choose|k: int| is_first_hit(from@, to@, grid@, k);
            lemma_first_hit_unique(from@, to@, grid@, k, best_index);
        } else {
            assert forall|k: int| !is_first_hit(from@, to@, grid@, k) by {}
        }
    }
    best
}

} // verus!
