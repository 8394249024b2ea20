use tetris::collider::{Collision, Side};
use tetris::coord::Coord;
use tetris::grid::Grid;
use tetris::moves::{plan_rotation, plan_translation};
use tetris::piece::{pivot_index, rotate, translate, Color};
use tetris::shape::{ShapeTypes, SHAPE_COUNT};
use tetris::simulation::{SPAWN_X, SPAWN_Y};

fn at(x: i64, y: i64) -> Coord {
    Coord { x, y }
}

#[test]
fn each_shape_is_built_from_its_offsets() {
    assert_eq!(ShapeTypes::Square.build(0, 0), [at(0, 0), at(1, 0), at(0, -1), at(1, -1)]);
    assert_eq!(ShapeTypes::Line.build(0, 0), [at(0, 0), at(1, 0), at(2, 0), at(3, 0)]);
    assert_eq!(ShapeTypes::SquareTop.build(0, 0), [at(0, -1), at(1, -1), at(2, -1), at(1, 0)]);
    assert_eq!(ShapeTypes::Zigzag.build(0, 0), [at(0, 0), at(1, 0), at(1, -1), at(2, -1)]);
    assert_eq!(ShapeTypes::LShape.build(0, 0), [at(0, -1), at(1, -1), at(2, -1), at(2, 0)]);
}

#[test]
fn a_shape_is_built_at_its_anchor() {
    assert_eq!(
        ShapeTypes::Zigzag.build(4, 21),
        [at(4, 21), at(5, 21), at(5, 20), at(6, 20)]
    );
    assert_eq!(
        ShapeTypes::LShape.build(-3, 7),
        [at(-3, 6), at(-2, 6), at(-1, 6), at(-1, 7)]
    );
    assert_eq!(
        ShapeTypes::Line.build(i32::MAX, i32::MIN),
        [
            at(2147483647, -2147483648),
            at(2147483648, -2147483648),
            at(2147483649, -2147483648),
            at(2147483650, -2147483648)
        ]
    );
    assert_eq!(
        ShapeTypes::Square.build(i32::MIN, i32::MIN),
        [
            at(-2147483648, -2147483648),
            at(-2147483647, -2147483648),
            at(-2147483648, -2147483649),
            at(-2147483647, -2147483649)
        ]
    );
}

#[test]
fn every_shape_fits_the_field_at_the_spawn_anchor() {
    assert_eq!((SPAWN_X, SPAWN_Y), (4, 21));
    for index in 0..SHAPE_COUNT {
        let cells = ShapeTypes::from_index(index).build(SPAWN_X, SPAWN_Y);
        for (i, c) in cells.iter().enumerate() {
            assert!(c.is_in_bounds());
            assert!(c.y >= 20);
            for d in &cells[i + 1..] {
                assert_ne!(c, d);
            }
        }
    }
}

#[test]
fn the_shapes_are_numbered_from_zero() {
    assert_eq!(SHAPE_COUNT, 5);
    assert_eq!(ShapeTypes::from_index(0), ShapeTypes::Square);
    assert_eq!(ShapeTypes::from_index(1), ShapeTypes::Line);
    assert_eq!(ShapeTypes::from_index(2), ShapeTypes::SquareTop);
    assert_eq!(ShapeTypes::from_index(3), ShapeTypes::Zigzag);
    assert_eq!(ShapeTypes::from_index(4), ShapeTypes::LShape);
}

#[test]
fn translate_moves_every_cell_by_the_same_step() {
    let cells = [at(4, 21), at(5, 21), at(5, 20), at(6, 20)];
    assert_eq!(translate(&cells, -1, 0), [at(3, 21), at(4, 21), at(4, 20), at(5, 20)]);
    assert_eq!(translate(&cells, 0, -1), [at(4, 20), at(5, 20), at(5, 19), at(6, 19)]);
    assert_eq!(translate(&cells, 3, 2), [at(7, 23), at(8, 23), at(8, 22), at(9, 22)]);
    assert_eq!(translate(&cells, 0, 0), cells);
    assert_eq!(
        translate(&cells, i32::MIN, i32::MAX),
        [
            at(-2147483644, 2147483668),
            at(-2147483643, 2147483668),
            at(-2147483643, 2147483667),
            at(-2147483642, 2147483667)
        ]
    );
}

#[test]
fn the_pivot_is_the_cell_nearest_to_the_centroid() {
    assert_eq!(pivot_index(&ShapeTypes::Square.build(4, 21)), 0);
    assert_eq!(pivot_index(&ShapeTypes::Line.build(4, 21)), 1);
    assert_eq!(pivot_index(&ShapeTypes::SquareTop.build(4, 21)), 1);
    assert_eq!(pivot_index(&ShapeTypes::Zigzag.build(4, 21)), 1);
    assert_eq!(pivot_index(&ShapeTypes::LShape.build(4, 21)), 1);
    assert_eq!(pivot_index(&[at(0, 0), at(9, 9), at(5, 4), at(4, 5)]), 2);
    assert_eq!(pivot_index(&[at(3, 3), at(3, 3), at(3, 3), at(3, 3)]), 0);
}

#[test]
fn a_quarter_turn_brings_what_is_above_the_pivot_to_its_right() {
    assert_eq!(
        rotate(&[at(4, 10), at(5, 10), at(6, 10), at(7, 10)]),
        [at(5, 11), at(5, 10), at(5, 9), at(5, 8)]
    );
    assert_eq!(
        rotate(&[at(5, 11), at(5, 10), at(5, 9), at(5, 8)]),
        [at(6, 10), at(5, 10), at(4, 10), at(3, 10)]
    );
    assert_eq!(
        rotate(&[at(4, 9), at(5, 9), at(6, 9), at(5, 10)]),
        [at(5, 10), at(5, 9), at(5, 8), at(6, 9)]
    );
    assert_eq!(
        rotate(&[at(4, 9), at(5, 9), at(6, 9), at(6, 10)]),
        [at(5, 10), at(5, 9), at(5, 8), at(6, 8)]
    );
}

#[test]
fn four_quarter_turns_restore_every_shape() {
    for index in 0..SHAPE_COUNT {
        let cells = ShapeTypes::from_index(index).build(5, 10);
        let pivot = cells[pivot_index(&cells)];
        let mut turned = cells;
        for _ in 0..4 {
            turned = rotate(&turned);
            assert_eq!(turned[pivot_index(&turned)], pivot);
        }
        assert_eq!(turned, cells);
    }
}

#[test]
fn a_planned_move_gives_the_new_cells_or_the_collision() {
    let mut grid = Grid::new();
    grid.place(at(6, 4), 1).unwrap();
    let cells = [at(4, 5), at(5, 5), at(6, 5), at(7, 5)];
    assert_eq!(
        plan_translation(&cells, -2, 0, &grid),
        Ok([at(2, 5), at(3, 5), at(4, 5), at(5, 5)])
    );
    assert_eq!(
        plan_translation(&cells, 0, -1, &grid),
        Err(Collision { side: Side::Bottom, blocking_coord: at(6, 4) })
    );
    assert_eq!(
        plan_translation(&cells, 4, 0, &grid),
        Err(Collision { side: Side::Right, blocking_coord: at(11, 5) })
    );
    assert_eq!(
        plan_translation(&cells, -1, -1, &grid),
        Err(Collision { side: Side::Left, blocking_coord: at(6, 4) })
    );
    assert_eq!(
        plan_rotation(&cells, &grid),
        Ok([at(5, 6), at(5, 5), at(5, 4), at(5, 3)])
    );
    grid.place(at(5, 3), 2).unwrap();
    assert_eq!(
        plan_rotation(&cells, &grid),
        Err(Collision { side: Side::Left, blocking_coord: at(5, 3) })
    );
    assert_eq!(grid.count_occupied(), 2);
}

#[test]
fn a_pivot_outside_the_field_blocks_the_turn() {
    let grid = Grid::new();
    assert_eq!(
        plan_rotation(&[at(-2, 5), at(-1, 5), at(0, 5), at(1, 5)], &grid),
        Err(Collision { side: Side::Left, blocking_coord: at(-1, 5) })
    );
    assert_eq!(
        plan_rotation(&[at(4, 22), at(5, 22), at(6, 22), at(7, 22)], &grid),
        Err(Collision { side: Side::Top, blocking_coord: at(5, 22) })
    );
    assert_eq!(
        plan_rotation(&[at(10, 3), at(11, 3), at(12, 3), at(13, 3)], &grid),
        Err(Collision { side: Side::Right, blocking_coord: at(11, 3) })
    );
    assert_eq!(
        plan_rotation(&[at(4, -1), at(5, -1), at(6, -1), at(7, -1)], &grid),
        Err(Collision { side: Side::Bottom, blocking_coord: at(5, -1) })
    );
}

#[test]
fn a_colour_is_made_of_its_three_parts() {
    assert_eq!(Color::from_parts(0, 0, 0), Color { r: 0, g: 0, b: 0 });
    assert_eq!(Color::from_parts(255, 255, 255), Color { r: 255, g: 255, b: 255 });
    assert_eq!(Color::from_parts(1, 20, 250), Color { r: 1, g: 20, b: 250 });
}
