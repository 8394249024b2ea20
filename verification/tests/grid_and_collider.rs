use tetris::collider::{test_cell, wall_of, Collision, Side};
use tetris::coord::{Coord, HEIGHT, SLOTS, WIDTH};
use tetris::grid::{Grid, GridError};

fn at(x: i64, y: i64) -> Coord {
    Coord { x, y }
}

#[test]
fn the_field_has_eleven_columns_and_twenty_two_rows() {
    assert_eq!(WIDTH, 11);
    assert_eq!(HEIGHT, 22);
    assert_eq!(SLOTS, 242);
    assert!(at(0, 0).is_in_bounds());
    assert!(at(10, 21).is_in_bounds());
    assert!(!at(11, 0).is_in_bounds());
    assert!(!at(0, 22).is_in_bounds());
    assert!(!at(-1, 5).is_in_bounds());
    assert!(!at(5, -1).is_in_bounds());
    assert_eq!(at(0, 0).slot_index(), 0);
    assert_eq!(at(3, 2).slot_index(), 25);
    assert_eq!(at(10, 21).slot_index(), 241);
    assert_eq!(Coord::new(7, 9), at(7, 9));
}

#[test]
fn a_new_grid_is_empty() {
    let grid = Grid::new();
    assert_eq!(grid.count_occupied(), 0);
    for y in 0..22 {
        assert!(!grid.is_row_full(y));
        for x in 0..11 {
            assert_eq!(grid.occupied(at(x, y as i64)), None);
        }
    }
}

#[test]
fn place_writes_a_free_slot_and_refuses_a_taken_one() {
    let mut grid = Grid::new();
    assert_eq!(grid.place(at(3, 2), 7), Ok(()));
    assert_eq!(grid.occupied(at(3, 2)), Some(7));
    assert_eq!(grid.occupied(at(2, 3)), None);
    assert_eq!(grid.count_occupied(), 1);
    assert_eq!(grid.place(at(3, 2), 8), Err(GridError::SlotOccupied));
    assert_eq!(grid.occupied(at(3, 2)), Some(7));
    assert_eq!(grid.count_occupied(), 1);
}

#[test]
fn clear_empties_a_slot() {
    let mut grid = Grid::new();
    grid.place(at(10, 21), 1).unwrap();
    grid.place(at(0, 0), 2).unwrap();
    grid.clear(at(10, 21));
    assert_eq!(grid.occupied(at(10, 21)), None);
    assert_eq!(grid.occupied(at(0, 0)), Some(2));
    assert_eq!(grid.count_occupied(), 1);
    grid.clear(at(10, 21));
    assert_eq!(grid.count_occupied(), 1);
}

#[test]
fn a_row_is_full_when_every_column_is_taken() {
    let mut grid = Grid::new();
    for x in 0..10 {
        grid.place(at(x, 5), x as usize).unwrap();
    }
    assert!(!grid.is_row_full(5));
    grid.place(at(10, 5), 10).unwrap();
    assert!(grid.is_row_full(5));
    assert!(!grid.is_row_full(4));
    assert!(!grid.is_row_full(6));
    assert_eq!(grid.count_occupied(), 11);
    grid.clear(at(0, 5));
    assert!(!grid.is_row_full(5));
}

#[test]
fn a_coordinate_outside_the_field_lies_behind_its_wall() {
    assert_eq!(wall_of(at(-1, 3)), Some(Side::Left));
    assert_eq!(wall_of(at(11, 3)), Some(Side::Right));
    assert_eq!(wall_of(at(3, -1)), Some(Side::Bottom));
    assert_eq!(wall_of(at(3, 22)), Some(Side::Top));
    assert_eq!(wall_of(at(-1, -1)), Some(Side::Left));
    assert_eq!(wall_of(at(11, 22)), Some(Side::Right));
    assert_eq!(wall_of(at(0, 0)), None);
    assert_eq!(wall_of(at(10, 21)), None);
}

#[test]
fn an_occupied_slot_blocks_from_the_side_it_lies_on() {
    let mut grid = Grid::new();
    grid.place(at(5, 5), 1).unwrap();
    assert_eq!(test_cell(at(6, 5), at(5, 5), &grid), Some(Side::Left));
    assert_eq!(test_cell(at(4, 5), at(5, 5), &grid), Some(Side::Right));
    assert_eq!(test_cell(at(5, 6), at(5, 5), &grid), Some(Side::Bottom));
    assert_eq!(test_cell(at(5, 4), at(5, 5), &grid), Some(Side::Top));
    assert_eq!(test_cell(at(5, 5), at(5, 5), &grid), Some(Side::Inside));
    assert_eq!(test_cell(at(6, 6), at(5, 5), &grid), Some(Side::Left));
    assert_eq!(test_cell(at(5, 5), at(5, 4), &grid), None);
    assert_eq!(test_cell(at(0, 0), at(-1, 0), &grid), Some(Side::Left));
}

#[test]
fn a_free_piece_meets_no_collision() {
    let mut grid = Grid::new();
    grid.place(at(0, 0), 1).unwrap();
    let from = [at(1, 1), at(2, 1), at(3, 1), at(4, 1)];
    let to = [at(1, 0), at(2, 0), at(3, 0), at(4, 0)];
    assert_eq!(tetris::collider::test(&from, &to, &grid), None);
}

#[test]
fn the_lowest_blocked_cell_is_reported_and_of_a_row_the_leftmost() {
    let mut grid = Grid::new();
    grid.place(at(4, 3), 1).unwrap();
    grid.place(at(2, 3), 2).unwrap();
    grid.place(at(3, 2), 3).unwrap();
    let from = [at(4, 4), at(2, 4), at(3, 4), at(3, 3)];
    let to = [at(4, 3), at(2, 3), at(3, 3), at(3, 2)];
    assert_eq!(
        tetris::collider::test(&from, &to, &grid),
        Some(Collision { side: Side::Bottom, blocking_coord: at(3, 2) })
    );
    grid.clear(at(3, 2));
    assert_eq!(
        tetris::collider::test(&from, &to, &grid),
        Some(Collision { side: Side::Bottom, blocking_coord: at(2, 3) })
    );
    grid.clear(at(2, 3));
    assert_eq!(
        tetris::collider::test(&from, &to, &grid),
        Some(Collision { side: Side::Bottom, blocking_coord: at(4, 3) })
    );
}

#[test]
fn a_wall_and_a_cell_are_told_apart() {
    let mut grid = Grid::new();
    grid.place(at(9, 1), 1).unwrap();
    let from = [at(7, 1), at(8, 1), at(9, 0), at(10, 0)];
    let to = [at(8, 1), at(9, 1), at(10, 0), at(11, 0)];
    assert_eq!(
        tetris::collider::test(&from, &to, &grid),
        Some(Collision { side: Side::Right, blocking_coord: at(11, 0) })
    );
    let to = [at(8, 1), at(9, 1), at(10, 0), at(10, 1)];
    assert_eq!(
        tetris::collider::test(&from, &to, &grid),
        Some(Collision { side: Side::Right, blocking_coord: at(9, 1) })
    );
}

#[test]
fn the_test_leaves_the_grid_as_it_was() {
    let mut grid = Grid::new();
    grid.place(at(5, 0), 9).unwrap();
    let from = [at(4, 1), at(5, 1), at(6, 1), at(7, 1)];
    let to = [at(4, 0), at(5, 0), at(6, 0), at(7, 0)];
    let first = tetris::collider::test(&from, &to, &grid);
    let second = tetris::collider::test(&from, &to, &grid);
    assert_eq!(first, second);
    assert_eq!(first, Some(Collision { side: Side::Bottom, blocking_coord: at(5, 0) }));
    assert_eq!(grid.count_occupied(), 1);
    assert_eq!(grid.occupied(at(5, 0)), Some(9));
}
