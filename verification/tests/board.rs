use tetris::board::{Board, Cell, SettleError};
use tetris::coord::Coord;
use tetris::piece::Color;
use tetris::registry::RegistryError;

const RED: Color = Color { r: 200, g: 30, b: 30 };
const BLUE: Color = Color { r: 30, g: 30, b: 200 };

fn at(x: i64, y: i64) -> Coord {
    Coord { x, y }
}

fn sorted(mut list: Vec<usize>) -> Vec<usize> {
    list.sort();
    list
}

fn settle(board: &mut Board, coords: &[Coord], color: Color) -> Vec<usize> {
    let ids: Vec<usize> = coords.iter().map(|c| board.create_cell(*c, color)).collect();
    assert_eq!(board.settle_group(&ids, &coords.to_vec()), Ok(()));
    ids
}

fn row(y: i64, columns: std::ops::Range<i64>) -> Vec<Coord> {
    columns.map(|x| at(x, y)).collect()
}

fn gap_free(board: &Board) -> bool {
    (0..11).all(|x| {
        (1..22).all(|y| {
            board.grid().occupied(at(x, y)).is_none()
                || board.grid().occupied(at(x, y - 1)).is_some()
        })
    })
}

#[test]
fn a_new_board_holds_nothing() {
    let board = Board::new();
    assert_eq!(board.cell_count(), 0);
    assert_eq!(board.count_occupied(), 0);
    assert_eq!(board.occupied_cells(), vec![]);
    assert_eq!(board.cell(0), None);
    assert_eq!(board.group_of(0), Vec::<usize>::new());
}

#[test]
fn a_created_cell_is_recorded_and_sits_nowhere() {
    let mut board = Board::new();
    assert_eq!(board.create_cell(at(4, 21), RED), 0);
    assert_eq!(board.create_cell(at(5, 21), BLUE), 1);
    assert_eq!(board.cell_count(), 2);
    assert_eq!(board.cell(1), Some(Cell { pos: at(5, 21), color: BLUE }));
    assert_eq!(board.cell(2), None);
    assert_eq!(board.count_occupied(), 0);
    assert_eq!(board.grid().occupied(at(5, 21)), None);
    assert!(!board.registry().has_record(1));
}

#[test]
fn settling_writes_the_cells_and_registers_their_group() {
    let mut board = Board::new();
    let a = board.create_cell(at(0, 0), RED);
    let b = board.create_cell(at(0, 0), RED);
    let c = board.create_cell(at(0, 0), BLUE);
    assert_eq!(board.settle_group(&vec![a, b], &vec![at(3, 0), at(4, 0)]), Ok(()));
    assert_eq!(board.grid().occupied(at(3, 0)), Some(a));
    assert_eq!(board.grid().occupied(at(4, 0)), Some(b));
    assert_eq!(board.cell(a), Some(Cell { pos: at(3, 0), color: RED }));
    assert_eq!(board.cell(b), Some(Cell { pos: at(4, 0), color: RED }));
    assert_eq!(board.cell(c), Some(Cell { pos: at(0, 0), color: BLUE }));
    assert_eq!(board.group_of(a), vec![b]);
    assert_eq!(board.group_of(b), vec![a]);
    assert_eq!(board.count_occupied(), 2);
    assert_eq!(board.occupied_cells(), vec![(at(3, 0), RED), (at(4, 0), RED)]);
}

#[test]
fn settling_is_refused_as_a_whole() {
    let mut board = Board::new();
    let taken = settle(&mut board, &[at(5, 5)], RED);
    let a = board.create_cell(at(0, 0), BLUE);
    let b = board.create_cell(at(0, 0), BLUE);
    let cases = [
        (vec![a, b], vec![at(1, 1)], SettleError::Mismatch),
        (vec![a, b], vec![at(1, 1), at(11, 1)], SettleError::OutOfRange),
        (vec![a, b], vec![at(1, -1), at(5, 5)], SettleError::OutOfRange),
        (vec![a, b], vec![at(1, 1), at(5, 5)], SettleError::SlotOccupied),
        (vec![a, b], vec![at(1, 1), at(1, 1)], SettleError::Overlap),
        (vec![a, 9], vec![at(1, 1), at(2, 1)], SettleError::Group(RegistryError::UnknownId)),
        (vec![a, taken[0]], vec![at(1, 1), at(2, 1)], SettleError::Group(RegistryError::IdTaken)),
        (vec![a, a], vec![at(1, 1), at(2, 1)], SettleError::Group(RegistryError::DuplicateId)),
    ];
    for (ids, coords, error) in cases {
        assert_eq!(board.check_settle(&ids, &coords), Err(error));
        assert_eq!(board.settle_group(&ids, &coords), Err(error));
        assert_eq!(board.count_occupied(), 1);
        assert_eq!(board.grid().occupied(at(1, 1)), None);
        assert!(!board.registry().has_record(a));
        assert_eq!(board.cell(a), Some(Cell { pos: at(0, 0), color: BLUE }));
    }
    assert_eq!(board.settle_group(&vec![a, b], &vec![at(1, 1), at(2, 1)]), Ok(()));
}

#[test]
fn without_a_full_row_nothing_changes() {
    let mut board = Board::new();
    let low = settle(&mut board, &row(0, 0..10), RED);
    let high = settle(&mut board, &[at(3, 5), at(3, 7)], BLUE);
    let before = board.occupied_cells();
    assert_eq!(board.clear_lines(), 0);
    assert_eq!(board.count_occupied(), 12);
    assert_eq!(board.occupied_cells(), before);
    assert_eq!(board.grid().occupied(at(3, 5)), Some(high[0]));
    assert_eq!(board.grid().occupied(at(3, 7)), Some(high[1]));
    assert_eq!(board.cell(high[1]).unwrap().pos, at(3, 7));
    assert_eq!(sorted(board.group_of(low[0])), low[1..].to_vec());
    assert!(!gap_free(&board));
}

#[test]
fn a_full_row_is_removed_and_what_is_above_comes_down() {
    let mut board = Board::new();
    let full = settle(&mut board, &row(0, 0..11), RED);
    let above = settle(&mut board, &[at(2, 1), at(2, 2), at(7, 3)], BLUE);
    assert_eq!(board.count_occupied(), 14);
    assert_eq!(board.clear_lines(), 1);
    assert_eq!(board.count_occupied(), 3);
    assert_eq!(
        board.occupied_cells(),
        vec![(at(2, 0), BLUE), (at(7, 0), BLUE), (at(2, 1), BLUE)]
    );
    assert_eq!(board.grid().occupied(at(2, 0)), Some(above[0]));
    assert_eq!(board.grid().occupied(at(2, 1)), Some(above[1]));
    assert_eq!(board.grid().occupied(at(7, 0)), Some(above[2]));
    assert_eq!(board.cell(above[2]).unwrap().pos, at(7, 0));
    assert_eq!(sorted(board.group_of(above[0])), vec![above[1], above[2]]);
    for id in full {
        assert!(!board.registry().has_record(id));
        assert!(board.registry().was_detached(id));
        assert_eq!(board.cell(id).unwrap().color, RED);
    }
    assert!(gap_free(&board));
}

#[test]
fn full_rows_that_are_apart_are_removed_together() {
    let mut board = Board::new();
    let mut mixed = row(0, 0..11);
    mixed.extend(row(1, 0..5));
    let first = settle(&mut board, &mixed, RED);
    let mut upper = row(2, 0..11);
    upper.push(at(7, 3));
    upper.push(at(0, 4));
    let second = settle(&mut board, &upper, BLUE);
    assert_eq!(board.count_occupied(), 29);
    assert!(board.grid().is_row_full(0));
    assert!(!board.grid().is_row_full(1));
    assert!(board.grid().is_row_full(2));

    assert_eq!(board.clear_lines(), 2);

    assert_eq!(board.count_occupied(), 29 - 2 * 11);
    assert_eq!(
        board.occupied_cells(),
        vec![
            (at(0, 0), RED),
            (at(1, 0), RED),
            (at(2, 0), RED),
            (at(3, 0), RED),
            (at(4, 0), RED),
            (at(7, 0), BLUE),
            (at(0, 1), BLUE)
        ]
    );
    for x in 0..5 {
        assert_eq!(board.grid().occupied(at(x, 0)), Some(first[11 + x as usize]));
    }
    assert_eq!(board.grid().occupied(at(7, 0)), Some(second[11]));
    assert_eq!(board.grid().occupied(at(0, 1)), Some(second[12]));
    assert_eq!(sorted(board.group_of(first[11])), first[12..].to_vec());
    assert_eq!(board.group_of(second[11]), vec![second[12]]);
    assert_eq!(board.group_of(second[12]), vec![second[11]]);
    assert_eq!(board.group_of(first[0]), Vec::<usize>::new());
    assert!(gap_free(&board));
    assert_eq!(board.clear_lines(), 0);
}

#[test]
fn cells_keep_their_order_when_a_column_comes_down() {
    let mut board = Board::new();
    settle(&mut board, &row(3, 0..11), RED);
    let column = settle(&mut board, &[at(6, 1), at(6, 5), at(6, 9), at(6, 20)], BLUE);
    assert_eq!(board.clear_lines(), 1);
    for (height, id) in column.iter().enumerate() {
        assert_eq!(board.grid().occupied(at(6, height as i64)), Some(*id));
        assert_eq!(board.cell(*id).unwrap().pos, at(6, height as i64));
    }
    assert_eq!(board.count_occupied(), 4);
    assert!(gap_free(&board));
}

#[test]
fn a_board_of_full_rows_is_emptied() {
    let mut board = Board::new();
    for y in 0..22 {
        settle(&mut board, &row(y, 0..11), RED);
    }
    assert_eq!(board.count_occupied(), 242);
    assert_eq!(board.clear_lines(), 22);
    assert_eq!(board.count_occupied(), 0);
    assert_eq!(board.occupied_cells(), vec![]);
    assert_eq!(board.cell_count(), 242);
}
