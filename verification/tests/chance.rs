use tetris::coord::Coord;
use tetris::piece::Color;
use tetris::random::{generate_random_color, random_shape};
use tetris::shape::ShapeTypes;
use tetris::simulation::{Simulation, SpawnOutcome, TickOutcome};

#[test]
fn drawn_shapes_are_of_the_catalog_and_vary() {
    let mut seen = [false; 5];
    for _ in 0..2000 {
        let index = match random_shape() {
            ShapeTypes::Square => 0,
            ShapeTypes::Line => 1,
            ShapeTypes::SquareTop => 2,
            ShapeTypes::Zigzag => 3,
            ShapeTypes::LShape => 4,
        };
        seen[index] = true;
    }
    assert_eq!(seen, [true; 5]);
}

#[test]
fn drawn_colours_vary_in_every_part() {
    let first = generate_random_color();
    let mut red = false;
    let mut green = false;
    let mut blue = false;
    for _ in 0..2000 {
        let next = generate_random_color();
        red |= next.r != first.r;
        green |= next.g != first.g;
        blue |= next.b != first.b;
    }
    assert!(red && green && blue);
}

#[test]
fn a_drawn_piece_comes_into_play_at_the_top() {
    let mut sim = Simulation::new();
    assert_eq!(sim.spawn(), SpawnOutcome::Spawned);
    let (cells, color) = sim.active_cells().unwrap();
    assert!(cells.iter().all(|c| c.is_in_bounds() && c.y >= 20 && (4..8).contains(&c.x)));
    let shapes = [
        ShapeTypes::Square,
        ShapeTypes::Line,
        ShapeTypes::SquareTop,
        ShapeTypes::Zigzag,
        ShapeTypes::LShape,
    ];
    assert!(shapes.iter().any(|s| s.build(4, 21) == cells));
    for id in 0..4 {
        assert_eq!(sim.board().cell(id).unwrap().color, color);
    }
    assert_eq!(sim.board().cell_count(), 4);
}

#[test]
fn a_game_of_drawn_pieces_runs_to_its_end_without_a_fault() {
    let mut sim = Simulation::new();
    let mut landed = 0;
    let mut cleared = 0;
    let mut steps = 0;
    loop {
        steps += 1;
        assert!(steps < 10_000);
        match sim.on_tick() {
            Ok(TickOutcome::Fell) => {}
            Ok(TickOutcome::Landed { rows_cleared, spawn }) => {
                if steps > 1 {
                    landed += 1;
                }
                cleared += rows_cleared;
                match spawn {
                    SpawnOutcome::Spawned => assert!(sim.active_cells().is_some()),
                    SpawnOutcome::Blocked(c) => {
                        assert!(c.blocking_coord.is_in_bounds());
                        assert!(sim.board().grid().occupied(c.blocking_coord).is_some());
                        break;
                    }
                    SpawnOutcome::Refused => panic!("a spawn was refused in mid game"),
                }
            }
            other => panic!("the step ended as {:?}", other),
        }
        assert_eq!(sim.board().count_occupied(), 4 * landed - 11 * cleared);
    }
    assert!(sim.is_spawn_blocked());
    assert_eq!(sim.active_cells(), None);
    assert_eq!(sim.on_tick(), Ok(TickOutcome::GameOver));
    assert_eq!(sim.board().count_occupied(), 4 * landed - 11 * cleared);
    let colours: Vec<(Coord, Color)> = sim.occupied_cells();
    assert_eq!(colours.len(), sim.board().count_occupied());
}
