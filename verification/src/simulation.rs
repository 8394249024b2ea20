//! The simulation: the board, the falling piece, and the rules by which a
//! step and a player's move change them.

use vstd::prelude::*;
use crate::board::{Board, BoardView, Cell};
use crate::collider::{Collision, Side, cell_blocked, collision_of, lemma_no_collision};
use crate::coord::{Coord, HEIGHT, WIDTH};
use crate::grid::{full_rows, lemma_high_slot_stays_free, occupied_count};
use crate::moves::{
    carries_out, lemma_blocked_from_below, lemma_planned_place_is_free,
    lemma_translation_distinct, plan_rotation, plan_translation, rotation_plan, translation_plan,
};
use crate::piece::{Color, Piece, all_distinct, all_in_bounds, lemma_rotation_distinct};
use crate::random::{generate_random_color, random_shape};
use crate::registry::RegistryView;
use crate::shape::ShapeTypes;

verus! {

/// Column of the anchor at which a new piece is built.
pub const SPAWN_X: i32 = 4;

/// Row of the anchor at which a new piece is built: the highest of the field.
pub const SPAWN_Y: i32 = 21;

/// How an attempt to bring a new piece into play ended.
#[derive(Clone, Copy, Debug, PartialEq, Eq, Structural)]
pub enum SpawnOutcome {
    /// The piece is in play.
    Spawned,
    /// The place of the new piece is taken: the game is over.
    Blocked(Collision),
    /// A piece is in play already, or the game is over.
    Refused,
}

/// How an attempt to move the piece ended.
#[derive(Clone, Copy, Debug, PartialEq, Eq, Structural)]
pub enum MoveOutcome {
    /// The piece stands at its new place.
    Accepted,
    /// The piece is blocked and stands where it stood.
    Rejected(Collision),
    /// There is no piece in play.
    NoPiece,
}

/// A move that the player asks for.
#[derive(Clone, Copy, Debug, PartialEq, Eq, Structural)]
pub enum Input {
    Left,
    Right,
    Down,
    Rotate,
}

/// What the downward attempt of a step means for the piece.
#[derive(Clone, Copy, Debug, PartialEq, Eq, Structural)]
pub enum Gravity {
    /// The piece came down one row.
    Fell,
    /// The piece, if there is one, rests on the floor or on a settled cell.
    Landed,
    /// The piece is held where it is, and nothing is to be done.
    Held,
}

/// A fault of the simulation that a step brings to light.
#[derive(Clone, Copy, Debug, PartialEq, Eq, Structural)]
pub enum TickError {
    /// A piece that was to come down was blocked on a side that a downward
    /// move cannot be blocked on.
    InconsistentCollision(Collision),
}

/// How a step ended.
#[derive(Clone, Copy, Debug, PartialEq, Eq, Structural)]
pub enum TickOutcome {
    /// The piece came down one row.
    Fell,
    /// The piece is held where it is.
    Held,
    /// The piece settled, a new one was called for, and the full rows were
    /// cleared.
    Landed { rows_cleared: usize, spawn: SpawnOutcome },
    /// The game is over; nothing happened.
    GameOver,
}

/// The simulation.
pub struct Simulation {
    board: Board,
    active: Option<Piece>,
    spawn_blocked: bool,
}

/// What a simulation holds.
pub struct SimulationView {
    /// The settled world.
    pub board: BoardView,
    /// The piece in play, if any.
    pub active: Option<Piece>,
    /// A new piece found its place taken: the game is over.
    pub spawn_blocked: bool,
}

/// What the downward attempt of a step means, given how the move ended.
pub open spec fn decision_of(outcome: MoveOutcome) -> Result<Gravity, TickError> {
    match outcome {
        MoveOutcome::Accepted => Ok(Gravity::Fell),
        MoveOutcome::NoPiece => Ok(Gravity::Landed),
        MoveOutcome::Rejected(c) => match c.side {
            Side::Bottom => Ok(Gravity::Landed),
            Side::Inside => Ok(Gravity::Held),
            _ => Err(TickError::InconsistentCollision(c)),
        },
    }
}

/// The cells of a new piece of shape `shape`.
pub open spec fn spawn_cells(shape: ShapeTypes) -> Seq<Coord> {
    shape.cells_at(SPAWN_X as int, SPAWN_Y as int)
}

/// Every shape is built inside the field, in its two highest rows.
pub proof fn lemma_spawn_cells_fit(shape: ShapeTypes)
    ensures
        spawn_cells(shape).len() == 4,
        all_in_bounds(spawn_cells(shape)),
        all_distinct(spawn_cells(shape)),
        forall|i: int| 0 <= i < 4 ==> (#[trigger] spawn_cells(shape)[i]).y >= HEIGHT - 2,
{
    let c = spawn_cells(shape);
    assert(c[0].in_bounds() && c[1].in_bounds() && c[2].in_bounds() && c[3].in_bounds());
}

/// A new piece is blocked by settled cells alone, never by a wall: a blocked
/// spawn names an occupied slot in one of the two highest rows of the field,
/// where the new piece was to stand.
pub proof fn lemma_spawn_blocked_by_cells(v: SimulationView, shape: ShapeTypes)
    requires
        v.board.grid.len() == crate::coord::SLOTS,
    ensures
        v.spawn_outcome(shape) matches SpawnOutcome::Blocked(c) ==> c.side == Side::Inside
            && c.blocking_coord.in_bounds() && c.blocking_coord.y >= HEIGHT - 2
            && v.board.grid[c.blocking_coord.slot()].is_some(),
{
    lemma_spawn_cells_fit(shape);
    let cells = spawn_cells(shape);
    if let SpawnOutcome::Blocked(c) = v.spawn_outcome(shape) {
        let i = choose|i: int| crate::collider::is_first_hit(cells, cells, v.board.grid, i);
        assert(crate::collider::hits(cells, cells, v.board.grid, i));
        assert(cells[i].in_bounds());
    }
}

impl SimulationView {
    /// The piece `p` can stand where it is: its cells can be settled there
    /// as they are, and each is recorded in the colour of the piece.
    pub open spec fn piece_ok(self, p: Piece) -> bool {
        &&& self.board.settle_check(p.ids@, p.cells@).is_ok()
        &&& forall|i: int|
            0 <= i < 4 ==> self.board.cells[(#[trigger] p.ids@[i]) as int].color == p.color
    }

    /// The simulation is consistent: the board is, the piece in play stands
    /// on free slots of the field, and no piece is in play once the game is
    /// over.
    pub open spec fn valid(self) -> bool {
        &&& self.board.valid()
        &&& self.active matches Some(p) ==> self.piece_ok(p)
        &&& self.spawn_blocked ==> self.active.is_none()
    }

    /// The piece in play stands in the two highest rows.
    pub open spec fn piece_high(self) -> bool {
        self.active matches Some(p) ==> forall|i: int|
            0 <= i < 4 ==> (#[trigger] p.cells@[i]).y >= HEIGHT - 2
    }

    /// How `spawn_shape` ends for the shape `shape`.
    pub open spec fn spawn_outcome(self, shape: ShapeTypes) -> SpawnOutcome {
        if self.spawn_blocked || self.active.is_some() {
            SpawnOutcome::Refused
        } else {
            match collision_of(spawn_cells(shape), spawn_cells(shape), self.board.grid) {
                Some(c) => SpawnOutcome::Blocked(c),
                None => SpawnOutcome::Spawned,
            }
        }
    }

    /// The simulation after `spawn_shape`: with a new piece of four new
    /// cells in play, or over, or as it was.
    pub open spec fn spawned(self, shape: ShapeTypes, color: Color) -> SimulationView {
        match self.spawn_outcome(shape) {
            SpawnOutcome::Refused => self,
            SpawnOutcome::Blocked(_) => SimulationView { spawn_blocked: true, ..self },
            SpawnOutcome::Spawned => {
                let c = spawn_cells(shape);
                let n = self.board.cells.len();
                SimulationView {
                    board: BoardView {
                        grid: self.board.grid,
                        registry: RegistryView {
                            issued: self.board.registry.issued + 4,
                            ..self.board.registry
                        },
                        cells: self.board.cells.push(Cell { pos: c[0], color }).push(
                            Cell { pos: c[1], color },
                        ).push(Cell { pos: c[2], color }).push(Cell { pos: c[3], color }),
                    },
                    active: Some(
                        Piece {
                            ids: [n as usize, (n + 1) as usize, (n + 2) as usize, (n + 3) as usize],
                            cells: [c[0], c[1], c[2], c[3]],
                            color,
                        },
                    ),
                    spawn_blocked: false,
                }
            },
        }
    }

    /// The simulation with the piece in play standing at `cells`.
    pub open spec fn with_cells(self, cells: Seq<Coord>) -> SimulationView {
        match self.active {
            Some(p) => SimulationView {
                active: Some(Piece { cells: [cells[0], cells[1], cells[2], cells[3]], ..p }),
                ..self
            },
            None => self,
        }
    }

    /// The plan of moving the piece in play `dx` columns to the right and
    /// `dy` rows up.
    pub open spec fn translation(self, dx: int, dy: int) -> Result<Seq<Coord>, Collision> {
        translation_plan(self.active->0.cells@, dx, dy, self.board.grid)
    }

    /// The plan of turning the piece in play a quarter.
    pub open spec fn rotation(self) -> Result<Seq<Coord>, Collision> {
        rotation_plan(self.active->0.cells@, self.board.grid)
    }

    /// The plan of the move `input` of the piece in play.
    pub open spec fn plan_for(self, input: Input) -> Result<Seq<Coord>, Collision> {
        match input {
            Input::Left => self.translation(-1, 0),
            Input::Right => self.translation(1, 0),
            Input::Down => self.translation(0, -1),
            Input::Rotate => self.rotation(),
        }
    }

    /// How an attempt to move the piece in play by the plan `plan` ends.
    pub open spec fn move_outcome(self, plan: Result<Seq<Coord>, Collision>) -> MoveOutcome {
        match self.active {
            None => MoveOutcome::NoPiece,
            Some(_) => match plan {
                Ok(_) => MoveOutcome::Accepted,
                Err(c) => MoveOutcome::Rejected(c),
            },
        }
    }

    /// The simulation after an attempt to move the piece in play by the plan
    /// `plan`: all four cells stand where the plan puts them, or none has
    /// moved.
    pub open spec fn moved(self, plan: Result<Seq<Coord>, Collision>) -> SimulationView {
        match plan {
            Ok(cells) => self.with_cells(cells),
            Err(_) => self,
        }
    }

    /// `after` is this simulation with the piece in play settled: its cells
    /// written into the grid and registered as a group, and no piece in
    /// play. Without a piece in play nothing changes.
    pub open spec fn settles_to(self, after: SimulationView) -> bool {
        match self.active {
            None => after == self,
            Some(p) => {
                &&& self.board.settled_into(after.board, p.ids@, p.cells@)
                &&& after.active.is_none()
                &&& after.spawn_blocked == self.spawn_blocked
            },
        }
    }

    /// `after` is this simulation with the full rows of its board cleared,
    /// `rows` of them.
    pub open spec fn clears_to(self, after: SimulationView, rows: int) -> bool {
        &&& rows == full_rows(self.board.grid, HEIGHT as int)
        &&& self.board.cleared_into(after.board)
        &&& after.active == self.active
        &&& after.spawn_blocked == self.spawn_blocked
    }

    /// `after` is this simulation after its piece has landed: the piece
    /// settled, then a piece of shape `shape` and colour `color` called for,
    /// which ended as `spawn`, and then the full rows cleared, `rows` of
    /// them.
    pub open spec fn lands_to(
        self,
        shape: ShapeTypes,
        color: Color,
        after: SimulationView,
        rows: int,
        spawn: SpawnOutcome,
    ) -> bool {
        exists|settled: SimulationView| #[trigger]
            self.settles_to(settled) && spawn == settled.spawn_outcome(shape) && settled.spawned(
                shape,
                color,
            ).clears_to(after, rows)
    }

    /// Number of settled cells.
    pub open spec fn settled_count(self) -> nat {
        occupied_count(self.board.grid)
    }

    /// Number of cells of the piece in play: four, or none without a piece.
    pub open spec fn falling_count(self) -> nat {
        if self.active.is_some() {
            4
        } else {
            0
        }
    }

    /// What the downward attempt of a step means for this simulation.
    pub open spec fn gravity(self) -> Result<Gravity, TickError> {
        decision_of(self.move_outcome(self.translation(0, -1)))
    }

    /// `after` and `r` are what a step makes of this simulation when the
    /// next piece is to be of shape `shape` and colour `color`.
    pub open spec fn ticks_to(
        self,
        shape: ShapeTypes,
        color: Color,
        after: SimulationView,
        r: Result<TickOutcome, TickError>,
    ) -> bool {
        if self.spawn_blocked {
            r == Ok::<TickOutcome, TickError>(TickOutcome::GameOver) && after == self
        } else {
            match self.gravity() {
                Err(e) => r == Err::<TickOutcome, TickError>(e) && after == self,
                Ok(Gravity::Fell) => r == Ok::<TickOutcome, TickError>(TickOutcome::Fell) && after
                    == self.moved(self.translation(0, -1)),
                Ok(Gravity::Held) => r == Ok::<TickOutcome, TickError>(TickOutcome::Held) && after
                    == self,
                Ok(Gravity::Landed) => r matches Ok(TickOutcome::Landed { rows_cleared, spawn })
                    && self.lands_to(shape, color, after, rows_cleared as int, spawn),
            }
        }
    }
}

/// The downward attempt of a step of a consistent simulation is a fall or a
/// landing: it never brings a fault to light, and never finds the piece
/// held.
pub proof fn lemma_gravity_consistent(v: SimulationView)
    requires
        v.valid(),
    ensures
        v.gravity() == Ok::<Gravity, TickError>(Gravity::Fell) || v.gravity() == Ok::<
            Gravity,
            TickError,
        >(Gravity::Landed),
{
    if let Some(p) = v.active {
        lemma_blocked_from_below(p.cells@, v.board.grid);
    }
}

/// A move of the piece in play by some columns and rows keeps a consistent
/// simulation consistent, and where it is accepted the piece stands free
/// afterwards: the collision test of the piece where it now is reports
/// nothing.
pub proof fn lemma_translation_keeps_valid(v: SimulationView, dx: int, dy: int)
    requires
        v.valid(),
        v.active.is_some(),
        -0x8000_0000 <= dx <= 0x7fff_ffff,
        -0x8000_0000 <= dy <= 0x7fff_ffff,
    ensures
        v.moved(v.translation(dx, dy)).valid(),
        v.translation(dx, dy) matches Ok(cells) ==> (v.moved(
            v.translation(dx, dy),
        ).active matches Some(q) && q.cells@ == cells && collision_of(
            q.cells@,
            q.cells@,
            v.board.grid,
        ).is_none()),
{
    let p = v.active->0;
    let plan = v.translation(dx, dy);
    assert(all_in_bounds(p.cells@));
    assert forall|i: int| 0 <= i < 4 implies (#[trigger] p.cells@[i]).within_reach() by {
        assert(p.cells@[i].in_bounds());
    }
    if let Ok(cells) = plan {
        let q = v.moved(plan).active->0;
        assert(q.cells@ =~= cells);
        lemma_translation_distinct(p.cells@, dx, dy);
        lemma_planned_place_is_free(p.cells@, cells, v.board.grid);
        assert(v.moved(plan).piece_ok(q));
    }
}

/// A quarter turn of the piece in play keeps a consistent simulation
/// consistent, and where it is accepted the piece stands free afterwards.
pub proof fn lemma_rotation_keeps_valid(v: SimulationView)
    requires
        v.valid(),
        v.active.is_some(),
    ensures
        v.moved(v.rotation()).valid(),
        v.rotation() matches Ok(cells) ==> (v.moved(v.rotation()).active matches Some(q)
            && q.cells@ == cells && collision_of(q.cells@, q.cells@, v.board.grid).is_none()),
{
    let p = v.active->0;
    let plan = v.rotation();
    assert(all_in_bounds(p.cells@));
    assert forall|i: int| 0 <= i < 4 implies (#[trigger] p.cells@[i]).within_reach() by {
        assert(p.cells@[i].in_bounds());
    }
    if let Ok(cells) = plan {
        let q = v.moved(plan).active->0;
        assert(q.cells@ =~= cells);
        lemma_rotation_distinct(p.cells@);
        lemma_planned_place_is_free(p.cells@, cells, v.board.grid);
        assert(v.moved(plan).piece_ok(q));
    }
}

/// After any accepted move of the player the piece stands free: the
/// collision test of the piece where it now is reports nothing.
pub proof fn lemma_accepted_move_stands_free(v: SimulationView, input: Input)
    requires
        v.valid(),
        v.move_outcome(v.plan_for(input)) is Accepted,
    ensures
        v.moved(v.plan_for(input)).valid(),
        v.moved(v.plan_for(input)).active matches Some(q) && collision_of(
            q.cells@,
            q.cells@,
            v.moved(v.plan_for(input)).board.grid,
        ).is_none(),
{
    match input {
        Input::Left => lemma_translation_keeps_valid(v, -1, 0),
        Input::Right => lemma_translation_keeps_valid(v, 1, 0),
        Input::Down => lemma_translation_keeps_valid(v, 0, -1),
        Input::Rotate => lemma_rotation_keeps_valid(v),
    }
}

/// Tells what the downward attempt of a step means, given how the move
/// ended: an accepted move is a fall; a piece blocked from below, or no
/// piece at all, is a landing; a piece blocked where it stands is held; and
/// a piece blocked from a side or from above is a fault.
pub fn gravity_decision(outcome: MoveOutcome) -> (r: Result<Gravity, TickError>)
    ensures
        r == decision_of(outcome),
{
    match outcome {
        MoveOutcome::Accepted => Ok(Gravity::Fell),
        MoveOutcome::NoPiece => Ok(Gravity::Landed),
        MoveOutcome::Rejected(c) => match c.side {
            Side::Bottom => Ok(Gravity::Landed),
            Side::Inside => Ok(Gravity::Held),
            _ => Err(TickError::InconsistentCollision(c)),
        },
    }
}

/// Copies four values into a list.
fn list_of<T: Copy>(values: &[T; 4]) -> (list: Vec<T>)
    ensures
        list@ == values@,
{
    let mut list: Vec<T> = Vec::new();
    list.push(values[0]);
    list.push(values[1]);
    list.push(values[2]);
    list.push(values[3]);
    assert(list@ =~= values@);
    list
}

impl View for Simulation {
    type V = SimulationView;

    closed spec fn view(&self) -> SimulationView {
        SimulationView {
            board: self.board@,
            active: self.active,
            spawn_blocked: self.spawn_blocked,
        }
    }
}

impl Simulation {
    /// The parts of the simulation are each in order.
    pub closed spec fn inv(&self) -> bool {
        self.board.inv()
    }

    /// The simulation is in order.
    pub open spec fn wf(&self) -> bool {
        self.inv() && self@.valid()
    }

    /// A simulation with an empty board and no piece in play.
    pub fn new() -> (s: Simulation)
        ensures
            s.wf(),
            s@.active.is_none(),
            !s@.spawn_blocked,
            s@.board.cells.len() == 0,
            s@.board.registry.issued == 0,
            forall|i: int| 0 <= i < crate::coord::SLOTS ==> s@.board.grid[i].is_none(),
    {
        Simulation { board: Board::new(), active: None, spawn_blocked: false }
    }

    /// The board.
    pub fn board(&self) -> (b: &Board)
        requires
            self.wf(),
        ensures
            b.wf(),
            b@ == self@.board,
    {
        &self.board
    }

    /// The piece in play, if any.
    pub fn active_piece(&self) -> (p: Option<Piece>)
        ensures
            p == self@.active,
    {
        self.active
    }

    /// The coordinates of the four cells of the piece in play, and its
    /// colour.
    pub fn active_cells(&self) -> (r: Option<([Coord; 4], Color)>)
        ensures
            r == match self@.active {
                Some(p) => Some((p.cells, p.color)),
                None => None,
            },
    {
        match self.active {
            Some(p) => Some((p.cells, p.color)),
            None => None,
        }
    }

    /// The settled cells, from the floor up and in each row from the left:
    /// the coordinate of each with its colour.
    pub fn occupied_cells(&self) -> (list: Vec<(Coord, Color)>)
        requires
            self.wf(),
        ensures
            list@ == self@.board.listing(crate::coord::SLOTS as int),
    {
        self.board.occupied_cells()
    }

    /// Tells whether a new piece found its place taken, which ends the game.
    pub fn is_spawn_blocked(&self) -> (b: bool)
        ensures
            b == self@.spawn_blocked,
    {
        self.spawn_blocked
    }

    /// Brings a new piece of shape `shape` and colour `color` into play, at
    /// the anchor in the highest row. Where its place is taken, no cell is
    /// made or overwritten, and the game is over.
    pub fn spawn_shape(&mut self, shape: ShapeTypes, color: Color) -> (r: SpawnOutcome)
        requires
            old(self).wf(),
        ensures
            final(self).wf(),
            r == old(self)@.spawn_outcome(shape),
            final(self)@ == old(self)@.spawned(shape, color),
            old(self)@.active.is_none() ==> final(self)@.piece_high(),
    {
        if self.spawn_blocked || self.active.is_some() {
            return SpawnOutcome::Refused;
        }
        let cells = shape.build(SPAWN_X, SPAWN_Y);
        proof {
            lemma_spawn_cells_fit(shape);
        }
        match crate::collider::test(&cells, &cells, self.board.grid()) {
            Some(c) => {
                self.spawn_blocked = true;
                SpawnOutcome::Blocked(c)
            },
            None => {
                let ghost before = self.board@;
                let a = self.board.create_cell(cells[0], color);
                let b = self.board.create_cell(cells[1], color);
                let c = self.board.create_cell(cells[2], color);
                let d = self.board.create_cell(cells[3], color);
                let piece = Piece { ids: [a, b, c, d], cells, color };
                self.active = Some(piece);
                proof {
                    let want = old(self)@.spawned(shape, color);
                    let got = self@;
                    assert(got.board.registry == want.board.registry);
                    assert(got.board.cells =~= want.board.cells);
                    assert(piece.ids =~= want.active->0.ids);
                    assert(piece.cells =~= want.active->0.cells);
                    assert(got.active == want.active);
                    lemma_no_collision(cells@, cells@, before.grid);
                    assert forall|i: int| 0 <= i < 4 implies got.board.grid[(
                    #[trigger] cells@[i]).slot()].is_none() by {
                        assert(cell_blocked(cells@[i], cells@[i], before.grid).is_none());
                    }
                    assert(got.board.registry.registrable(piece.ids@).is_ok());
                    assert(got.piece_ok(piece));
                }
                SpawnOutcome::Spawned
            },
        }
    }

    /// Brings a new piece into play, its shape and its colour drawn by
    /// chance. Where its place is taken, no cell is made or overwritten, and
    /// the game is over.
    pub fn spawn(&mut self) -> (r: SpawnOutcome)
        requires
            old(self).wf(),
        ensures
            final(self).wf(),
            exists|shape: ShapeTypes, color: Color|
                r == old(self)@.spawn_outcome(shape) && final(self)@ == #[trigger] old(
                    self,
                )@.spawned(shape, color),
    {
        let shape = random_shape();
        let color = generate_random_color();
        let r = self.spawn_shape(shape, color);
        assert(final(self)@ == old(self)@.spawned(shape, color));
        r
    }

    /// Carries out a plan for the piece `p` in play: stands it where the plan
    /// puts it, or leaves it where a collision forbids the move.
    fn carry_out(
        &mut self,
        p: Piece,
        made: Result<[Coord; 4], Collision>,
        Ghost(plan): Ghost<Result<Seq<Coord>, Collision>>,
    ) -> (r: MoveOutcome)
        requires
            old(self).wf(),
            old(self)@.active == Some(p),
            carries_out(made, plan),
            old(self)@.moved(plan).valid(),
        ensures
            final(self).wf(),
            r == old(self)@.move_outcome(plan),
            final(self)@ == old(self)@.moved(plan),
    {
        match made {
            Err(c) => MoveOutcome::Rejected(c),
            Ok(cells) => {
                let piece = Piece { ids: p.ids, cells, color: p.color };
                self.active = Some(piece);
                proof {
                    let want = old(self)@.with_cells(cells@);
                    assert(piece.cells =~= want.active->0.cells);
                }
                MoveOutcome::Accepted
            },
        }
    }

    /// Moves the piece in play `dx` columns to the right and `dy` rows up,
    /// if it is free to stand there: either all four cells move or none
    /// does. After an accepted move the collision test of the piece where it
    /// now stands reports nothing.
    pub fn try_translate(&mut self, dx: i32, dy: i32) -> (r: MoveOutcome)
        requires
            old(self).wf(),
        ensures
            final(self).wf(),
            r == old(self)@.move_outcome(old(self)@.translation(dx as int, dy as int)),
            final(self)@ == old(self)@.moved(old(self)@.translation(dx as int, dy as int)),
            r is Accepted ==> (final(self)@.active matches Some(q) && collision_of(
                q.cells@,
                q.cells@,
                final(self)@.board.grid,
            ).is_none()),
    {
        match self.active {
            None => {
                proof {
                    let plan = old(self)@.translation(dx as int, dy as int);
                    assert(old(self)@.moved(plan) == old(self)@);
                }
                MoveOutcome::NoPiece
            },
            Some(p) => {
                assert(all_in_bounds(p.cells@));
                assert forall|i: int| 0 <= i < 4 implies (#[trigger] p.cells@[i]).within_reach() by {
                    assert(p.cells@[i].in_bounds());
                }
                let made = plan_translation(&p.cells, dx, dy, self.board.grid());
                let ghost plan = old(self)@.translation(dx as int, dy as int);
                proof {
                    lemma_translation_keeps_valid(old(self)@, dx as int, dy as int);
                }
                self.carry_out(p, made, Ghost(plan))
            },
        }
    }

    /// Turns the piece in play a quarter about its pivot, the cell nearest
    /// to the centroid of the piece, if it is free to stand so: either all
    /// four cells move or none does. After an accepted turn the collision
    /// test of the piece where it now stands reports nothing.
    pub fn try_rotate(&mut self) -> (r: MoveOutcome)
        requires
            old(self).wf(),
        ensures
            final(self).wf(),
            r == old(self)@.move_outcome(old(self)@.rotation()),
            final(self)@ == old(self)@.moved(old(self)@.rotation()),
            r is Accepted ==> (final(self)@.active matches Some(q) && collision_of(
                q.cells@,
                q.cells@,
                final(self)@.board.grid,
            ).is_none()),
    {
        match self.active {
            None => {
                proof {
                    let plan = old(self)@.rotation();
                    assert(old(self)@.moved(plan) == old(self)@);
                }
                MoveOutcome::NoPiece
            },
            Some(p) => {
                assert(all_in_bounds(p.cells@));
                assert forall|i: int| 0 <= i < 4 implies (#[trigger] p.cells@[i]).within_reach() by {
                    assert(p.cells@[i].in_bounds());
                }
                let made = plan_rotation(&p.cells, self.board.grid());
                let ghost plan = old(self)@.rotation();
                proof {
                    lemma_rotation_keeps_valid(old(self)@);
                }
                self.carry_out(p, made, Ghost(plan))
            },
        }
    }

    /// Applies one move that the player asks for: a step to the left, to the
    /// right or down, or a quarter turn.
    pub fn on_input(&mut self, input: Input) -> (r: MoveOutcome)
        requires
            old(self).wf(),
        ensures
            final(self).wf(),
            r == old(self)@.move_outcome(old(self)@.plan_for(input)),
            final(self)@ == old(self)@.moved(old(self)@.plan_for(input)),
            r is Accepted ==> (final(self)@.active matches Some(q) && collision_of(
                q.cells@,
                q.cells@,
                final(self)@.board.grid,
            ).is_none()),
    {
        match input {
            Input::Left => self.try_translate(-1, 0),
            Input::Right => self.try_translate(1, 0),
            Input::Down => self.try_translate(0, -1),
            Input::Rotate => self.try_rotate(),
        }
    }

    /// Settles the piece in play: writes its four cells into the grid where
    /// they stand, registers them as one group, and leaves no piece in play.
    /// Tells whether there was a piece to settle.
    pub fn settle(&mut self) -> (settled: bool)
        requires
            old(self).wf(),
        ensures
            final(self).wf(),
            settled == old(self)@.active.is_some(),
            old(self)@.settles_to(final(self)@),
            final(self)@.settled_count() == old(self)@.settled_count()
                + old(self)@.falling_count(),
    {
        match self.active {
            None => false,
            Some(p) => {
                let ids = list_of(&p.ids);
                let coords = list_of(&p.cells);
                let done = self.board.settle_group(&ids, &coords);
                assert(done.is_ok());
                self.active = None;
                true
            },
        }
    }

    /// Clears the full rows of the board, while the piece in play, if any,
    /// stands in the two highest rows.
    fn clear_lines(&mut self) -> (rows: usize)
        requires
            old(self).wf(),
            old(self)@.piece_high(),
        ensures
            final(self).wf(),
            old(self)@.clears_to(final(self)@, rows as int),
            final(self)@.settled_count() + WIDTH * rows == old(self)@.settled_count(),
    {
        let rows = self.board.clear_lines();
        proof {
            let before = old(self)@;
            let after = self@;
            if let Some(p) = before.active {
                assert forall|i: int| 0 <= i < 4 implies after.board.grid[(
                #[trigger] p.cells@[i]).slot()].is_none() by {
                    assert(p.cells@[i].in_bounds());
                    assert(before.board.grid[p.cells@[i].slot()].is_none());
                    if rows > 0 {
                        lemma_high_slot_stays_free(before.board.grid, p.cells@[i]);
                    }
                }
                assert forall|i: int| 0 <= i < 4 implies !after.board.registry.groups.dom().contains(
                    #[trigger] p.ids@[i],
                ) && !after.board.registry.detached.contains(p.ids@[i]) by {
                    assert(!before.board.registry.groups.dom().contains(p.ids@[i]));
                    assert(!before.board.registry.detached.contains(p.ids@[i]));
                }
                assert(after.board.registry.registrable(p.ids@).is_ok());
                assert(after.piece_ok(p));
            }
        }
        rows
    }

    /// Makes the downward attempt of a step: brings the piece in play down
    /// one row if it is free to stand there, and tells what the attempt
    /// means. It is a fall or a landing; nothing else comes of it.
    pub fn apply_gravity(&mut self) -> (r: Result<Gravity, TickError>)
        requires
            old(self).wf(),
        ensures
            final(self).wf(),
            r == old(self)@.gravity(),
            r == Ok::<Gravity, TickError>(Gravity::Fell) || r == Ok::<Gravity, TickError>(
                Gravity::Landed,
            ),
            r == Ok::<Gravity, TickError>(Gravity::Fell) ==> final(self)@ == old(self)@.moved(
                old(self)@.translation(0, -1),
            ),
            r != Ok::<Gravity, TickError>(Gravity::Fell) ==> final(self)@ == old(self)@,
    {
        proof {
            lemma_gravity_consistent(old(self)@);
        }
        let outcome = self.try_translate(0, -1);
        gravity_decision(outcome)
    }

    /// What follows a landing: the piece in play settles, a piece of shape
    /// `shape` and colour `color` is called for, and the full rows are
    /// cleared.
    fn land(&mut self, shape: ShapeTypes, color: Color) -> (r: (usize, SpawnOutcome))
        requires
            old(self).wf(),
        ensures
            final(self).wf(),
            old(self)@.lands_to(shape, color, final(self)@, r.0 as int, r.1),
            final(self)@.settled_count() + WIDTH * r.0 == old(self)@.settled_count()
                + old(self)@.falling_count(),
    {
        self.settle();
        let ghost settled = self@;
        let spawn = self.spawn_shape(shape, color);
        let rows = self.clear_lines();
        proof {
            assert(old(self)@.settles_to(settled) && spawn == settled.spawn_outcome(shape)
                && settled.spawned(shape, color).clears_to(self@, rows as int));
        }
        (rows, spawn)
    }

    /// Advances the simulation by one step, with `shape` and `color` for the
    /// piece that is called for if the piece in play lands.
    ///
    /// The piece in play comes down one row if it can. If it cannot, or if
    /// there is none, it settles, the new piece is called for, and then the
    /// full rows are cleared. Once the game is over nothing happens. The
    /// step of a simulation that is in order never ends in a fault. No cell
    /// is lost or made but by a landing, which settles the cells of the
    /// piece and takes off as many cells as the field is wide for each row
    /// that it clears.
    pub fn tick(&mut self, shape: ShapeTypes, color: Color) -> (r: Result<TickOutcome, TickError>)
        requires
            old(self).wf(),
        ensures
            final(self).wf(),
            old(self)@.ticks_to(shape, color, final(self)@, r),
            r.is_ok(),
            r matches Ok(TickOutcome::Landed { rows_cleared, .. })
                ==> final(self)@.settled_count() + WIDTH * rows_cleared
                == old(self)@.settled_count() + old(self)@.falling_count(),
            !(r matches Ok(TickOutcome::Landed { .. }))
                ==> final(self)@.settled_count() == old(self)@.settled_count(),
    {
        if self.spawn_blocked {
            return Ok(TickOutcome::GameOver);
        }
        match self.apply_gravity() {
            Err(e) => Err(e),
            Ok(Gravity::Fell) => Ok(TickOutcome::Fell),
            Ok(Gravity::Held) => Ok(TickOutcome::Held),
            Ok(Gravity::Landed) => {
                let (rows_cleared, spawn) = self.land(shape, color);
                Ok(TickOutcome::Landed { rows_cleared, spawn })
            },
        }
    }

    /// Advances the simulation by one step. The shape and the colour of a
    /// piece that is called for are drawn by chance, and only then.
    pub fn on_tick(&mut self) -> (r: Result<TickOutcome, TickError>)
        requires
            old(self).wf(),
        ensures
            final(self).wf(),
            exists|shape: ShapeTypes, color: Color| #[trigger]
                old(self)@.ticks_to(shape, color, final(self)@, r),
            r.is_ok(),
            r matches Ok(TickOutcome::Landed { rows_cleared, .. })
                ==> final(self)@.settled_count() + WIDTH * rows_cleared
                == old(self)@.settled_count() + old(self)@.falling_count(),
            !(r matches Ok(TickOutcome::Landed { .. }))
                ==> final(self)@.settled_count() == old(self)@.settled_count(),
    {
        if self.spawn_blocked {
            assert(old(self)@.ticks_to(
                ShapeTypes::Square,
                Color { r: 0, g: 0, b: 0 },
                self@,
                Ok(TickOutcome::GameOver),
            ));
            return Ok(TickOutcome::GameOver);
        }
        match self.apply_gravity() {
            Err(e) => {
                assert(old(self)@.ticks_to(
                    ShapeTypes::Square,
                    Color { r: 0, g: 0, b: 0 },
                    self@,
                    Err(e),
                ));
                Err(e)
            },
            Ok(Gravity::Fell) => {
                assert(old(self)@.ticks_to(
                    ShapeTypes::Square,
                    Color { r: 0, g: 0, b: 0 },
                    self@,
                    Ok(TickOutcome::Fell),
                ));
                Ok(TickOutcome::Fell)
            },
            Ok(Gravity::Held) => {
                assert(old(self)@.ticks_to(
                    ShapeTypes::Square,
                    Color { r: 0, g: 0, b: 0 },
                    self@,
                    Ok(TickOutcome::Held),
                ));
                Ok(TickOutcome::Held)
            },
            Ok(Gravity::Landed) => {
                let shape = random_shape();
                let color = generate_random_color();
                let (rows_cleared, spawn) = self.land(shape, color);
                assert(old(self)@.ticks_to(
                    shape,
                    color,
                    self@,
                    Ok(TickOutcome::Landed { rows_cleared, spawn }),
                ));
                Ok(TickOutcome::Landed { rows_cleared, spawn })
            },
        }
    }

    /// Advances the simulation by one step after the move that the player
    /// has asked for since the last: the move is applied first, so that a
    /// step aside at the last moment can keep the piece from landing.
    pub fn advance(&mut self, pending: Option<Input>) -> (r: (
        Option<MoveOutcome>,
        Result<TickOutcome, TickError>,
    ))
        requires
            old(self).wf(),
        ensures
            final(self).wf(),
            r.1.is_ok(),
            match pending {
                None => r.0.is_none() && exists|shape: ShapeTypes, color: Color| #[trigger]
                    old(self)@.ticks_to(shape, color, final(self)@, r.1),
                Some(input) => r.0 == Some(old(self)@.move_outcome(old(self)@.plan_for(input)))
                    && exists|shape: ShapeTypes, color: Color| #[trigger]
                    old(self)@.moved(old(self)@.plan_for(input)).ticks_to(
                        shape,
                        color,
                        final(self)@,
                        r.1,
                    ),
            },
    {
        let moved = match pending {
            Some(input) => Some(self.on_input(input)),
            None => None,
        };
        let ticked = self.on_tick();
        (moved, ticked)
    }
}

} // verus!
