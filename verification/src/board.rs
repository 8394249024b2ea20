//! The settled world: the grid, the records of the cells, and the registry
//! of their groups, kept consistent with one another.

use vstd::prelude::*;
use crate::coord::{Coord, WIDTH, HEIGHT, SLOTS};
use crate::grid::{
    Grid, cell_at, cleared, compacted, full_rows, gap_free, lemma_compacted_gap_free,
    lemma_stack_of_column, occupied_count, row_full, stack, without_full_rows,
};
use crate::piece::{Color, all_in_bounds, all_distinct};
use crate::registry::{
    Registry, RegistryView, RegistryError, lemma_without_none, lemma_without_one_more,
    lemma_without_all_twice,
};

verus! {

/// The record of a cell: where the board last put it, and its colour.
#[derive(Clone, Copy, Debug, PartialEq, Eq, Structural)]
pub struct Cell {
    pub pos: Coord,
    pub color: Color,
}

/// Why a group of cells was not settled.
#[derive(Clone, Copy, Debug, PartialEq, Eq, Structural)]
pub enum SettleError {
    /// There are not as many identifiers as coordinates.
    Mismatch,
    /// A coordinate lies outside the playing field.
    OutOfRange,
    /// A slot is occupied already.
    SlotOccupied,
    /// Two of the cells are to sit in the same slot.
    Overlap,
    /// The identifiers cannot be registered as a group.
    Group(RegistryError),
}

/// The settled world.
pub struct Board {
    grid: Grid,
    registry: Registry,
    cells: Vec<Cell>,
}

/// What a board holds.
pub struct BoardView {
    /// The slots of the grid, row by row from the floor up.
    pub grid: Seq<Option<usize>>,
    /// The groups of the settled cells.
    pub registry: RegistryView,
    /// The record of each cell, by identifier.
    pub cells: Seq<Cell>,
}

impl BoardView {
    /// The cell `id` has a record, and is the occupant of slot `s`, which is
    /// where its record says it is.
    pub open spec fn sits(self, id: usize, s: int) -> bool {
        &&& self.registry.groups.dom().contains(id)
        &&& self.cells[id as int].pos.in_bounds()
        &&& self.cells[id as int].pos.slot() == s
        &&& self.grid[s] == Some(id)
    }

    /// The board is consistent: every occupant of the grid is a cell with a
    /// group record that knows its slot, and every cell with a group record
    /// occupies the slot that its record names. So no cell occupies two
    /// slots.
    pub open spec fn valid(self) -> bool {
        &&& self.grid.len() == SLOTS
        &&& self.registry.valid()
        &&& self.cells.len() == self.registry.issued
        &&& forall|s: int|
            0 <= s < SLOTS && (#[trigger] self.grid[s]).is_some() ==> self.sits(self.grid[s]->0, s)
        &&& forall|id: usize| #[trigger]
            self.registry.groups.dom().contains(id) ==> self.sits(
                id,
                self.cells[id as int].pos.slot(),
            )
    }

    /// The cell `id` is settled in a full row.
    pub open spec fn in_full_row(self, id: usize) -> bool {
        self.registry.groups.dom().contains(id) && row_full(
            self.grid,
            self.cells[id as int].pos.y as int,
        )
    }

    /// The cells that are settled in full rows.
    pub open spec fn full_row_cells(self) -> Set<usize> {
        Set::new(|id: usize| self.in_full_row(id))
    }

    /// The cells that are settled in row `y`, in the columns below `columns`.
    pub open spec fn cells_of_row(self, y: int, columns: int) -> Set<usize> {
        Set::new(
            |id: usize|
                self.registry.groups.dom().contains(id) && self.cells[id as int].pos.y == y
                    && self.cells[id as int].pos.x < columns,
        )
    }

    /// The cells that are settled in full rows below row `rows`.
    pub open spec fn full_row_cells_below(self, rows: int) -> Set<usize> {
        Set::new(|id: usize| self.in_full_row(id) && self.cells[id as int].pos.y < rows)
    }

    /// `after` has the same cells as this board, each in its colour, and
    /// those that have no group record in `after` are recorded where they
    /// were.
    pub open spec fn cells_kept(self, after: BoardView) -> bool {
        &&& after.cells.len() == self.cells.len()
        &&& forall|k: int|
            0 <= k < self.cells.len() ==> (#[trigger] after.cells[k]).color == self.cells[k].color
        &&& forall|k: usize|
            k < self.cells.len() && !after.registry.groups.dom().contains(k)
                ==> #[trigger] after.cells[k as int] == self.cells[k as int]
    }

    /// `after` is this board with its full rows cleared: where there is
    /// none, the same grid, and else the grid with the full rows removed and
    /// every column let down; the removed cells detached from their groups;
    /// and every cell that is left recorded where it sits.
    pub open spec fn cleared_into(self, after: BoardView) -> bool {
        &&& after.grid == if full_rows(self.grid, HEIGHT as int) == 0 {
            self.grid
        } else {
            cleared(self.grid)
        }
        &&& after.registry == self.registry.without_all(self.full_row_cells())
        &&& self.cells_kept(after)
        &&& after.valid()
    }

    /// The occupied slots among the first `slots`, in their order from the
    /// floor up and in each row from the left: the coordinate of each with
    /// the colour of its occupant.
    pub open spec fn listing(self, slots: int) -> Seq<(Coord, Color)>
        decreases slots,
    {
        if slots <= 0 {
            Seq::empty()
        } else {
            let s = slots - 1;
            match self.grid[s] {
                Some(id) => self.listing(s).push(
                    (
                        Coord { x: (s % (WIDTH as int)) as i64, y: (s / (WIDTH as int)) as i64 },
                        self.cells[id as int].color,
                    ),
                ),
                None => self.listing(s),
            }
        }
    }

    /// What `settle_group` answers for the cells `ids` at `coords`.
    pub open spec fn settle_check(self, ids: Seq<usize>, coords: Seq<Coord>) -> Result<
        (),
        SettleError,
    > {
        if ids.len() != coords.len() {
            Err(SettleError::Mismatch)
        } else if !all_in_bounds(coords) {
            Err(SettleError::OutOfRange)
        } else if exists|i: int|
            0 <= i < coords.len() && self.grid[(#[trigger] coords[i]).slot()].is_some() {
            Err(SettleError::SlotOccupied)
        } else if !all_distinct(coords) {
            Err(SettleError::Overlap)
        } else {
            match self.registry.registrable(ids) {
                Err(e) => Err(SettleError::Group(e)),
                Ok(()) => Ok(()),
            }
        }
    }

    /// `after` is this board with the cells `ids` settled at `coords` as one
    /// group: each sits in its slot and knows it, and nothing else changed.
    pub open spec fn settled_into(self, after: BoardView, ids: Seq<usize>, coords: Seq<Coord>)
        -> bool {
        &&& after.grid.len() == self.grid.len()
        &&& after.cells.len() == self.cells.len()
        &&& after.registry == self.registry.with_group(ids)
        &&& forall|i: int|
            0 <= i < ids.len() ==> after.grid[(#[trigger] coords[i]).slot()] == Some(ids[i])
        &&& forall|i: int|
            0 <= i < ids.len() ==> after.cells[(#[trigger] ids[i]) as int] == (Cell {
                pos: coords[i],
                color: self.cells[ids[i] as int].color,
            })
        &&& forall|s: int|
            0 <= s < self.grid.len() && (forall|i: int|
                0 <= i < coords.len() ==> (#[trigger] coords[i]).slot() != s) ==> #[trigger]
            after.grid[s] == self.grid[s]
        &&& forall|k: int|
            0 <= k < self.cells.len() && !ids.contains(k as usize) ==> #[trigger] after.cells[k]
                == self.cells[k]
    }
}

impl View for Board {
    type V = BoardView;

    closed spec fn view(&self) -> BoardView {
        BoardView { grid: self.grid@, registry: self.registry@, cells: self.cells@ }
    }
}

impl Board {
    /// The parts of the board are each in order.
    pub closed spec fn inv(&self) -> bool {
        self.grid.wf() && self.registry.wf()
    }

    /// The board is in order: its parts are, and they agree with one another.
    pub open spec fn wf(&self) -> bool {
        self.inv() && self@.valid()
    }

    /// A board with no cell.
    pub fn new() -> (b: Board)
        ensures
            b.wf(),
            b@.cells.len() == 0,
            b@.registry.issued == 0,
            forall|s: int| 0 <= s < SLOTS ==> b@.grid[s].is_none(),
            occupied_count(b@.grid) == 0,
    {
        Board { grid: Grid::new(), registry: Registry::new(), cells: Vec::new() }
    }

    /// The grid of the board.
    pub fn grid(&self) -> (g: &Grid)
        requires
            self.wf(),
        ensures
            g.wf(),
            g@ == self@.grid,
    {
        &self.grid
    }

    /// The registry of the board.
    pub fn registry(&self) -> (r: &Registry)
        requires
            self.wf(),
        ensures
            r.wf(),
            r@ == self@.registry,
    {
        &self.registry
    }

    /// The record of the cell `id`, if that identifier was issued.
    pub fn cell(&self, id: usize) -> (c: Option<Cell>)
        ensures
            id < self@.cells.len() ==> c == Some(self@.cells[id as int]),
            id >= self@.cells.len() ==> c.is_none(),
    {
        if id < self.cells.len() {
            Some(self.cells[id])
        } else {
            None
        }
    }

    /// Number of cells created so far.
    pub fn cell_count(&self) -> (n: usize)
        ensures
            n == self@.cells.len(),
    {
        self.cells.len()
    }

    /// The other cells of the group of `id`, each once.
    pub fn group_of(&self, id: usize) -> (members: Vec<usize>)
        requires
            self.wf(),
        ensures
            members@.to_set() == self@.registry.group(id),
            members@.no_duplicates(),
    {
        self.registry.group_of(id)
    }

    /// Number of occupied slots of the grid.
    pub fn count_occupied(&self) -> (n: usize)
        requires
            self.wf(),
        ensures
            n == occupied_count(self@.grid),
    {
        self.grid.count_occupied()
    }

    /// The occupied slots, from the floor up and in each row from the left:
    /// the coordinate of each with the colour of its occupant.
    pub fn occupied_cells(&self) -> (list: Vec<(Coord, Color)>)
        requires
            self.wf(),
        ensures
            list@ == self@.listing(SLOTS as int),
    {
        let mut list: Vec<(Coord, Color)> = Vec::new();
        let mut y: usize = 0;
        while y < HEIGHT
            invariant
                y <= HEIGHT,
                self.wf(),
                list@ == self@.listing(y * WIDTH),
            decreases HEIGHT - y,
        {
            let mut x: usize = 0;
            while x < WIDTH
                invariant
                    y < HEIGHT,
                    x <= WIDTH,
                    self.wf(),
                    list@ == self@.listing(y * WIDTH + x),
                decreases WIDTH - x,
            {
                let c = Coord { x: x as i64, y: y as i64 };
                let ghost s = y * WIDTH + x;
                proof {
                    assert(s % (WIDTH as int) == x && s / (WIDTH as int) == y);
                    assert(c.slot() == s);
                }
                match self.grid.occupied(c) {
                    Some(id) => {
                        proof {
                            assert(self@.sits(id, s));
                        }
                        list.push((c, self.cells[id].color));
                    },
                    None => {},
                }
                x += 1;
            }
            y += 1;
        }
        list
    }

    /// Creates a cell of colour `color`, recorded at `pos`, and gives its
    /// identifier. The cell is in no group and in no slot yet.
    pub fn create_cell(&mut self, pos: Coord, color: Color) -> (id: usize)
        requires
            old(self).wf(),
        ensures
            final(self).wf(),
            id == old(self)@.cells.len(),
            final(self)@ == (BoardView {
                grid: old(self)@.grid,
                registry: RegistryView {
                    issued: old(self)@.registry.issued + 1,
                    ..old(self)@.registry
                },
                cells: old(self)@.cells.push(Cell { pos, color }),
            }),
    {
        let id = self.registry.issue();
        self.cells.push(Cell { pos, color });
        proof {
            let before = old(self)@;
            let after = self@;
            assert forall|s: int|
                0 <= s < SLOTS && (#[trigger] after.grid[s]).is_some() implies after.sits(
                after.grid[s]->0,
                s,
            ) by {
                assert(before.sits(before.grid[s]->0, s));
            }
            assert forall|k: usize| #[trigger]
                after.registry.groups.dom().contains(k) implies after.sits(
                k,
                after.cells[k as int].pos.slot(),
            ) by {
                assert(before.sits(k, before.cells[k as int].pos.slot()));
            }
        }
        id
    }

    /// Tells whether the cells `ids` can be settled at `coords`, and if not,
    /// why.
    pub fn check_settle(&self, ids: &Vec<usize>, coords: &Vec<Coord>) -> (r: Result<
        (),
        SettleError,
    >)
        requires
            self.wf(),
        ensures
            r == self@.settle_check(ids@, coords@),
    {
        let n = coords.len();
        if ids.len() != n {
            return Err(SettleError::Mismatch);
        }
        let mut i: usize = 0;
        while i < n
            invariant
                i <= n,
                n == coords@.len(),
                n == ids@.len(),
                self.wf(),
                forall|k: int| 0 <= k < i ==> (#[trigger] coords@[k]).in_bounds(),
            decreases n - i,
        {
            if !coords[i].is_in_bounds() {
                return Err(SettleError::OutOfRange);
            }
            i += 1;
        }
        i = 0;
        while i < n
            invariant
                i <= n,
                n == coords@.len(),
                n == ids@.len(),
                self.wf(),
                all_in_bounds(coords@),
                forall|k: int| 0 <= k < i ==> self@.grid[(#[trigger] coords@[k]).slot()].is_none(),
            decreases n - i,
        {
            if self.grid.occupied(coords[i]).is_some() {
                assert(self@.grid[coords@[i as int].slot()].is_some());
                return Err(SettleError::SlotOccupied);
            }
            i += 1;
        }
        i = 0;
        while i < n
            invariant
                i <= n,
                n == coords@.len(),
                n == ids@.len(),
                self.wf(),
                all_in_bounds(coords@),
                forall|k: int| 0 <= k < n ==> self@.grid[(#[trigger] coords@[k]).slot()].is_none(),
                forall|a: int, b: int| 0 <= a < i && a < b < n ==> coords@[a] != coords@[b],
            decreases n - i,
        {
            let mut j: usize = i + 1;
            while j < n
                invariant
                    i < j <= n,
                    n == coords@.len(),
                    n == ids@.len(),
                    self.wf(),
                n == ids@.len(),
                self.wf(),
                    all_in_bounds(coords@),
                    forall|k: int|
                        0 <= k < n ==> self@.grid[(#[trigger] coords@[k]).slot()].is_none(),
                    forall|b: int| i < b < j ==> coords@[i as int] != coords@[b],
                decreases n - j,
            {
                if coords[i] == coords[j] {
                    assert(!all_distinct(coords@));
                    return Err(SettleError::Overlap);
                }
                j += 1;
            }
            i += 1;
        }
        assert(all_distinct(coords@));
        match self.registry.check_group(ids) {
            Err(e) => Err(SettleError::Group(e)),
            Ok(()) => Ok(()),
        }
    }

    /// Settles the cells `ids` at `coords`: writes each into its slot of the
    /// grid, records where it sits, and registers the cells as one group.
    /// Either all of this happens or, where it cannot, nothing does.
    pub fn settle_group(&mut self, ids: &Vec<usize>, coords: &Vec<Coord>) -> (r: Result<
        (),
        SettleError,
    >)
        requires
            old(self).wf(),
        ensures
            final(self).wf(),
            r == old(self)@.settle_check(ids@, coords@),
            r.is_ok() ==> old(self)@.settled_into(final(self)@, ids@, coords@),
            r.is_ok() ==> occupied_count(final(self)@.grid) == occupied_count(old(self)@.grid)
                + ids@.len(),
            r.is_err() ==> final(self)@ == old(self)@,
    {
        match self.check_settle(ids, coords) {
            Err(e) => {
                return Err(e);
            },
            Ok(()) => {},
        }
        let ghost before = self@;
        let n = ids.len();
        let mut i: usize = 0;
        while i < n
            invariant
                i <= n,
                n == ids@.len(),
                n == coords@.len(),
                before.valid(),
                before.settle_check(ids@, coords@).is_ok(),
                self.grid.wf(),
                self.registry.wf(),
                self.registry@ == before.registry,
                self.cells@.len() == before.cells.len(),
                occupied_count(self.grid@) == occupied_count(before.grid) + i,
                forall|k: int|
                    0 <= k < i ==> self.grid@[(#[trigger] coords@[k]).slot()] == Some(ids@[k]),
                forall|k: int|
                    0 <= k < i ==> self.cells@[(#[trigger] ids@[k]) as int] == (Cell {
                        pos: coords@[k],
                        color: before.cells[ids@[k] as int].color,
                    }),
                forall|s: int|
                    0 <= s < SLOTS && (forall|k: int|
                        0 <= k < i ==> (#[trigger] coords@[k]).slot() != s) ==> #[trigger]
                    self.grid@[s] == before.grid[s],
                forall|c: int|
                    0 <= c < before.cells.len() && (forall|k: int|
                        0 <= k < i ==> #[trigger] ids@[k] != c) ==> #[trigger] self.cells@[c]
                        == before.cells[c],
            decreases n - i,
        {
            let c = coords[i];
            let id = ids[i];
            proof {
                assert(coords@[i as int].in_bounds());
                assert(before.grid[coords@[i as int].slot()].is_none());
                assert forall|k: int| 0 <= k < i implies (#[trigger] coords@[k]).slot()
                    != c.slot() by {
                    assert(coords@[k].in_bounds());
                    assert(coords@[k] != coords@[i as int]);
                }
                assert(ids@[i as int] < before.registry.issued);
                assert forall|k: int| 0 <= k < i implies #[trigger] ids@[k] != id by {
                    assert(ids@.no_duplicates());
                }
            }
            let placed = self.grid.place(c, id);
            assert(placed.is_ok());
            let color = self.cells[id].color;
            self.cells[id] = Cell { pos: c, color };
            i += 1;
        }
        let registered = self.registry.register_group(ids);
        proof {
            assert(registered.is_ok());
            let after = self@;
            assert forall|k: int|
                0 <= k < before.cells.len() && !ids@.contains(k as usize) implies #[trigger]
            after.cells[k] == before.cells[k] by {
                assert forall|j: int| 0 <= j < n implies #[trigger] ids@[j] != k by {
                    if ids@[j] == k {
                        assert(ids@.contains(k as usize));
                    }
                }
            }
            assert(before.settled_into(after, ids@, coords@));
            assert forall|s: int|
                0 <= s < SLOTS && (#[trigger] after.grid[s]).is_some() implies after.sits(
                after.grid[s]->0,
                s,
            ) by {
                if exists|k: int| 0 <= k < n && (#[trigger] coords@[k]).slot() == s {
                    let k = choose|k: int| 0 <= k < n && (#[trigger] coords@[k]).slot() == s;
                    assert(coords@[k].in_bounds());
                    assert(after.cells[ids@[k] as int].pos == coords@[k]);
                    assert(ids@.contains(ids@[k]));
                } else {
                    assert(after.grid[s] == before.grid[s]);
                    let id0 = before.grid[s]->0;
                    assert(before.sits(id0, s));
                    if ids@.contains(id0) {
                        let j = choose|j: int| 0 <= j < ids@.len() && ids@[j] == id0;
                        assert(!before.registry.groups.dom().contains(ids@[j]));
                    }
                    assert(after.cells[id0 as int] == before.cells[id0 as int]);
                }
            }
            assert forall|id: usize| #[trigger]
                after.registry.groups.dom().contains(id) implies after.sits(
                id,
                after.cells[id as int].pos.slot(),
            ) by {
                if ids@.contains(id) {
                    let k = choose|k: int| 0 <= k < ids@.len() && ids@[k] == id;
                    assert(after.cells[ids@[k] as int].pos == coords@[k]);
                    assert(coords@[k].in_bounds());
                } else {
                    assert(before.sits(id, before.cells[id as int].pos.slot()));
                    let s0 = before.cells[id as int].pos.slot();
                    assert(after.cells[id as int] == before.cells[id as int]);
                    assert forall|k: int| 0 <= k < n implies (#[trigger] coords@[k]).slot()
                        != s0 by {
                        assert(before.grid[coords@[k].slot()].is_none());
                    }
                    assert(after.grid[s0] == before.grid[s0]);
                }
            }
        }
        Ok(())
    }

    /// Removes the cells of row `y`, which is full: empties their slots and
    /// detaches them from their groups.
    fn remove_row(&mut self, y: usize)
        requires
            old(self).wf(),
            y < HEIGHT,
            row_full(old(self)@.grid, y as int),
        ensures
            final(self).wf(),
            forall|s: int|
                0 <= s < SLOTS ==> #[trigger] final(self)@.grid[s] == if y * WIDTH <= s < y * WIDTH
                    + WIDTH {
                    None
                } else {
                    old(self)@.grid[s]
                },
            final(self)@.registry == old(self)@.registry.without_all(old(self)@.cells_of_row(
                y as int,
                WIDTH as int,
            )),
            final(self)@.cells == old(self)@.cells,
            occupied_count(final(self)@.grid) + WIDTH == occupied_count(old(self)@.grid),
    {
        let ghost before = self@;
        proof {
            lemma_without_none(before.registry);
            assert(before.cells_of_row(y as int, 0) =~= Set::<usize>::empty());
        }
        let mut x: usize = 0;
        while x < WIDTH
            invariant
                x <= WIDTH,
                y < HEIGHT,
                before.valid(),
                row_full(before.grid, y as int),
                self.grid.wf(),
                self.registry.wf(),
                self.cells@ == before.cells,
                forall|s: int|
                    0 <= s < SLOTS ==> #[trigger] self.grid@[s] == if y * WIDTH <= s < y * WIDTH
                        + x {
                        None
                    } else {
                        before.grid[s]
                    },
                self.registry@ == before.registry.without_all(
                    before.cells_of_row(y as int, x as int),
                ),
                occupied_count(self.grid@) + x == occupied_count(before.grid),
            decreases WIDTH - x,
        {
            let c = Coord { x: x as i64, y: y as i64 };
            let ghost s0 = c.slot();
            proof {
                assert(cell_at(before.grid, x as int, y as int).is_some());
                assert(self.grid@[s0] == before.grid[s0]);
            }
            if let Some(id) = self.grid.occupied(c) {
                proof {
                    assert(before.sits(id, s0));
                    lemma_without_one_more(
                        before.registry,
                        before.cells_of_row(y as int, x as int),
                        id,
                    );
                    let so_far = before.cells_of_row(y as int, x as int);
                    let with_this = before.cells_of_row(y as int, x + 1);
                    assert forall|k: usize| with_this.contains(k) implies so_far.insert(
                        id,
                    ).contains(k) by {
                        if before.cells[k as int].pos.x == x {
                            assert(before.sits(k, before.cells[k as int].pos.slot()));
                        }
                    }
                    assert(so_far.insert(id) =~= with_this);
                }
                self.grid.clear(c);
                self.registry.detach(id);
            }
            x += 1;
        }
        proof {
            let after = self@;
            assert forall|s: int|
                0 <= s < SLOTS && (#[trigger] after.grid[s]).is_some() implies after.sits(
                after.grid[s]->0,
                s,
            ) by {
                assert(before.sits(before.grid[s]->0, s));
            }
            assert forall|id: usize| #[trigger]
                after.registry.groups.dom().contains(id) implies after.sits(
                id,
                after.cells[id as int].pos.slot(),
            ) by {
                assert(before.sits(id, before.cells[id as int].pos.slot()));
            }
        }
    }

    /// Lets the occupants of column `x` come down onto the floor and onto
    /// one another, in the order they have.
    fn compact_column(&mut self, x: usize)
        requires
            old(self).wf(),
            x < WIDTH,
        ensures
            final(self).wf(),
            forall|s: int|
                0 <= s < SLOTS ==> #[trigger] final(self)@.grid[s] == if s % (WIDTH as int) == x {
                    compacted(old(self)@.grid)[s]
                } else {
                    old(self)@.grid[s]
                },
            final(self)@.registry == old(self)@.registry,
            old(self)@.cells_kept(final(self)@),
            occupied_count(final(self)@.grid) == occupied_count(old(self)@.grid),
    {
        let ghost before = self@;
        let mut y: usize = 0;
        let mut w: usize = 0;
        while y < HEIGHT
            invariant
                x < WIDTH,
                w <= y <= HEIGHT,
                before.valid(),
                self.grid.wf(),
                self.registry.wf(),
                self@.valid(),
                self.registry@ == before.registry,
                before.cells_kept(self@),
                occupied_count(self.grid@) == occupied_count(before.grid),
                w == stack(before.grid, x as int, y as int).len(),
                forall|r: int|
                    0 <= r < w ==> #[trigger] cell_at(self.grid@, x as int, r) == Some(
                        stack(before.grid, x as int, y as int)[r],
                    ),
                forall|r: int| w <= r < y ==> (#[trigger] cell_at(self.grid@, x as int, r)).is_none(),
                forall|r: int|
                    y <= r < HEIGHT ==> #[trigger] cell_at(self.grid@, x as int, r) == cell_at(
                        before.grid,
                        x as int,
                        r,
                    ),
                forall|s: int|
                    0 <= s < SLOTS && s % (WIDTH as int) != x ==> #[trigger] self.grid@[s]
                        == before.grid[s],
            decreases HEIGHT - y,
        {
            let c = Coord { x: x as i64, y: y as i64 };
            let ghost mid = self@;
            proof {
                assert(cell_at(self.grid@, x as int, y as int) == cell_at(
                    before.grid,
                    x as int,
                    y as int,
                ));
            }
            match self.grid.occupied(c) {
                Some(id) => {
                    if w < y {
                        let dest = Coord { x: x as i64, y: w as i64 };
                        proof {
                            assert(mid.sits(id, c.slot()));
                            assert(cell_at(self.grid@, x as int, w as int).is_none());
                        }
                        self.grid.clear(c);
                        let placed = self.grid.place(dest, id);
                        assert(placed.is_ok());
                        let color = self.cells[id].color;
                        self.cells[id] = Cell { pos: dest, color };
                        proof {
                            let after = self@;
                            assert forall|s: int|
                                0 <= s < SLOTS && (#[trigger] after.grid[s]).is_some() implies after.sits(
                                after.grid[s]->0,
                                s,
                            ) by {
                                if s != dest.slot() {
                                    assert(mid.sits(mid.grid[s]->0, s));
                                }
                            }
                            assert forall|k: usize| #[trigger]
                                after.registry.groups.dom().contains(k) implies after.sits(
                                k,
                                after.cells[k as int].pos.slot(),
                            ) by {
                                if k != id {
                                    assert(mid.sits(k, mid.cells[k as int].pos.slot()));
                                }
                            }
                            assert forall|r: int| 0 <= r < HEIGHT && r != w && r != y implies cell_at(
                                after.grid,
                                x as int,
                                r,
                            ) == cell_at(mid.grid, x as int, r) by {}
                            assert(cell_at(after.grid, x as int, w as int) == Some(id));
                            assert(cell_at(after.grid, x as int, y as int).is_none());
                        }
                    }
                    w += 1;
                },
                None => {},
            }
            y += 1;
        }
        proof {
            let after = self@;
            let column = stack(before.grid, x as int, HEIGHT as int);
            assert forall|s: int| 0 <= s < SLOTS implies #[trigger] after.grid[s] == if s % (
            WIDTH as int) == x {
                compacted(before.grid)[s]
            } else {
                before.grid[s]
            } by {
                if s % (WIDTH as int) == x {
                    let r = s / (WIDTH as int);
                    assert(s == r * WIDTH + x);
                    assert(after.grid[s] == cell_at(after.grid, x as int, r));
                }
            }
        }
    }

    /// Lets the occupants of every column come down.
    fn compact(&mut self)
        requires
            old(self).wf(),
        ensures
            final(self).wf(),
            final(self)@.grid == compacted(old(self)@.grid),
            final(self)@.registry == old(self)@.registry,
            old(self)@.cells_kept(final(self)@),
            occupied_count(final(self)@.grid) == occupied_count(old(self)@.grid),
    {
        let ghost before = self@;
        let mut x: usize = 0;
        while x < WIDTH
            invariant
                x <= WIDTH,
                before.valid(),
                self.wf(),
                forall|s: int|
                    0 <= s < SLOTS ==> #[trigger] self@.grid[s] == if s % (WIDTH as int) < x {
                        compacted(before.grid)[s]
                    } else {
                        before.grid[s]
                    },
                self@.registry == before.registry,
                before.cells_kept(self@),
                occupied_count(self@.grid) == occupied_count(before.grid),
            decreases WIDTH - x,
        {
            let ghost mid = self@;
            proof {
                assert forall|y: int| 0 <= y < HEIGHT implies cell_at(mid.grid, x as int, y)
                    == cell_at(before.grid, x as int, y) by {
                    let s = y * WIDTH + x;
                    assert(s % (WIDTH as int) == x);
                    assert(mid.grid[s] == before.grid[s]);
                }
                lemma_stack_of_column(mid.grid, before.grid, x as int, HEIGHT as int);
            }
            self.compact_column(x);
            x += 1;
        }
        assert(self@.grid =~= compacted(before.grid));
    }

    /// Clears the full rows: removes their cells from the grid and from
    /// their groups, and then, in each column, lets what is left come down
    /// onto the floor, in the order it had. Tells how many rows were full.
    /// Where none is, nothing changes, gaps included.
    pub fn clear_lines(&mut self) -> (rows: usize)
        requires
            old(self).wf(),
        ensures
            final(self).wf(),
            rows == full_rows(old(self)@.grid, HEIGHT as int),
            rows == 0 ==> final(self)@ == old(self)@,
            rows > 0 ==> final(self)@.grid == cleared(old(self)@.grid),
            rows > 0 ==> gap_free(final(self)@.grid),
            old(self)@.cleared_into(final(self)@),
            occupied_count(final(self)@.grid) + WIDTH * rows == occupied_count(old(self)@.grid),
    {
        let ghost before = self@;
        let mut rows: usize = 0;
        let mut y: usize = 0;
        proof {
            lemma_without_none(before.registry);
            assert(before.full_row_cells_below(0) =~= Set::<usize>::empty());
        }
        while y < HEIGHT
            invariant
                y <= HEIGHT,
                rows <= y,
                rows == full_rows(before.grid, y as int),
                before.valid(),
                self.wf(),
                forall|s: int|
                    0 <= s < SLOTS ==> #[trigger] self@.grid[s] == if s < y * WIDTH && row_full(
                        before.grid,
                        s / (WIDTH as int),
                    ) {
                        None
                    } else {
                        before.grid[s]
                    },
                self@.registry == before.registry.without_all(
                    before.full_row_cells_below(y as int),
                ),
                self@.cells == before.cells,
                occupied_count(self@.grid) + WIDTH * rows == occupied_count(before.grid),
            decreases HEIGHT - y,
        {
            let ghost mid = self@;
            proof {
                assert forall|x: int| 0 <= x < WIDTH implies cell_at(mid.grid, x, y as int)
                    == cell_at(before.grid, x, y as int) by {
                    let s = y * WIDTH + x;
                    assert(mid.grid[s] == before.grid[s]);
                }
                assert(row_full(mid.grid, y as int) == row_full(before.grid, y as int));
            }
            if self.grid.is_row_full(y) {
                self.remove_row(y);
                rows += 1;
                proof {
                    lemma_without_all_twice(
                        before.registry,
                        before.full_row_cells_below(y as int),
                        mid.cells_of_row(y as int, WIDTH as int),
                    );
                    assert(before.full_row_cells_below(y as int).union(
                        mid.cells_of_row(y as int, WIDTH as int),
                    ) =~= before.full_row_cells_below(y + 1)) by {
                        assert forall|k: usize|
                            before.full_row_cells_below(y + 1).contains(
                                k,
                            ) implies before.full_row_cells_below(y as int).union(
                            mid.cells_of_row(y as int, WIDTH as int),
                        ).contains(k) by {
                            assert(before.sits(k, before.cells[k as int].pos.slot()));
                        }
                    }
                    assert forall|s: int| 0 <= s < SLOTS implies #[trigger] self@.grid[s] == if s
                        < (y + 1) * WIDTH && row_full(before.grid, s / (WIDTH as int)) {
                        None
                    } else {
                        before.grid[s]
                    } by {
                        if y * WIDTH <= s < y * WIDTH + WIDTH {
                            assert(s / (WIDTH as int) == y);
                        }
                    }
                }
            } else {
                proof {
                    assert(before.full_row_cells_below(y as int) =~= before.full_row_cells_below(
                        y + 1,
                    ));
                    assert forall|s: int| 0 <= s < SLOTS implies #[trigger] self@.grid[s] == if s
                        < (y + 1) * WIDTH && row_full(before.grid, s / (WIDTH as int)) {
                        None
                    } else {
                        before.grid[s]
                    } by {
                        if y * WIDTH <= s < y * WIDTH + WIDTH {
                            assert(s / (WIDTH as int) == y);
                        }
                    }
                }
            }
            y += 1;
        }
        proof {
            assert(before.full_row_cells_below(HEIGHT as int) =~= before.full_row_cells()) by {
                assert forall|k: usize|
                    before.full_row_cells().contains(k) implies before.full_row_cells_below(
                    HEIGHT as int,
                ).contains(k) by {
                    assert(before.sits(k, before.cells[k as int].pos.slot()));
                }
            }
            assert(self@.grid =~= without_full_rows(before.grid)) by {
                assert forall|s: int| 0 <= s < SLOTS implies self@.grid[s] == without_full_rows(
                    before.grid,
                )[s] by {
                    assert(s < HEIGHT * WIDTH);
                }
            }
        }
        if rows > 0 {
            self.compact();
            proof {
                lemma_compacted_gap_free(without_full_rows(before.grid));
            }
        } else {
            proof {
                lemma_no_full_rows(before.grid, HEIGHT as int);
                assert(self@.grid =~= before.grid) by {
                    assert forall|s: int| 0 <= s < SLOTS implies self@.grid[s]
                        == before.grid[s] by {
                        assert(0 <= s / (WIDTH as int) < HEIGHT);
                    }
                }
                assert(before.full_row_cells() =~= Set::<usize>::empty()) by {
                    assert forall|k: usize| !before.full_row_cells().contains(k) by {
                        if before.registry.groups.dom().contains(k) {
                            assert(before.sits(k, before.cells[k as int].pos.slot()));
                        }
                    }
                }
            }
        }
        rows
    }
}

/// Where no row below `rows` counts as full, none of them is.
pub proof fn lemma_no_full_rows(s: Seq<Option<usize>>, rows: int)
    requires
        full_rows(s, rows) == 0,
    ensures
        forall|y: int| 0 <= y < rows ==> !row_full(s, y),
    decreases rows,
{
    if rows > 0 {
        lemma_no_full_rows(s, rows - 1);
    }
}

} // verus!
