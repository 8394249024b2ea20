//! The occupancy table of the playing field.

use vstd::prelude::*;
use crate::coord::{Coord, WIDTH, HEIGHT, SLOTS};

verus! {

/// Why a write to the grid was refused.
#[derive(Clone, Copy, Debug, PartialEq, Eq, Structural)]
pub enum GridError {
    /// The slot already holds a cell.
    SlotOccupied,
}

/// Number of occupied slots in a table of slots.
pub open spec fn occupied_count(s: Seq<Option<usize>>) -> nat
    decreases s.len(),
{
    if s.len() == 0 {
        0
    } else {
        occupied_count(s.drop_last()) + if s.last().is_some() { 1nat } else { 0nat }
    }
}

/// What the table `s` holds at column `x` of row `y`.
pub open spec fn cell_at(s: Seq<Option<usize>>, x: int, y: int) -> Option<usize> {
    s[y * WIDTH + x]
}

/// Every column of row `row` is occupied in the table `s`.
pub open spec fn row_full(s: Seq<Option<usize>>, row: int) -> bool {
    forall|x: int| 0 <= x < WIDTH ==> (#[trigger] cell_at(s, x, row)).is_some()
}

/// Number of full rows among the rows below `rows`.
pub open spec fn full_rows(s: Seq<Option<usize>>, rows: int) -> nat
    decreases rows,
{
    if rows <= 0 {
        0
    } else {
        full_rows(s, rows - 1) + if row_full(s, rows - 1) { 1nat } else { 0nat }
    }
}

/// The table with every full row emptied.
pub open spec fn without_full_rows(s: Seq<Option<usize>>) -> Seq<Option<usize>> {
    Seq::new(
        s.len(),
        |i: int|
            if row_full(s, i / (WIDTH as int)) {
                None
            } else {
                s[i]
            },
    )
}

/// The occupants of column `x` in the rows below `rows`, from the floor up.
pub open spec fn stack(s: Seq<Option<usize>>, x: int, rows: int) -> Seq<usize>
    decreases rows,
{
    if rows <= 0 {
        Seq::empty()
    } else {
        match cell_at(s, x, rows - 1) {
            Some(id) => stack(s, x, rows - 1).push(id),
            None => stack(s, x, rows - 1),
        }
    }
}

/// The table with the occupants of each column stacked on the floor, in the
/// order they had from the floor up.
pub open spec fn compacted(s: Seq<Option<usize>>) -> Seq<Option<usize>> {
    Seq::new(
        s.len(),
        |i: int|
            {
                let column = stack(s, i % (WIDTH as int), HEIGHT as int);
                if i / (WIDTH as int) < column.len() {
                    Some(column[i / (WIDTH as int)])
                } else {
                    None
                }
            },
    )
}

/// The table after its full rows were removed and what stood above them, or
/// above any other gap, came down.
pub open spec fn cleared(s: Seq<Option<usize>>) -> Seq<Option<usize>> {
    compacted(without_full_rows(s))
}

/// In every column the occupied slots reach down to the floor without a gap.
pub open spec fn gap_free(s: Seq<Option<usize>>) -> bool {
    forall|x: int, y: int|
        0 <= x < WIDTH && 0 < y < HEIGHT && (#[trigger] cell_at(s, x, y)).is_some() ==> cell_at(
            s,
            x,
            y - 1,
        ).is_some()
}

/// A column holds no more occupants than it has rows.
pub proof fn lemma_stack_len(s: Seq<Option<usize>>, x: int, rows: int)
    requires
        0 <= rows,
    ensures
        stack(s, x, rows).len() <= rows,
    decreases rows,
{
    if rows > 0 {
        lemma_stack_len(s, x, rows - 1);
    }
}

/// The occupants of a column depend on that column alone.
pub proof fn lemma_stack_of_column(a: Seq<Option<usize>>, b: Seq<Option<usize>>, x: int, rows: int)
    requires
        forall|y: int| 0 <= y < rows ==> cell_at(a, x, y) == cell_at(b, x, y),
    ensures
        stack(a, x, rows) == stack(b, x, rows),
    decreases rows,
{
    if rows > 0 {
        lemma_stack_of_column(a, b, x, rows - 1);
    }
}

/// A column with two empty slots holds at least two occupants fewer than it
/// has rows.
pub proof fn lemma_stack_gaps(s: Seq<Option<usize>>, x: int, rows: int, a: int, b: int)
    requires
        0 <= a < b < rows,
        cell_at(s, x, a).is_none(),
        cell_at(s, x, b).is_none(),
    ensures
        stack(s, x, rows).len() <= rows - 2,
    decreases rows,
{
    if rows - 1 == b {
        lemma_stack_gap(s, x, rows - 1, a);
    } else {
        lemma_stack_gaps(s, x, rows - 1, a, b);
    }
}

/// A column with an empty slot holds fewer occupants than it has rows.
pub proof fn lemma_stack_gap(s: Seq<Option<usize>>, x: int, rows: int, a: int)
    requires
        0 <= a < rows,
        cell_at(s, x, a).is_none(),
    ensures
        stack(s, x, rows).len() <= rows - 1,
    decreases rows,
{
    if rows - 1 == a {
        lemma_stack_len(s, x, rows - 1);
    } else {
        lemma_stack_gap(s, x, rows - 1, a);
    }
}

/// Where some row below `rows` counts as full, one of them is.
pub proof fn lemma_some_full_row(s: Seq<Option<usize>>, rows: int) -> (y: int)
    requires
        full_rows(s, rows) > 0,
    ensures
        0 <= y < rows,
        row_full(s, y),
    decreases rows,
{
    if row_full(s, rows - 1) {
        rows - 1
    } else {
        lemma_some_full_row(s, rows - 1)
    }
}

/// When full rows are cleared, a slot of the two highest rows that was empty
/// is empty afterwards.
pub proof fn lemma_high_slot_stays_free(s: Seq<Option<usize>>, c: Coord)
    requires
        s.len() == SLOTS,
        c.in_bounds(),
        c.y >= HEIGHT - 2,
        s[c.slot()].is_none(),
        full_rows(s, HEIGHT as int) > 0,
    ensures
        cleared(s)[c.slot()].is_none(),
{
    let yf = lemma_some_full_row(s, HEIGHT as int);
    let g = without_full_rows(s);
    let x = c.x as int;
    let y = c.y as int;
    assert(cell_at(s, x, y).is_none());
    assert(cell_at(s, x, yf).is_some());
    assert((yf * WIDTH + x) / (WIDTH as int) == yf);
    assert(cell_at(g, x, yf).is_none());
    assert(cell_at(g, x, y).is_none());
    if yf < y {
        lemma_stack_gaps(g, x, HEIGHT as int, yf, y);
    } else {
        lemma_stack_gaps(g, x, HEIGHT as int, y, yf);
    }
    assert(c.slot() % (WIDTH as int) == x && c.slot() / (WIDTH as int) == y);
}

/// Number of occupied slots among the first `columns` slots of row `y`.
pub open spec fn row_count(s: Seq<Option<usize>>, y: int, columns: int) -> nat
    decreases columns,
{
    if columns <= 0 {
        0
    } else {
        row_count(s, y, columns - 1) + if cell_at(s, columns - 1, y).is_some() {
            1nat
        } else {
            0nat
        }
    }
}

/// Number of occupied slots in the columns below `columns`, each counted in
/// the rows below `rows`.
pub open spec fn region_count(s: Seq<Option<usize>>, columns: int, rows: int) -> nat
    decreases columns,
{
    if columns <= 0 {
        0
    } else {
        region_count(s, columns - 1, rows) + stack(s, columns - 1, rows).len()
    }
}

/// Counting a region row by row: one more row adds the occupied slots of
/// that row.
proof fn lemma_region_row(s: Seq<Option<usize>>, columns: int, y: int)
    requires
        0 <= columns,
        0 <= y,
    ensures
        region_count(s, columns, y + 1) == region_count(s, columns, y) + row_count(s, y, columns),
    decreases columns,
{
    if columns > 0 {
        lemma_region_row(s, columns - 1, y);
    }
}

/// Counting the table slot by slot: the first slots of a row add the
/// occupied ones among them.
proof fn lemma_count_row(s: Seq<Option<usize>>, y: int, columns: int)
    requires
        0 <= y,
        0 <= columns <= WIDTH,
        y * WIDTH + columns <= s.len(),
    ensures
        occupied_count(s.take(y * WIDTH + columns)) == occupied_count(s.take(y * WIDTH))
            + row_count(s, y, columns),
    decreases columns,
{
    if columns > 0 {
        lemma_count_row(s, y, columns - 1);
        let n = y * WIDTH + columns;
        assert(s.take(n).drop_last() =~= s.take(n - 1));
        assert(s.take(n).last() == cell_at(s, columns - 1, y));
    }
}

/// Counting the table slot by slot or column by column gives the same.
proof fn lemma_count_by_columns(s: Seq<Option<usize>>, rows: int)
    requires
        0 <= rows,
        rows * WIDTH <= s.len(),
    ensures
        occupied_count(s.take(rows * WIDTH)) == region_count(s, WIDTH as int, rows),
    decreases rows,
{
    if rows > 0 {
        lemma_count_by_columns(s, rows - 1);
        lemma_count_row(s, rows - 1, WIDTH as int);
        lemma_region_row(s, WIDTH as int, rows - 1);
    } else {
        lemma_region_empty(s, WIDTH as int);
    }
}

/// A region without rows counts nothing.
proof fn lemma_region_empty(s: Seq<Option<usize>>, columns: int)
    ensures
        region_count(s, columns, 0) == 0,
    decreases columns,
{
    if columns > 0 {
        lemma_region_empty(s, columns - 1);
    }
}

/// A compacted column holds as many occupants as it held before.
proof fn lemma_compacted_stack(s: Seq<Option<usize>>, x: int, rows: int)
    requires
        s.len() == SLOTS,
        0 <= x < WIDTH,
        0 <= rows <= HEIGHT,
    ensures
        stack(compacted(s), x, rows).len() == if rows <= stack(s, x, HEIGHT as int).len() {
            rows
        } else {
            stack(s, x, HEIGHT as int).len() as int
        },
    decreases rows,
{
    if rows > 0 {
        lemma_compacted_stack(s, x, rows - 1);
        let i = (rows - 1) * WIDTH + x;
        assert(i % (WIDTH as int) == x && i / (WIDTH as int) == rows - 1);
        assert(cell_at(compacted(s), x, rows - 1) == compacted(s)[i]);
    }
}

/// Emptying the full rows takes one occupant out of every column for each
/// full row.
proof fn lemma_emptied_stack(s: Seq<Option<usize>>, x: int, rows: int)
    requires
        s.len() == SLOTS,
        0 <= x < WIDTH,
        0 <= rows <= HEIGHT,
    ensures
        stack(without_full_rows(s), x, rows).len() + full_rows(s, rows) == stack(s, x, rows).len(),
    decreases rows,
{
    if rows > 0 {
        lemma_emptied_stack(s, x, rows - 1);
        let i = (rows - 1) * WIDTH + x;
        assert(i / (WIDTH as int) == rows - 1);
        assert(cell_at(without_full_rows(s), x, rows - 1) == without_full_rows(s)[i]);
        if row_full(s, rows - 1) {
            assert(cell_at(s, x, rows - 1).is_some());
        }
    }
}

/// Clearing takes as many occupants out of the first `columns` columns as
/// there are full rows, for each of these columns.
proof fn lemma_cleared_region(s: Seq<Option<usize>>, columns: int)
    requires
        s.len() == SLOTS,
        0 <= columns <= WIDTH,
    ensures
        region_count(cleared(s), columns, HEIGHT as int) + columns * full_rows(s, HEIGHT as int)
            == region_count(s, columns, HEIGHT as int),
    decreases columns,
{
    let k = full_rows(s, HEIGHT as int) as int;
    if columns > 0 {
        lemma_cleared_region(s, columns - 1);
        let x = columns - 1;
        let emptied = without_full_rows(s);
        lemma_compacted_stack(emptied, x, HEIGHT as int);
        lemma_stack_len(emptied, x, HEIGHT as int);
        lemma_emptied_stack(s, x, HEIGHT as int);
        assert(stack(cleared(s), x, HEIGHT as int).len() + k == stack(s, x, HEIGHT as int).len());
        assert(columns * k == (columns - 1) * k + k) by (nonlinear_arith);
    } else {
        assert(columns * k == 0) by (nonlinear_arith)
            requires
                columns == 0,
        ;
    }
}

/// Clearing the full rows takes exactly the cells of the full rows off the
/// table: as many as the table is wide, for each full row. What comes down
/// is neither lost nor doubled.
pub proof fn lemma_clearing_count(s: Seq<Option<usize>>)
    requires
        s.len() == SLOTS,
    ensures
        occupied_count(cleared(s)) + WIDTH * full_rows(s, HEIGHT as int) == occupied_count(s),
{
    let c = cleared(s);
    lemma_count_by_columns(s, HEIGHT as int);
    lemma_count_by_columns(c, HEIGHT as int);
    lemma_cleared_region(s, WIDTH as int);
    assert(s.take(HEIGHT * WIDTH) =~= s);
    assert(c.take(HEIGHT * WIDTH) =~= c);
}

/// A compacted table has no gap in any column.
pub proof fn lemma_compacted_gap_free(s: Seq<Option<usize>>)
    requires
        s.len() == SLOTS,
    ensures
        gap_free(compacted(s)),
        compacted(s).len() == SLOTS,
{
    let c = compacted(s);
    assert forall|x: int, y: int|
        0 <= x < WIDTH && 0 < y < HEIGHT && (#[trigger] cell_at(c, x, y)).is_some() implies cell_at(
        c,
        x,
        y - 1,
    ).is_some() by {
        let i = y * WIDTH + x;
        let j = (y - 1) * WIDTH + x;
        assert(i % (WIDTH as int) == x && i / (WIDTH as int) == y);
        assert(j % (WIDTH as int) == x && j / (WIDTH as int) == y - 1);
    }
}

/// Writing a slot changes the number of occupied slots by the difference
/// between what the slot holds after and before.
pub proof fn lemma_count_update(s: Seq<Option<usize>>, i: int, v: Option<usize>)
    requires
        0 <= i < s.len(),
    ensures
        occupied_count(s.update(i, v)) + (if s[i].is_some() { 1int } else { 0int })
            == occupied_count(s) + (if v.is_some() { 1int } else { 0int }),
    decreases s.len(),
{
    let t = s.update(i, v);
    if i == s.len() - 1 {
        assert(t.drop_last() =~= s.drop_last());
    } else {
        assert(t.drop_last() =~= s.drop_last().update(i, v));
        lemma_count_update(s.drop_last(), i, v);
    }
}

/// A table without occupied slots counts zero.
pub proof fn lemma_count_empty(s: Seq<Option<usize>>)
    requires
        forall|i: int| 0 <= i < s.len() ==> s[i].is_none(),
    ensures
        occupied_count(s) == 0,
    decreases s.len(),
{
    if s.len() > 0 {
        lemma_count_empty(s.drop_last());
    }
}

/// The occupancy table: each slot is empty or holds the identifier of the
/// cell that sits there.
pub struct Grid {
    slots: Vec<Option<usize>>,
}

impl View for Grid {
    type V = Seq<Option<usize>>;

    /// The slots row by row, from the floor up, each row from the left.
    closed spec fn view(&self) -> Seq<Option<usize>> {
        self.slots@
    }
}

impl Grid {
    /// The table has one slot for each coordinate of the field.
    pub open spec fn wf(&self) -> bool {
        self@.len() == SLOTS
    }

    /// What the slot at `c` holds.
    pub open spec fn at(&self, c: Coord) -> Option<usize> {
        self@[c.slot()]
    }

    /// Number of occupied slots.
    pub open spec fn count(&self) -> nat {
        occupied_count(self@)
    }

    /// An empty grid.
    pub fn new() -> (g: Grid)
        ensures
            g.wf(),
            forall|i: int| 0 <= i < SLOTS ==> g@[i].is_none(),
            g.count() == 0,
    {
        let mut slots: Vec<Option<usize>> = Vec::new();
        let mut i: usize = 0;
        while i < SLOTS
            invariant
                i <= SLOTS,
                slots@.len() == i,
                forall|k: int| 0 <= k < i ==> slots@[k].is_none(),
            decreases SLOTS - i,
        {
            slots.push(None);
            i += 1;
        }
        proof {
            lemma_count_empty(slots@);
        }
        Grid { slots }
    }

    /// The occupant of the slot at `c`, if any.
    pub fn occupied(&self, c: Coord) -> (r: Option<usize>)
        requires
            self.wf(),
            c.in_bounds(),
        ensures
            r == self.at(c),
    {
        let i: usize = c.slot_index();
        self.slots[i]
    }

    /// Writes the cell `id` into the slot at `c`, unless the slot is taken.
    pub fn place(&mut self, c: Coord, id: usize) -> (r: Result<(), GridError>)
        requires
            old(self).wf(),
            c.in_bounds(),
        ensures
            final(self).wf(),
            old(self).at(c).is_some() ==> r == Err::<(), GridError>(GridError::SlotOccupied)
                && final(self)@ == old(self)@,
            old(self).at(c).is_none() ==> r.is_ok()
                && final(self)@ == old(self)@.update(c.slot(), Some(id))
                && final(self).count() == old(self).count() + 1,
    {
        let i: usize = c.slot_index();
        if self.slots[i].is_some() {
            return Err(GridError::SlotOccupied);
        }
        proof {
            lemma_count_update(self.slots@, i as int, Some(id));
        }
        self.slots[i] = Some(id);
        Ok(())
    }

    /// Empties the slot at `c`.
    pub fn clear(&mut self, c: Coord)
        requires
            old(self).wf(),
            c.in_bounds(),
        ensures
            final(self).wf(),
            final(self)@ == old(self)@.update(c.slot(), None),
            final(self).count() + (if old(self).at(c).is_some() { 1int } else { 0int })
                == old(self).count(),
    {
        let i: usize = c.slot_index();
        proof {
            lemma_count_update(self.slots@, i as int, None);
        }
        self.slots[i] = None;
    }

    /// Tells whether every column of row `row` is occupied.
    pub fn is_row_full(&self, row: usize) -> (full: bool)
        requires
            self.wf(),
            row < HEIGHT,
        ensures
            full == row_full(self@, row as int),
    {
        let mut x: usize = 0;
        while x < WIDTH
            invariant
                self.wf(),
                row < HEIGHT,
                x <= WIDTH,
                forall|k: int| 0 <= k < x ==> (#[trigger] cell_at(self@, k, row as int)).is_some(),
            decreases WIDTH - x,
        {
            if self.slots[row * WIDTH + x].is_none() {
                assert(cell_at(self@, x as int, row as int).is_none());
                return false;
            }
            x += 1;
        }
        true
    }

    /// Number of occupied slots.
    pub fn count_occupied(&self) -> (n: usize)
        requires
            self.wf(),
        ensures
            n == self.count(),
    {
        let mut n: usize = 0;
        let mut i: usize = 0;
        while i < SLOTS
            invariant
                self.wf(),
                i <= SLOTS,
                n == occupied_count(self@.take(i as int)),
                n <= i,
            decreases SLOTS - i,
        {
            proof {
                assert(self@.take(i + 1).drop_last() =~= self@.take(i as int));
            }
            if self.slots[i].is_some() {
                n += 1;
            }
            i += 1;
        }
        proof {
            assert(self@.take(SLOTS as int) =~= self@);
        }
        n
    }
}

} // verus!
