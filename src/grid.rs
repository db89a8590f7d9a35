//! The playing field: per-cell conquest and occupancy, and the list of cells
//! that are still unconquered.

use vstd::prelude::*;

verus! {

/// Number of columns of the grid.
pub const GRID_WIDTH: i32 = 320;

/// Number of rows of the grid.
pub const GRID_HEIGHT: i32 = 180;

/// Number of cells of the grid.
pub const CELL_COUNT: usize = 57600;

/// Who covers a cell with a live trail.
#[derive(Clone, Copy, PartialEq, Eq, Structural, Debug)]
pub enum Player {
    Human,
    Bot,
}

/// The state of one cell.
#[derive(Clone, Copy, Debug)]
pub struct CellState {
    pub conquered: bool,
    pub occupant: Option<Player>,
}

/// `(x, y)` lies on the grid.
pub open spec fn in_bounds(x: int, y: int) -> bool {
    0 <= x < 320 && 0 <= y < 180
}

/// Position of cell `(x, y)` in the column-by-column cell sequence.
pub open spec fn cell_index(x: int, y: int) -> int {
    x * 180 + y
}

/// The coordinates of the cell at position `i` of the cell sequence.
pub open spec fn cell_coord(i: int) -> (i32, i32) {
    ((i / 180) as i32, (i % 180) as i32)
}

/// `(x, y)` lies in the square `[cx - r, cx + r) x [cy - r, cy + r)`.
pub open spec fn in_box(cx: int, cy: int, r: int, x: int, y: int) -> bool {
    cx - r <= x < cx + r && cy - r <= y < cy + r
}

/// The unconquered cells among the first `n` of `cells`, in scan order.
pub open spec fn void_prefix(cells: Seq<CellState>, n: int) -> Seq<(i32, i32)>
    decreases n,
{
    if n <= 0 {
        Seq::empty()
    } else {
        let rest = void_prefix(cells, n - 1);
        if cells[n - 1].conquered {
            rest
        } else {
            rest.push(cell_coord(n - 1))
        }
    }
}

/// How many of the first `n` of `cells` are conquered.
pub open spec fn conquered_prefix(cells: Seq<CellState>, n: int) -> nat
    decreases n,
{
    if n <= 0 {
        0
    } else {
        conquered_prefix(cells, n - 1) + if cells[n - 1].conquered {
            1nat
        } else {
            0nat
        }
    }
}

/// The grid's cells and the list of its unconquered cells.
pub struct Grid {
    cells: Vec<CellState>,
    void_space: Vec<(i32, i32)>,
}

impl Grid {
    /// All cells, column by column.
    pub closed spec fn cells(&self) -> Seq<CellState> {
        self.cells@
    }

    /// The list of unconquered cells as last rebuilt.
    pub closed spec fn void(&self) -> Seq<(i32, i32)> {
        self.void_space@
    }

    pub open spec fn cell(&self, x: int, y: int) -> CellState {
        self.cells()[cell_index(x, y)]
    }

    /// Number of conquered cells.
    pub open spec fn conquered_count(&self) -> nat {
        conquered_prefix(self.cells(), 57600)
    }

    /// Every cell is present and the unconquered list is up to date.
    pub open spec fn wf(&self) -> bool {
        &&& self.cells().len() == 57600
        &&& self.void() == void_prefix(self.cells(), 57600)
    }

    /// A grid with no conquered and no occupied cell.
    pub fn blank() -> (g: Grid)
        ensures
            g.wf(),
            forall|x: int, y: int|
                in_bounds(x, y) ==> !(#[trigger] g.cell(x, y)).conquered && g.cell(x, y).occupant
                    is None,
    {
        let mut cells: Vec<CellState> = Vec::new();
        let mut i: usize = 0;
        while i < CELL_COUNT
            invariant
                i <= CELL_COUNT,
                cells@.len() == i,
                forall|k: int| 0 <= k < i ==> !(#[trigger] cells@[k]).conquered && cells@[k].occupant is None,
            decreases CELL_COUNT - i,
        {
            cells.push(CellState { conquered: false, occupant: None });
            i = i + 1;
        }
        let mut g = Grid { cells, void_space: Vec::new() };
        g.rebuild_unconquered();
        g
    }

    /// Recomputes the unconquered list by scanning every cell.
    pub fn rebuild_unconquered(&mut self)
        requires
            old(self).cells().len() == 57600,
        ensures
            final(self).wf(),
            final(self).cells() == old(self).cells(),
    {
        let mut v: Vec<(i32, i32)> = Vec::new();
        let mut x: usize = 0;
        while x < 320
            invariant
                x <= 320,
                self.cells@.len() == 57600,
                v@ == void_prefix(self.cells@, (x * 180) as int),
            decreases 320 - x,
        {
            let mut y: usize = 0;
            while y < 180
                invariant
                    y <= 180,
                    x < 320,
                    self.cells@.len() == 57600,
                    v@ == void_prefix(self.cells@, (x * 180 + y) as int),
                decreases 180 - y,
            {
                let i: usize = x * 180 + y;
                proof {
                    vstd::arithmetic::div_mod::lemma_fundamental_div_mod_converse(
                        i as int,
                        180,
                        x as int,
                        y as int,
                    );
                }
                if !self.cells[i].conquered {
                    v.push((x as i32, y as i32));
                }
                y = y + 1;
            }
            x = x + 1;
        }
        self.void_space = v;
    }
    /// Marks conquered every grid cell of the square
    /// `[cx - radius, cx + radius) x [cy - radius, cy + radius)`.
    pub fn conquer_radius(&mut self, cx: i32, cy: i32, radius: i32)
        requires
            old(self).cells().len() == 57600,
        ensures
            final(self).cells().len() == 57600,
            final(self).void() == old(self).void(),
            forall|x: int, y: int|
                in_bounds(x, y) ==> (#[trigger] final(self).cell(x, y)).conquered == (old(self).cell(
                    x,
                    y,
                ).conquered || in_box(cx as int, cy as int, radius as int, x, y)),
            forall|x: int, y: int|
                in_bounds(x, y) ==> (#[trigger] final(self).cell(x, y)).occupant == old(self).cell(
                    x,
                    y,
                ).occupant,
    {
        let lo_x: i64 = cx as i64 - radius as i64;
        let hi_x: i64 = cx as i64 + radius as i64;
        let lo_y: i64 = cy as i64 - radius as i64;
        let hi_y: i64 = cy as i64 + radius as i64;
        let x_lo: i64 = if lo_x < 0 { 0 } else { lo_x };
        let x_hi: i64 = if hi_x > 320 { 320 } else { hi_x };
        let y_lo: i64 = if lo_y < 0 { 0 } else { lo_y };
        let y_hi: i64 = if hi_y > 180 { 180 } else { hi_y };
        let mut x: i64 = x_lo;
        while x < x_hi
            invariant
                0 <= x_lo <= x,
                x <= x_hi || x == x_lo,
                x_hi <= 320,
                0 <= y_lo,
                y_hi <= 180,
                x_lo == if cx - radius < 0 { 0 } else { cx - radius },
                x_hi == if cx + radius > 320 { 320 } else { cx + radius },
                y_lo == if cy - radius < 0 { 0 } else { cy - radius },
                y_hi == if cy + radius > 180 { 180 } else { cy + radius },
                self.cells@.len() == 57600,
                self.void_space@ == old(self).void_space@,
                forall|a: int, b: int|
                    in_bounds(a, b) ==> (#[trigger] self.cells@[cell_index(a, b)]).conquered == (old(
                        self,
                    ).cells@[cell_index(a, b)].conquered || (x_lo <= a < x && y_lo <= b < y_hi)),
                forall|a: int, b: int|
                    in_bounds(a, b) ==> (#[trigger] self.cells@[cell_index(a, b)]).occupant == old(
                        self,
                    ).cells@[cell_index(a, b)].occupant,
            decreases x_hi - x,
        {
            let mut y: i64 = y_lo;
            while y < y_hi
                invariant
                    0 <= x_lo <= x < x_hi,
                    x_hi <= 320,
                    x_lo == if cx - radius < 0 { 0 } else { cx - radius },
                    x_hi == if cx + radius > 320 { 320 } else { cx + radius },
                    y_lo == if cy - radius < 0 { 0 } else { cy - radius },
                    y_hi == if cy + radius > 180 { 180 } else { cy + radius },
                    0 <= y_lo <= y,
                    y <= y_hi || y == y_lo,
                    y_hi <= 180,
                    self.cells@.len() == 57600,
                    self.void_space@ == old(self).void_space@,
                    forall|a: int, b: int|
                        in_bounds(a, b) ==> (#[trigger] self.cells@[cell_index(a, b)]).conquered == (
                        old(self).cells@[cell_index(a, b)].conquered || (x_lo <= a < x && y_lo <= b
                            < y_hi) || (a == x && y_lo <= b < y)),
                    forall|a: int, b: int|
                        in_bounds(a, b) ==> (#[trigger] self.cells@[cell_index(a, b)]).occupant
                            == old(self).cells@[cell_index(a, b)].occupant,
                decreases y_hi - y,
            {
                let i: usize = (x as usize) * 180 + (y as usize);
                let mut c = self.cells[i];
                c.conquered = true;
                self.cells.set(i, c);
                proof {
                    assert forall|a: int, b: int| in_bounds(a, b) && cell_index(a, b) == i implies a
                        == x && b == y by {
                        vstd::arithmetic::div_mod::lemma_fundamental_div_mod_converse(
                            i as int,
                            180,
                            a,
                            b,
                        );
                        vstd::arithmetic::div_mod::lemma_fundamental_div_mod_converse(
                            i as int,
                            180,
                            x as int,
                            y as int,
                        );
                    }
                }
                y = y + 1;
            }
            x = x + 1;
        }
    }

    /// True iff no unconquered cell is left.
    pub fn is_empty_void(&self) -> (r: bool)
        ensures
            r == (self.void().len() == 0),
    {
        self.void_space.len() == 0
    }

    /// Number of cells in the unconquered list.
    pub fn void_len(&self) -> (r: usize)
        ensures
            r == self.void().len(),
    {
        self.void_space.len()
    }

    /// The `k`-th entry of the unconquered list.
    pub fn void_at(&self, k: usize) -> (r: (i32, i32))
        requires
            k < self.void().len(),
        ensures
            r == self.void()[k as int],
    {
        self.void_space[k]
    }

    /// The state of cell `(x, y)`.
    pub fn cell_at(&self, x: i32, y: i32) -> (r: CellState)
        requires
            self.wf(),
            in_bounds(x as int, y as int),
        ensures
            r == self.cell(x as int, y as int),
    {
        self.cells[(x as usize) * 180 + (y as usize)]
    }

    /// Whether cell `(x, y)` is conquered.
    pub fn is_conquered(&self, x: i32, y: i32) -> (r: bool)
        requires
            self.wf(),
            in_bounds(x as int, y as int),
        ensures
            r == self.cell(x as int, y as int).conquered,
    {
        self.cells[(x as usize) * 180 + (y as usize)].conquered
    }

    /// The trail covering cell `(x, y)`, if any.
    pub fn occupant_at(&self, x: i32, y: i32) -> (r: Option<Player>)
        requires
            self.wf(),
            in_bounds(x as int, y as int),
        ensures
            r == self.cell(x as int, y as int).occupant,
    {
        self.cells[(x as usize) * 180 + (y as usize)].occupant
    }

    /// Sets the trail covering cell `(x, y)`; nothing else changes.
    pub fn set_occupant(&mut self, x: i32, y: i32, p: Option<Player>)
        requires
            old(self).wf(),
            in_bounds(x as int, y as int),
        ensures
            final(self).wf(),
            final(self).void() == old(self).void(),
            final(self).cell(x as int, y as int).occupant == p,
            final(self).cell(x as int, y as int).conquered == old(self).cell(x as int, y as int).conquered,
            forall|a: int, b: int|
                in_bounds(a, b) && !(a == x && b == y) ==> #[trigger] final(self).cell(a, b) == old(
                    self,
                ).cell(a, b),
    {
        let i: usize = (x as usize) * 180 + (y as usize);
        let mut c = self.cells[i];
        c.occupant = p;
        self.cells.set(i, c);
        proof {
            assert forall|a: int, b: int| in_bounds(a, b) && cell_index(a, b) == i implies a == x
                && b == y by {
                vstd::arithmetic::div_mod::lemma_fundamental_div_mod_converse(i as int, 180, a, b);
                vstd::arithmetic::div_mod::lemma_fundamental_div_mod_converse(
                    i as int,
                    180,
                    x as int,
                    y as int,
                );
            }
            lemma_void_ignores_occupant(old(self).cells@, self.cells@, 57600);
        }
    }
}

/// The unconquered list depends on the conquest flags alone.
proof fn lemma_void_ignores_occupant(c1: Seq<CellState>, c2: Seq<CellState>, n: int)
    requires
        0 <= n <= c1.len(),
        c1.len() == c2.len(),
        forall|k: int| 0 <= k < c1.len() ==> (#[trigger] c1[k]).conquered == c2[k].conquered,
    ensures
        void_prefix(c1, n) == void_prefix(c2, n),
    decreases n,
{
    if n > 0 {
        lemma_void_ignores_occupant(c1, c2, n - 1);
    }
}

/// Rebuilding the unconquered list twice with no change in between gives the
/// same list, order included: the list is fixed by the cells alone.
pub proof fn lemma_rebuild_idempotent(g: Grid, once: Grid, twice: Grid)
    requires
        g.cells().len() == 57600,
        once.wf(),
        once.cells() == g.cells(),
        twice.wf(),
        twice.cells() == once.cells(),
    ensures
        twice.void() == once.void(),
        twice.cells() == g.cells(),
{
}

/// The unconquered list and the conquered cells together account for every
/// cell of the grid.
pub proof fn lemma_void_count(g: Grid)
    requires
        g.wf(),
    ensures
        g.void().len() + g.conquered_count() == 320 * 180,
{
    lemma_prefix_count(g.cells(), 57600);
}

proof fn lemma_prefix_count(cells: Seq<CellState>, n: int)
    requires
        0 <= n,
    ensures
        void_prefix(cells, n).len() + conquered_prefix(cells, n) == n,
    decreases n,
{
    if n > 0 {
        lemma_prefix_count(cells, n - 1);
    }
}

/// Every entry of the unconquered list is an unconquered cell of the grid.
pub proof fn lemma_void_entry(g: Grid, k: int)
    requires
        g.wf(),
        0 <= k < g.void().len(),
    ensures
        in_bounds(g.void()[k].0 as int, g.void()[k].1 as int),
        !g.cell(g.void()[k].0 as int, g.void()[k].1 as int).conquered,
{
    lemma_prefix_entry(g.cells(), 57600, k);
}

proof fn lemma_prefix_entry(cells: Seq<CellState>, n: int, k: int)
    requires
        0 <= n <= cells.len(),
        cells.len() == 57600,
        0 <= k < void_prefix(cells, n).len(),
    ensures
        in_bounds(void_prefix(cells, n)[k].0 as int, void_prefix(cells, n)[k].1 as int),
        !cells[cell_index(void_prefix(cells, n)[k].0 as int, void_prefix(cells, n)[k].1 as int)].conquered,
    decreases n,
{
    let rest = void_prefix(cells, n - 1);
    if k < rest.len() {
        lemma_prefix_entry(cells, n - 1, k);
    } else {
        let j = n - 1;
        vstd::arithmetic::div_mod::lemma_fundamental_div_mod(j, 180);
        assert(0 <= j % 180 < 180) by {
            vstd::arithmetic::div_mod::lemma_mod_bound(j, 180);
        }
        assert(0 <= j / 180 < 320) by {
            vstd::arithmetic::div_mod::lemma_div_pos_is_pos(j, 180);
        }
    }
}

/// Every unconquered cell of the grid is in the unconquered list.
pub proof fn lemma_void_complete(g: Grid, x: int, y: int)
    requires
        g.wf(),
        in_bounds(x, y),
        !g.cell(x, y).conquered,
    ensures
        g.void().contains((x as i32, y as i32)),
{
    let i = cell_index(x, y);
    vstd::arithmetic::div_mod::lemma_fundamental_div_mod_converse(i, 180, x, y);
    lemma_prefix_complete(g.cells(), 57600, i);
}

proof fn lemma_prefix_complete(cells: Seq<CellState>, n: int, i: int)
    requires
        0 <= i < n <= cells.len(),
        !cells[i].conquered,
    ensures
        void_prefix(cells, n).contains(cell_coord(i)),
    decreases n,
{
    let v = void_prefix(cells, n);
    if i == n - 1 {
        assert(v[v.len() - 1] == cell_coord(i));
    } else {
        lemma_prefix_complete(cells, n - 1, i);
        let rest = void_prefix(cells, n - 1);
        let j = choose|j: int| 0 <= j < rest.len() && rest[j] == cell_coord(i);
        assert(v[j] == cell_coord(i));
    }
}

} // verus!
