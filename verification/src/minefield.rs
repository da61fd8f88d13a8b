//! The board model: a grid of cells, each with a kind (empty or mine) and a
//! state (hidden, opened or flagged), together with neighbor enumeration,
//! neighborhood counts, flood-fill opening and the solved / lost predicates.

use vstd::prelude::*;

verus! {

#[derive(Clone, Copy, Debug, PartialEq, Eq, Structural)]
pub enum CellKind {
    Empty,
    Mine,
}

#[derive(Clone, Copy, Debug, PartialEq, Eq, Structural)]
pub enum CellState {
    Hidden,
    Opened,
    Flagged,
}

#[derive(Clone, Copy, Debug, PartialEq, Eq, Structural)]
pub struct Cell {
    pub kind: CellKind,
    pub state: CellState,
}

/// Coordinate pairs as mathematical integers, for use in specifications.
pub open spec fn lifted(v: Seq<(usize, usize)>) -> Seq<(int, int)> {
    v.map_values(|p: (usize, usize)| (p.0 as int, p.1 as int))
}

/// The mathematical value of a board: a sequence of cells in row-major
/// order together with the grid dimensions.
#[verifier::ext_equal]
pub struct BoardView {
    pub cells: Seq<Cell>,
    pub width: nat,
    pub height: nat,
}

impl BoardView {
    /// The shape invariant: the flat cell sequence covers the whole grid.
    pub open spec fn wf(self) -> bool {
        self.cells.len() == self.width * self.height
    }

    pub open spec fn in_bounds(self, x: int, y: int) -> bool {
        0 <= x < self.width && 0 <= y < self.height
    }

    /// The flat index of the cell at `(x, y)`.
    pub open spec fn index_of(self, x: int, y: int) -> int {
        y * self.width + x
    }

    /// The column of the cell with flat index `i`.
    pub open spec fn x_of(self, i: int) -> int {
        i % self.width as int
    }

    /// The row of the cell with flat index `i`.
    pub open spec fn y_of(self, i: int) -> int {
        i / self.width as int
    }

    pub open spec fn cell_at(self, x: int, y: int) -> Cell {
        self.cells[self.index_of(x, y)]
    }

    /// The valid neighbors of `(x, y)`, in the order the engine visits them:
    /// row above, then the two side cells, then the row below.
    pub open spec fn neighbor_list(self, x: int, y: int) -> Seq<(int, int)> {
        self.maybe_pt(x - 1, y - 1) + self.maybe_pt(x, y - 1) + self.maybe_pt(x + 1, y - 1)
            + self.maybe_pt(x - 1, y) + self.maybe_pt(x + 1, y) + self.maybe_pt(x - 1, y + 1)
            + self.maybe_pt(x, y + 1) + self.maybe_pt(x + 1, y + 1)
    }

    pub open spec fn maybe_pt(self, x: int, y: int) -> Seq<(int, int)> {
        if self.in_bounds(x, y) {
            seq![(x, y)]
        } else {
            Seq::empty()
        }
    }

    /// Whether `(nx, ny)` is one of the eight neighbors of `(x, y)`.
    pub open spec fn adjacent(self, x: int, y: int, nx: int, ny: int) -> bool {
        &&& self.in_bounds(nx, ny)
        &&& !(nx == x && ny == y)
        &&& -1 <= nx - x <= 1
        &&& -1 <= ny - y <= 1
    }

    /// How many of the given points hold a mine.
    pub open spec fn mines_in(self, pts: Seq<(int, int)>) -> int
        decreases pts.len(),
    {
        if pts.len() == 0 {
            0
        } else {
            self.mines_in(pts.drop_last()) + if self.cell_at(
                pts.last().0,
                pts.last().1,
            ).kind is Mine {
                1int
            } else {
                0int
            }
        }
    }

    /// How many of the given points are flagged.
    pub open spec fn flags_in(self, pts: Seq<(int, int)>) -> int
        decreases pts.len(),
    {
        if pts.len() == 0 {
            0
        } else {
            self.flags_in(pts.drop_last()) + if self.cell_at(
                pts.last().0,
                pts.last().1,
            ).state is Flagged {
                1int
            } else {
                0int
            }
        }
    }

    /// The number of mines adjacent to `(x, y)`.
    pub open spec fn count_mines(self, x: int, y: int) -> int {
        self.mines_in(self.neighbor_list(x, y))
    }

    /// The number of flags adjacent to `(x, y)`.
    pub open spec fn count_flags(self, x: int, y: int) -> int {
        self.flags_in(self.neighbor_list(x, y))
    }

    /// A board is solved when every empty cell is opened and no mine is.
    pub open spec fn is_solved(self) -> bool {
        forall|i: int|
            0 <= i < self.cells.len() ==> {
                &&& (self.cells[i].kind is Empty ==> self.cells[i].state is Opened)
                &&& (self.cells[i].kind is Mine ==> !(self.cells[i].state is Opened))
            }
    }

    /// A board is lost when some mine has been opened.
    pub open spec fn is_lost(self) -> bool {
        exists|i: int| 0 <= i < self.cells.len() && self.cells[i].kind is Mine
            && self.cells[i].state is Opened
    }

    /// There is a chain of `n` steps from `(sx, sy)` to `(tx, ty)` in which
    /// every predecessor has no adjacent mine and every cell after the start
    /// is hidden.  Such chains are exactly what flood-fill opening follows.
    pub open spec fn reaches(self, sx: int, sy: int, tx: int, ty: int, n: nat) -> bool
        decreases n,
    {
        if n == 0 {
            tx == sx && ty == sy
        } else {
            exists|px: int, py: int|
                {
                    &&& self.reaches(sx, sy, px, py, (n - 1) as nat)
                    &&& self.count_mines(px, py) == 0
                    &&& self.adjacent(px, py, tx, ty)
                    &&& self.cell_at(tx, ty).state is Hidden
                }
        }
    }

    /// The cells that opening `(sx, sy)` uncovers: the start itself, and
    /// everything connected to it through cells with no adjacent mines.
    pub open spec fn in_open_region(self, sx: int, sy: int, tx: int, ty: int) -> bool {
        exists|n: nat| self.reaches(sx, sy, tx, ty, n)
    }

    /// The board after opening `(x, y)`: a no-op on an opened cell, and
    /// otherwise every cell of the open region becomes opened.
    pub open spec fn open_result(self, x: int, y: int) -> BoardView {
        if self.cell_at(x, y).state is Opened {
            self
        } else {
            BoardView {
                cells: Seq::new(
                    self.cells.len(),
                    |i: int|
                        Cell {
                            kind: self.cells[i].kind,
                            state: if self.in_open_region(x, y, self.x_of(i), self.y_of(i)) {
                                CellState::Opened
                            } else {
                                self.cells[i].state
                            },
                        },
                ),
                width: self.width,
                height: self.height,
            }
        }
    }
}

/// How many cells of the sequence hold a mine.
pub open spec fn count_mine_cells(cells: Seq<Cell>) -> int
    decreases cells.len(),
{
    if cells.len() == 0 {
        0
    } else {
        count_mine_cells(cells.drop_last()) + if cells.last().kind is Mine {
            1int
        } else {
            0int
        }
    }
}

/// How many cells of the sequence are flagged.
pub open spec fn count_flagged_cells(cells: Seq<Cell>) -> int
    decreases cells.len(),
{
    if cells.len() == 0 {
        0
    } else {
        count_flagged_cells(cells.drop_last()) + if cells.last().state is Flagged {
            1int
        } else {
            0int
        }
    }
}

/// How many cells of the sequence are hidden.
pub open spec fn count_hidden_cells(cells: Seq<Cell>) -> int
    decreases cells.len(),
{
    if cells.len() == 0 {
        0
    } else {
        count_hidden_cells(cells.drop_last()) + if cells.last().state is Hidden {
            1int
        } else {
            0int
        }
    }
}

/// How many cells of the sequence are not opened.
pub open spec fn count_unopened(cells: Seq<Cell>) -> int
    decreases cells.len(),
{
    if cells.len() == 0 {
        0
    } else {
        count_unopened(cells.drop_last()) + if cells.last().state is Opened {
            0int
        } else {
            1int
        }
    }
}

/// Two boards of the same shape whose cells hold the same kinds.
pub open spec fn same_kinds(a: BoardView, b: BoardView) -> bool {
    &&& b.width == a.width
    &&& b.height == a.height
    &&& b.cells.len() == a.cells.len()
    &&& forall|i: int| 0 <= i < a.cells.len() ==> b.cells[i].kind == a.cells[i].kind
}

/// The cell at `(x, y)` is opened in `c` but was not in `o`.
pub open spec fn newly_opened(o: BoardView, c: BoardView, x: int, y: int) -> bool {
    c.cell_at(x, y).state is Opened && !(o.cell_at(x, y).state is Opened)
}

/// Every state change from `o` to `c` opens a cell of the open region of
/// the start cell `(sx, sy)`; nothing else moves.
pub open spec fn opens_in_region(o: BoardView, c: BoardView, sx: int, sy: int) -> bool {
    forall|i: int|
        0 <= i < o.cells.len() ==> ((#[trigger] c.cells[i]).state == o.cells[i].state || (
        c.cells[i].state is Opened && !(o.cells[i].state is Opened) && o.in_open_region(
            sx,
            sy,
            o.x_of(i),
            o.y_of(i),
        )))
}

/// Every newly opened cell without adjacent mines has had its hidden
/// neighbors opened, except for the cells still waiting on the stack.
pub open spec fn closure_except(o: BoardView, c: BoardView, pending: Seq<(int, int)>) -> bool {
    forall|cx: int, cy: int, nx: int, ny: int|
        o.in_bounds(cx, cy) && newly_opened(o, c, cx, cy) && o.count_mines(cx, cy) == 0
            && !pending.contains((cx, cy)) && #[trigger] o.adjacent(cx, cy, nx, ny) && o.cell_at(
            nx,
            ny,
        ).state is Hidden ==> c.cell_at(nx, ny).state is Opened
}

/// What holds of every entry waiting on the flood-fill worklist: it lies on
/// the board, has no adjacent mines, and belongs to the open region.
pub open spec fn stack_entry_ok(o: BoardView, sx: int, sy: int, p: (int, int)) -> bool {
    &&& o.in_bounds(p.0, p.1)
    &&& o.count_mines(p.0, p.1) == 0
    &&& o.in_open_region(sx, sy, p.0, p.1)
}

pub open spec fn stack_ok(o: BoardView, sx: int, sy: int, pending: Seq<(int, int)>) -> bool {
    forall|k: int| 0 <= k < pending.len() ==> stack_entry_ok(o, sx, sy, #[trigger] pending[k])
}

/// A minefield: `width * height` cells in row-major order, so that index
/// `y * width + x` addresses the cell at column `x` of row `y`.
#[derive(Clone, Debug, PartialEq, Eq)]
pub struct Minefield {
    pub cells: Vec<Cell>,
    pub width: usize,
    pub height: usize,
}

impl View for Minefield {
    type V = BoardView;

    open spec fn view(&self) -> BoardView {
        BoardView { cells: self.cells@, width: self.width as nat, height: self.height as nat }
    }
}

impl Minefield {
    /// The flat index of `(x, y)`, shown to lie inside the cell vector.
    pub(crate) fn flat_index(&self, x: usize, y: usize) -> (i: usize)
        requires
            self@.wf(),
            self@.in_bounds(x as int, y as int),
        ensures
            i == self@.index_of(x as int, y as int),
            i < self@.cells.len(),
    {
        proof {
            lemma_index_bound(self@, x as int, y as int);
        }
        let n: usize = self.cells.len();
        y * self.width + x
    }

    /// Builds a board of the given size with every cell hidden and of the
    /// given kind.
    fn filled(width: usize, height: usize, kind: CellKind) -> (r: Minefield)
        requires
            width * height <= usize::MAX,
        ensures
            r.width == width,
            r.height == height,
            r@.wf(),
            forall|i: int| 0 <= i < r@.cells.len() ==> r@.cells[i] == (Cell {
                kind,
                state: CellState::Hidden,
            }),
    {
        let n: usize = width * height;
        let mut cells: Vec<Cell> = Vec::new();
        let mut i: usize = 0;
        while i < n
            invariant
                i <= n,
                cells@.len() == i,
                forall|j: int| 0 <= j < i ==> cells@[j] == (Cell {
                    kind,
                    state: CellState::Hidden,
                }),
            decreases n - i,
        {
            cells.push(Cell { kind, state: CellState::Hidden });
            i = i + 1;
        }
        Minefield { cells, width, height }
    }

    /// A board of hidden mines only.
    pub fn full(width: usize, height: usize) -> (r: Minefield)
        requires
            width * height <= usize::MAX,
        ensures
            r.width == width,
            r.height == height,
            r@.wf(),
            forall|i: int| 0 <= i < r@.cells.len() ==> r@.cells[i] == (Cell {
                kind: CellKind::Mine,
                state: CellState::Hidden,
            }),
    {
        Self::filled(width, height, CellKind::Mine)
    }

    /// A board of hidden empty cells only.
    pub fn new(width: usize, height: usize) -> (r: Minefield)
        requires
            width * height <= usize::MAX,
        ensures
            r.width == width,
            r.height == height,
            r@.wf(),
            forall|i: int| 0 <= i < r@.cells.len() ==> r@.cells[i] == (Cell {
                kind: CellKind::Empty,
                state: CellState::Hidden,
            }),
    {
        Self::filled(width, height, CellKind::Empty)
    }

    /// The valid neighbor coordinates of `(x, y)`, clipped at the edges.
    pub fn neighbors(&self, x: usize, y: usize) -> (r: Vec<(usize, usize)>)
        requires
            self@.in_bounds(x as int, y as int),
        ensures
            lifted(r@) == self@.neighbor_list(x as int, y as int),
            forall|k: int| 0 <= k < r@.len() ==> self@.in_bounds(r@[k].0 as int, r@[k].1 as int),
    {
        let mut r: Vec<(usize, usize)> = Vec::new();
        let ghost mut s: Seq<(int, int)> = Seq::empty();
        if x > 0 && y > 0 {
            r.push((x - 1, y - 1));
        }
        proof {
            s = s + self@.maybe_pt(x - 1, y - 1);
            assert(lifted(r@) =~= s);
        }
        if y > 0 {
            r.push((x, y - 1));
        }
        proof {
            s = s + self@.maybe_pt(x as int, y - 1);
            assert(lifted(r@) =~= s);
        }
        if x + 1 < self.width && y > 0 {
            r.push((x + 1, y - 1));
        }
        proof {
            s = s + self@.maybe_pt(x + 1, y - 1);
            assert(lifted(r@) =~= s);
        }
        if x > 0 {
            r.push((x - 1, y));
        }
        proof {
            s = s + self@.maybe_pt(x - 1, y as int);
            assert(lifted(r@) =~= s);
        }
        if x + 1 < self.width {
            r.push((x + 1, y));
        }
        proof {
            s = s + self@.maybe_pt(x + 1, y as int);
            assert(lifted(r@) =~= s);
        }
        if x > 0 && y + 1 < self.height {
            r.push((x - 1, y + 1));
        }
        proof {
            s = s + self@.maybe_pt(x - 1, y + 1);
            assert(lifted(r@) =~= s);
        }
        if y + 1 < self.height {
            r.push((x, y + 1));
        }
        proof {
            s = s + self@.maybe_pt(x as int, y + 1);
            assert(lifted(r@) =~= s);
        }
        if x + 1 < self.width && y + 1 < self.height {
            r.push((x + 1, y + 1));
        }
        proof {
            s = s + self@.maybe_pt(x + 1, y + 1);
            assert(lifted(r@) =~= s);
            assert(s == self@.neighbor_list(x as int, y as int));
            assert forall|k: int| 0 <= k < r@.len() implies self@.in_bounds(
                r@[k].0 as int,
                r@[k].1 as int,
            ) by {
                assert(lifted(r@)[k] == (r@[k].0 as int, r@[k].1 as int));
                lemma_neighbor_list_in_bounds(self@, x as int, y as int, k);
            }
        }
        r
    }

    /// The number of mines in the eight-neighborhood of `(x, y)`.
    pub fn count_mines(&self, x: usize, y: usize) -> (r: usize)
        requires
            self@.wf(),
            self@.in_bounds(x as int, y as int),
        ensures
            r == self@.count_mines(x as int, y as int),
            r <= 8,
    {
        let nbrs = self.neighbors(x, y);
        let ghost pts = self@.neighbor_list(x as int, y as int);
        let mut count: usize = 0;
        let mut k: usize = 0;
        proof {
            lemma_neighbor_list_len(self@, x as int, y as int);
        }
        while k < nbrs.len()
            invariant
                k <= nbrs@.len(),
                nbrs@.len() <= 8,
                count <= k,
                self@.wf(),
                pts == self@.neighbor_list(x as int, y as int),
                lifted(nbrs@) == pts,
                forall|j: int| 0 <= j < nbrs@.len() ==> self@.in_bounds(
                    nbrs@[j].0 as int,
                    nbrs@[j].1 as int,
                ),
                count == self@.mines_in(pts.take(k as int)),
            decreases nbrs@.len() - k,
        {
            let (nx, ny) = nbrs[k];
            proof {
                assert(lifted(nbrs@)[k as int] == (nx as int, ny as int));
                assert(pts.take(k + 1 as int).drop_last() =~= pts.take(k as int));
            }
            let i = self.flat_index(nx, ny);
            if self.cells[i].kind == CellKind::Mine {
                count = count + 1;
            }
            k = k + 1;
        }
        proof {
            assert(pts.take(nbrs@.len() as int) =~= pts);
        }
        count
    }

    /// The number of flags in the eight-neighborhood of `(x, y)`.
    pub fn count_flags(&self, x: usize, y: usize) -> (r: usize)
        requires
            self@.wf(),
            self@.in_bounds(x as int, y as int),
        ensures
            r == self@.count_flags(x as int, y as int),
            r <= 8,
    {
        let nbrs = self.neighbors(x, y);
        let ghost pts = self@.neighbor_list(x as int, y as int);
        let mut count: usize = 0;
        let mut k: usize = 0;
        proof {
            lemma_neighbor_list_len(self@, x as int, y as int);
        }
        while k < nbrs.len()
            invariant
                k <= nbrs@.len(),
                nbrs@.len() <= 8,
                count <= k,
                self@.wf(),
                pts == self@.neighbor_list(x as int, y as int),
                lifted(nbrs@) == pts,
                forall|j: int| 0 <= j < nbrs@.len() ==> self@.in_bounds(
                    nbrs@[j].0 as int,
                    nbrs@[j].1 as int,
                ),
                count == self@.flags_in(pts.take(k as int)),
            decreases nbrs@.len() - k,
        {
            let (nx, ny) = nbrs[k];
            proof {
                assert(lifted(nbrs@)[k as int] == (nx as int, ny as int));
                assert(pts.take(k + 1 as int).drop_last() =~= pts.take(k as int));
            }
            let i = self.flat_index(nx, ny);
            if self.cells[i].state == CellState::Flagged {
                count = count + 1;
            }
            k = k + 1;
        }
        proof {
            assert(pts.take(nbrs@.len() as int) =~= pts);
        }
        count
    }

    /// Whether some neighbor of `(x, y)` is opened.
    pub fn neighboring_open(&self, x: usize, y: usize) -> (r: bool)
        requires
            self@.wf(),
            self@.in_bounds(x as int, y as int),
        ensures
            r == exists|k: int|
                0 <= k < self@.neighbor_list(x as int, y as int).len() && self@.cell_at(
                    self@.neighbor_list(x as int, y as int)[k].0,
                    self@.neighbor_list(x as int, y as int)[k].1,
                ).state is Opened,
    {
        let nbrs = self.neighbors(x, y);
        let ghost pts = self@.neighbor_list(x as int, y as int);
        let mut k: usize = 0;
        while k < nbrs.len()
            invariant
                k <= nbrs@.len(),
                self@.wf(),
                pts == self@.neighbor_list(x as int, y as int),
                lifted(nbrs@) == pts,
                forall|j: int| 0 <= j < nbrs@.len() ==> self@.in_bounds(
                    nbrs@[j].0 as int,
                    nbrs@[j].1 as int,
                ),
                forall|j: int| 0 <= j < k ==> !(self@.cell_at(pts[j].0, pts[j].1).state is Opened),
            decreases nbrs@.len() - k,
        {
            let (nx, ny) = nbrs[k];
            proof {
                assert(lifted(nbrs@)[k as int] == (nx as int, ny as int));
            }
            let i = self.flat_index(nx, ny);
            if self.cells[i].state == CellState::Opened {
                return true;
            }
            k = k + 1;
        }
        false
    }

    /// Whether the board is solved: every empty cell opened, no mine opened.
    pub fn is_solved(&self) -> (r: bool)
        ensures
            r == self@.is_solved(),
    {
        let mut i: usize = 0;
        while i < self.cells.len()
            invariant
                i <= self.cells@.len(),
                forall|j: int| 0 <= j < i ==> {
                    &&& (self.cells@[j].kind is Empty ==> self.cells@[j].state is Opened)
                    &&& (self.cells@[j].kind is Mine ==> !(self.cells@[j].state is Opened))
                },
            decreases self.cells@.len() - i,
        {
            let cell = self.cells[i];
            let ok = (cell.kind == CellKind::Empty && cell.state == CellState::Opened) || (cell.kind
                == CellKind::Mine && cell.state != CellState::Opened);
            if !ok {
                return false;
            }
            i = i + 1;
        }
        true
    }

    /// Whether the board is lost: some mine is opened.
    pub fn is_lost(&self) -> (r: bool)
        ensures
            r == self@.is_lost(),
    {
        let mut i: usize = 0;
        while i < self.cells.len()
            invariant
                i <= self.cells@.len(),
                forall|j: int| 0 <= j < i ==> !(self.cells@[j].kind is Mine
                    && self.cells@[j].state is Opened),
            decreases self.cells@.len() - i,
        {
            let cell = self.cells[i];
            if cell.kind == CellKind::Mine && cell.state == CellState::Opened {
                return true;
            }
            i = i + 1;
        }
        false
    }

    /// Opens `(x, y)`.  If the cell has no adjacent mines, the whole
    /// connected region of such cells, and their hidden bordering cells, is
    /// opened with it; opening an already opened cell is a no-op.  The
    /// flood fill runs over an explicit worklist instead of recursing.
    pub fn open(&mut self, x: usize, y: usize)
        requires
            old(self)@.wf(),
            old(self)@.in_bounds(x as int, y as int),
        ensures
            final(self)@ == old(self)@.open_result(x as int, y as int),
    {
        let ghost o = old(self)@;
        let ghost sx = x as int;
        let ghost sy = y as int;
        let i0 = self.flat_index(x, y);
        if self.cells[i0].state == CellState::Opened {
            proof {
                assert(self@ =~= o.open_result(sx, sy));
            }
            return;
        }
        let kind0 = self.cells[i0].kind;
        self.cells.set(i0, Cell { kind: kind0, state: CellState::Opened });
        proof {
            lemma_region_start(o, sx, sy);
            lemma_index_of_coords(o, sx, sy);
        }
        let mines = self.count_mines(x, y);
        proof {
            lemma_count_mines_same_kinds(o, self@, sx, sy);
        }
        if mines != 0 {
            proof {
                let res = o.open_result(sx, sy);
                assert forall|i: int| 0 <= i < o.cells.len() implies self@.cells[i]
                    == res.cells[i] by {
                    lemma_coords_of_index(o, i);
                    lemma_region_singleton(o, sx, sy, o.x_of(i), o.y_of(i));
                    if o.x_of(i) == sx && o.y_of(i) == sy {
                        assert(i == o.index_of(sx, sy));
                    }
                }
                assert(self@.cells =~= res.cells);
                assert(self@ =~= res);
            }
            return;
        }
        let mut stack: Vec<(usize, usize)> = Vec::new();
        stack.push((x, y));
        proof {
            lemma_count_unopened_nonneg(self@.cells);
            assert(lifted(stack@) =~= seq![(sx, sy)]);
            assert(lifted(stack@)[0] == (sx, sy));
            assert(lifted(stack@).contains((sx, sy)));
            assert forall|i: int| 0 <= i < o.cells.len() implies (self@.cells[i].state
                == o.cells[i].state || (self@.cells[i].state is Opened && !(
            o.cells[i].state is Opened) && o.in_open_region(sx, sy, o.x_of(i), o.y_of(i)))) by {
                if i == i0 as int {
                    assert(o.x_of(i) == sx && o.y_of(i) == sy);
                }
            }
            assert forall|cx2: int, cy2: int, nx2: int, ny2: int|
                o.in_bounds(cx2, cy2) && newly_opened(o, self@, cx2, cy2) && o.count_mines(
                    cx2,
                    cy2,
                ) == 0 && !lifted(stack@).contains((cx2, cy2)) && #[trigger] o.adjacent(
                    cx2,
                    cy2,
                    nx2,
                    ny2,
                ) && o.cell_at(nx2, ny2).state is Hidden implies self@.cell_at(
                nx2,
                ny2,
            ).state is Opened by {
                lemma_index_bound(o, cx2, cy2);
                if o.index_of(cx2, cy2) == i0 as int {
                    lemma_index_of_coords(o, cx2, cy2);
                    assert((cx2, cy2) == (sx, sy));
                    assert(false);
                } else {
                    assert(self@.cells[o.index_of(cx2, cy2)] == o.cells[o.index_of(cx2, cy2)]);
                    assert(false);
                }
            }
        }
        while stack.len() != 0
            invariant
                o == old(self)@,
                o.wf(),
                o.in_bounds(sx, sy),
                !(o.cell_at(sx, sy).state is Opened),
                self@.wf(),
                self.width == old(self).width,
                self.height == old(self).height,
                same_kinds(o, self@),
                opens_in_region(o, self@, sx, sy),
                newly_opened(o, self@, sx, sy),
                stack_ok(o, sx, sy, lifted(stack@)),
                closure_except(o, self@, lifted(stack@)),
                0 <= count_unopened(self@.cells),
            decreases 2 * count_unopened(self@.cells) + stack@.len(),
        {
            let ghost m0 = 2 * count_unopened(self@.cells) + stack@.len();
            let ghost pre = stack@;
            let popped = stack.pop().unwrap();
            let cx = popped.0;
            let cy = popped.1;
            proof {
                assert(lifted(stack@) =~= lifted(pre).drop_last());
                assert(lifted(pre)[pre.len() - 1] == (cx as int, cy as int));
                assert(stack_entry_ok(o, sx, sy, lifted(pre)[pre.len() - 1]));
                assert forall|k: int| 0 <= k < lifted(stack@).len() implies stack_entry_ok(
                    o,
                    sx,
                    sy,
                    #[trigger] lifted(stack@)[k],
                ) by {
                    assert(lifted(stack@)[k] == lifted(pre)[k]);
                }
                assert(lifted(pre) =~= lifted(stack@) + seq![(cx as int, cy as int)]);
            }
            let nbrs = self.neighbors(cx, cy);
            proof {
                assert(self@.neighbor_list(cx as int, cy as int) =~= o.neighbor_list(
                    cx as int,
                    cy as int,
                ));
                lemma_neighbor_list_len(o, cx as int, cy as int);
            }
            let mut j: usize = 0;
            while j < nbrs.len()
                invariant
                    o == old(self)@,
                    o.wf(),
                    o.in_bounds(sx, sy),
                    !(o.cell_at(sx, sy).state is Opened),
                    self@.wf(),
                    self.width == old(self).width,
                    self.height == old(self).height,
                    same_kinds(o, self@),
                    opens_in_region(o, self@, sx, sy),
                    newly_opened(o, self@, sx, sy),
                    stack_ok(o, sx, sy, lifted(stack@)),
                    stack_entry_ok(o, sx, sy, (cx as int, cy as int)),
                    lifted(nbrs@) == o.neighbor_list(cx as int, cy as int),
                    j <= nbrs@.len(),
                    closure_except(o, self@, lifted(stack@) + seq![(cx as int, cy as int)]),
                    neighbors_processed(o, self@, cx as int, cy as int, j as int),
                    0 <= count_unopened(self@.cells),
                    2 * count_unopened(self@.cells) + stack@.len() <= m0 - 1,
                decreases nbrs@.len() - j,
            {
                let nbr = nbrs[j];
                let nx = nbr.0;
                let ny = nbr.1;
                proof {
                    assert(lifted(nbrs@)[j as int] == (nx as int, ny as int));
                    lemma_neighbor_list_in_bounds(o, cx as int, cy as int, j as int);
                }
                let ni = self.flat_index(nx, ny);
                if self.cells[ni].state == CellState::Hidden {
                    let nkind = self.cells[ni].kind;
                    let opened_cell = Cell { kind: nkind, state: CellState::Opened };
                    let ghost before = self@;
                    let ghost pendc = lifted(stack@) + seq![(cx as int, cy as int)];
                    proof {
                        lemma_count_unopened_update(self@.cells, ni as int, opened_cell);
                        lemma_index_of_coords(o, nx as int, ny as int);
                        lemma_index_bound(o, sx, sy);
                        lemma_hidden_matches_orig(o, before, sx, sy, ni as int);
                        assert(o.adjacent(cx as int, cy as int, nx as int, ny as int));
                        lemma_region_step(o, sx, sy, cx as int, cy as int, nx as int, ny as int);
                    }
                    self.cells.set(ni, opened_cell);
                    proof {
                        lemma_count_unopened_nonneg(self@.cells);
                        lemma_opens_in_region_update(
                            o,
                            before,
                            self@,
                            sx,
                            sy,
                            nx as int,
                            ny as int,
                            ni as int,
                            opened_cell,
                        );
                        assert(self@.cells[o.index_of(sx, sy)].state is Opened
                            || self@.cells[o.index_of(sx, sy)] == before.cells[o.index_of(
                            sx,
                            sy,
                        )]);
                        assert(newly_opened(o, self@, sx, sy));
                        lemma_processed_extend_opened(
                            o,
                            before,
                            self@,
                            cx as int,
                            cy as int,
                            j as int,
                            ni as int,
                            opened_cell,
                        );
                    }
                    let nmines = self.count_mines(nx, ny);
                    proof {
                        lemma_count_mines_same_kinds(o, self@, nx as int, ny as int);
                    }
                    let ghost prepush = stack@;
                    if nmines == 0 {
                        stack.push(nbr);
                        proof {
                            assert(lifted(stack@) =~= lifted(prepush).push(
                                (nx as int, ny as int),
                            ));
                            lemma_stack_ok_push(
                                o,
                                sx,
                                sy,
                                lifted(prepush),
                                (nx as int, ny as int),
                            );
                            lemma_pending_grows(
                                lifted(prepush),
                                (cx as int, cy as int),
                                (nx as int, ny as int),
                            );
                            let pendc2 = lifted(stack@) + seq![(cx as int, cy as int)];
                            assert(lifted(stack@)[lifted(stack@).len() - 1] == (
                                nx as int,
                                ny as int,
                            ));
                            assert(pendc2[lifted(stack@).len() - 1] == (nx as int, ny as int));
                            assert(pendc2.contains((nx as int, ny as int)));
                            lemma_closure_after_open(
                                o,
                                before,
                                self@,
                                pendc,
                                pendc2,
                                nx as int,
                                ny as int,
                                ni as int,
                                opened_cell,
                            );
                        }
                    } else {
                        proof {
                            assert(o.count_mines(nx as int, ny as int) != 0);
                            lemma_closure_after_open(
                                o,
                                before,
                                self@,
                                pendc,
                                pendc,
                                nx as int,
                                ny as int,
                                ni as int,
                                opened_cell,
                            );
                        }
                    }
                } else {
                    proof {
                        lemma_processed_extend_skip(
                            o,
                            self@,
                            sx,
                            sy,
                            cx as int,
                            cy as int,
                            j as int,
                            ni as int,
                        );
                    }
                }
                j = j + 1;
            }
            proof {
                lemma_closure_after_processed(o, self@, lifted(stack@), cx as int, cy as int);
            }
        }
        proof {
            assert(lifted(stack@) =~= Seq::<(int, int)>::empty());
            assert(closure_except(o, self@, Seq::<(int, int)>::empty()));
            let res = o.open_result(sx, sy);
            assert forall|i: int| 0 <= i < o.cells.len() implies self@.cells[i] == res.cells[i] by {
                lemma_coords_of_index(o, i);
                let tx = o.x_of(i);
                let ty = o.y_of(i);
                if o.in_open_region(sx, sy, tx, ty) {
                    let n = choose|n: nat| o.reaches(sx, sy, tx, ty, n);
                    lemma_region_covered(o, self@, sx, sy, tx, ty, n);
                }
            }
            assert(self@.cells =~= res.cells);
            assert(self@ =~= res);
        }
    }

    /// The total number of mines on the board.
    pub fn total_mines(&self) -> (r: usize)
        ensures
            r == count_mine_cells(self@.cells),
    {
        let mut count: usize = 0;
        let mut i: usize = 0;
        while i < self.cells.len()
            invariant
                i <= self.cells@.len(),
                count == count_mine_cells(self.cells@.take(i as int)),
                count <= i,
            decreases self.cells@.len() - i,
        {
            proof {
                assert(self.cells@.take(i + 1 as int).drop_last() =~= self.cells@.take(i as int));
            }
            if self.cells[i].kind == CellKind::Mine {
                count = count + 1;
            }
            i = i + 1;
        }
        proof {
            assert(self.cells@.take(self.cells@.len() as int) =~= self.cells@);
        }
        count
    }

    /// The total number of flags on the board.
    pub fn total_flags(&self) -> (r: usize)
        ensures
            r == count_flagged_cells(self@.cells),
    {
        let mut count: usize = 0;
        let mut i: usize = 0;
        while i < self.cells.len()
            invariant
                i <= self.cells@.len(),
                count == count_flagged_cells(self.cells@.take(i as int)),
                count <= i,
            decreases self.cells@.len() - i,
        {
            proof {
                assert(self.cells@.take(i + 1 as int).drop_last() =~= self.cells@.take(i as int));
            }
            if self.cells[i].state == CellState::Flagged {
                count = count + 1;
            }
            i = i + 1;
        }
        proof {
            assert(self.cells@.take(self.cells@.len() as int) =~= self.cells@);
        }
        count
    }

    /// Toggles the flag on `(x, y)`: a hidden cell becomes flagged, a
    /// flagged one hidden again, and an opened cell is left alone.
    pub fn toggle_flag(&mut self, x: usize, y: usize)
        requires
            old(self)@.wf(),
            old(self)@.in_bounds(x as int, y as int),
        ensures
            final(self).width == old(self).width,
            final(self).height == old(self).height,
            final(self)@.cells.len() == old(self)@.cells.len(),
            final(self)@.cells[old(self)@.index_of(x as int, y as int)] == (Cell {
                kind: old(self)@.cell_at(x as int, y as int).kind,
                state: match old(self)@.cell_at(x as int, y as int).state {
                    CellState::Hidden => CellState::Flagged,
                    CellState::Flagged => CellState::Hidden,
                    CellState::Opened => CellState::Opened,
                },
            }),
            forall|i: int|
                0 <= i < old(self)@.cells.len() && i != old(self)@.index_of(x as int, y as int)
                    ==> final(self)@.cells[i] == old(self)@.cells[i],
    {
        let i = self.flat_index(x, y);
        let cell = self.cells[i];
        match cell.state {
            CellState::Hidden => {
                self.cells.set(i, Cell { kind: cell.kind, state: CellState::Flagged });
            },
            CellState::Flagged => {
                self.cells.set(i, Cell { kind: cell.kind, state: CellState::Hidden });
            },
            CellState::Opened => {},
        }
    }

    /// Hides every cell again, keeping the mine placement.
    pub fn conceal(&mut self)
        ensures
            final(self).width == old(self).width,
            final(self).height == old(self).height,
            final(self)@.cells.len() == old(self)@.cells.len(),
            forall|i: int| 0 <= i < old(self)@.cells.len() ==> final(self)@.cells[i] == (Cell {
                kind: old(self)@.cells[i].kind,
                state: CellState::Hidden,
            }),
    {
        let mut i: usize = 0;
        while i < self.cells.len()
            invariant
                i <= self.cells@.len(),
                self.width == old(self).width,
                self.height == old(self).height,
                self.cells@.len() == old(self).cells@.len(),
                forall|j: int| 0 <= j < i ==> self.cells@[j] == (Cell {
                    kind: old(self).cells@[j].kind,
                    state: CellState::Hidden,
                }),
                forall|j: int| i <= j < self.cells@.len() ==> self.cells@[j]
                    == old(self).cells@[j],
            decreases self.cells@.len() - i,
        {
            let kind = self.cells[i].kind;
            self.cells.set(i, Cell { kind, state: CellState::Hidden });
            i = i + 1;
        }
    }
}

/// A board can never be both solved and lost: solved means no mine is
/// opened, lost means some mine is.
pub proof fn lemma_solved_and_lost_exclusive(b: BoardView)
    ensures
        !(b.is_solved() && b.is_lost()),
{
    if b.is_solved() && b.is_lost() {
        let i = choose|i: int|
            0 <= i < b.cells.len() && b.cells[i].kind is Mine && b.cells[i].state is Opened;
        assert(!(b.cells[i].state is Opened));
    }
}

/// A cell's eight-neighborhood holds at most eight cells.
pub proof fn lemma_neighbor_list_len(b: BoardView, x: int, y: int)
    ensures
        b.neighbor_list(x, y).len() <= 8,
{
}

/// Every entry of the neighbor list lies on the board.
pub proof fn lemma_neighbor_list_in_bounds(b: BoardView, x: int, y: int, k: int)
    requires
        0 <= k < b.neighbor_list(x, y).len(),
    ensures
        b.in_bounds(b.neighbor_list(x, y)[k].0, b.neighbor_list(x, y)[k].1),
{
}

/// A flat index computed from in-bounds coordinates stays inside the grid.
pub proof fn lemma_index_bound(b: BoardView, x: int, y: int)
    requires
        b.wf(),
        b.in_bounds(x, y),
    ensures
        0 <= y * b.width + x < b.cells.len(),
        y * b.width + x == b.index_of(x, y),
{
    let w = b.width as int;
    let h = b.height as int;
    assert(y * w + x < h * w) by (nonlinear_arith)
        requires
            0 <= x < w,
            0 <= y < h,
    ;
    assert(y * w + x >= 0) by (nonlinear_arith)
        requires
            0 <= x,
            0 <= y,
            w >= 0,
    ;
    assert(h * w == w * h) by (nonlinear_arith);
}

/// In-bounds coordinates and flat indices are inverse to each other.
pub proof fn lemma_coords_of_index(b: BoardView, i: int)
    requires
        b.wf(),
        0 <= i < b.cells.len(),
    ensures
        b.in_bounds(b.x_of(i), b.y_of(i)),
        b.index_of(b.x_of(i), b.y_of(i)) == i,
{
    let w = b.width as int;
    let h = b.height as int;
    assert(w > 0 && h > 0) by (nonlinear_arith)
        requires
            0 <= w,
            0 <= h,
            0 <= i < b.cells.len(),
            b.cells.len() == w * h,
    ;
    vstd::arithmetic::div_mod::lemma_fundamental_div_mod(i, w);
    vstd::arithmetic::div_mod::lemma_mod_bound(i, w);
    assert(w * (i / w) == (i / w) * w) by (nonlinear_arith);
    assert(i / w < h) by (nonlinear_arith)
        requires
            w > 0,
            h > 0,
            i < w * h,
            i == w * (i / w) + (i % w),
            0 <= i % w,
    ;
    assert(i / w >= 0) by (nonlinear_arith)
        requires
            w > 0,
            i >= 0,
    ;
}

/// No sequence of cells has a negative count of unopened cells.
pub proof fn lemma_count_unopened_nonneg(cells: Seq<Cell>)
    ensures
        0 <= count_unopened(cells) <= cells.len(),
    decreases cells.len(),
{
    if cells.len() > 0 {
        lemma_count_unopened_nonneg(cells.drop_last());
    }
}

/// How replacing one cell moves the count of unopened cells.
pub proof fn lemma_count_unopened_update(cells: Seq<Cell>, i: int, c: Cell)
    requires
        0 <= i < cells.len(),
    ensures
        count_unopened(cells.update(i, c)) == count_unopened(cells) - (if cells[i].state
            is Opened {
            0int
        } else {
            1int
        }) + (if c.state is Opened {
            0int
        } else {
            1int
        }),
    decreases cells.len(),
{
    let upd = cells.update(i, c);
    if i == cells.len() - 1 {
        assert(upd.drop_last() =~= cells.drop_last());
    } else {
        assert(upd.drop_last() =~= cells.drop_last().update(i, c));
        lemma_count_unopened_update(cells.drop_last(), i, c);
    }
}

/// Mine counts over a list of points agree on boards with the same kinds.
proof fn lemma_mines_in_same(a: BoardView, b: BoardView, pts: Seq<(int, int)>)
    requires
        a.wf(),
        same_kinds(a, b),
        forall|k: int| 0 <= k < pts.len() ==> a.in_bounds(pts[k].0, pts[k].1),
    ensures
        a.mines_in(pts) == b.mines_in(pts),
    decreases pts.len(),
{
    if pts.len() > 0 {
        lemma_mines_in_same(a, b, pts.drop_last());
        let p = pts.last();
        lemma_index_bound(a, p.0, p.1);
    }
}

/// Adjacent-mine counts agree on boards with the same kinds.
pub proof fn lemma_count_mines_same_kinds(a: BoardView, b: BoardView, x: int, y: int)
    requires
        a.wf(),
        same_kinds(a, b),
        a.in_bounds(x, y),
    ensures
        a.count_mines(x, y) == b.count_mines(x, y),
{
    assert(a.neighbor_list(x, y) =~= b.neighbor_list(x, y));
    assert forall|k: int| 0 <= k < a.neighbor_list(x, y).len() implies a.in_bounds(
        a.neighbor_list(x, y)[k].0,
        a.neighbor_list(x, y)[k].1,
    ) by {
        lemma_neighbor_list_in_bounds(a, x, y, k);
    }
    lemma_mines_in_same(a, b, a.neighbor_list(x, y));
}

/// Mine counts never go negative.
pub proof fn lemma_mines_in_nonneg(b: BoardView, pts: Seq<(int, int)>)
    ensures
        0 <= b.mines_in(pts),
    decreases pts.len(),
{
    if pts.len() > 0 {
        lemma_mines_in_nonneg(b, pts.drop_last());
    }
}

/// If a list of points holds no mines in total, none of its points is one.
pub proof fn lemma_zero_mines_no_mine(b: BoardView, pts: Seq<(int, int)>, p: (int, int))
    requires
        b.mines_in(pts) == 0,
        pts.contains(p),
    ensures
        !(b.cell_at(p.0, p.1).kind is Mine),
    decreases pts.len(),
{
    lemma_mines_in_nonneg(b, pts.drop_last());
    if pts.last() == p {
        if b.cell_at(p.0, p.1).kind is Mine {
            assert(b.mines_in(pts) >= 1);
        }
    } else {
        let i = choose|i: int| 0 <= i < pts.len() && pts[i] == p;
        assert(pts.drop_last()[i] == p);
        lemma_zero_mines_no_mine(b, pts.drop_last(), p);
    }
}

/// Concatenation keeps the members of its left part.
proof fn lemma_add_contains_left(s: Seq<(int, int)>, t: Seq<(int, int)>, v: (int, int))
    requires
        s.contains(v),
    ensures
        (s + t).contains(v),
{
    let i = choose|i: int| 0 <= i < s.len() && s[i] == v;
    assert((s + t)[i] == v);
}

/// Concatenation keeps the members of its right part.
proof fn lemma_add_contains_right(s: Seq<(int, int)>, t: Seq<(int, int)>, v: (int, int))
    requires
        t.contains(v),
    ensures
        (s + t).contains(v),
{
    let i = choose|i: int| 0 <= i < t.len() && t[i] == v;
    assert((s + t)[s.len() + i] == v);
}

/// Every adjacent cell appears in the neighbor list.
pub proof fn lemma_neighbor_list_complete(b: BoardView, x: int, y: int, nx: int, ny: int)
    requires
        b.adjacent(x, y, nx, ny),
    ensures
        b.neighbor_list(x, y).contains((nx, ny)),
{
    let v = (nx, ny);
    let m1 = b.maybe_pt(x - 1, y - 1);
    let m2 = b.maybe_pt(x, y - 1);
    let m3 = b.maybe_pt(x + 1, y - 1);
    let m4 = b.maybe_pt(x - 1, y);
    let m5 = b.maybe_pt(x + 1, y);
    let m6 = b.maybe_pt(x - 1, y + 1);
    let m7 = b.maybe_pt(x, y + 1);
    let m8 = b.maybe_pt(x + 1, y + 1);
    let p12 = m1 + m2;
    let p13 = p12 + m3;
    let p14 = p13 + m4;
    let p15 = p14 + m5;
    let p16 = p15 + m6;
    let p17 = p16 + m7;
    let p18 = p17 + m8;
    assert(b.neighbor_list(x, y) == p18);
    if ny <= y {
        if ny == y - 1 {
            if nx == x - 1 {
                assert(m1[0] == v);
                lemma_add_contains_left(m1, m2, v);
                lemma_add_contains_left(p12, m3, v);
            } else if nx == x {
                assert(m2[0] == v);
                lemma_add_contains_right(m1, m2, v);
                lemma_add_contains_left(p12, m3, v);
            } else {
                assert(m3[0] == v);
                lemma_add_contains_right(p12, m3, v);
            }
            lemma_add_contains_left(p13, m4, v);
            lemma_add_contains_left(p14, m5, v);
        } else {
            if nx == x - 1 {
                assert(m4[0] == v);
                lemma_add_contains_right(p13, m4, v);
                lemma_add_contains_left(p14, m5, v);
            } else {
                assert(m5[0] == v);
                lemma_add_contains_right(p14, m5, v);
            }
        }
        lemma_add_contains_left(p15, m6, v);
        lemma_add_contains_left(p16, m7, v);
        lemma_add_contains_left(p17, m8, v);
    } else {
        if nx == x - 1 {
            assert(m6[0] == v);
            lemma_add_contains_right(p15, m6, v);
            lemma_add_contains_left(p16, m7, v);
            lemma_add_contains_left(p17, m8, v);
        } else if nx == x {
            assert(m7[0] == v);
            lemma_add_contains_right(p16, m7, v);
            lemma_add_contains_left(p17, m8, v);
        } else {
            assert(m8[0] == v);
            lemma_add_contains_right(p17, m8, v);
        }
    }
}

/// A reachable cell lies on the board whenever the start does.
pub proof fn lemma_reaches_in_bounds(b: BoardView, sx: int, sy: int, tx: int, ty: int, n: nat)
    requires
        b.in_bounds(sx, sy),
        b.reaches(sx, sy, tx, ty, n),
    ensures
        b.in_bounds(tx, ty),
    decreases n,
{
    if n != 0 {
        let (px, py) = choose|px: int, py: int|
            {
                &&& b.reaches(sx, sy, px, py, (n - 1) as nat)
                &&& b.count_mines(px, py) == 0
                &&& b.adjacent(px, py, tx, ty)
                &&& b.cell_at(tx, ty).state is Hidden
            };
    }
}

/// The start cell belongs to its own open region.
pub proof fn lemma_region_start(b: BoardView, sx: int, sy: int)
    ensures
        b.in_open_region(sx, sy, sx, sy),
{
    assert(b.reaches(sx, sy, sx, sy, 0));
}

/// The open region grows across a zero-count cell to its hidden neighbors.
pub proof fn lemma_region_step(b: BoardView, sx: int, sy: int, px: int, py: int, tx: int, ty: int)
    requires
        b.in_open_region(sx, sy, px, py),
        b.count_mines(px, py) == 0,
        b.adjacent(px, py, tx, ty),
        b.cell_at(tx, ty).state is Hidden,
    ensures
        b.in_open_region(sx, sy, tx, ty),
{
    let n = choose|n: nat| b.reaches(sx, sy, px, py, n);
    assert(b.reaches(sx, sy, tx, ty, n + 1));
}

/// From a start cell with adjacent mines no chain moves anywhere.
proof fn lemma_no_reach_positive(b: BoardView, sx: int, sy: int, tx: int, ty: int, n: nat)
    requires
        b.count_mines(sx, sy) != 0,
        n >= 1,
    ensures
        !b.reaches(sx, sy, tx, ty, n),
    decreases n,
{
    if b.reaches(sx, sy, tx, ty, n) {
        let (px, py) = choose|px: int, py: int|
            {
                &&& b.reaches(sx, sy, px, py, (n - 1) as nat)
                &&& b.count_mines(px, py) == 0
                &&& b.adjacent(px, py, tx, ty)
                &&& b.cell_at(tx, ty).state is Hidden
            };
        if n == 1 {
            assert(px == sx && py == sy);
        } else {
            lemma_no_reach_positive(b, sx, sy, px, py, (n - 1) as nat);
        }
    }
}

/// Opening a numbered cell opens that cell alone.
pub proof fn lemma_region_singleton(b: BoardView, sx: int, sy: int, tx: int, ty: int)
    requires
        b.count_mines(sx, sy) != 0,
    ensures
        b.in_open_region(sx, sy, tx, ty) <==> (tx == sx && ty == sy),
{
    if b.in_open_region(sx, sy, tx, ty) {
        let n = choose|n: nat| b.reaches(sx, sy, tx, ty, n);
        if n >= 1 {
            lemma_no_reach_positive(b, sx, sy, tx, ty, n);
        }
    }
    if tx == sx && ty == sy {
        lemma_region_start(b, sx, sy);
    }
}

/// Opening one more cell of the open region keeps every opened cell
/// within it.
proof fn lemma_opens_in_region_update(
    o: BoardView,
    before: BoardView,
    after: BoardView,
    sx: int,
    sy: int,
    nx: int,
    ny: int,
    ni: int,
    c: Cell,
)
    requires
        o.wf(),
        before.cells.len() == o.cells.len(),
        opens_in_region(o, before, sx, sy),
        o.in_bounds(nx, ny),
        ni == o.index_of(nx, ny),
        !(o.cells[ni].state is Opened),
        o.in_open_region(sx, sy, nx, ny),
        c.state is Opened,
        after.cells == before.cells.update(ni, c),
    ensures
        opens_in_region(o, after, sx, sy),
{
    lemma_index_bound(o, nx, ny);
    lemma_index_of_coords(o, nx, ny);
    assert forall|i: int| 0 <= i < o.cells.len() implies (after.cells[i].state
        == o.cells[i].state || (after.cells[i].state is Opened && !(o.cells[i].state is Opened)
        && o.in_open_region(sx, sy, o.x_of(i), o.y_of(i)))) by {
        if i != ni {
            assert(after.cells[i] == before.cells[i]);
            assert(before.cells[i].state == o.cells[i].state || (
            before.cells[i].state is Opened && !(o.cells[i].state is Opened)
                && o.in_open_region(sx, sy, o.x_of(i), o.y_of(i))));
        } else {
            assert(o.x_of(i) == nx && o.y_of(i) == ny);
        }
    }
}

/// A board whose changes only open cells keeps its hidden cells hidden in
/// the original too.
proof fn lemma_hidden_matches_orig(o: BoardView, c: BoardView, sx: int, sy: int, i: int)
    requires
        opens_in_region(o, c, sx, sy),
        c.cells.len() == o.cells.len(),
        0 <= i < o.cells.len(),
        c.cells[i].state is Hidden,
    ensures
        o.cells[i].state is Hidden,
{
    assert(c.cells[i].state == o.cells[i].state || (c.cells[i].state is Opened && !(
    o.cells[i].state is Opened) && o.in_open_region(sx, sy, o.x_of(i), o.y_of(i))));
}

/// A cell that keeps no adjacent mines may join the worklist.
proof fn lemma_stack_ok_push(
    o: BoardView,
    sx: int,
    sy: int,
    sold: Seq<(int, int)>,
    p: (int, int),
)
    requires
        stack_ok(o, sx, sy, sold),
        stack_entry_ok(o, sx, sy, p),
    ensures
        stack_ok(o, sx, sy, sold.push(p)),
{
    assert forall|k: int| 0 <= k < sold.push(p).len() implies stack_entry_ok(
        o,
        sx,
        sy,
        #[trigger] sold.push(p)[k],
    ) by {
        if k < sold.len() {
            assert(sold.push(p)[k] == sold[k]);
        } else {
            assert(sold.push(p)[k] == p);
        }
    }
}

/// Extending the worklist in the middle keeps every pending entry pending.
proof fn lemma_pending_grows(
    stack_old: Seq<(int, int)>,
    top: (int, int),
    pushed: (int, int),
)
    ensures
        forall|v: (int, int)| #[trigger] (stack_old + seq![top]).contains(v) ==> (stack_old.push(
            pushed,
        ) + seq![top]).contains(v),
{
    let pend_old = stack_old + seq![top];
    let pend_new = stack_old.push(pushed) + seq![top];
    assert forall|v: (int, int)| #[trigger] pend_old.contains(v) implies pend_new.contains(v) by {
        let k = choose|k: int| 0 <= k < pend_old.len() && pend_old[k] == v;
        if k < stack_old.len() {
            assert(pend_new[k] == v);
        } else {
            assert(pend_new[pend_new.len() - 1] == v);
        }
    }
}

/// Opening one cell preserves the worklist closure, as long as the cell is
/// either on the pending list or has adjacent mines.
proof fn lemma_closure_after_open(
    o: BoardView,
    before: BoardView,
    after: BoardView,
    pend_before: Seq<(int, int)>,
    pend_after: Seq<(int, int)>,
    nx: int,
    ny: int,
    ni: int,
    c: Cell,
)
    requires
        o.wf(),
        before.width == o.width,
        after.width == o.width,
        before.cells.len() == o.cells.len(),
        after.cells.len() == o.cells.len(),
        closure_except(o, before, pend_before),
        o.in_bounds(nx, ny),
        ni == o.index_of(nx, ny),
        c.state is Opened,
        after.cells == before.cells.update(ni, c),
        forall|v: (int, int)| #[trigger] pend_before.contains(v) ==> pend_after.contains(v),
        o.count_mines(nx, ny) == 0 ==> pend_after.contains((nx, ny)),
    ensures
        closure_except(o, after, pend_after),
{
    lemma_index_bound(o, nx, ny);
    lemma_index_of_coords(o, nx, ny);
    assert forall|cx2: int, cy2: int, nx2: int, ny2: int|
        o.in_bounds(cx2, cy2) && newly_opened(o, after, cx2, cy2) && o.count_mines(cx2, cy2) == 0
            && !pend_after.contains((cx2, cy2)) && #[trigger] o.adjacent(cx2, cy2, nx2, ny2)
            && o.cell_at(nx2, ny2).state is Hidden implies after.cell_at(
        nx2,
        ny2,
    ).state is Opened by {
        lemma_index_bound(o, cx2, cy2);
        lemma_index_bound(o, nx2, ny2);
        let idx2 = o.index_of(cx2, cy2);
        if idx2 == ni {
            lemma_index_of_coords(o, cx2, cy2);
            assert(cx2 == nx && cy2 == ny);
            assert(pend_after.contains((cx2, cy2)));
        } else {
            assert(after.cells[idx2] == before.cells[idx2]);
            assert(newly_opened(o, before, cx2, cy2));
            assert(!pend_before.contains((cx2, cy2)));
            assert(before.cell_at(nx2, ny2).state is Opened);
            assert(after.cells[o.index_of(nx2, ny2)] == before.cells[o.index_of(nx2, ny2)]
                || o.index_of(nx2, ny2) == ni);
        }
    }
}

/// The first `j` neighbors of `(px, py)` that were hidden have been opened.
pub open spec fn neighbors_processed(o: BoardView, c: BoardView, px: int, py: int, j: int) -> bool {
    forall|k: int|
        0 <= k < j && o.cell_at(
            #[trigger] o.neighbor_list(px, py)[k].0,
            o.neighbor_list(px, py)[k].1,
        ).state is Hidden ==> c.cell_at(
            o.neighbor_list(px, py)[k].0,
            o.neighbor_list(px, py)[k].1,
        ).state is Opened
}

/// Opening the next neighbor extends the processed prefix by one.
proof fn lemma_processed_extend_opened(
    o: BoardView,
    before: BoardView,
    after: BoardView,
    px: int,
    py: int,
    j: int,
    ni: int,
    c: Cell,
)
    requires
        o.wf(),
        before.width == o.width,
        after.width == o.width,
        before.cells.len() == o.cells.len(),
        after.cells.len() == o.cells.len(),
        neighbors_processed(o, before, px, py, j),
        0 <= j < o.neighbor_list(px, py).len(),
        ni == o.index_of(o.neighbor_list(px, py)[j].0, o.neighbor_list(px, py)[j].1),
        c.state is Opened,
        after.cells == before.cells.update(ni, c),
    ensures
        neighbors_processed(o, after, px, py, j + 1),
{
    let pts = o.neighbor_list(px, py);
    lemma_neighbor_list_in_bounds(o, px, py, j);
    lemma_index_bound(o, pts[j].0, pts[j].1);
    assert forall|k: int|
        0 <= k < j + 1 && o.cell_at(#[trigger] pts[k].0, pts[k].1).state is Hidden implies
        after.cell_at(pts[k].0, pts[k].1).state is Opened by {
        lemma_neighbor_list_in_bounds(o, px, py, k);
        lemma_index_bound(o, pts[k].0, pts[k].1);
        if k < j {
            assert(before.cell_at(pts[k].0, pts[k].1).state is Opened);
            assert(after.cells[o.index_of(pts[k].0, pts[k].1)] == before.cells[o.index_of(
                pts[k].0,
                pts[k].1,
            )] || o.index_of(pts[k].0, pts[k].1) == ni);
        } else {
            assert(after.cells[ni].state is Opened);
        }
    }
}

/// A neighbor that is no longer hidden extends the processed prefix too.
proof fn lemma_processed_extend_skip(
    o: BoardView,
    c: BoardView,
    sx: int,
    sy: int,
    px: int,
    py: int,
    j: int,
    ni: int,
)
    requires
        o.wf(),
        c.width == o.width,
        c.cells.len() == o.cells.len(),
        opens_in_region(o, c, sx, sy),
        neighbors_processed(o, c, px, py, j),
        0 <= j < o.neighbor_list(px, py).len(),
        ni == o.index_of(o.neighbor_list(px, py)[j].0, o.neighbor_list(px, py)[j].1),
        !(c.cells[ni].state is Hidden),
    ensures
        neighbors_processed(o, c, px, py, j + 1),
{
    let pts = o.neighbor_list(px, py);
    assert forall|k: int|
        0 <= k < j + 1 && o.cell_at(#[trigger] pts[k].0, pts[k].1).state is Hidden implies
        c.cell_at(pts[k].0, pts[k].1).state is Opened by {
        lemma_neighbor_list_in_bounds(o, px, py, k);
        lemma_index_bound(o, pts[k].0, pts[k].1);
        if k == j {
            assert(c.cells[ni].state == o.cells[ni].state || (c.cells[ni].state is Opened && !(
            o.cells[ni].state is Opened) && o.in_open_region(sx, sy, o.x_of(ni), o.y_of(ni))));
        }
    }
}

/// Once every hidden neighbor of the popped cell has been opened, the cell
/// no longer needs to wait on the worklist.
proof fn lemma_closure_after_processed(
    o: BoardView,
    c: BoardView,
    pend: Seq<(int, int)>,
    px: int,
    py: int,
)
    requires
        closure_except(o, c, pend + seq![(px, py)]),
        neighbors_processed(o, c, px, py, o.neighbor_list(px, py).len() as int),
    ensures
        closure_except(o, c, pend),
{
    let pendc = pend + seq![(px, py)];
    let pts = o.neighbor_list(px, py);
    assert forall|cx2: int, cy2: int, nx2: int, ny2: int|
        o.in_bounds(cx2, cy2) && newly_opened(o, c, cx2, cy2) && o.count_mines(cx2, cy2) == 0
            && !pend.contains((cx2, cy2)) && #[trigger] o.adjacent(cx2, cy2, nx2, ny2)
            && o.cell_at(nx2, ny2).state is Hidden implies c.cell_at(nx2, ny2).state is Opened by {
        if cx2 == px && cy2 == py {
            lemma_neighbor_list_complete(o, cx2, cy2, nx2, ny2);
            let k = choose|k: int| 0 <= k < pts.len() && pts[k] == (nx2, ny2);
            assert(o.cell_at(pts[k].0, pts[k].1).state is Hidden);
        } else {
            assert(!pendc.contains((cx2, cy2))) by {
                if pendc.contains((cx2, cy2)) {
                    let k = choose|k: int| 0 <= k < pendc.len() && pendc[k] == (cx2, cy2);
                    if k < pend.len() {
                        assert(pend[k] == (cx2, cy2));
                    } else {
                        assert(pendc[k] == (px, py));
                    }
                }
            }
        }
    }
}

/// Once the worklist is empty, every reachable cell has been opened.
proof fn lemma_region_covered(
    o: BoardView,
    c: BoardView,
    sx: int,
    sy: int,
    tx: int,
    ty: int,
    n: nat,
)
    requires
        o.in_bounds(sx, sy),
        newly_opened(o, c, sx, sy),
        closure_except(o, c, Seq::<(int, int)>::empty()),
        o.reaches(sx, sy, tx, ty, n),
    ensures
        c.cell_at(tx, ty).state is Opened,
    decreases n,
{
    if n == 0 {
        assert(c.cell_at(sx, sy).state is Opened);
    } else {
        let (px, py) = choose|px: int, py: int|
            {
                &&& o.reaches(sx, sy, px, py, (n - 1) as nat)
                &&& o.count_mines(px, py) == 0
                &&& o.adjacent(px, py, tx, ty)
                &&& o.cell_at(tx, ty).state is Hidden
            };
        lemma_region_covered(o, c, sx, sy, px, py, (n - 1) as nat);
        lemma_reaches_in_bounds(o, sx, sy, px, py, (n - 1) as nat);
        if (n - 1) as nat == 0 {
            assert(newly_opened(o, c, px, py));
        } else {
            assert(o.cell_at(px, py).state is Hidden);
            assert(newly_opened(o, c, px, py));
        }
        assert(!Seq::<(int, int)>::empty().contains((px, py)));
    }
}

/// Coordinates recovered from an in-bounds flat index match the original.
pub proof fn lemma_index_of_coords(b: BoardView, x: int, y: int)
    requires
        b.wf(),
        b.in_bounds(x, y),
    ensures
        b.x_of(b.index_of(x, y)) == x,
        b.y_of(b.index_of(x, y)) == y,
{
    let w = b.width as int;
    let i = y * w + x;
    assert((y * w + x) % w == x && (y * w + x) / w == y) by (nonlinear_arith)
        requires
            0 <= x < w,
            0 <= y,
    ;
}

/// Opening a cell with no adjacent mines opens exactly the connected
/// region of zero-count cells together with their immediate hidden
/// border, and never a mine: the open region contains the start, is
/// closed under steps from zero-count members to their hidden neighbors,
/// contains nothing else, and every member but the start was hidden and
/// holds no mine.
pub proof fn lemma_open_region_characterized(b: BoardView, sx: int, sy: int)
    requires
        b.wf(),
        b.in_bounds(sx, sy),
    ensures
        b.in_open_region(sx, sy, sx, sy),
        forall|px: int, py: int, tx: int, ty: int|
            b.in_open_region(sx, sy, px, py) && b.count_mines(px, py) == 0 && #[trigger] b.adjacent(
                px,
                py,
                tx,
                ty,
            ) && b.cell_at(tx, ty).state is Hidden ==> b.in_open_region(sx, sy, tx, ty),
        forall|tx: int, ty: int|
            #[trigger] b.in_open_region(sx, sy, tx, ty) && !(tx == sx && ty == sy) ==> exists|
                px: int,
                py: int,
            |
                b.in_open_region(sx, sy, px, py) && b.count_mines(px, py) == 0 && b.adjacent(
                    px,
                    py,
                    tx,
                    ty,
                ) && b.cell_at(tx, ty).state is Hidden,
        forall|tx: int, ty: int|
            #[trigger] b.in_open_region(sx, sy, tx, ty) && !(tx == sx && ty == sy) ==> !(b.cell_at(
                tx,
                ty,
            ).kind is Mine),
{
    lemma_region_start(b, sx, sy);
    assert forall|px: int, py: int, tx: int, ty: int|
        b.in_open_region(sx, sy, px, py) && b.count_mines(px, py) == 0 && #[trigger] b.adjacent(
            px,
            py,
            tx,
            ty,
        ) && b.cell_at(tx, ty).state is Hidden implies b.in_open_region(sx, sy, tx, ty) by {
        lemma_region_step(b, sx, sy, px, py, tx, ty);
    }
    assert forall|tx: int, ty: int|
        #[trigger] b.in_open_region(sx, sy, tx, ty) && !(tx == sx && ty == sy) implies (exists|
        px: int,
        py: int,
    |
        b.in_open_region(sx, sy, px, py) && b.count_mines(px, py) == 0 && b.adjacent(
            px,
            py,
            tx,
            ty,
        ) && b.cell_at(tx, ty).state is Hidden) && !(b.cell_at(tx, ty).kind is Mine) by {
        let n = choose|n: nat| b.reaches(sx, sy, tx, ty, n);
        assert(n != 0);
        let (px, py) = choose|px: int, py: int|
            {
                &&& b.reaches(sx, sy, px, py, (n - 1) as nat)
                &&& b.count_mines(px, py) == 0
                &&& b.adjacent(px, py, tx, ty)
                &&& b.cell_at(tx, ty).state is Hidden
            };
        assert(b.in_open_region(sx, sy, px, py));
        lemma_neighbor_list_complete(b, px, py, tx, ty);
        lemma_zero_mines_no_mine(b, b.neighbor_list(px, py), (tx, ty));
    }
}

} // verus!
