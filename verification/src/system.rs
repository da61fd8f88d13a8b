//! The constraint builder: the current board as a system of linear
//! equations over its hidden cells.  Every opened cell with adjacent mines
//! contributes one row: the hidden neighbors it constrains, and how many
//! of them are mines once its flags are subtracted.  An optional final row
//! ties all hidden cells to the count of mines not yet flagged.  The
//! executable system packs each row into a 64-bit mask.

use vstd::prelude::*;

use crate::minefield::{
    count_flagged_cells, count_mine_cells, BoardView, CellState, Minefield,
    lemma_coords_of_index,
};

verus! {

/// One linear constraint: which of the listed hidden cells it covers, and
/// how many of those must be mines.
pub struct Row {
    pub mask: Seq<bool>,
    pub rhs: int,
}

/// How many of the first `n` positions are set in both the assignment and
/// the mask.
pub open spec fn weight(a: Seq<bool>, m: Seq<bool>, n: int) -> int
    decreases n,
{
    if n <= 0 {
        0
    } else {
        weight(a, m, n - 1) + if a[n - 1] && m[n - 1] {
            1int
        } else {
            0int
        }
    }
}

/// An assignment meets a row when it places exactly the demanded number
/// of mines among the cells the row covers.
pub open spec fn sat_row(a: Seq<bool>, r: Row) -> bool {
    weight(a, r.mask, r.mask.len() as int) == r.rhs
}

pub open spec fn sat_all(a: Seq<bool>, rows: Seq<Row>) -> bool {
    forall|i: int| 0 <= i < rows.len() ==> sat_row(a, #[trigger] rows[i])
}

/// Every mine/safe assignment of the listed hidden cells that meets every
/// constraint exactly.
pub open spec fn solution_set(rows: Seq<Row>, n: int) -> Set<Seq<bool>> {
    Set::new(|a: Seq<bool>| a.len() == n && sat_all(a, rows))
}

/// Bit `j` of a 64-bit word.
pub open spec fn bit64(m: u64, j: int) -> bool {
    0 <= j < 64 && (m >> (j as u64)) & 1u64 == 1u64
}

/// The low `n` bits of a word as an assignment.
pub open spec fn bits_of(m: u64, n: nat) -> Seq<bool> {
    Seq::new(n, |j: int| bit64(m, j))
}

/// Index values as mathematical integers.
pub open spec fn lifted_idx(v: Seq<usize>) -> Seq<int> {
    v.map_values(|u: usize| u as int)
}

/// Whether the hidden cell `idx` lies in the eight-neighborhood of
/// `(x, y)`.
pub open spec fn near(b: BoardView, idx: int, x: int, y: int) -> bool {
    -1 <= b.x_of(idx) - x <= 1 && -1 <= b.y_of(idx) - y <= 1
}

/// Whether some neighbor of cell `i` is opened.
pub open spec fn has_open_neighbor(b: BoardView, i: int) -> bool {
    exists|k: int|
        0 <= k < b.neighbor_list(b.x_of(i), b.y_of(i)).len() && b.cell_at(
            b.neighbor_list(b.x_of(i), b.y_of(i))[k].0,
            b.neighbor_list(b.x_of(i), b.y_of(i))[k].1,
        ).state is Opened
}

/// Whether cell `i` joins the list of hidden cells under consideration:
/// all hidden cells, or only those on the frontier next to an opened cell.
pub open spec fn hidden_sel(b: BoardView, all: bool, i: int) -> bool {
    b.cells[i].state is Hidden && (all || has_open_neighbor(b, i))
}

/// The selected hidden cells among the first `n`, in index order.
pub open spec fn hidden_prefix(b: BoardView, all: bool, n: int) -> Seq<int>
    decreases n,
{
    if n <= 0 {
        Seq::empty()
    } else {
        hidden_prefix(b, all, n - 1) + if hidden_sel(b, all, n - 1) {
            seq![n - 1]
        } else {
            Seq::empty()
        }
    }
}

/// The hidden cells the solver works over.
pub open spec fn hidden_list(b: BoardView, all: bool) -> Seq<int> {
    hidden_prefix(b, all, b.cells.len() as int)
}

/// The row a single opened numbered cell contributes.
pub open spec fn row_mask(b: BoardView, hidden: Seq<int>, x: int, y: int) -> Seq<bool> {
    Seq::new(hidden.len(), |k: int| near(b, hidden[k], x, y))
}

/// Whether cell `i` contributes a row: opened, with at least one adjacent
/// mine.
pub open spec fn emits_row(b: BoardView, i: int) -> bool {
    b.cells[i].state is Opened && b.count_mines(b.x_of(i), b.y_of(i)) != 0
}

pub open spec fn row_of(b: BoardView, hidden: Seq<int>, i: int) -> Row {
    Row {
        mask: row_mask(b, hidden, b.x_of(i), b.y_of(i)),
        rhs: b.count_mines(b.x_of(i), b.y_of(i)) - b.count_flags(b.x_of(i), b.y_of(i)),
    }
}

/// The rows contributed by the first `n` cells, in index order.
pub open spec fn rows_prefix(b: BoardView, hidden: Seq<int>, n: int) -> Seq<Row>
    decreases n,
{
    if n <= 0 {
        Seq::empty()
    } else {
        rows_prefix(b, hidden, n - 1) + if emits_row(b, n - 1) {
            seq![row_of(b, hidden, n - 1)]
        } else {
            Seq::empty()
        }
    }
}

pub open spec fn board_rows(b: BoardView, hidden: Seq<int>) -> Seq<Row> {
    rows_prefix(b, hidden, b.cells.len() as int)
}

/// The optional global row: all hidden cells together hold every mine not
/// yet flagged.
pub open spec fn total_row(b: BoardView, hidden: Seq<int>) -> Row {
    Row {
        mask: Seq::new(hidden.len(), |k: int| true),
        rhs: count_mine_cells(b.cells) - count_flagged_cells(b.cells),
    }
}

/// The whole constraint system of a board.
pub open spec fn system_spec(b: BoardView, hidden: Seq<int>, include_total: bool) -> Seq<Row> {
    board_rows(b, hidden) + if include_total {
        seq![total_row(b, hidden)]
    } else {
        Seq::empty()
    }
}

/// The executable masks and right-hand sides stand for the given rows.
pub open spec fn corresponds(masks: Seq<u64>, rhs: Seq<u32>, rows: Seq<Row>, n: int) -> bool {
    &&& masks.len() == rows.len()
    &&& rhs.len() == rows.len()
    &&& n >= 0
    &&& forall|r: int|
        0 <= r < rows.len() ==> (#[trigger] rows[r]).mask == bits_of(masks[r], n as nat)
            && rows[r].rhs == rhs[r] as int
}

/// No assignment can meet a row that demands fewer than zero mines or
/// more mines than there are cells.
pub proof fn lemma_weight_bounds(a: Seq<bool>, m: Seq<bool>, n: int)
    ensures
        0 <= weight(a, m, n) <= if n >= 0 {
            n
        } else {
            0
        },
    decreases n,
{
    if n > 0 {
        lemma_weight_bounds(a, m, n - 1);
    }
}

/// More mines placed can only raise a row's count.
pub proof fn lemma_weight_monotone(a1: Seq<bool>, a2: Seq<bool>, m: Seq<bool>, n: int)
    requires
        forall|j: int| 0 <= j < n && a1[j] ==> a2[j],
    ensures
        weight(a1, m, n) <= weight(a2, m, n),
    decreases n,
{
    if n > 0 {
        lemma_weight_monotone(a1, a2, m, n - 1);
    }
}

/// Bit `j` of `m | 1 << k`, for one choice of `j`.
proof fn lemma_or_bit(m: u64, k: u64, j: u64)
    requires
        k < 64,
        j < 64,
    ensures
        (m | (1u64 << k)) >> j & 1u64 == (if j == k {
            1u64
        } else {
            (m >> j) & 1u64
        }),
{
    assert((m | (1u64 << k)) >> j & 1u64 == (if j == k {
        1u64
    } else {
        (m >> j) & 1u64
    })) by (bit_vector)
        requires
            k < 64,
            j < 64,
    ;
}

/// Bit `j` of `m | 1 << k`, as a bit predicate.
proof fn lemma_or_bit64(m: u64, k: u64, j: u64)
    requires
        k < 64,
        j < 64,
    ensures
        bit64(m | (1u64 << k), j as int) == (j == k || bit64(m, j as int)),
{
    lemma_or_bit(m, k, j);
    assert((j as int) as u64 == j);
    assert((m | (1u64 << k)) >> ((j as int) as u64) & 1u64 == (m | (1u64 << k)) >> j & 1u64);
}

/// Setting one bit leaves every other bit alone.
pub proof fn lemma_set_bit(m: u64, k: u64)
    requires
        k < 64,
    ensures
        forall|j: int|
            0 <= j < 64 ==> #[trigger] bit64(m | (1u64 << k), j) == (j == k as int || bit64(
                m,
                j,
            )),
{
    assert forall|j: int| 0 <= j < 64 implies #[trigger] bit64(m | (1u64 << k), j) == (j
        == k as int || bit64(m, j)) by {
        let ju = j as u64;
        assert(ju as int == j);
        lemma_or_bit64(m, k, ju);
        assert(ju == k <==> j == k as int);
    }
}

/// The zero word has no bits set.
pub proof fn lemma_zero_bits()
    ensures
        forall|j: int| !bit64(0u64, j),
{
    assert forall|j: int| !bit64(0u64, j) by {
        if 0 <= j < 64 {
            let ju = j as u64;
            assert((0u64 >> ju) & 1u64 == 0u64) by (bit_vector);
        }
    }
}

/// Every entry of the hidden-cell list indexes a hidden cell, in range and
/// in increasing order.
pub proof fn lemma_hidden_prefix_entries(b: BoardView, all: bool, n: int)
    ensures
        forall|k: int|
            0 <= k < hidden_prefix(b, all, n).len() ==> {
                &&& 0 <= #[trigger] hidden_prefix(b, all, n)[k] < n
                &&& hidden_sel(b, all, hidden_prefix(b, all, n)[k])
            },
    decreases n,
{
    if n > 0 {
        lemma_hidden_prefix_entries(b, all, n - 1);
        let prev = hidden_prefix(b, all, n - 1);
        let cur = hidden_prefix(b, all, n);
        assert forall|k: int| 0 <= k < cur.len() implies {
            &&& 0 <= #[trigger] cur[k] < n
            &&& hidden_sel(b, all, cur[k])
        } by {
            if k < prev.len() {
                assert(cur[k] == prev[k]);
            } else {
                assert(cur[k] == n - 1);
            }
        }
    }
}

/// A prefix of the board contributes a prefix of the rows.
proof fn lemma_rows_prefix_monotone(b: BoardView, hidden: Seq<int>, n: int, m: int)
    requires
        0 <= n <= m,
    ensures
        rows_prefix(b, hidden, n).len() <= rows_prefix(b, hidden, m).len(),
        forall|r: int|
            0 <= r < rows_prefix(b, hidden, n).len() ==> #[trigger] rows_prefix(b, hidden, m)[r]
                == rows_prefix(b, hidden, n)[r],
    decreases m - n,
{
    if n < m {
        lemma_rows_prefix_monotone(b, hidden, n, m - 1);
    }
}

impl Minefield {
    /// The hidden cells the solver will reason about: all of them, or only
    /// those bordering an opened cell.
    pub(crate) fn get_hidden_cells(&self, all: bool) -> (r: Vec<usize>)
        requires
            self@.wf(),
        ensures
            lifted_idx(r@) == hidden_list(self@, all),
            forall|k: int| 0 <= k < r@.len() ==> r@[k] < self@.cells.len(),
    {
        let mut r: Vec<usize> = Vec::new();
        let mut i: usize = 0;
        proof {
            assert(lifted_idx(r@) =~= hidden_prefix(self@, all, 0));
        }
        while i < self.cells.len()
            invariant
                i <= self.cells@.len(),
                self@.wf(),
                lifted_idx(r@) == hidden_prefix(self@, all, i as int),
                forall|k: int| 0 <= k < r@.len() ==> r@[k] < self@.cells.len(),
            decreases self.cells@.len() - i,
        {
            if self.cells[i].state == CellState::Hidden {
                proof {
                    lemma_coords_of_index(self@, i as int);
                }
                let x = i % self.width;
                let y = i / self.width;
                let keep = if all {
                    true
                } else {
                    self.neighboring_open(x, y)
                };
                if keep {
                    r.push(i);
                }
            }
            proof {
                assert(lifted_idx(r@) =~= hidden_prefix(self@, all, i + 1));
            }
            i = i + 1;
        }
        r
    }

    /// Builds the bitmask constraint system over the given hidden cells.
    /// Returns nothing when the board is inconsistently flagged, in which
    /// case no assignment could meet the system anyway.
    pub(crate) fn create_system_bm(
        &self,
        hidden_cells: &Vec<usize>,
        include_total_mines: bool,
    ) -> (r: Option<(Vec<u64>, Vec<u32>)>)
        requires
            self@.wf(),
            hidden_cells@.len() <= 64,
            forall|k: int| 0 <= k < hidden_cells@.len() ==> hidden_cells@[k] < self@.cells.len(),
        ensures
            match r {
                Some(ax) => corresponds(
                    ax.0@,
                    ax.1@,
                    system_spec(self@, lifted_idx(hidden_cells@), include_total_mines),
                    hidden_cells@.len() as int,
                ),
                None => forall|a: Seq<bool>|
                    a.len() == hidden_cells@.len() ==> !sat_all(
                        a,
                        system_spec(self@, lifted_idx(hidden_cells@), include_total_mines),
                    ),
            },
    {
        let ghost hidden = lifted_idx(hidden_cells@);
        let nvars = hidden_cells.len();
        let mut masks: Vec<u64> = Vec::new();
        let mut rhs: Vec<u32> = Vec::new();
        let mut i: usize = 0;
        proof {
            assert(corresponds(masks@, rhs@, rows_prefix(self@, hidden, 0), nvars as int));
        }
        while i < self.cells.len()
            invariant
                i <= self.cells@.len(),
                self@.wf(),
                nvars == hidden_cells@.len() <= 64,
                hidden == lifted_idx(hidden_cells@),
                forall|k: int| 0 <= k < hidden_cells@.len() ==> hidden_cells@[k]
                    < self@.cells.len(),
                corresponds(masks@, rhs@, rows_prefix(self@, hidden, i as int), nvars as int),
            decreases self.cells@.len() - i,
        {
            if self.cells[i].state == CellState::Opened {
                proof {
                    lemma_coords_of_index(self@, i as int);
                }
                let x = i % self.width;
                let y = i / self.width;
                let mines = self.count_mines(x, y);
                if mines != 0 {
                    let flags = self.count_flags(x, y);
                    if flags > mines {
                        proof {
                            lemma_bad_row_unsat(
                                self@,
                                hidden,
                                include_total_mines,
                                i as int,
                                nvars as int,
                            );
                        }
                        return None;
                    }
                    let mask = self.build_row_mask(hidden_cells, x, y);
                    masks.push(mask);
                    rhs.push((mines - flags) as u32);
                    proof {
                        let rows1 = rows_prefix(self@, hidden, i + 1);
                        assert(rows1 =~= rows_prefix(self@, hidden, i as int) + seq![
                            row_of(self@, hidden, i as int),
                        ]);
                        assert(corresponds(masks@, rhs@, rows1, nvars as int));
                    }
                } else {
                    proof {
                        assert(rows_prefix(self@, hidden, i + 1) =~= rows_prefix(
                            self@,
                            hidden,
                            i as int,
                        ));
                    }
                }
            } else {
                proof {
                    assert(rows_prefix(self@, hidden, i + 1) =~= rows_prefix(
                        self@,
                        hidden,
                        i as int,
                    ));
                }
            }
            i = i + 1;
        }
        proof {
            assert(rows_prefix(self@, hidden, self@.cells.len() as int) == board_rows(
                self@,
                hidden,
            ));
        }
        if include_total_mines {
            let tm = self.total_mines();
            let tf = self.total_flags();
            if tf > tm || tm - tf > 64 {
                proof {
                    lemma_bad_total_unsat(self@, hidden, nvars as int);
                }
                return None;
            }
            let mask = self.build_full_mask(hidden_cells);
            masks.push(mask);
            rhs.push((tm - tf) as u32);
            proof {
                let sys = system_spec(self@, hidden, true);
                assert(sys =~= board_rows(self@, hidden) + seq![total_row(self@, hidden)]);
                assert(corresponds(masks@, rhs@, sys, nvars as int));
            }
        } else {
            proof {
                assert(system_spec(self@, hidden, false) =~= board_rows(self@, hidden));
            }
        }
        Some((masks, rhs))
    }

    /// The 64-bit mask of the hidden cells near `(x, y)`.
    fn build_row_mask(&self, hidden_cells: &Vec<usize>, x: usize, y: usize) -> (mask: u64)
        requires
            self@.wf(),
            hidden_cells@.len() <= 64,
            forall|k: int| 0 <= k < hidden_cells@.len() ==> hidden_cells@[k] < self@.cells.len(),
        ensures
            bits_of(mask, hidden_cells@.len() as nat) == row_mask(
                self@,
                lifted_idx(hidden_cells@),
                x as int,
                y as int,
            ),
    {
        let ghost hidden = lifted_idx(hidden_cells@);
        let mut mask: u64 = 0;
        let mut k: usize = 0;
        proof {
            lemma_zero_bits();
        }
        while k < hidden_cells.len()
            invariant
                k <= hidden_cells@.len() <= 64,
                self@.wf(),
                hidden == lifted_idx(hidden_cells@),
                forall|j: int| 0 <= j < hidden_cells@.len() ==> hidden_cells@[j]
                    < self@.cells.len(),
                forall|j: int| 0 <= j < k ==> bit64(mask, j) == near(
                    self@,
                    hidden[j],
                    x as int,
                    y as int,
                ),
                forall|j: int| k <= j < 64 ==> !bit64(mask, j),
            decreases hidden_cells@.len() - k,
        {
            let hi = hidden_cells[k];
            proof {
                lemma_coords_of_index(self@, hi as int);
            }
            let hx = hi % self.width;
            let hy = hi / self.width;
            let dx = if hx >= x {
                hx - x
            } else {
                x - hx
            };
            let dy = if hy >= y {
                hy - y
            } else {
                y - hy
            };
            if dx <= 1 && dy <= 1 {
                proof {
                    lemma_set_bit(mask, k as u64);
                }
                mask = mask | (1u64 << (k as u64));
            }
            k = k + 1;
        }
        proof {
            assert(bits_of(mask, hidden_cells@.len() as nat) =~= row_mask(
                self@,
                hidden,
                x as int,
                y as int,
            ));
        }
        mask
    }

    /// The mask that covers every hidden cell under consideration.
    fn build_full_mask(&self, hidden_cells: &Vec<usize>) -> (mask: u64)
        requires
            hidden_cells@.len() <= 64,
        ensures
            bits_of(mask, hidden_cells@.len() as nat) == Seq::new(
                hidden_cells@.len() as nat,
                |k: int| true,
            ),
    {
        let mut mask: u64 = 0;
        let mut k: usize = 0;
        proof {
            lemma_zero_bits();
        }
        while k < hidden_cells.len()
            invariant
                k <= hidden_cells@.len() <= 64,
                forall|j: int| 0 <= j < k ==> bit64(mask, j),
                forall|j: int| k <= j < 64 ==> !bit64(mask, j),
            decreases hidden_cells@.len() - k,
        {
            proof {
                lemma_set_bit(mask, k as u64);
            }
            mask = mask | (1u64 << (k as u64));
            k = k + 1;
        }
        proof {
            assert(bits_of(mask, hidden_cells@.len() as nat) =~= Seq::new(
                hidden_cells@.len() as nat,
                |k: int| true,
            ));
        }
        mask
    }
}

/// A row demanding fewer than zero mines leaves the whole system without
/// solutions.
pub proof fn lemma_bad_row_unsat(b: BoardView, hidden: Seq<int>, include_total: bool, i: int, n: int)
    requires
        0 <= i < b.cells.len(),
        emits_row(b, i),
        row_of(b, hidden, i).rhs < 0,
    ensures
        forall|a: Seq<bool>|
            a.len() == n ==> !sat_all(a, system_spec(b, hidden, include_total)),
{
    let sys = system_spec(b, hidden, include_total);
    let pos = rows_prefix(b, hidden, i).len();
    lemma_rows_prefix_monotone(b, hidden, i + 1, b.cells.len() as int);
    assert(rows_prefix(b, hidden, i + 1) =~= rows_prefix(b, hidden, i) + seq![
        row_of(b, hidden, i),
    ]);
    assert(rows_prefix(b, hidden, i + 1)[pos as int] == row_of(b, hidden, i));
    assert(board_rows(b, hidden)[pos as int] == row_of(b, hidden, i));
    lemma_rows_prefix_nonneg_len(b, hidden, i);
    assert(sys[pos as int] == row_of(b, hidden, i));
    assert forall|a: Seq<bool>| a.len() == n implies !sat_all(a, sys) by {
        lemma_weight_bounds(a, row_of(b, hidden, i).mask, row_of(b, hidden, i).mask.len() as int);
        assert(!sat_row(a, sys[pos as int]));
    }
}

/// A global row demanding more mines than there are hidden cells leaves
/// the system without solutions.
pub proof fn lemma_bad_total_unsat(b: BoardView, hidden: Seq<int>, n: int)
    requires
        0 <= n,
        hidden.len() == n,
        total_row(b, hidden).rhs < 0 || total_row(b, hidden).rhs > n,
    ensures
        forall|a: Seq<bool>| a.len() == n ==> !sat_all(a, system_spec(b, hidden, true)),
{
    let sys = system_spec(b, hidden, true);
    let pos = board_rows(b, hidden).len();
    assert(sys =~= board_rows(b, hidden) + seq![total_row(b, hidden)]);
    assert(sys[pos as int] == total_row(b, hidden));
    assert forall|a: Seq<bool>| a.len() == n implies !sat_all(a, sys) by {
        lemma_weight_bounds(a, total_row(b, hidden).mask, total_row(b, hidden).mask.len() as int);
        assert(!sat_row(a, sys[pos as int]));
    }
}

/// Row counts never go negative.
proof fn lemma_rows_prefix_nonneg_len(b: BoardView, hidden: Seq<int>, n: int)
    ensures
        rows_prefix(b, hidden, n).len() >= 0,
{
}

} // verus!

