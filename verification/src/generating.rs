//! Guess-free board generation: sample random minefields anchored at a
//! fixed opened start cell, drive each through the solve loop, and accept
//! the first candidate the solver can finish without guessing.  The
//! generator here does bounded work per call and keeps its candidate and
//! attempt count across calls, for callers without background threads.

use vstd::prelude::*;

use crate::minefield::{
    count_mine_cells, lemma_coords_of_index, lemma_index_of_coords,
    lemma_open_region_characterized, lemma_region_start, Cell, CellKind, CellState, Minefield,
};
use crate::solver::{
    lemma_count_hidden_nonneg, lemma_hidden_list_le_count, lemma_step_kinds, lemma_step_shape,
};
use crate::system::hidden_list;
use rand::rngs::StdRng;

verus! {

/// How many sampling or deduction rounds one `run` call may spend before
/// yielding back to the caller.
pub const MAX_ROUNDS_PER_RUN: usize = 1024;

/// Declares rand's `StdRng` so that generators can hold and pass one;
/// its state stays opaque.
#[verifier::external_type_specification]
#[verifier::external_body]
pub struct ExStdRng(StdRng);

/// Declares web_time's `Instant` for the render budget clock; its value
/// stays opaque.
#[verifier::external_type_specification]
#[verifier::external_body]
pub struct ExInstant(web_time::Instant);

/// Relies on rand's `SeedableRng::seed_from_u64` for `StdRng`: builds a
/// generator from a fixed seed.
#[verifier::external_body]
pub fn rng_from_seed(seed: u64) -> (r: StdRng) {
    <StdRng as rand::SeedableRng>::seed_from_u64(seed)
}

/// Relies on rand's `SeedableRng::from_entropy` for `StdRng`: builds a
/// generator from system entropy.
#[verifier::external_body]
pub fn rng_from_entropy() -> (r: StdRng) {
    <StdRng as rand::SeedableRng>::from_entropy()
}

/// Relies on rand's `Rng::gen_range`: a sample from `0..n` lies below
/// `n`; the empty range, which would panic, is excluded.
#[verifier::external_body]
pub fn rng_below(rng: &mut StdRng, n: usize) -> (r: usize)
    requires
        n > 0,
    ensures
        r < n,
{
    rand::Rng::gen_range(rng, 0..n)
}

/// Relies on web_time's `Instant::now` for the render budget clock.
/// Nothing is promised of a clock reading.
#[verifier::external_body]
fn budget_clock_now() -> (r: web_time::Instant) {
    web_time::Instant::now()
}

/// Relies on web_time's `Instant::elapsed`: the time since `start`, in
/// whole milliseconds.  Nothing is promised of a clock reading.
#[verifier::external_body]
fn elapsed_millis(start: &web_time::Instant) -> (r: u128) {
    start.elapsed().as_millis()
}

/// How replacing one cell moves the board's mine count.
proof fn lemma_count_mine_cells_update(cells: Seq<Cell>, i: int, c: Cell)
    requires
        0 <= i < cells.len(),
    ensures
        count_mine_cells(cells.update(i, c)) == count_mine_cells(cells) - (if cells[i].kind
            is Mine {
            1int
        } else {
            0int
        }) + (if c.kind is Mine {
            1int
        } else {
            0int
        }),
    decreases cells.len(),
{
    let upd = cells.update(i, c);
    if i == cells.len() - 1 {
        assert(upd.drop_last() =~= cells.drop_last());
    } else {
        assert(upd.drop_last() =~= cells.drop_last().update(i, c));
        lemma_count_mine_cells_update(cells.drop_last(), i, c);
    }
}

/// Boards with the same kinds hold the same number of mines.
pub proof fn lemma_count_mine_cells_same_kinds(c1: Seq<Cell>, c2: Seq<Cell>)
    requires
        c1.len() == c2.len(),
        forall|i: int| 0 <= i < c1.len() ==> c1[i].kind == c2[i].kind,
    ensures
        count_mine_cells(c1) == count_mine_cells(c2),
    decreases c1.len(),
{
    if c1.len() > 0 {
        lemma_count_mine_cells_same_kinds(c1.drop_last(), c2.drop_last());
    }
}

/// Mine counts never leave the range of the board.
proof fn lemma_count_mine_cells_bounds(cells: Seq<Cell>)
    ensures
        0 <= count_mine_cells(cells) <= cells.len(),
    decreases cells.len(),
{
    if cells.len() > 0 {
        lemma_count_mine_cells_bounds(cells.drop_last());
    }
}

/// Turns the `r`-th empty cell, in index order, into a mine.
fn place_mine(cells: &mut Vec<Cell>, r: usize)
    requires
        r < old(cells)@.len() - count_mine_cells(old(cells)@),
    ensures
        final(cells)@.len() == old(cells)@.len(),
        exists|p: int|
            0 <= p < old(cells)@.len() && old(cells)@[p].kind is Empty && final(cells)@ == old(
                cells,
            )@.update(p, Cell { kind: CellKind::Mine, state: old(cells)@[p].state }),
{
    let ghost o = cells@;
    let mut idx: usize = 0;
    let mut seen: usize = 0;
    proof {
        assert(o.take(0) =~= Seq::<Cell>::empty());
        lemma_count_mine_cells_bounds(o);
    }
    while idx < cells.len()
        invariant
            o == old(cells)@,
            idx <= o.len(),
            cells@ == o,
            seen <= idx,
            seen <= r < o.len() - count_mine_cells(o),
            seen as int == idx - count_mine_cells(o.take(idx as int)),
            0 <= count_mine_cells(o.take(idx as int)) <= idx,
        decreases o.len() - idx,
    {
        proof {
            assert(o.take(idx + 1).drop_last() =~= o.take(idx as int));
            assert(o.take(idx + 1).last() == o[idx as int]);
            lemma_count_mine_cells_bounds(o.take(idx + 1));
        }
        let cell = cells[idx];
        if cell.kind == CellKind::Empty {
            if seen == r {
                cells.set(idx, Cell { kind: CellKind::Mine, state: cell.state });
                proof {
                    assert(cells@ == o.update(
                        idx as int,
                        Cell { kind: CellKind::Mine, state: o[idx as int].state },
                    ));
                }
                return;
            }
            seen = seen + 1;
        }
        idx = idx + 1;
    }
    proof {
        assert(o.take(o.len() as int) =~= o);
        assert(false);
    }
}

impl Minefield {
    /// A random board: `mines` mines placed uniformly among the cells,
    /// everything hidden.
    pub fn generate(rng: &mut StdRng, width: usize, height: usize, mines: usize) -> (r: Minefield)
        requires
            mines < width * height,
            width * height <= usize::MAX,
        ensures
            r@.wf(),
            r.width == width,
            r.height == height,
            count_mine_cells(r@.cells) == mines,
            forall|i: int| 0 <= i < r@.cells.len() ==> r@.cells[i].state is Hidden,
    {
        let mut mf = Minefield::new(width, height);
        proof {
            lemma_count_mine_cells_bounds(mf@.cells);
            assert(count_mine_cells(mf@.cells) == 0) by {
                lemma_count_mine_cells_same_kinds(
                    mf@.cells,
                    Seq::new(mf@.cells.len(), |i: int| Cell {
                        kind: CellKind::Empty,
                        state: CellState::Hidden,
                    }),
                );
                lemma_all_empty_no_mines(mf@.cells.len() as nat);
            }
        }
        let total = width * height;
        let mut placed: usize = 0;
        while placed < mines
            invariant
                placed <= mines < total,
                total == width * height,
                mf.width == width,
                mf.height == height,
                mf@.wf(),
                mf@.cells.len() == total,
                count_mine_cells(mf@.cells) == placed,
                forall|i: int| 0 <= i < mf@.cells.len() ==> mf@.cells[i].state is Hidden,
            decreases mines - placed,
        {
            let r = rng_below(rng, total - placed);
            let ghost pre = mf@.cells;
            place_mine(&mut mf.cells, r);
            proof {
                let p = choose|p: int|
                    0 <= p < pre.len() && pre[p].kind is Empty && mf@.cells == pre.update(
                        p,
                        Cell { kind: CellKind::Mine, state: pre[p].state },
                    );
                lemma_count_mine_cells_update(
                    pre,
                    p,
                    Cell { kind: CellKind::Mine, state: pre[p].state },
                );
            }
            placed = placed + 1;
        }
        mf
    }

    /// A random board with a random empty start cell already opened.  The
    /// opened region never holds a mine, so the board is not lost.
    pub fn random_start(rng: &mut StdRng, width: usize, height: usize, mines: usize) -> (r:
        Minefield)
        requires
            mines < width * height,
            width * height <= usize::MAX,
        ensures
            r@.wf(),
            r.width == width,
            r.height == height,
            count_mine_cells(r@.cells) == mines,
            !r@.is_lost(),
            exists|i: int|
                0 <= i < r@.cells.len() && (#[trigger] r@.cells[i]).kind is Empty
                    && r@.cells[i].state is Opened,
    {
        let mut mf = Minefield::generate(rng, width, height, mines);
        let mut empties: Vec<usize> = Vec::new();
        let mut i: usize = 0;
        while i < mf.cells.len()
            invariant
                i <= mf@.cells.len(),
                forall|k: int| 0 <= k < empties@.len() ==> {
                    &&& #[trigger] empties@[k] < i
                    &&& mf@.cells[empties@[k] as int].kind is Empty
                },
                empties@.len() as int >= i - count_mine_cells(mf@.cells.take(i as int)),
                0 <= count_mine_cells(mf@.cells.take(i as int)),
            decreases mf@.cells.len() - i,
        {
            proof {
                assert(mf@.cells.take(i + 1).drop_last() =~= mf@.cells.take(i as int));
                assert(mf@.cells.take(i + 1).last() == mf@.cells[i as int]);
                lemma_count_mine_cells_bounds(mf@.cells.take(i + 1));
            }
            if mf.cells[i].kind == CellKind::Empty {
                empties.push(i);
            }
            i = i + 1;
        }
        proof {
            assert(mf@.cells.take(mf@.cells.len() as int) =~= mf@.cells);
            assert(empties@.len() > 0);
        }
        let k = rng_below(rng, empties.len());
        let start = empties[k];
        proof {
            lemma_coords_of_index(mf@, start as int);
        }
        let x = start % mf.width;
        let y = start / mf.width;
        let ghost pre = mf@;
        mf.open(x, y);
        proof {
            lemma_region_start(pre, x as int, y as int);
            lemma_index_of_coords(pre, x as int, y as int);
            assert(mf@.cells[start as int].state is Opened);
            assert(mf@.cells[start as int].kind is Empty);
            lemma_count_mine_cells_same_kinds(pre.cells, mf@.cells);
            lemma_open_region_characterized(pre, x as int, y as int);
            assert forall|j: int|
                0 <= j < mf@.cells.len() && mf@.cells[j].kind is Mine implies !(
            mf@.cells[j].state is Opened) by {
                if mf@.cells[j].state is Opened {
                    lemma_coords_of_index(pre, j);
                    assert(pre.in_open_region(x as int, y as int, pre.x_of(j), pre.y_of(j)));
                    if pre.x_of(j) == x as int && pre.y_of(j) == y as int {
                        assert(j == pre.index_of(pre.x_of(j), pre.y_of(j)));
                    }
                }
            }
        }
        mf
    }
}

/// A board of empty cells holds no mines.
proof fn lemma_all_empty_no_mines(n: nat)
    ensures
        count_mine_cells(
            Seq::new(n, |i: int| Cell { kind: CellKind::Empty, state: CellState::Hidden }),
        ) == 0,
    decreases n,
{
    let s = Seq::new(n, |i: int| Cell { kind: CellKind::Empty, state: CellState::Hidden });
    if n > 0 {
        lemma_all_empty_no_mines((n - 1) as nat);
        assert(s.drop_last() =~= Seq::new(
            (n - 1) as nat,
            |i: int| Cell { kind: CellKind::Empty, state: CellState::Hidden },
        ));
    }
}

/// What one generator poll reports: the accepted guess-free board, or the
/// most recent candidate still being worked on.
pub enum GeneratorStatus {
    Found(Minefield),
    StillSolving(Option<Minefield>),
}

/// A guess-free generator that runs cooperatively: each `run` call does a
/// bounded amount of sampling and solving and then yields, keeping the
/// current candidate and the attempt count across calls.
pub struct AsyncGuessfreeGenerator {
    pub start: usize,
    pub mines: usize,
    pub width: usize,
    pub height: usize,
    pub attempts: usize,
    pub solving: Option<Minefield>,
    pub rng: StdRng,
}

impl AsyncGuessfreeGenerator {
    /// The generator's internal consistency: sensible parameters, and a
    /// candidate board of the right shape and mine count.
    pub open spec fn wf(self) -> bool {
        &&& self.mines < self.width * self.height
        &&& self.width * self.height <= 64
        &&& self.start < self.width * self.height
        &&& match self.solving {
            Option::Some(m) => {
                &&& m@.wf()
                &&& m.width == self.width
                &&& m.height == self.height
                &&& count_mine_cells(m@.cells) == self.mines
                &&& m@.cells[self.start as int].kind is Empty
            },
            Option::None => true,
        }
    }

    /// A fresh generator, seeded from system entropy, with no candidate
    /// yet.
    pub fn new(start: usize, width: usize, height: usize, mines: usize) -> (r:
        AsyncGuessfreeGenerator)
        requires
            mines < width * height,
            width * height <= 64,
            start < width * height,
        ensures
            r.wf(),
            r.attempts == 0,
            r.start == start,
            r.width == width,
            r.height == height,
            r.mines == mines,
    {
        AsyncGuessfreeGenerator {
            start,
            mines,
            width,
            height,
            attempts: 0,
            solving: Option::None,
            rng: rng_from_entropy(),
        }
    }

    /// A fresh generator with a fixed seed, for reproducible runs.
    pub fn from_seed(start: usize, width: usize, height: usize, mines: usize, seed: u64) -> (r:
        AsyncGuessfreeGenerator)
        requires
            mines < width * height,
            width * height <= 64,
            start < width * height,
        ensures
            r.wf(),
            r.attempts == 0,
            r.start == start,
            r.width == width,
            r.height == height,
            r.mines == mines,
    {
        AsyncGuessfreeGenerator {
            start,
            mines,
            width,
            height,
            attempts: 0,
            solving: Option::None,
            rng: rng_from_seed(seed),
        }
    }

    /// How many candidate boards have been sampled so far.
    pub fn attempts(&self) -> (r: usize)
        ensures
            r == self.attempts,
    {
        self.attempts
    }

    /// One bounded slice of work: sample candidates, open their start
    /// cell, and push them through solve steps; a candidate that gets
    /// stuck is discarded and counted.  Yields either the first accepted
    /// board, hidden again with only the start cell opened, or the
    /// candidate currently being solved.
    pub fn run(&mut self) -> (status: GeneratorStatus)
        requires
            old(self).wf(),
        ensures
            final(self).wf(),
            final(self).start == old(self).start,
            final(self).width == old(self).width,
            final(self).height == old(self).height,
            final(self).mines == old(self).mines,
            final(self).attempts >= old(self).attempts,
            match status {
                GeneratorStatus::Found(m) => {
                    &&& m@.wf()
                    &&& m.width == old(self).width
                    &&& m.height == old(self).height
                    &&& count_mine_cells(m@.cells) == old(self).mines
                    &&& m@.cells[old(self).start as int].state is Opened
                    &&& m@.cells[old(self).start as int].kind is Empty
                },
                GeneratorStatus::StillSolving(_) => true,
            },
    {
        let started = budget_clock_now();
        let mut rounds: usize = 0;
        loop
            invariant
                self.wf(),
                self.start == old(self).start,
                self.width == old(self).width,
                self.height == old(self).height,
                self.mines == old(self).mines,
                self.attempts >= old(self).attempts,
                rounds <= MAX_ROUNDS_PER_RUN,
            ensures
                self.wf(),
                self.start == old(self).start,
                self.width == old(self).width,
                self.height == old(self).height,
                self.mines == old(self).mines,
                self.attempts >= old(self).attempts,
            decreases MAX_ROUNDS_PER_RUN - rounds,
        {
            if rounds >= MAX_ROUNDS_PER_RUN || elapsed_millis(&started) >= 100 {
                break;
            }
            rounds = rounds + 1;
            if self.solving.is_none() {
                if self.attempts < usize::MAX {
                    self.attempts = self.attempts + 1;
                }
                let mut candidate = Minefield::generate(
                    &mut self.rng,
                    self.width,
                    self.height,
                    self.mines,
                );
                if candidate.cells[self.start].kind == CellKind::Empty {
                    proof {
                        lemma_coords_of_index(candidate@, self.start as int);
                    }
                    let x = self.start % self.width;
                    let y = self.start / self.width;
                    let ghost pre = candidate@;
                    candidate.open(x, y);
                    proof {
                        lemma_count_mine_cells_same_kinds(pre.cells, candidate@.cells);
                    }
                    self.solving = Option::Some(candidate);
                }
            } else {
                let mut mf = self.solving.take().unwrap();
                let ghost pre = mf@;
                proof {
                    lemma_hidden_list_le_count(pre, true);
                    lemma_count_hidden_nonneg(pre.cells);
                }
                let changed = crate::solver::solve_step(&mut mf);
                proof {
                    lemma_step_shape(pre, true);
                    lemma_step_kinds(pre, true);
                    lemma_count_mine_cells_same_kinds(pre.cells, mf@.cells);
                }
                if mf.is_solved() {
                    let ghost before_hide = mf@;
                    mf.conceal();
                    proof {
                        lemma_count_mine_cells_same_kinds(before_hide.cells, mf@.cells);
                        lemma_coords_of_index(mf@, self.start as int);
                    }
                    let x = self.start % self.width;
                    let y = self.start / self.width;
                    let ghost hidden_again = mf@;
                    mf.open(x, y);
                    proof {
                        lemma_count_mine_cells_same_kinds(hidden_again.cells, mf@.cells);
                        lemma_region_start(hidden_again, x as int, y as int);
                        lemma_index_of_coords(hidden_again, x as int, y as int);
                        assert(mf@.cells[self.start as int].state is Opened);
                        assert(mf@.cells[self.start as int].kind is Empty);
                    }
                    self.solving = Option::None;
                    return GeneratorStatus::Found(mf);
                }
                if changed {
                    self.solving = Option::Some(mf);
                } else {
                    self.solving = Option::None;
                }
            }
        }
        let snapshot = match &self.solving {
            Option::Some(m) => Option::Some(m.clone()),
            Option::None => Option::None,
        };
        GeneratorStatus::StillSolving(snapshot)
    }
}

} // verus!
