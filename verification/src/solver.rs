//! The solver: enumerate every mine/safe assignment consistent with the
//! board's constraint system, find the hidden cells on which all of them
//! agree, and apply those forced moves.  `solve_step` performs one such
//! round; `solve` repeats it to a fixpoint.  The enumeration here packs
//! assignments into 64-bit masks and prunes branches whose partial mine
//! placement already overshoots a constraint.

use vstd::prelude::*;

use crate::minefield::{
    count_hidden_cells, BoardView, Cell, CellState, Minefield, lemma_coords_of_index,
    lemma_region_start,
};
use crate::system::{
    bit64, bits_of, corresponds, hidden_list, lifted_idx, sat_all, sat_row, solution_set,
    system_spec, weight, lemma_hidden_prefix_entries, lemma_weight_monotone, lemma_set_bit,
    lemma_zero_bits, Row,
};

verus! {

/// The board with the cell at flat index `idx` flagged.
pub open spec fn flag_result(b: BoardView, idx: int) -> BoardView {
    if 0 <= idx < b.cells.len() {
        BoardView {
            cells: b.cells.update(
                idx,
                Cell { kind: b.cells[idx].kind, state: CellState::Flagged },
            ),
            width: b.width,
            height: b.height,
        }
    } else {
        b
    }
}

/// Position `i` holds value `v` in every solution, and there is at least
/// one solution: the deduction at `i` is forced.
pub open spec fn forced(s: Set<Seq<bool>>, i: int, v: bool) -> bool {
    &&& exists|a: Seq<bool>| s.contains(a)
    &&& forall|a: Seq<bool>| s.contains(a) ==> a[i] == v
}

/// Some position among the first `n` carries a forced deduction.
pub open spec fn any_forced(s: Set<Seq<bool>>, n: int) -> bool {
    exists|i: int| 0 <= i < n && (forced(s, i, true) || forced(s, i, false))
}

/// The board after applying every forced deduction from position `i` on,
/// in order: a forced safe cell is opened, a forced mine flagged.
pub open spec fn apply_deds(b: BoardView, hidden: Seq<int>, s: Set<Seq<bool>>, i: int) -> BoardView
    decreases hidden.len() - i,
{
    if i < 0 || i >= hidden.len() {
        b
    } else {
        let b1 = if forced(s, i, false) {
            b.open_result(b.x_of(hidden[i]), b.y_of(hidden[i]))
        } else if forced(s, i, true) {
            flag_result(b, hidden[i])
        } else {
            b
        };
        apply_deds(b1, hidden, s, i + 1)
    }
}

/// The board after one solve step: the forced deductions of its
/// constraint system, applied in order of the hidden-cell list.
pub open spec fn step_result(b: BoardView, with_total: bool) -> BoardView {
    apply_deds(
        b,
        hidden_list(b, with_total),
        solution_set(
            system_spec(b, hidden_list(b, with_total), with_total),
            hidden_list(b, with_total).len() as int,
        ),
        0,
    )
}

/// Whether one solve step finds any deduction at all.
pub open spec fn step_changed(b: BoardView, with_total: bool) -> bool {
    any_forced(
        solution_set(
            system_spec(b, hidden_list(b, with_total), with_total),
            hidden_list(b, with_total).len() as int,
        ),
        hidden_list(b, with_total).len() as int,
    )
}

/// The assignment `a` agrees with the word `b` below position `i`.
pub open spec fn extends_from(a: Seq<bool>, b: u64, i: int, n: int) -> bool {
    a.len() == n && forall|j: int| 0 <= j < i ==> a[j] == bit64(b, j)
}

/// The assignments that a vector of packed words spells.
pub open spec fn sols_set(sol: Seq<u64>, n: nat) -> Set<Seq<bool>> {
    Set::new(|a: Seq<bool>| exists|k: int| 0 <= k < sol.len() && bits_of(sol[k], n) == a)
}

/// The satisfying assignments that extend `b` from position `i` on.
pub open spec fn target_set(rows: Seq<Row>, b: u64, i: int, n: int) -> Set<Seq<bool>> {
    Set::new(|a: Seq<bool>| extends_from(a, b, i, n) && sat_all(a, rows))
}

/// Nothing is forced by an empty solution set, so nothing is applied.
pub proof fn lemma_apply_deds_id(b: BoardView, hidden: Seq<int>, s: Set<Seq<bool>>, i: int)
    requires
        forall|j: int| i <= j < hidden.len() ==> !forced(s, j, true) && !forced(s, j, false),
    ensures
        apply_deds(b, hidden, s, i) == b,
    decreases hidden.len() - i,
{
    if 0 <= i < hidden.len() {
        lemma_apply_deds_id(b, hidden, s, i + 1);
    }
}

/// Applying deductions never changes the board's shape.
pub proof fn lemma_apply_deds_shape(b: BoardView, hidden: Seq<int>, s: Set<Seq<bool>>, i: int)
    ensures
        apply_deds(b, hidden, s, i).width == b.width,
        apply_deds(b, hidden, s, i).height == b.height,
        apply_deds(b, hidden, s, i).cells.len() == b.cells.len(),
    decreases hidden.len() - i,
{
    if 0 <= i < hidden.len() {
        let b1 = if forced(s, i, false) {
            b.open_result(b.x_of(hidden[i]), b.y_of(hidden[i]))
        } else if forced(s, i, true) {
            flag_result(b, hidden[i])
        } else {
            b
        };
        lemma_apply_deds_shape(b1, hidden, s, i + 1);
    }
}

/// Fewer cells are hidden in `c2` than in `c1` when hiding only ever goes
/// away pointwise; a witness makes the drop strict.
pub proof fn lemma_count_hidden_pointwise(c1: Seq<Cell>, c2: Seq<Cell>)
    requires
        c1.len() == c2.len(),
        forall|i: int| 0 <= i < c1.len() && c2[i].state is Hidden ==> c1[i].state is Hidden,
    ensures
        count_hidden_cells(c2) <= count_hidden_cells(c1),
    decreases c1.len(),
{
    if c1.len() > 0 {
        lemma_count_hidden_pointwise(c1.drop_last(), c2.drop_last());
    }
}

pub proof fn lemma_count_hidden_pointwise_strict(c1: Seq<Cell>, c2: Seq<Cell>, w: int)
    requires
        c1.len() == c2.len(),
        forall|i: int| 0 <= i < c1.len() && c2[i].state is Hidden ==> c1[i].state is Hidden,
        0 <= w < c1.len(),
        c1[w].state is Hidden,
        !(c2[w].state is Hidden),
    ensures
        count_hidden_cells(c2) < count_hidden_cells(c1),
    decreases c1.len(),
{
    if w == c1.len() - 1 {
        lemma_count_hidden_pointwise(c1.drop_last(), c2.drop_last());
    } else {
        lemma_count_hidden_pointwise_strict(c1.drop_last(), c2.drop_last(), w);
    }
}

/// Opening never hides a cell.
pub proof fn lemma_open_result_hidden_le(b: BoardView, x: int, y: int)
    ensures
        count_hidden_cells(b.open_result(x, y).cells) <= count_hidden_cells(b.cells),
{
    lemma_count_hidden_pointwise(b.cells, b.open_result(x, y).cells);
}

/// Flagging never hides a cell.
pub proof fn lemma_flag_result_hidden_le(b: BoardView, idx: int)
    ensures
        count_hidden_cells(flag_result(b, idx).cells) <= count_hidden_cells(b.cells),
{
    if 0 <= idx < b.cells.len() {
        lemma_count_hidden_pointwise(b.cells, flag_result(b, idx).cells);
    }
}

/// Applied deductions only take cells out of hiding.
pub proof fn lemma_apply_deds_hidden_le(b: BoardView, hidden: Seq<int>, s: Set<Seq<bool>>, i: int)
    ensures
        count_hidden_cells(apply_deds(b, hidden, s, i).cells) <= count_hidden_cells(b.cells),
    decreases hidden.len() - i,
{
    if 0 <= i < hidden.len() {
        let b1 = if forced(s, i, false) {
            b.open_result(b.x_of(hidden[i]), b.y_of(hidden[i]))
        } else if forced(s, i, true) {
            flag_result(b, hidden[i])
        } else {
            b
        };
        lemma_open_result_hidden_le(b, b.x_of(hidden[i]), b.y_of(hidden[i]));
        lemma_flag_result_hidden_le(b, hidden[i]);
        lemma_apply_deds_hidden_le(b1, hidden, s, i + 1);
    }
}

/// A step that finds a deduction uncovers at least one hidden cell.
pub proof fn lemma_apply_deds_hidden_lt(b: BoardView, hidden: Seq<int>, s: Set<Seq<bool>>, i: int)
    requires
        b.wf(),
        0 <= i,
        exists|j: int| i <= j < hidden.len() && (forced(s, j, true) || forced(s, j, false)),
        forall|k: int|
            i <= k < hidden.len() ==> 0 <= #[trigger] hidden[k] < b.cells.len()
                && b.cells[hidden[k]].state is Hidden,
    ensures
        count_hidden_cells(apply_deds(b, hidden, s, i).cells) < count_hidden_cells(b.cells),
    decreases hidden.len() - i,
{
    let j = choose|j: int|
        i <= j < hidden.len() && (forced(s, j, true) || forced(s, j, false));
    if forced(s, i, false) || forced(s, i, true) {
        let x = b.x_of(hidden[i]);
        let y = b.y_of(hidden[i]);
        lemma_coords_of_index(b, hidden[i]);
        let b1 = if forced(s, i, false) {
            b.open_result(x, y)
        } else {
            flag_result(b, hidden[i])
        };
        if forced(s, i, false) {
            lemma_region_start(b, x, y);
            assert(b1.cells[hidden[i]].state is Opened);
            lemma_count_hidden_pointwise_strict(b.cells, b1.cells, hidden[i]);
        } else {
            assert(b1.cells[hidden[i]].state is Flagged);
            lemma_count_hidden_pointwise_strict(b.cells, b1.cells, hidden[i]);
        }
        lemma_apply_deds_hidden_le(b1, hidden, s, i + 1);
    } else {
        assert(j != i);
        lemma_apply_deds_hidden_lt(b, hidden, s, i + 1);
    }
}

/// Adding one packed solution adds exactly its assignment to the set.
proof fn lemma_sols_set_push(sol: Seq<u64>, v: u64, n: nat)
    ensures
        sols_set(sol.push(v), n) == sols_set(sol, n).insert(bits_of(v, n)),
{
    let s1 = sols_set(sol.push(v), n);
    let s2 = sols_set(sol, n).insert(bits_of(v, n));
    assert forall|a: Seq<bool>| s1.contains(a) implies s2.contains(a) by {
        let k = choose|k: int| 0 <= k < sol.push(v).len() && bits_of(sol.push(v)[k], n) == a;
        if k < sol.len() {
            assert(sol.push(v)[k] == sol[k]);
            assert(sols_set(sol, n).contains(a));
        }
    }
    assert forall|a: Seq<bool>| s2.contains(a) implies s1.contains(a) by {
        if sols_set(sol, n).contains(a) {
            let k = choose|k: int| 0 <= k < sol.len() && bits_of(sol[k], n) == a;
            assert(sol.push(v)[k] == sol[k]);
        } else {
            assert(sol.push(v)[sol.len() as int] == v);
        }
    }
    assert(s1 =~= s2);
}

/// Splitting on the next variable splits the satisfying extensions.
proof fn lemma_target_split(rows: Seq<Row>, b: u64, wo: u64, i: int, n: int)
    requires
        0 <= i < n <= 64,
        forall|j: int| 0 <= j < 64 && j != i ==> bit64(wo, j) == bit64(b, j),
        bit64(wo, i),
        !bit64(b, i),
    ensures
        target_set(rows, b, i, n) == target_set(rows, wo, i + 1, n).union(
            target_set(rows, b, i + 1, n),
        ),
{
    let t = target_set(rows, b, i, n);
    let t1 = target_set(rows, wo, i + 1, n);
    let t0 = target_set(rows, b, i + 1, n);
    assert forall|a: Seq<bool>| t.contains(a) implies t1.union(t0).contains(a) by {
        if a[i] {
            assert(extends_from(a, wo, i + 1, n));
        } else {
            assert(extends_from(a, b, i + 1, n));
        }
    }
    assert forall|a: Seq<bool>| t1.union(t0).contains(a) implies t.contains(a) by {
        if t1.contains(a) {
            assert(extends_from(a, b, i, n));
        } else {
            assert(extends_from(a, b, i, n));
        }
    }
    assert(t =~= t1.union(t0));
}

/// A branch whose partial placement already overshoots some constraint
/// has no satisfying extension.
proof fn lemma_pruned_branch_empty(rows: Seq<Row>, wo: u64, i: int, n: int, r: int)
    requires
        0 <= i <= n <= 64,
        0 <= r < rows.len(),
        rows[r].mask.len() == n,
        weight(bits_of(wo, n as nat), rows[r].mask, n) > rows[r].rhs,
        forall|j: int| i <= j < 64 ==> !bit64(wo, j),
    ensures
        target_set(rows, wo, i, n) == Set::<Seq<bool>>::empty(),
{
    assert forall|a: Seq<bool>| !target_set(rows, wo, i, n).contains(a) by {
        if extends_from(a, wo, i, n) && sat_all(a, rows) {
            assert forall|j: int| 0 <= j < n && bits_of(wo, n as nat)[j] implies a[j] by {
                if j >= i {
                    assert(!bit64(wo, j));
                }
            }
            lemma_weight_monotone(bits_of(wo, n as nat), a, rows[r].mask, n);
            assert(sat_row(a, rows[r]));
            assert(false);
        }
    }
    assert(target_set(rows, wo, i, n) =~= Set::<Seq<bool>>::empty());
}

/// How many of the first `size` positions are set in both words.
fn masked_count(mask: u64, b: u64, size: usize) -> (r: u32)
    requires
        size <= 64,
    ensures
        r as int == weight(bits_of(b, size as nat), bits_of(mask, size as nat), size as int),
        r <= size,
{
    let mut r: u32 = 0;
    let mut j: usize = 0;
    while j < size
        invariant
            j <= size <= 64,
            r <= j,
            r as int == weight(bits_of(b, size as nat), bits_of(mask, size as nat), j as int),
        decreases size - j,
    {
        proof {
            assert(bits_of(b, size as nat)[j as int] == bit64(b, j as int));
            assert(bits_of(mask, size as nat)[j as int] == bit64(mask, j as int));
            assert((j as int) as u64 == j as u64);
        }
        if (mask >> (j as u64)) & 1 == 1 && (b >> (j as u64)) & 1 == 1 {
            r = r + 1;
        }
        j = j + 1;
    }
    r
}

/// Whether the assignment meets every constraint exactly.
fn is_solved(a: &Vec<u64>, x: &Vec<u32>, b: u64, size: usize, Ghost(rows): Ghost<Seq<Row>>) -> (r:
    bool)
    requires
        corresponds(a@, x@, rows, size as int),
        size <= 64,
    ensures
        r == sat_all(bits_of(b, size as nat), rows),
{
    let mut i: usize = 0;
    while i < a.len()
        invariant
            i <= a@.len(),
            corresponds(a@, x@, rows, size as int),
            size <= 64,
            forall|j: int| 0 <= j < i ==> sat_row(bits_of(b, size as nat), #[trigger] rows[j]),
        decreases a@.len() - i,
    {
        let c = masked_count(a[i], b, size);
        if c != x[i] {
            proof {
                assert(!sat_row(bits_of(b, size as nat), rows[i as int]));
            }
            return false;
        }
        i = i + 1;
    }
    true
}

/// Whether some constraint already has more mines placed than it allows.
fn is_unrecoverable(
    a: &Vec<u64>,
    x: &Vec<u32>,
    b: u64,
    size: usize,
    Ghost(rows): Ghost<Seq<Row>>,
) -> (r: bool)
    requires
        corresponds(a@, x@, rows, size as int),
        size <= 64,
    ensures
        r == exists|i: int|
            0 <= i < rows.len() && weight(bits_of(b, size as nat), (#[trigger] rows[i]).mask, size as int)
                > rows[i].rhs,
{
    let mut i: usize = 0;
    while i < a.len()
        invariant
            i <= a@.len(),
            corresponds(a@, x@, rows, size as int),
            size <= 64,
            forall|j: int|
                0 <= j < i ==> weight(bits_of(b, size as nat), (#[trigger] rows[j]).mask, size as int)
                    <= rows[j].rhs,
        decreases a@.len() - i,
    {
        let c = masked_count(a[i], b, size);
        if c > x[i] {
            proof {
                assert(weight(bits_of(b, size as nat), rows[i as int].mask, size as int)
                    > rows[i as int].rhs);
            }
            return true;
        }
        i = i + 1;
    }
    false
}

/// Enumerates every satisfying assignment that extends `b` from variable
/// `i` on, appending each to `solutions`; branches that already overshoot
/// a constraint are pruned, and a satisfied partial assignment is both
/// recorded and explored further.
fn find_solutions_pruning_bm(
    a: &Vec<u64>,
    x: &Vec<u32>,
    size: usize,
    b: u64,
    i: usize,
    solutions: &mut Vec<u64>,
    Ghost(rows): Ghost<Seq<Row>>,
)
    requires
        corresponds(a@, x@, rows, size as int),
        size <= 64,
        i <= size,
        forall|j: int| i <= j < 64 ==> !bit64(b, j),
    ensures
        final(solutions)@.len() >= old(solutions)@.len(),
        forall|k: int| 0 <= k < old(solutions)@.len() ==> final(solutions)@[k] == old(
            solutions,
        )@[k],
        sols_set(final(solutions)@, size as nat) == sols_set(old(solutions)@, size as nat).union(
            target_set(rows, b, i as int, size as int),
        ),
    decreases size - i,
{
    let ghost n = size as int;
    if i == size {
        let solved = is_solved(a, x, b, size, Ghost(rows));
        let ghost pre = solutions@;
        if solved {
            solutions.push(b);
            proof {
                lemma_sols_set_push(pre, b, size as nat);
                assert forall|aa: Seq<bool>|
                    target_set(rows, b, n, n).contains(aa) implies aa == bits_of(
                    b,
                    size as nat,
                ) by {
                    assert(aa =~= bits_of(b, size as nat));
                }
                assert(target_set(rows, b, n, n).contains(bits_of(b, size as nat)));
                assert(sols_set(solutions@, size as nat) =~= sols_set(pre, size as nat).union(
                    target_set(rows, b, n, n),
                ));
            }
        } else {
            proof {
                assert forall|aa: Seq<bool>| !target_set(rows, b, n, n).contains(aa) by {
                    if extends_from(aa, b, n, n) && sat_all(aa, rows) {
                        assert(aa =~= bits_of(b, size as nat));
                        assert(false);
                    }
                }
                assert(target_set(rows, b, n, n) =~= Set::<Seq<bool>>::empty());
                assert(sols_set(solutions@, size as nat) =~= sols_set(pre, size as nat).union(
                    target_set(rows, b, n, n),
                ));
            }
        }
        return;
    }
    let with_one = b | (1u64 << (i as u64));
    proof {
        lemma_set_bit(b, i as u64);
        assert((i as u64) as int == i as int);
        assert(bit64(with_one, i as int));
        lemma_target_split(rows, b, with_one, i as int, n);
    }
    let ghost pre = solutions@;
    let solved = is_solved(a, x, with_one, size, Ghost(rows));
    if solved {
        find_solutions_pruning_bm(a, x, size, with_one, i + 1, solutions, Ghost(rows));
        let ghost mid = solutions@;
        solutions.push(with_one);
        proof {
            lemma_sols_set_push(mid, with_one, size as nat);
            assert(extends_from(bits_of(with_one, size as nat), with_one, i + 1, n));
            assert(target_set(rows, with_one, i + 1, n).contains(bits_of(with_one, size as nat)));
            assert(sols_set(solutions@, size as nat) =~= sols_set(pre, size as nat).union(
                target_set(rows, with_one, i + 1, n),
            ));
        }
    } else {
        let unrec = is_unrecoverable(a, x, with_one, size, Ghost(rows));
        if !unrec {
            find_solutions_pruning_bm(a, x, size, with_one, i + 1, solutions, Ghost(rows));
        } else {
            proof {
                let r = choose|r: int|
                    0 <= r < rows.len() && weight(
                        bits_of(with_one, size as nat),
                        rows[r].mask,
                        n,
                    ) > rows[r].rhs;
                lemma_pruned_branch_empty(rows, with_one, i + 1, n, r);
                assert(sols_set(solutions@, size as nat) =~= sols_set(pre, size as nat).union(
                    target_set(rows, with_one, i + 1, n),
                ));
            }
        }
    }
    find_solutions_pruning_bm(a, x, size, b, i + 1, solutions, Ghost(rows));
    proof {
        assert(sols_set(solutions@, size as nat) =~= sols_set(pre, size as nat).union(
            target_set(rows, b, i as int, n),
        ));
    }
}

/// Applies every deduction on which all enumerated solutions agree:
/// opens the cells no solution mines, flags the cells every solution
/// mines.  An empty solution set leaves the board alone.
fn analyze_solutions_bm(
    minefield: &mut Minefield,
    hidden_cells: &Vec<usize>,
    solutions: &Vec<u64>,
) -> (changed: bool)
    requires
        old(minefield)@.wf(),
        hidden_cells@.len() <= 64,
        forall|k: int| 0 <= k < hidden_cells@.len() ==> hidden_cells@[k]
            < old(minefield)@.cells.len(),
    ensures
        final(minefield)@ == apply_deds(
            old(minefield)@,
            lifted_idx(hidden_cells@),
            sols_set(solutions@, hidden_cells@.len() as nat),
            0,
        ),
        changed == any_forced(
            sols_set(solutions@, hidden_cells@.len() as nat),
            hidden_cells@.len() as int,
        ),
{
    let ghost o = old(minefield)@;
    let ghost hidden = lifted_idx(hidden_cells@);
    let ghost nv = hidden_cells@.len() as nat;
    let ghost s = sols_set(solutions@, nv);
    if solutions.len() == 0 {
        proof {
            assert forall|j: int| 0 <= j < hidden.len() implies !forced(s, j, true) && !forced(
                s,
                j,
                false,
            ) by {
                if exists|a: Seq<bool>| s.contains(a) {
                    let a = choose|a: Seq<bool>| s.contains(a);
                    assert(false);
                }
            }
            lemma_apply_deds_id(o, hidden, s, 0);
            if any_forced(s, nv as int) {
                let j = choose|j: int|
                    0 <= j < nv && (forced(s, j, true) || forced(s, j, false));
                assert(false);
            }
        }
        return false;
    }
    let n = hidden_cells.len();
    let mut changed = false;
    let mut i: usize = 0;
    while i < n
        invariant
            i <= n,
            n == hidden_cells@.len() <= 64,
            solutions@.len() > 0,
            o.wf(),
            hidden == lifted_idx(hidden_cells@),
            nv == n as nat,
            s == sols_set(solutions@, nv),
            minefield@.wf(),
            minefield@.width == o.width,
            minefield@.height == o.height,
            minefield@.cells.len() == o.cells.len(),
            forall|k: int| 0 <= k < hidden_cells@.len() ==> hidden_cells@[k] < o.cells.len(),
            apply_deds(o, hidden, s, 0) == apply_deds(minefield@, hidden, s, i as int),
            changed == exists|j: int|
                0 <= j < i && (forced(s, j, true) || forced(s, j, false)),
        decreases n - i,
    {
        let ghost pre = minefield@;
        let first_one = (solutions[0] >> (i as u64)) & 1 == 1;
        proof {
            assert(bits_of(solutions@[0], nv)[i as int] == bit64(solutions@[0], i as int));
            assert((i as u64) as int == i as int);
        }
        let mut agree = true;
        let mut t: usize = 1;
        while t < solutions.len()
            invariant
                1 <= t <= solutions@.len(),
                i < n <= 64,
                agree == forall|k: int| 0 <= k < t ==> bit64(#[trigger] solutions@[k], i as int)
                    == first_one,
            decreases solutions@.len() - t,
        {
            let this_one = (solutions[t] >> (i as u64)) & 1 == 1;
            proof {
                assert((i as u64) as int == i as int);
            }
            if this_one != first_one {
                proof {
                    assert(bit64(solutions@[t as int], i as int) != first_one);
                }
                agree = false;
                t = solutions.len();
            } else {
                t = t + 1;
            }
        }
        if agree {
            proof {
                assert(s.contains(bits_of(solutions@[0], nv)));
                assert forall|a: Seq<bool>| s.contains(a) implies a[i as int] == first_one by {
                    let k = choose|k: int|
                        0 <= k < solutions@.len() && bits_of(solutions@[k], nv) == a;
                    assert(bit64(solutions@[k], i as int) == first_one);
                    assert(a[i as int] == bit64(solutions@[k], i as int));
                }
                assert(forced(s, i as int, first_one));
                assert(bits_of(solutions@[0], nv)[i as int] == first_one);
                assert(!forced(s, i as int, !first_one));
            }
            changed = true;
            let hv = hidden_cells[i];
            if !first_one {
                proof {
                    lemma_coords_of_index(pre, hv as int);
                }
                let x = hv % minefield.width;
                let y = hv / minefield.width;
                minefield.open(x, y);
                proof {
                    assert(minefield@ == pre.open_result(
                        pre.x_of(hidden[i as int]),
                        pre.y_of(hidden[i as int]),
                    ));
                    assert(apply_deds(pre, hidden, s, i as int) == apply_deds(
                        minefield@,
                        hidden,
                        s,
                        i + 1,
                    ));
                }
            } else {
                let kind = minefield.cells[hv].kind;
                minefield.cells.set(hv, Cell { kind, state: CellState::Flagged });
                proof {
                    assert(minefield@.cells =~= flag_result(pre, hidden[i as int]).cells);
                    assert(minefield@ =~= flag_result(pre, hidden[i as int]));
                    assert(apply_deds(pre, hidden, s, i as int) == apply_deds(
                        minefield@,
                        hidden,
                        s,
                        i + 1,
                    ));
                }
            }
        } else {
            proof {
                let bad = choose|k: int|
                    0 <= k < solutions@.len() && bit64(solutions@[k], i as int) != first_one;
                assert(s.contains(bits_of(solutions@[bad], nv)));
                assert(bits_of(solutions@[bad], nv)[i as int] != first_one);
                assert(s.contains(bits_of(solutions@[0], nv)));
                assert(bits_of(solutions@[0], nv)[i as int] == first_one);
                assert(!forced(s, i as int, true) && !forced(s, i as int, false));
                assert(apply_deds(pre, hidden, s, i as int) == apply_deds(
                    minefield@,
                    hidden,
                    s,
                    i + 1,
                ));
            }
        }
        i = i + 1;
    }
    proof {
        assert(apply_deds(minefield@, hidden, s, n as int) == minefield@);
        if changed {
            assert(any_forced(s, n as int));
        }
        if any_forced(s, n as int) {
            let j = choose|j: int|
                0 <= j < n && (forced(s, j, true) || forced(s, j, false));
            assert(changed);
        }
    }
    changed
}

/// A solution set without members forces nothing and changes nothing.
pub proof fn lemma_no_solutions_no_change(b: BoardView, hidden: Seq<int>, s: Set<Seq<bool>>, n: int)
    requires
        forall|a: Seq<bool>| !s.contains(a),
    ensures
        apply_deds(b, hidden, s, 0) == b,
        !any_forced(s, n),
{
    assert forall|j: int| 0 <= j < hidden.len() implies !forced(s, j, true) && !forced(
        s,
        j,
        false,
    ) by {
        if exists|a: Seq<bool>| s.contains(a) {
            let a = choose|a: Seq<bool>| s.contains(a);
            assert(false);
        }
    }
    lemma_apply_deds_id(b, hidden, s, 0);
    if any_forced(s, n) {
        let j = choose|j: int| 0 <= j < n && (forced(s, j, true) || forced(s, j, false));
        let a = choose|a: Seq<bool>| s.contains(a);
        assert(false);
    }
}

/// One deduction round with the pruned bitmask enumeration: builds
/// the constraint system, enumerates its solutions, and applies every
/// move they all agree on.  Returns whether any deduction was found.
pub fn solve_step_pruning_bm(minefield: &mut Minefield, with_total_mines: bool) -> (changed: bool)
    requires
        old(minefield)@.wf(),
        hidden_list(old(minefield)@, with_total_mines).len() <= 64,
    ensures
        final(minefield)@ == step_result(old(minefield)@, with_total_mines),
        changed == step_changed(old(minefield)@, with_total_mines),
{
    let ghost o = old(minefield)@;
    let hidden_cells = minefield.get_hidden_cells(with_total_mines);
    let ghost hidden = lifted_idx(hidden_cells@);
    let ghost nv = hidden_cells@.len() as nat;
    let ghost sys = system_spec(o, hidden, with_total_mines);
    let ghost sset = solution_set(sys, nv as int);
    let system = minefield.create_system_bm(&hidden_cells, with_total_mines);
    match system {
        Option::None => {
            proof {
                assert forall|a: Seq<bool>| !sset.contains(a) by {
                    if a.len() == nv && sat_all(a, sys) {
                        assert(false);
                    }
                }
                lemma_no_solutions_no_change(o, hidden, sset, nv as int);
                assert(apply_deds(o, hidden, sset, 0) == o);
            }
            false
        },
        Option::Some(ax) => {
            let (masks, rhs) = ax;
            let mut solutions: Vec<u64> = Vec::new();
            proof {
                lemma_zero_bits();
            }
            find_solutions_pruning_bm(
                &masks,
                &rhs,
                hidden_cells.len(),
                0,
                0,
                &mut solutions,
                Ghost(sys),
            );
            proof {
                assert forall|a: Seq<bool>| !sols_set(Seq::<u64>::empty(), nv).contains(
                    a,
                ) by {
                    if exists|k: int|
                        0 <= k < Seq::<u64>::empty().len() && bits_of(
                            Seq::<u64>::empty()[k],
                            nv,
                        ) == a {
                        let k = choose|k: int|
                            0 <= k < Seq::<u64>::empty().len() && bits_of(
                                Seq::<u64>::empty()[k],
                                nv,
                            ) == a;
                        assert(false);
                    }
                }
                assert(target_set(sys, 0, 0, nv as int) =~= sset);
                assert(sols_set(solutions@, nv) =~= sset);
            }
            analyze_solutions_bm(minefield, &hidden_cells, &solutions)
        },
    }
}


/// Hidden cells never outnumber the hidden-cell count of a prefix.
proof fn lemma_hidden_prefix_le(b: BoardView, all: bool, n: int)
    requires
        0 <= n <= b.cells.len(),
    ensures
        crate::system::hidden_prefix(b, all, n).len() <= count_hidden_cells(b.cells.take(n)),
    decreases n,
{
    if n > 0 {
        lemma_hidden_prefix_le(b, all, n - 1);
        assert(b.cells.take(n).drop_last() =~= b.cells.take(n - 1));
        assert(b.cells.take(n).last() == b.cells[n - 1]);
    }
}

/// The solver never considers more cells than are hidden.
pub proof fn lemma_hidden_list_le_count(b: BoardView, all: bool)
    ensures
        hidden_list(b, all).len() <= count_hidden_cells(b.cells),
{
    lemma_hidden_prefix_le(b, all, b.cells.len() as int);
    assert(b.cells.take(b.cells.len() as int) =~= b.cells);
}

/// No board hides a negative number of cells.
pub proof fn lemma_count_hidden_nonneg(cells: Seq<Cell>)
    ensures
        0 <= count_hidden_cells(cells) <= cells.len(),
    decreases cells.len(),
{
    if cells.len() > 0 {
        lemma_count_hidden_nonneg(cells.drop_last());
    }
}

/// One solve step keeps the board's shape.
pub proof fn lemma_step_shape(b: BoardView, with_total: bool)
    ensures
        step_result(b, with_total).width == b.width,
        step_result(b, with_total).height == b.height,
        step_result(b, with_total).cells.len() == b.cells.len(),
        b.wf() ==> step_result(b, with_total).wf(),
{
    let hidden = hidden_list(b, with_total);
    let s = solution_set(system_spec(b, hidden, with_total), hidden.len() as int);
    lemma_apply_deds_shape(b, hidden, s, 0);
}

/// Applying deductions changes only cell states, never their kinds.
pub proof fn lemma_apply_deds_kinds(b: BoardView, hidden: Seq<int>, s: Set<Seq<bool>>, i: int)
    ensures
        forall|j: int|
            0 <= j < b.cells.len() ==> (#[trigger] apply_deds(b, hidden, s, i).cells[j]).kind
                == b.cells[j].kind,
    decreases hidden.len() - i,
{
    if 0 <= i < hidden.len() {
        let b1 = if forced(s, i, false) {
            b.open_result(b.x_of(hidden[i]), b.y_of(hidden[i]))
        } else if forced(s, i, true) {
            flag_result(b, hidden[i])
        } else {
            b
        };
        lemma_apply_deds_shape(b, hidden, s, i);
        lemma_apply_deds_kinds(b1, hidden, s, i + 1);
    }
}

/// One solve step changes only cell states, never their kinds.
pub proof fn lemma_step_kinds(b: BoardView, with_total: bool)
    ensures
        forall|j: int|
            0 <= j < b.cells.len() ==> (#[trigger] step_result(b, with_total).cells[j]).kind
                == b.cells[j].kind,
{
    let hidden = hidden_list(b, with_total);
    let s = solution_set(system_spec(b, hidden, with_total), hidden.len() as int);
    lemma_apply_deds_kinds(b, hidden, s, 0);
}

/// One solve step never hides a cell, and uncovers one whenever it finds
/// a deduction.
pub proof fn lemma_step_hidden(b: BoardView, with_total: bool)
    requires
        b.wf(),
    ensures
        count_hidden_cells(step_result(b, with_total).cells) <= count_hidden_cells(b.cells),
        step_changed(b, with_total) ==> count_hidden_cells(step_result(b, with_total).cells)
            < count_hidden_cells(b.cells),
{
    let hidden = hidden_list(b, with_total);
    let s = solution_set(system_spec(b, hidden, with_total), hidden.len() as int);
    lemma_apply_deds_hidden_le(b, hidden, s, 0);
    if step_changed(b, with_total) {
        lemma_hidden_prefix_entries(b, with_total, b.cells.len() as int);
        assert forall|k: int| 0 <= k < hidden.len() implies 0 <= #[trigger] hidden[k]
            < b.cells.len() && b.cells[hidden[k]].state is Hidden by {
            assert(crate::system::hidden_sel(b, with_total, hidden[k]));
        }
        lemma_apply_deds_hidden_lt(b, hidden, s, 0);
    }
}

/// The board a full solve reaches: solve steps applied until none finds
/// a deduction any more.  The exhaustive, pruned and bitmask strategies
/// all promise this same board, so for any starting board they agree on
/// what a full solve leaves behind.
pub open spec fn solve_result(b: BoardView, with_total: bool) -> BoardView
    decreases count_hidden_cells(b.cells),
    when b.wf()
    via solve_result_decreases
{
    if !step_changed(b, with_total) {
        b
    } else {
        solve_result(step_result(b, with_total), with_total)
    }
}

#[via_fn]
proof fn solve_result_decreases(b: BoardView, with_total: bool) {
    if step_changed(b, with_total) {
        lemma_step_hidden(b, with_total);
        lemma_step_shape(b, with_total);
        lemma_count_hidden_nonneg(step_result(b, with_total).cells);
    }
}

/// One deduction round of the default strategy.
pub fn solve_step(minefield: &mut Minefield) -> (changed: bool)
    requires
        old(minefield)@.wf(),
        hidden_list(old(minefield)@, true).len() <= 64,
    ensures
        final(minefield)@ == step_result(old(minefield)@, true),
        changed == step_changed(old(minefield)@, true),
{
    solve_step_pruning_bm(minefield, true)
}

/// Runs the bitmask strategy to its fixpoint.
pub fn solve_bm(minefield: &mut Minefield)
    requires
        old(minefield)@.wf(),
        count_hidden_cells(old(minefield)@.cells) <= 64,
    ensures
        final(minefield)@ == solve_result(old(minefield)@, true),
{
    solve_to_fixpoint(minefield, true)
}

/// Runs the bitmask strategy without the global mine-count row.
pub fn solve_bm_without_total_mines(minefield: &mut Minefield)
    requires
        old(minefield)@.wf(),
        count_hidden_cells(old(minefield)@.cells) <= 64,
    ensures
        final(minefield)@ == solve_result(old(minefield)@, false),
{
    solve_to_fixpoint(minefield, false)
}

/// Applies deduction rounds until the board is solved or stuck.
pub fn solve(minefield: &mut Minefield)
    requires
        old(minefield)@.wf(),
        count_hidden_cells(old(minefield)@.cells) <= 64,
    ensures
        final(minefield)@ == solve_result(old(minefield)@, true),
{
    solve_to_fixpoint(minefield, true)
}

/// The shared fixpoint loop.
fn solve_to_fixpoint(minefield: &mut Minefield, with_total_mines: bool)
    requires
        old(minefield)@.wf(),
        count_hidden_cells(old(minefield)@.cells) <= 64,
    ensures
        final(minefield)@ == solve_result(old(minefield)@, with_total_mines),
{
    loop
        invariant
            minefield@.wf(),
            count_hidden_cells(minefield@.cells) <= 64,
            solve_result(minefield@, with_total_mines) == solve_result(
                old(minefield)@,
                with_total_mines,
            ),
        ensures
            minefield@ == solve_result(old(minefield)@, with_total_mines),
        decreases count_hidden_cells(minefield@.cells),
    {
        let ghost pre = minefield@;
        proof {
            lemma_hidden_list_le_count(pre, with_total_mines);
            lemma_count_hidden_nonneg(pre.cells);
        }
        let changed = solve_step_pruning_bm(minefield, with_total_mines);
        proof {
            lemma_step_shape(pre, with_total_mines);
            lemma_step_hidden(pre, with_total_mines);
            lemma_count_hidden_nonneg(minefield@.cells);
            if changed {
                assert(solve_result(pre, with_total_mines) == solve_result(
                    minefield@,
                    with_total_mines,
                ));
            } else {
                lemma_solve_step_idempotent(pre, with_total_mines);
                assert(minefield@ == pre);
                assert(solve_result(minefield@, with_total_mines) == minefield@);
            }
        }
        if !changed {
            break;
        }
    }
}


/// A solve step finds nothing on a stuck board and leaves it unchanged,
/// so stepping a stuck board twice returns the very same board both
/// times: the step is idempotent there.
pub proof fn lemma_solve_step_idempotent(b: BoardView, with_total: bool)
    requires
        !step_changed(b, with_total),
    ensures
        step_result(b, with_total) == b,
        step_result(step_result(b, with_total), with_total) == step_result(b, with_total),
{
    let hidden = hidden_list(b, with_total);
    let s = solution_set(system_spec(b, hidden, with_total), hidden.len() as int);
    assert forall|j: int| 0 <= j < hidden.len() implies !forced(s, j, true) && !forced(
        s,
        j,
        false,
    ) by {
        if forced(s, j, true) || forced(s, j, false) {
            assert(any_forced(s, hidden.len() as int));
        }
    }
    lemma_apply_deds_id(b, hidden, s, 0);
}

} // verus!
