//! The algebraic fast path: the frontier constraint system as an integer
//! matrix, brought towards row-echelon form by exact row combinations.  A
//! reduced row whose nonzero coefficients all agree and whose right-hand
//! side is as large (or as small) as it could possibly get pins every
//! variable it covers, without enumerating solutions.  The path is cheap
//! but incomplete, so the endgame step falls back to the pruned search on
//! the globally-constrained system when it finds nothing.

use vstd::prelude::*;

use crate::minefield::{count_hidden_cells, BoardView, Minefield, lemma_coords_of_index};
use crate::solver::{
    solve_step_pruning_bm, flag_result, lemma_count_hidden_nonneg, lemma_hidden_list_le_count,
    lemma_solve_step_idempotent, lemma_step_hidden, lemma_step_kinds, lemma_step_shape,
    step_changed, step_result,
};
use crate::system::{
    bit64, bits_of, corresponds, hidden_list, hidden_prefix, hidden_sel, lifted_idx, sat_all,
    sat_row, system_spec, weight, Row,
};

verus! {

/// The weighted sum an assignment gives to an integer coefficient row.
pub open spec fn dot_i(row: Seq<i64>, a: Seq<bool>, n: int) -> int
    decreases n,
{
    if n <= 0 {
        0
    } else {
        dot_i(row, a, n - 1) + if a[n - 1] {
            row[n - 1] as int
        } else {
            0int
        }
    }
}

/// An augmented row (coefficients, then the right-hand side) that every
/// solution of the system satisfies.
pub open spec fn sound_row(row: Seq<i64>, sys: Seq<Row>, n: int) -> bool {
    &&& row.len() == n + 1
    &&& forall|a: Seq<bool>|
        a.len() == n && #[trigger] sat_all(a, sys) ==> dot_i(row, a, n) == row[n] as int
}

/// A deduction the algebraic path may apply: every solution of the
/// system gives position `i` the value `v`.
pub open spec fn sound_move(m: (usize, bool), sys: Seq<Row>, n: int) -> bool {
    &&& (m.0 as int) < n
    &&& forall|a: Seq<bool>|
        a.len() == n && #[trigger] sat_all(a, sys) ==> a[m.0 as int] == m.1
}

pub open spec fn sound_moves(moves: Seq<(usize, bool)>, sys: Seq<Row>, n: int) -> bool {
    forall|k: int| 0 <= k < moves.len() ==> sound_move(#[trigger] moves[k], sys, n)
}

/// The board after the listed deductions, applied in order.
pub open spec fn apply_moves(
    b: BoardView,
    hidden: Seq<int>,
    moves: Seq<(usize, bool)>,
    k: int,
) -> BoardView
    decreases moves.len() - k,
{
    if k < 0 || k >= moves.len() {
        b
    } else {
        let i = moves[k].0 as int;
        let b1 = if !moves[k].1 {
            b.open_result(b.x_of(hidden[i]), b.y_of(hidden[i]))
        } else {
            flag_result(b, hidden[i])
        };
        apply_moves(b1, hidden, moves, k + 1)
    }
}

/// What one endgame step did with one particular list of moves: either
/// the moves are algebraically forced over the frontier system and were
/// applied, or there were none and the step fell back to the pruned
/// search over the globally-constrained system.
pub open spec fn endgame_moves_ok(
    b: BoardView,
    after: BoardView,
    changed: bool,
    moves: Seq<(usize, bool)>,
) -> bool {
    let hidden = hidden_list(b, false);
    let sys = system_spec(b, hidden, false);
    &&& sound_moves(moves, sys, hidden.len() as int)
    &&& (moves.len() > 0 ==> after == apply_moves(b, hidden, moves, 0) && changed)
    &&& (moves.len() == 0 ==> after == step_result(b, true) && changed == step_changed(b, true))
}

/// What one endgame step may do: apply algebraically forced moves over
/// the frontier system, or, when it finds none, fall back to the pruned
/// search over the globally-constrained system.
pub open spec fn endgame_step_ok(b: BoardView, after: BoardView, changed: bool) -> bool {
    exists|moves: Seq<(usize, bool)>| endgame_moves_ok(b, after, changed, moves)
}

/// A 0/1 row drawn from a packed constraint weighs what the constraint
/// counts.
proof fn lemma_dot_i_weight(row: Seq<i64>, m: Seq<bool>, a: Seq<bool>, n: int)
    requires
        forall|j: int| 0 <= j < n ==> #[trigger] row[j] as int == (if m[j] {
            1int
        } else {
            0int
        }),
    ensures
        dot_i(row, a, n) == weight(a, m, n),
    decreases n,
{
    if n > 0 {
        lemma_dot_i_weight(row, m, a, n - 1);
    }
}

/// Row combinations keep the weighted sum linear.
proof fn lemma_dot_i_combo(
    new: Seq<i64>,
    r1: Seq<i64>,
    r2: Seq<i64>,
    p: int,
    q: int,
    a: Seq<bool>,
    n: int,
)
    requires
        forall|j: int| 0 <= j < n ==> #[trigger] new[j] as int == p * (r2[j] as int) - q * (
        r1[j] as int),
    ensures
        dot_i(new, a, n) == p * dot_i(r2, a, n) - q * dot_i(r1, a, n),
    decreases n,
{
    if n <= 0 {
        assert(p * 0 - q * 0 == 0) by (nonlinear_arith);
    } else {
        lemma_dot_i_combo(new, r1, r2, p, q, a, n - 1);
        let d2 = dot_i(r2, a, n - 1);
        let d1 = dot_i(r1, a, n - 1);
        let t2: int = if a[n - 1] {
            r2[n - 1] as int
        } else {
            0
        };
        let t1: int = if a[n - 1] {
            r1[n - 1] as int
        } else {
            0
        };
        assert(p * (d2 + t2) - q * (d1 + t1) == (p * d2 - q * d1) + (p * t2 - q * t1))
            by (nonlinear_arith);
        if a[n - 1] {
            assert(new[n - 1] as int == p * (r2[n - 1] as int) - q * (r1[n - 1] as int));
        } else {
            assert(p * t2 - q * t1 == 0) by (nonlinear_arith)
                requires
                    t2 == 0,
                    t1 == 0,
            ;
        }
    }
}

/// The positions a 0/1 row covers.
pub open spec fn ones_count(row: Seq<i64>, n: int) -> int
    decreases n,
{
    if n <= 0 {
        0
    } else {
        ones_count(row, n - 1) + if row[n - 1] as int == 1 {
            1int
        } else {
            0int
        }
    }
}

/// On a 0/1 row, the weighted sum is the count of covered positions the
/// assignment turns on, between zero and the full count; missing any
/// covered position keeps it below the count, taking any keeps it above
/// zero.
proof fn lemma_dot_01_bounds(row: Seq<i64>, a: Seq<bool>, n: int, j: int)
    requires
        forall|t: int| 0 <= t < n ==> #[trigger] row[t] as int == 0 || row[t] as int == 1,
        0 <= j < n,
        row[j] as int == 1,
    ensures
        0 <= dot_i(row, a, n) <= ones_count(row, n),
        !a[j] ==> dot_i(row, a, n) <= ones_count(row, n) - 1,
        a[j] ==> dot_i(row, a, n) >= 1,
    decreases n,
{
    lemma_dot_01_range(row, a, n);
    if j == n - 1 {
        lemma_dot_01_range(row, a, n - 1);
        lemma_ones_nonneg(row, n - 1);
    } else {
        lemma_dot_01_bounds(row, a, n - 1, j);
    }
}

proof fn lemma_dot_01_range(row: Seq<i64>, a: Seq<bool>, n: int)
    requires
        forall|t: int| 0 <= t < n ==> #[trigger] row[t] as int == 0 || row[t] as int == 1,
    ensures
        0 <= dot_i(row, a, n) <= ones_count(row, n),
    decreases n,
{
    if n > 0 {
        lemma_dot_01_range(row, a, n - 1);
    }
}

proof fn lemma_ones_nonneg(row: Seq<i64>, n: int)
    ensures
        ones_count(row, n) >= 0,
    decreases n,
{
    if n > 0 {
        lemma_ones_nonneg(row, n - 1);
    }
}

/// A sound 0/1 row that demands everything it covers, or nothing at all,
/// fixes each covered variable.
proof fn lemma_tight_row_forces(row: Seq<i64>, sys: Seq<Row>, n: int, j: int, v: bool)
    requires
        sound_row(row, sys, n),
        forall|t: int| 0 <= t < n ==> #[trigger] row[t] as int == 0 || row[t] as int == 1,
        0 <= j < n,
        row[j] as int == 1,
        v ==> row[n] as int == ones_count(row, n),
        !v ==> row[n] as int == 0,
    ensures
        forall|a: Seq<bool>| a.len() == n && #[trigger] sat_all(a, sys) ==> a[j] == v,
{
    assert forall|a: Seq<bool>| a.len() == n && #[trigger] sat_all(a, sys) implies a[j] == v by {
        lemma_dot_01_bounds(row, a, n, j);
    }
}

/// The frontier never holds more cells than the full hidden list.
proof fn lemma_frontier_le_all(b: BoardView, n: int)
    requires
        n >= 0,
    ensures
        hidden_prefix(b, false, n).len() <= hidden_prefix(b, true, n).len(),
    decreases n,
{
    if n > 0 {
        lemma_frontier_le_all(b, n - 1);
    }
}

/// One exact row combination: `p` times the row, minus `q` times the
/// pivot, entry by entry; gives nothing back when a product would leave
/// the 64-bit range.
fn combine_rows(target: &Vec<i64>, pivot: &Vec<i64>, p: i64, q: i64) -> (r: Option<Vec<i64>>)
    requires
        target@.len() == pivot@.len(),
    ensures
        match r {
            Some(new) => {
                &&& new@.len() == target@.len()
                &&& forall|j: int|
                    0 <= j < new@.len() ==> #[trigger] new@[j] as int == p as int * (
                    target@[j] as int) - q as int * (pivot@[j] as int)
            },
            None => true,
        },
{
    if p > 0x7fff_ffff || p < -0x7fff_ffff || q > 0x7fff_ffff || q < -0x7fff_ffff {
        return None;
    }
    let mut new: Vec<i64> = Vec::new();
    let mut k: usize = 0;
    while k < target.len()
        invariant
            k <= target@.len(),
            target@.len() == pivot@.len(),
            -0x7fff_ffff <= p <= 0x7fff_ffff,
            -0x7fff_ffff <= q <= 0x7fff_ffff,
            new@.len() == k,
            forall|t: int|
                0 <= t < k ==> #[trigger] new@[t] as int == p as int * (target@[t] as int)
                    - q as int * (pivot@[t] as int),
        decreases target@.len() - k,
    {
        if target[k] > 0x7fff_ffff || target[k] < -0x7fff_ffff || pivot[k] > 0x7fff_ffff
            || pivot[k] < -0x7fff_ffff {
            return None;
        }
        proof {
            assert((p as int) * (target@[k as int] as int) <= 0x4000_0000_0000_0000
                && (p as int) * (target@[k as int] as int) >= -0x4000_0000_0000_0000)
                by (nonlinear_arith)
                requires
                    -0x7fff_ffff <= p as int <= 0x7fff_ffff,
                    -0x7fff_ffff <= target@[k as int] as int <= 0x7fff_ffff,
            ;
            assert((q as int) * (pivot@[k as int] as int) <= 0x4000_0000_0000_0000
                && (q as int) * (pivot@[k as int] as int) >= -0x4000_0000_0000_0000)
                by (nonlinear_arith)
                requires
                    -0x7fff_ffff <= q as int <= 0x7fff_ffff,
                    -0x7fff_ffff <= pivot@[k as int] as int <= 0x7fff_ffff,
            ;
        }
        let v: i128 = (p as i128) * (target[k] as i128) - (q as i128) * (pivot[k] as i128);
        if v > i64::MAX as i128 || v < i64::MIN as i128 {
            return None;
        }
        new.push(v as i64);
        k = k + 1;
    }
    Some(new)
}

/// Reduces the augmented rows towards echelon form by sound row
/// combinations; every row stays satisfied by every solution.
fn reduce_rows(rows: &mut Vec<Vec<i64>>, n: usize, Ghost(sys): Ghost<Seq<Row>>)
    requires
        forall|r: int| 0 <= r < old(rows)@.len() ==> sound_row((#[trigger] old(rows)@[r])@, sys, n as int),
    ensures
        final(rows)@.len() == old(rows)@.len(),
        forall|r: int| 0 <= r < final(rows)@.len() ==> sound_row((#[trigger] final(rows)@[r])@, sys, n as int),
{
    let nrows = rows.len();
    let mut pivot: usize = 0;
    let mut col: usize = 0;
    while col < n
        invariant
            rows@.len() == nrows,
            forall|r: int| 0 <= r < rows@.len() ==> sound_row((#[trigger] rows@[r])@, sys, n as int),
            pivot <= nrows,
        decreases n - col,
    {
        let mut found: usize = nrows;
        let mut r: usize = pivot;
        while r < nrows
            invariant
                pivot <= r,
                rows@.len() == nrows,
                col < n,
                forall|t: int| 0 <= t < rows@.len() ==> sound_row(
                    (#[trigger] rows@[t])@,
                    sys,
                    n as int,
                ),
                found == nrows || (pivot <= found < nrows),
            decreases nrows - r,
        {
            if found == nrows && rows[r][col] != 0 {
                found = r;
            }
            r = r + 1;
        }
        if found < nrows {
            let mut r2: usize = 0;
            while r2 < nrows
                invariant
                    r2 <= nrows,
                    rows@.len() == nrows,
                    found < nrows,
                    col < n,
                    forall|t: int| 0 <= t < rows@.len() ==> sound_row(
                        (#[trigger] rows@[t])@,
                        sys,
                        n as int,
                    ),
                decreases nrows - r2,
            {
                if r2 != found && rows[r2][col] != 0 {
                    let p = rows[found][col];
                    let q = rows[r2][col];
                    let combined = combine_rows(&rows[r2], &rows[found], p, q);
                    match combined {
                        Option::Some(new) => {
                            proof {
                                assert forall|a: Seq<bool>|
                                    a.len() == n && #[trigger] sat_all(a, sys) implies dot_i(
                                    new@,
                                    a,
                                    n as int,
                                ) == new@[n as int] as int by {
                                    lemma_dot_i_combo(
                                        new@,
                                        rows@[found as int]@,
                                        rows@[r2 as int]@,
                                        p as int,
                                        q as int,
                                        a,
                                        n as int,
                                    );
                                    assert(p as int * (rows@[r2 as int]@[n as int] as int)
                                        - q as int * (rows@[found as int]@[n as int] as int)
                                        == new@[n as int] as int);
                                }
                                assert(sound_row(new@, sys, n as int));
                            }
                            rows.set(r2, new);
                        },
                        Option::None => {},
                    }
                }
                r2 = r2 + 1;
            }
            if pivot < nrows {
                pivot = pivot + 1;
            }
        }
        col = col + 1;
    }
}

/// Reads the forced deductions off the reduced rows: a row of equal
/// nonzero coefficients whose right-hand side demands all of its cells,
/// or none of them, fixes each one.
fn extract_moves(rows: &Vec<Vec<i64>>, n: usize, Ghost(sys): Ghost<Seq<Row>>) -> (moves: Vec<
    (usize, bool),
>)
    requires
        n <= 64,
        forall|r: int| 0 <= r < rows@.len() ==> sound_row((#[trigger] rows@[r])@, sys, n as int),
    ensures
        sound_moves(moves@, sys, n as int),
        forall|k: int| 0 <= k < moves@.len() ==> (#[trigger] moves@[k]).0 < n,
{
    let mut moves: Vec<(usize, bool)> = Vec::new();
    let mut taken: Vec<bool> = Vec::new();
    let mut j: usize = 0;
    while j < n
        invariant
            j <= n,
            taken@.len() == j,
        decreases n - j,
    {
        taken.push(false);
        j = j + 1;
    }
    let mut r: usize = 0;
    while r < rows.len()
        invariant
            r <= rows@.len(),
            n <= 64,
            taken@.len() == n,
            forall|t: int| 0 <= t < rows@.len() ==> sound_row((#[trigger] rows@[t])@, sys, n as int),
            sound_moves(moves@, sys, n as int),
            forall|k: int| 0 <= k < moves@.len() ==> (#[trigger] moves@[k]).0 < n,
        decreases rows@.len() - r,
    {
        let row = &rows[r];
        let mut sign: i64 = 0;
        let mut uniform = true;
        let mut count: usize = 0;
        let mut j2: usize = 0;
        while j2 < n
            invariant
                j2 <= n <= 64,
                row@.len() == n + 1,
                count <= j2,
                uniform || j2 == n,
                sign == 0 || sign == 1 || sign == -1,
                uniform ==> forall|t: int|
                    0 <= t < j2 ==> #[trigger] row@[t] as int == 0 || row@[t] as int
                        == sign as int,
                uniform && sign == 1 ==> count as int == ones_count(row@, j2 as int),
                uniform && sign == -1 ==> count as int == ones_count(
                    negated_spec(row@),
                    j2 as int,
                ),
                uniform && sign == 0 ==> count == 0,
            decreases n - j2,
        {
            let v = row[j2];
            if v == 0 {
                proof {
                    assert(negated_spec(row@)[j2 as int] as int == 0);
                    lemma_ones_zero_prefix(row@, j2 as int);
                    lemma_ones_zero_prefix(negated_spec(row@), j2 as int);
                }
            } else if v == 1 && (sign == 0 || sign == 1) {
                proof {
                    if sign == 0 {
                        lemma_ones_all_zero(row@, j2 as int);
                    }
                    lemma_ones_zero_prefix(row@, j2 as int);
                }
                sign = 1;
                count = count + 1;
            } else if v == -1 && (sign == 0 || sign == -1) {
                proof {
                    assert(negated_spec(row@)[j2 as int] as int == 1);
                    if sign == 0 {
                        assert forall|t2: int| 0 <= t2 < j2 implies #[trigger] negated_spec(
                            row@,
                        )[t2] as int == 0 by {
                            assert(row@[t2] as int == 0);
                        }
                        lemma_ones_all_zero(negated_spec(row@), j2 as int);
                    }
                    lemma_ones_zero_prefix(negated_spec(row@), j2 as int);
                }
                sign = -1;
                count = count + 1;
            } else {
                uniform = false;
                j2 = n;
                continue;
            }
            j2 = j2 + 1;
        }
        if uniform && sign != 0 && count > 0 {
            let rhs = row[n];
            let positive = sign == 1;
            let target: i64 = if positive {
                rhs
            } else {
                if rhs < -(64i64) {
                    -65
                } else {
                    -rhs
                }
            };
            if target == count as i64 || target == 0 {
                let v = target != 0;
                let ghost srow = if positive {
                    row@
                } else {
                    negated_spec(row@)
                };
                proof {
                    if !positive {
                        assert(row@[n as int] as int == -(target as int));
                        assert forall|t: int| 0 <= t <= n implies #[trigger] row@[t] as int
                            != i64::MIN as int by {}
                        lemma_negated_sound(row@, sys, n as int);
                        assert(srow[n as int] as int == target as int);
                    }
                }
                let mut j3: usize = 0;
                while j3 < n
                    invariant
                        j3 <= n <= 64,
                        taken@.len() == n,
                        row@.len() == n + 1,
                        positive == (sign == 1),
                        srow == (if positive {
                            row@
                        } else {
                            negated_spec(row@)
                        }),
                        forall|t: int| 0 <= t < n ==> #[trigger] row@[t] as int == 0
                            || row@[t] as int == sign as int,
                        sign == 1 || sign == -1,
                        sound_row(srow, sys, n as int),
                        forall|t: int| 0 <= t < n ==> #[trigger] srow[t] as int == 0
                            || srow[t] as int == 1,
                        v ==> srow[n as int] as int == ones_count(srow, n as int),
                        !v ==> srow[n as int] as int == 0,
                        sound_moves(moves@, sys, n as int),
                        forall|k: int| 0 <= k < moves@.len() ==> (#[trigger] moves@[k]).0 < n,
                    decreases n - j3,
                {
                    proof {
                        assert(row@[j3 as int] as int == 0 || row@[j3 as int] as int
                            == sign as int);
                        if !positive {
                            assert(srow[j3 as int] as int == -(row@[j3 as int] as int));
                        }
                    }
                    let coeff = if positive {
                        row[j3]
                    } else {
                        -row[j3]
                    };
                    if coeff == 1 && !taken[j3] {
                        proof {
                            assert(srow[j3 as int] as int == 1);
                            lemma_tight_row_forces(srow, sys, n as int, j3 as int, v);
                            assert(sound_move((j3, v), sys, n as int));
                        }
                        let ghost moves_pre = moves@;
                        moves.push((j3, v));
                        taken.set(j3, true);
                        proof {
                            assert forall|k: int| 0 <= k < moves@.len() implies sound_move(
                                #[trigger] moves@[k],
                                sys,
                                n as int,
                            ) by {
                                if k < moves_pre.len() {
                                    assert(moves@[k] == moves_pre[k]);
                                }
                            }
                        }
                    }
                    j3 = j3 + 1;
                }
            }
        }
        r = r + 1;
    }
    moves
}

/// A row of zeros covers nothing.
proof fn lemma_ones_all_zero(row: Seq<i64>, n: int)
    requires
        forall|t: int| 0 <= t < n ==> #[trigger] row[t] as int == 0,
    ensures
        ones_count(row, n) == 0,
    decreases n,
{
    if n > 0 {
        lemma_ones_all_zero(row, n - 1);
    }
}

/// A fresh one among uniform coefficients extends the count by one.
proof fn lemma_ones_zero_prefix(row: Seq<i64>, j: int)
    requires
        0 <= j,
    ensures
        ones_count(row, j + 1) == ones_count(row, j) + if row[j] as int == 1 {
            1int
        } else {
            0int
        },
{
}

/// The row with every entry negated.
pub open spec fn negated_spec(row: Seq<i64>) -> Seq<i64> {
    Seq::new(row.len(), |j: int| (-(row[j] as int)) as i64)
}

/// Negating a sound row keeps it sound, as long as no entry sits at the
/// very bottom of the range.
proof fn lemma_negated_sound(row: Seq<i64>, sys: Seq<Row>, n: int)
    requires
        sound_row(row, sys, n),
        forall|t: int| 0 <= t <= n ==> #[trigger] row[t] as int != i64::MIN as int,
    ensures
        sound_row(negated_spec(row), sys, n),
        forall|t: int| 0 <= t <= n ==> #[trigger] negated_spec(row)[t] as int == -(
        row[t] as int),
{
    assert forall|t: int| 0 <= t <= n implies #[trigger] negated_spec(row)[t] as int == -(
    row[t] as int) by {}
    assert forall|a: Seq<bool>| a.len() == n && #[trigger] sat_all(a, sys) implies dot_i(
        negated_spec(row),
        a,
        n,
    ) == negated_spec(row)[n] as int by {
        lemma_dot_i_combo(negated_spec(row), row, row, 0, 1, a, n);
        assert(0 * dot_i(row, a, n) - 1 * dot_i(row, a, n) == -dot_i(row, a, n))
            by (nonlinear_arith);
    }
}

/// The augmented integer rows of a packed constraint system.
fn rows_from_masks(
    masks: &Vec<u64>,
    rhs: &Vec<u32>,
    n: usize,
    Ghost(sys): Ghost<Seq<Row>>,
) -> (rows: Vec<Vec<i64>>)
    requires
        corresponds(masks@, rhs@, sys, n as int),
        n <= 64,
    ensures
        forall|r: int| 0 <= r < rows@.len() ==> sound_row((#[trigger] rows@[r])@, sys, n as int),
{
    let mut rows: Vec<Vec<i64>> = Vec::new();
    let mut r: usize = 0;
    while r < masks.len()
        invariant
            r <= masks@.len(),
            n <= 64,
            corresponds(masks@, rhs@, sys, n as int),
            forall|t: int| 0 <= t < rows@.len() ==> sound_row(
                (#[trigger] rows@[t])@,
                sys,
                n as int,
            ),
        decreases masks@.len() - r,
    {
        let mask = masks[r];
        let mut row: Vec<i64> = Vec::new();
        let mut j: usize = 0;
        while j < n
            invariant
                j <= n <= 64,
                row@.len() == j,
                forall|t: int| 0 <= t < j ==> #[trigger] row@[t] as int == (if bit64(
                    mask,
                    t,
                ) {
                    1int
                } else {
                    0int
                }),
            decreases n - j,
        {
            proof {
                assert((j as u64) as int == j as int);
            }
            if (mask >> (j as u64)) & 1 == 1 {
                row.push(1);
            } else {
                row.push(0);
            }
            j = j + 1;
        }
        row.push(rhs[r] as i64);
        proof {
            let rowv = row@;
            assert forall|a: Seq<bool>| a.len() == n && #[trigger] sat_all(a, sys) implies dot_i(
                rowv,
                a,
                n as int,
            ) == rowv[n as int] as int by {
                assert(sat_row(a, sys[r as int]));
                assert(sys[r as int].mask == bits_of(mask, n as nat));
                assert forall|t: int| 0 <= t < n implies #[trigger] rowv[t] as int == (if bits_of(
                    mask,
                    n as nat,
                )[t] {
                    1int
                } else {
                    0int
                }) by {
                    assert(bits_of(mask, n as nat)[t] == bit64(mask, t));
                }
                lemma_dot_i_weight(rowv, bits_of(mask, n as nat), a, n as int);
            }
            assert(sound_row(rowv, sys, n as int));
        }
        rows.push(row);
        r = r + 1;
    }
    rows
}

/// Applying moves never changes the board's shape or its kinds.
proof fn lemma_apply_moves_shape(b: BoardView, hidden: Seq<int>, moves: Seq<(usize, bool)>, k: int)
    ensures
        apply_moves(b, hidden, moves, k).width == b.width,
        apply_moves(b, hidden, moves, k).height == b.height,
        apply_moves(b, hidden, moves, k).cells.len() == b.cells.len(),
        forall|j: int|
            0 <= j < b.cells.len() ==> (#[trigger] apply_moves(b, hidden, moves, k).cells[j]).kind
                == b.cells[j].kind,
    decreases moves.len() - k,
{
    if 0 <= k < moves.len() {
        let i = moves[k].0 as int;
        let b1 = if !moves[k].1 {
            b.open_result(b.x_of(hidden[i]), b.y_of(hidden[i]))
        } else {
            flag_result(b, hidden[i])
        };
        lemma_apply_moves_shape(b1, hidden, moves, k + 1);
    }
}

/// Applied moves only take cells out of hiding, and the first one
/// genuinely does so.
proof fn lemma_apply_moves_hidden_le(b: BoardView, hidden: Seq<int>, moves: Seq<(usize, bool)>, k: int)
    ensures
        count_hidden_cells(apply_moves(b, hidden, moves, k).cells) <= count_hidden_cells(b.cells),
    decreases moves.len() - k,
{
    if 0 <= k < moves.len() {
        let i = moves[k].0 as int;
        let b1 = if !moves[k].1 {
            b.open_result(b.x_of(hidden[i]), b.y_of(hidden[i]))
        } else {
            flag_result(b, hidden[i])
        };
        crate::solver::lemma_open_result_hidden_le(b, b.x_of(hidden[i]), b.y_of(hidden[i]));
        crate::solver::lemma_flag_result_hidden_le(b, hidden[i]);
        lemma_apply_moves_hidden_le(b1, hidden, moves, k + 1);
    }
}

proof fn lemma_apply_moves_hidden_lt(b: BoardView, hidden: Seq<int>, moves: Seq<(usize, bool)>)
    requires
        b.wf(),
        moves.len() > 0,
        (moves[0].0 as int) < hidden.len(),
        0 <= hidden[moves[0].0 as int] < b.cells.len(),
        b.cells[hidden[moves[0].0 as int]].state is Hidden,
    ensures
        count_hidden_cells(apply_moves(b, hidden, moves, 0).cells) < count_hidden_cells(b.cells),
{
    let i = moves[0].0 as int;
    let x = b.x_of(hidden[i]);
    let y = b.y_of(hidden[i]);
    lemma_coords_of_index(b, hidden[i]);
    let b1 = if !moves[0].1 {
        b.open_result(x, y)
    } else {
        flag_result(b, hidden[i])
    };
    if !moves[0].1 {
        crate::minefield::lemma_region_start(b, x, y);
        assert(b1.cells[hidden[i]].state is Opened);
        crate::solver::lemma_count_hidden_pointwise_strict(b.cells, b1.cells, hidden[i]);
    } else {
        assert(b1.cells[hidden[i]].state is Flagged);
        crate::solver::lemma_count_hidden_pointwise_strict(b.cells, b1.cells, hidden[i]);
    }
    lemma_apply_moves_hidden_le(b1, hidden, moves, 1);
}

/// Applies the listed deductions to the board, in order: opening the
/// safe cells, flagging the mines.
fn apply_moves_exec(
    minefield: &mut Minefield,
    hidden_cells: &Vec<usize>,
    moves: &Vec<(usize, bool)>,
)
    requires
        old(minefield)@.wf(),
        forall|k: int| 0 <= k < hidden_cells@.len() ==> hidden_cells@[k]
            < old(minefield)@.cells.len(),
        forall|k: int| 0 <= k < moves@.len() ==> (#[trigger] moves@[k]).0 < hidden_cells@.len(),
    ensures
        final(minefield)@ == apply_moves(old(minefield)@, lifted_idx(hidden_cells@), moves@, 0),
{
    let ghost o = old(minefield)@;
    let ghost hidden = lifted_idx(hidden_cells@);
    let mut k: usize = 0;
    while k < moves.len()
        invariant
            k <= moves@.len(),
            o.wf(),
            hidden == lifted_idx(hidden_cells@),
            minefield@.wf(),
            minefield@.width == o.width,
            minefield@.height == o.height,
            minefield@.cells.len() == o.cells.len(),
            forall|t: int| 0 <= t < hidden_cells@.len() ==> hidden_cells@[t] < o.cells.len(),
            forall|t: int| 0 <= t < moves@.len() ==> (#[trigger] moves@[t]).0
                < hidden_cells@.len(),
            apply_moves(o, hidden, moves@, 0) == apply_moves(minefield@, hidden, moves@, k as int),
        decreases moves@.len() - k,
    {
        let ghost pre = minefield@;
        let (pos, is_mine) = moves[k];
        let hv = hidden_cells[pos];
        if !is_mine {
            proof {
                lemma_coords_of_index(pre, hv as int);
            }
            let x = hv % minefield.width;
            let y = hv / minefield.width;
            minefield.open(x, y);
            proof {
                assert(minefield@ == pre.open_result(
                    pre.x_of(hidden[pos as int]),
                    pre.y_of(hidden[pos as int]),
                ));
                assert(apply_moves(pre, hidden, moves@, k as int) == apply_moves(
                    minefield@,
                    hidden,
                    moves@,
                    k + 1,
                ));
            }
        } else {
            let kind = minefield.cells[hv].kind;
            minefield.cells.set(hv, crate::minefield::Cell { kind, state: crate::minefield::CellState::Flagged });
            proof {
                assert(minefield@.cells =~= flag_result(pre, hidden[pos as int]).cells);
                assert(minefield@ =~= flag_result(pre, hidden[pos as int]));
                assert(apply_moves(pre, hidden, moves@, k as int) == apply_moves(
                    minefield@,
                    hidden,
                    moves@,
                    k + 1,
                ));
            }
        }
        k = k + 1;
    }
    proof {
        assert(apply_moves(minefield@, hidden, moves@, moves@.len() as int) == minefield@);
    }
}

/// One endgame deduction round: the algebraic fast path over the
/// frontier system first, and the pruned bitmask search over the
/// globally-constrained system only when it finds nothing.
pub fn solve_step_endgame(minefield: &mut Minefield) -> (changed: bool)
    requires
        old(minefield)@.wf(),
        hidden_list(old(minefield)@, true).len() <= 64,
    ensures
        endgame_step_ok(old(minefield)@, final(minefield)@, changed),
{
    let ghost o = old(minefield)@;
    let frontier = minefield.get_hidden_cells(false);
    let ghost hidden = lifted_idx(frontier@);
    let ghost sys = system_spec(o, hidden, false);
    let ghost n = frontier@.len() as int;
    proof {
        lemma_frontier_le_all(o, o.cells.len() as int);
    }
    let system = minefield.create_system_bm(&frontier, false);
    let moves: Vec<(usize, bool)> = match system {
        Option::None => Vec::new(),
        Option::Some(ax) => {
            let (masks, rhs) = ax;
            let mut rows = rows_from_masks(&masks, &rhs, frontier.len(), Ghost(sys));
            reduce_rows(&mut rows, frontier.len(), Ghost(sys));
            extract_moves(&rows, frontier.len(), Ghost(sys))
        },
    };
    if moves.len() == 0 {
        let changed = solve_step_pruning_bm(minefield, true);
        proof {
            let empty_moves = Seq::<(usize, bool)>::empty();
            assert(sound_moves(empty_moves, sys, n));
            assert(endgame_moves_ok(o, minefield@, changed, empty_moves));
            assert(endgame_step_ok(o, minefield@, changed));
        }
        changed
    } else {
        apply_moves_exec(minefield, &frontier, &moves);
        proof {
            assert(sound_moves(moves@, sys, n));
            assert(minefield@ == apply_moves(o, hidden, moves@, 0));
            assert(endgame_moves_ok(o, minefield@, true, moves@));
            assert(endgame_step_ok(o, minefield@, true));
        }
        true
    }
}

/// Runs endgame rounds until no deduction of either path is left: the
/// board keeps its shape and mines, only loses hidden cells, and ends
/// where even a full search finds nothing more.
pub fn solve_endgame(minefield: &mut Minefield)
    requires
        old(minefield)@.wf(),
        count_hidden_cells(old(minefield)@.cells) <= 64,
    ensures
        final(minefield)@.wf(),
        final(minefield)@.width == old(minefield)@.width,
        final(minefield)@.height == old(minefield)@.height,
        final(minefield)@.cells.len() == old(minefield)@.cells.len(),
        forall|j: int|
            0 <= j < old(minefield)@.cells.len()
                ==> (#[trigger] final(minefield)@.cells[j]).kind
                == old(minefield)@.cells[j].kind,
        !step_changed(final(minefield)@, true),
{
    loop
        invariant
            minefield@.wf(),
            minefield@.width == old(minefield)@.width,
            minefield@.height == old(minefield)@.height,
            minefield@.cells.len() == old(minefield)@.cells.len(),
            forall|j: int|
                0 <= j < old(minefield)@.cells.len() ==> (#[trigger] minefield@.cells[j]).kind
                    == old(minefield)@.cells[j].kind,
            count_hidden_cells(minefield@.cells) <= 64,
        ensures
            minefield@.wf(),
            minefield@.width == old(minefield)@.width,
            minefield@.height == old(minefield)@.height,
            minefield@.cells.len() == old(minefield)@.cells.len(),
            forall|j: int|
                0 <= j < old(minefield)@.cells.len() ==> (#[trigger] minefield@.cells[j]).kind
                    == old(minefield)@.cells[j].kind,
            !step_changed(minefield@, true),
        decreases count_hidden_cells(minefield@.cells),
    {
        let ghost pre = minefield@;
        proof {
            lemma_hidden_list_le_count(pre, true);
            lemma_count_hidden_nonneg(pre.cells);
        }
        let changed = solve_step_endgame(minefield);
        proof {
            let moves = choose|moves: Seq<(usize, bool)>|
                endgame_moves_ok(pre, minefield@, changed, moves);
            let hidden = hidden_list(pre, false);
            lemma_count_hidden_nonneg(minefield@.cells);
            if moves.len() == 0 {
                lemma_step_shape(pre, true);
                lemma_step_kinds(pre, true);
                lemma_step_hidden(pre, true);
                if !changed {
                    lemma_solve_step_idempotent(pre, true);
                    assert(minefield@ == pre);
                }
            } else {
                let sys = system_spec(pre, hidden, false);
                assert(sound_move(moves[0], sys, hidden.len() as int));
                lemma_apply_moves_shape(pre, hidden, moves, 0);
                lemma_apply_moves_hidden_le(pre, hidden, moves, 0);
                crate::system::lemma_hidden_prefix_entries(pre, false, pre.cells.len() as int);
                assert(hidden_sel(pre, false, hidden[moves[0].0 as int]));
                lemma_apply_moves_hidden_lt(pre, hidden, moves);
            }
        }
        if !changed {
            break;
        }
    }
}

} // verus!
