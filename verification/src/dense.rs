//! The exhaustive and pruned search strategies over a dense constraint
//! matrix, and the chunking strategy built on them.  The system is held
//! in a nalgebra matrix of 0/1 coefficients; a candidate assignment is
//! accepted when multiplying the matrix by it reproduces the right-hand
//! side exactly.  The exhaustive and pruned strategies enumerate the same
//! solution set as the bitmask strategy and therefore reach the same
//! board; chunking runs the exhaustive search over overlapping windows of
//! the board to bound the cost of each round.

use vstd::prelude::*;

use crate::minefield::{count_hidden_cells, BoardView, Cell, CellState, Minefield,
    lemma_coords_of_index};
use crate::solver::{
    any_forced, apply_deds, flag_result, forced, lemma_no_solutions_no_change, step_changed,
    step_result,
};
use crate::system::{
    hidden_list, lifted_idx, near, row_mask, sat_all, sat_row, solution_set, system_spec, weight,
    lemma_weight_bounds, lemma_weight_monotone, Row,
};

verus! {

/// A dense constraint matrix, held in a nalgebra matrix of byte
/// coefficients.  Verus cannot see inside nalgebra's storage, so the
/// matrix lives behind this struct and its contents carry the name
/// `mat_rows`.
#[verifier::external_body]
pub struct DenseMatrix {
    inner: nalgebra::DMatrix<u8>,
}

/// The rows of a dense constraint matrix, each a sequence of 0/1
/// coefficients over the hidden cells.
pub uninterp spec fn mat_rows(m: DenseMatrix) -> Seq<Seq<u8>>;

/// The number of columns the matrix was built with.
pub uninterp spec fn mat_width(m: DenseMatrix) -> int;

/// The dot product of a coefficient row and an assignment.
pub open spec fn dot(row: Seq<u8>, v: Seq<u8>, n: int) -> int
    decreases n,
{
    if n <= 0 {
        0
    } else {
        dot(row, v, n - 1) + row[n - 1] * v[n - 1]
    }
}

/// Relies on nalgebra's `DMatrix::from_row_slice`: the matrix holds the
/// given entries in row-major order.
#[verifier::external_body]
fn dmatrix_from_rows(nrows: usize, ncols: usize, entries: &Vec<u8>) -> (r: DenseMatrix)
    requires
        entries@.len() == nrows * ncols,
    ensures
        mat_rows(r).len() == nrows,
        mat_width(r) == ncols,
        forall|i: int|
            0 <= i < nrows ==> #[trigger] mat_rows(r)[i] == entries@.subrange(
                i * ncols,
                i * ncols + ncols,
            ),
{
    DenseMatrix { inner: nalgebra::DMatrix::from_row_slice(nrows, ncols, entries.as_slice()) }
}

/// Relies on nalgebra's matrix-vector multiplication: entry `i` of the
/// product is the dot product of row `i` with the vector.  Entries are
/// kept small enough that no sum can overflow.
#[verifier::external_body]
fn dmatrix_mul_vec(m: &DenseMatrix, v: &Vec<u8>) -> (r: Vec<u8>)
    requires
        mat_width(*m) == v@.len(),
        forall|i: int| 0 <= i < mat_rows(*m).len() ==> (#[trigger] mat_rows(*m)[i]).len()
            == v@.len(),
        forall|i: int, j: int|
            0 <= i < mat_rows(*m).len() && 0 <= j < v@.len() ==> mat_rows(*m)[i][j] <= 1,
        forall|j: int| 0 <= j < v@.len() ==> v@[j] <= 1,
        v@.len() <= 255,
    ensures
        r@.len() == mat_rows(*m).len(),
        forall|i: int| 0 <= i < r@.len() ==> #[trigger] r@[i] as int == dot(
            mat_rows(*m)[i],
            v@,
            v@.len() as int,
        ),
{
    let dv = nalgebra::DVector::from_vec(v.clone());
    let prod = &m.inner * dv;
    prod.iter().copied().collect()
}

/// The assignment a 0/1 byte vector stands for.
pub open spec fn bools8(v: Seq<u8>) -> Seq<bool> {
    v.map_values(|x: u8| x == 1)
}

/// A byte vector of zeros and ones.
pub open spec fn binary(v: Seq<u8>) -> bool {
    forall|j: int| 0 <= j < v.len() ==> #[trigger] v[j] <= 1
}

/// Splitting one more row off a flat row-major block.
proof fn lemma_chunk_arith(a: int, b: int)
    ensures
        (a + 1) * b == a * b + b,
{
    assert((a + 1) * b == a * b + b) by (nonlinear_arith);
}

/// A row's chunk lies inside the flat block of all earlier rows.
proof fn lemma_chunk_in_prefix(r2: int, nr: int, nv: int)
    requires
        0 <= r2 < nr,
        0 <= nv,
    ensures
        0 <= r2 * nv,
        r2 * nv + nv <= nr * nv,
{
    assert(0 <= r2 * nv) by (nonlinear_arith)
        requires
            0 <= r2,
            0 <= nv,
    ;
    assert(r2 * nv + nv <= nr * nv) by (nonlinear_arith)
        requires
            r2 < nr,
            0 <= nv,
    ;
}

/// The assignments a vector of byte solutions spells.
pub open spec fn sols_set_vec(sol: Seq<Vec<u8>>, n: int) -> Set<Seq<bool>> {
    Set::new(
        |a: Seq<bool>|
            exists|k: int| 0 <= k < sol.len() && sol[k]@.len() == n && bools8(sol[k]@) == a,
    )
}

/// The assignment agrees with the byte prefix below `i`.
pub open spec fn extends_vec(a: Seq<bool>, v: Seq<u8>, i: int, n: int) -> bool {
    a.len() == n && forall|j: int| 0 <= j < i ==> a[j] == (v[j] == 1)
}

/// The satisfying assignments that extend `v` from position `i` on.
pub open spec fn target_vec(rows: Seq<Row>, v: Seq<u8>, i: int, n: int) -> Set<Seq<bool>> {
    Set::new(|a: Seq<bool>| extends_vec(a, v, i, n) && sat_all(a, rows))
}

/// The dense matrix rows and right-hand sides stand for the given
/// constraint rows.
pub open spec fn corresponds_vec(mrows: Seq<Seq<u8>>, rhs: Seq<u8>, rows: Seq<Row>, n: int) -> bool {
    &&& mrows.len() == rows.len()
    &&& rhs.len() == rows.len()
    &&& n >= 0
    &&& forall|r: int|
        0 <= r < rows.len() ==> {
            &&& (#[trigger] mrows[r]).len() == n
            &&& binary(mrows[r])
            &&& rows[r].mask == bools8(mrows[r])
            &&& rows[r].rhs == rhs[r] as int
        }
}


/// Appending one more row to the flat row-major block keeps every row's
/// correspondence in place.
proof fn lemma_rows_extend(
    entries_pre: Seq<u8>,
    entries_new: Seq<u8>,
    rhs_pre: Seq<u8>,
    rhs_new: Seq<u8>,
    rows_pre: Seq<Row>,
    rows_new: Seq<Row>,
    nvars: int,
)
    requires
        nvars >= 0,
        rows_pre.len() == rhs_pre.len(),
        entries_pre.len() == rows_pre.len() * nvars,
        entries_new.len() == entries_pre.len() + nvars,
        entries_new.subrange(0, entries_pre.len() as int) == entries_pre,
        rhs_new == rhs_pre.push(rhs_new.last()),
        rows_new.len() == rows_pre.len() + 1,
        forall|r2: int| 0 <= r2 < rows_pre.len() ==> #[trigger] rows_new[r2] == rows_pre[r2],
        rows_new.last().mask == bools8(
            entries_new.subrange(entries_pre.len() as int, entries_new.len() as int),
        ),
        rows_new.last().rhs == rhs_new.last() as int,
        binary(entries_new.subrange(entries_pre.len() as int, entries_new.len() as int)),
        forall|r2: int|
            0 <= r2 < rows_pre.len() ==> {
                &&& binary(#[trigger] entries_pre.subrange(r2 * nvars, r2 * nvars + nvars))
                &&& rows_pre[r2].mask == bools8(
                    entries_pre.subrange(r2 * nvars, r2 * nvars + nvars),
                )
                &&& rows_pre[r2].rhs == rhs_pre[r2] as int
            },
    ensures
        forall|r2: int|
            0 <= r2 < rows_new.len() ==> {
                &&& binary(#[trigger] entries_new.subrange(r2 * nvars, r2 * nvars + nvars))
                &&& rows_new[r2].mask == bools8(
                    entries_new.subrange(r2 * nvars, r2 * nvars + nvars),
                )
                &&& rows_new[r2].rhs == rhs_new[r2] as int
            },
{
    let old_count = rows_pre.len() as int;
    assert forall|r2: int| 0 <= r2 < rows_new.len() implies {
        &&& binary(#[trigger] entries_new.subrange(r2 * nvars, r2 * nvars + nvars))
        &&& rows_new[r2].mask == bools8(entries_new.subrange(r2 * nvars, r2 * nvars + nvars))
        &&& rows_new[r2].rhs == rhs_new[r2] as int
    } by {
        if r2 < old_count {
            lemma_chunk_in_prefix(r2, old_count, nvars);
            assert(entries_new.subrange(r2 * nvars, r2 * nvars + nvars)
                =~= entries_pre.subrange(r2 * nvars, r2 * nvars + nvars)) by {
                assert forall|j: int|
                    0 <= j < nvars implies #[trigger] entries_new.subrange(
                    r2 * nvars,
                    r2 * nvars + nvars,
                )[j] == entries_pre.subrange(r2 * nvars, r2 * nvars + nvars)[j] by {
                    assert(entries_new.subrange(0, entries_pre.len() as int)[r2 * nvars + j]
                        == entries_pre[r2 * nvars + j]);
                }
            }
        } else {
            assert(r2 * nvars == old_count * nvars) by (nonlinear_arith)
                requires
                    r2 == old_count,
            ;
            assert(entries_new.subrange(r2 * nvars, r2 * nvars + nvars) =~= entries_new.subrange(
                entries_pre.len() as int,
                entries_new.len() as int,
            ));
        }
    }
}

/// On 0/1 vectors, the dot product counts the positions set in both.
proof fn lemma_dot_is_weight(row: Seq<u8>, v: Seq<u8>, n: int)
    requires
        n <= row.len(),
        n <= v.len(),
        forall|j: int| 0 <= j < n ==> #[trigger] row[j] <= 1,
        forall|j: int| 0 <= j < n ==> #[trigger] v[j] <= 1,
    ensures
        dot(row, v, n) == weight(bools8(v), bools8(row), n),
    decreases n,
{
    if n > 0 {
        lemma_dot_is_weight(row, v, n - 1);
        assert(row[n - 1] <= 1 && v[n - 1] <= 1);
        assert(bools8(v)[n - 1] == (v[n - 1] == 1));
        assert(bools8(row)[n - 1] == (row[n - 1] == 1));
    }
}

/// Copies an assignment vector.
fn clone_assignment(v: &Vec<u8>) -> (r: Vec<u8>)
    ensures
        r@ == v@,
{
    let mut r: Vec<u8> = Vec::new();
    let mut i: usize = 0;
    while i < v.len()
        invariant
            i <= v@.len(),
            r@ == v@.take(i as int),
        decreases v@.len() - i,
    {
        r.push(v[i]);
        proof {
            assert(r@ =~= v@.take(i + 1));
        }
        i = i + 1;
    }
    proof {
        assert(v@.take(v@.len() as int) =~= v@);
    }
    r
}

/// Compares two byte vectors.
fn vec_u8_eq(a: &Vec<u8>, b: &Vec<u8>) -> (r: bool)
    ensures
        r == (a@ == b@),
{
    if a.len() != b.len() {
        proof {
            assert(a@ != b@);
        }
        return false;
    }
    let mut i: usize = 0;
    while i < a.len()
        invariant
            i <= a@.len(),
            a@.len() == b@.len(),
            forall|j: int| 0 <= j < i ==> a@[j] == b@[j],
        decreases a@.len() - i,
    {
        if a[i] != b[i] {
            return false;
        }
        i = i + 1;
    }
    proof {
        assert(a@ =~= b@);
    }
    true
}

/// Whether the product equals the right-hand side, as satisfaction of
/// the constraint rows.
fn check_solved(
    a: &DenseMatrix,
    x: &Vec<u8>,
    b: &Vec<u8>,
    Ghost(rows): Ghost<Seq<Row>>,
) -> (r: bool)
    requires
        mat_width(*a) == b@.len() as int,
        corresponds_vec(mat_rows(*a), x@, rows, b@.len() as int),
        binary(b@),
        b@.len() <= 255,
    ensures
        r == sat_all(bools8(b@), rows),
{
    let prod = dmatrix_mul_vec(a, b);
    let eq = vec_u8_eq(&prod, x);
    proof {
        let n = b@.len() as int;
        if eq {
            assert forall|r2: int| 0 <= r2 < rows.len() implies sat_row(
                bools8(b@),
                #[trigger] rows[r2],
            ) by {
                lemma_dot_is_weight(mat_rows(*a)[r2], b@, n);
                assert(prod@[r2] == x@[r2]);
            }
        } else {
            if sat_all(bools8(b@), rows) {
                assert forall|r2: int| 0 <= r2 < prod@.len() implies prod@[r2] == x@[r2] by {
                    lemma_dot_is_weight(mat_rows(*a)[r2], b@, n);
                    assert(sat_row(bools8(b@), rows[r2]));
                }
                assert(prod@ =~= x@);
            }
        }
    }
    eq
}

/// Whether some constraint already holds more mines than it allows.
fn check_unrecoverable(
    a: &DenseMatrix,
    x: &Vec<u8>,
    b: &Vec<u8>,
    Ghost(rows): Ghost<Seq<Row>>,
) -> (r: bool)
    requires
        mat_width(*a) == b@.len() as int,
        corresponds_vec(mat_rows(*a), x@, rows, b@.len() as int),
        binary(b@),
        b@.len() <= 255,
    ensures
        r == exists|i: int|
            0 <= i < rows.len() && weight(bools8(b@), (#[trigger] rows[i]).mask, b@.len() as int)
                > rows[i].rhs,
{
    let prod = dmatrix_mul_vec(a, b);
    let mut i: usize = 0;
    let ghost n = b@.len() as int;
    while i < prod.len()
        invariant
            i <= prod@.len(),
            corresponds_vec(mat_rows(*a), x@, rows, n),
            binary(b@),
            n == b@.len() as int,
            prod@.len() == rows.len(),
            forall|r2: int| 0 <= r2 < prod@.len() ==> #[trigger] prod@[r2] as int == dot(
                mat_rows(*a)[r2],
                b@,
                n,
            ),
            forall|j: int|
                0 <= j < i ==> weight(bools8(b@), (#[trigger] rows[j]).mask, n) <= rows[j].rhs,
        decreases prod@.len() - i,
    {
        proof {
            lemma_dot_is_weight(mat_rows(*a)[i as int], b@, n);
        }
        if prod[i] > x[i] {
            return true;
        }
        i = i + 1;
    }
    false
}

/// Adding one byte solution adds exactly its assignment to the set.
proof fn lemma_sols_set_vec_push(sol: Seq<Vec<u8>>, v: Vec<u8>, n: int)
    requires
        v@.len() == n,
    ensures
        sols_set_vec(sol.push(v), n) == sols_set_vec(sol, n).insert(bools8(v@)),
{
    let s1 = sols_set_vec(sol.push(v), n);
    let s2 = sols_set_vec(sol, n).insert(bools8(v@));
    assert forall|a: Seq<bool>| s1.contains(a) implies s2.contains(a) by {
        let k = choose|k: int|
            0 <= k < sol.push(v).len() && sol.push(v)[k]@.len() == n && bools8(sol.push(v)[k]@)
                == a;
        if k < sol.len() {
            assert(sol.push(v)[k] == sol[k]);
            assert(sols_set_vec(sol, n).contains(a));
        }
    }
    assert forall|a: Seq<bool>| s2.contains(a) implies s1.contains(a) by {
        if sols_set_vec(sol, n).contains(a) {
            let k = choose|k: int|
                0 <= k < sol.len() && sol[k]@.len() == n && bools8(sol[k]@) == a;
            assert(sol.push(v)[k] == sol[k]);
        } else {
            assert(sol.push(v)[sol.len() as int] == v);
        }
    }
    assert(s1 =~= s2);
}

/// Splitting on the next variable splits the satisfying extensions.
proof fn lemma_target_vec_split(rows: Seq<Row>, b: Seq<u8>, wo: Seq<u8>, i: int, n: int)
    requires
        0 <= i < n,
        b.len() == n,
        wo == b.update(i, 1u8),
        b[i] == 0,
    ensures
        target_vec(rows, b, i, n) == target_vec(rows, wo, i + 1, n).union(
            target_vec(rows, b, i + 1, n),
        ),
{
    let t = target_vec(rows, b, i, n);
    let t1 = target_vec(rows, wo, i + 1, n);
    let t0 = target_vec(rows, b, i + 1, n);
    assert forall|a: Seq<bool>| t.contains(a) implies t1.union(t0).contains(a) by {
        if a[i] {
            assert(extends_vec(a, wo, i + 1, n));
        } else {
            assert(extends_vec(a, b, i + 1, n));
        }
    }
    assert forall|a: Seq<bool>| t1.union(t0).contains(a) implies t.contains(a) by {
        if t1.contains(a) {
            assert(extends_vec(a, b, i, n));
        } else {
            assert(extends_vec(a, b, i, n));
        }
    }
    assert(t =~= t1.union(t0));
}

/// A branch whose partial placement already overshoots a constraint has
/// no satisfying extension.
proof fn lemma_pruned_vec_empty(rows: Seq<Row>, wo: Seq<u8>, i: int, n: int, r: int)
    requires
        0 <= i <= n,
        wo.len() == n,
        binary(wo),
        0 <= r < rows.len(),
        rows[r].mask.len() == n,
        weight(bools8(wo), rows[r].mask, n) > rows[r].rhs,
        forall|j: int| i <= j < n ==> #[trigger] wo[j] == 0,
    ensures
        target_vec(rows, wo, i, n) == Set::<Seq<bool>>::empty(),
{
    assert forall|a: Seq<bool>| !target_vec(rows, wo, i, n).contains(a) by {
        if extends_vec(a, wo, i, n) && sat_all(a, rows) {
            assert forall|j: int| 0 <= j < n && bools8(wo)[j] implies a[j] by {
                if j >= i {
                    assert(wo[j] == 0);
                }
            }
            lemma_weight_monotone(bools8(wo), a, rows[r].mask, n);
            assert(sat_row(a, rows[r]));
            assert(false);
        }
    }
    assert(target_vec(rows, wo, i, n) =~= Set::<Seq<bool>>::empty());
}

/// Exhaustively enumerates every satisfying assignment that extends `b`
/// from variable `i` on, trying both values for every later variable and
/// keeping the candidates that meet every constraint exactly.
pub fn find_solutions(
    a: &DenseMatrix,
    x: &Vec<u8>,
    b: &Vec<u8>,
    i: usize,
    solutions: &mut Vec<Vec<u8>>,
    Ghost(rows): Ghost<Seq<Row>>,
)
    requires
        mat_width(*a) == b@.len() as int,
        corresponds_vec(mat_rows(*a), x@, rows, b@.len() as int),
        b@.len() <= 255,
        i <= b@.len(),
        binary(b@),
        forall|j: int| i <= j < b@.len() ==> b@[j] == 0,
    ensures
        final(solutions)@.len() >= old(solutions)@.len(),
        forall|k: int| 0 <= k < old(solutions)@.len() ==> final(solutions)@[k] == old(
            solutions,
        )@[k],
        sols_set_vec(final(solutions)@, b@.len() as int) == sols_set_vec(
            old(solutions)@,
            b@.len() as int,
        ).union(target_vec(rows, b@, i as int, b@.len() as int)),
        forall|k: int|
            old(solutions)@.len() <= k < final(solutions)@.len()
                ==> (#[trigger] final(solutions)@[k])@.len() == b@.len()
                && binary(final(solutions)@[k]@),
    decreases b@.len() - i,
{
    let ghost n = b@.len() as int;
    if i == b.len() {
        let solved = check_solved(a, x, b, Ghost(rows));
        let ghost pre = solutions@;
        if solved {
            let copy = clone_assignment(b);
            let ghost copy_vec = copy;
            solutions.push(copy);
            proof {
                lemma_sols_set_vec_push(pre, copy_vec, n);
                assert(bools8(copy_vec@) == bools8(b@));
                assert forall|aa: Seq<bool>| target_vec(rows, b@, n, n).contains(aa) implies aa
                    == bools8(b@) by {
                    assert(aa =~= bools8(b@));
                }
                assert(target_vec(rows, b@, n, n).contains(bools8(b@)));
                assert(sols_set_vec(solutions@, n) =~= sols_set_vec(pre, n).union(
                    target_vec(rows, b@, n, n),
                ));
            }
        } else {
            proof {
                assert forall|aa: Seq<bool>| !target_vec(rows, b@, n, n).contains(aa) by {
                    if extends_vec(aa, b@, n, n) && sat_all(aa, rows) {
                        assert(aa =~= bools8(b@));
                        assert(false);
                    }
                }
                assert(target_vec(rows, b@, n, n) =~= Set::<Seq<bool>>::empty());
                assert(sols_set_vec(solutions@, n) =~= sols_set_vec(pre, n).union(
                    target_vec(rows, b@, n, n),
                ));
            }
        }
        return;
    }
    let mut with_one = clone_assignment(b);
    with_one.set(i, 1);
    proof {
        lemma_target_vec_split(rows, b@, with_one@, i as int, n);
    }
    let ghost pre = solutions@;
    find_solutions(a, x, b, i + 1, solutions, Ghost(rows));
    find_solutions(a, x, &with_one, i + 1, solutions, Ghost(rows));
    proof {
        assert(sols_set_vec(solutions@, n) =~= sols_set_vec(pre, n).union(
            target_vec(rows, b@, i as int, n),
        ));
    }
}

/// Enumerates with pruning: a branch is dropped as soon as its placed
/// mines overshoot a constraint, and a satisfied partial assignment is
/// recorded and still explored further.
pub fn find_solutions_pruning(
    a: &DenseMatrix,
    x: &Vec<u8>,
    b: &Vec<u8>,
    i: usize,
    solutions: &mut Vec<Vec<u8>>,
    Ghost(rows): Ghost<Seq<Row>>,
)
    requires
        mat_width(*a) == b@.len() as int,
        corresponds_vec(mat_rows(*a), x@, rows, b@.len() as int),
        b@.len() <= 255,
        i <= b@.len(),
        binary(b@),
        forall|j: int| i <= j < b@.len() ==> b@[j] == 0,
    ensures
        final(solutions)@.len() >= old(solutions)@.len(),
        forall|k: int| 0 <= k < old(solutions)@.len() ==> final(solutions)@[k] == old(
            solutions,
        )@[k],
        sols_set_vec(final(solutions)@, b@.len() as int) == sols_set_vec(
            old(solutions)@,
            b@.len() as int,
        ).union(target_vec(rows, b@, i as int, b@.len() as int)),
        forall|k: int|
            old(solutions)@.len() <= k < final(solutions)@.len()
                ==> (#[trigger] final(solutions)@[k])@.len() == b@.len()
                && binary(final(solutions)@[k]@),
    decreases b@.len() - i,
{
    let ghost n = b@.len() as int;
    if i == b.len() {
        let solved = check_solved(a, x, b, Ghost(rows));
        let ghost pre = solutions@;
        if solved {
            let copy = clone_assignment(b);
            let ghost copy_vec = copy;
            solutions.push(copy);
            proof {
                lemma_sols_set_vec_push(pre, copy_vec, n);
                assert(bools8(copy_vec@) == bools8(b@));
                assert forall|aa: Seq<bool>| target_vec(rows, b@, n, n).contains(aa) implies aa
                    == bools8(b@) by {
                    assert(aa =~= bools8(b@));
                }
                assert(target_vec(rows, b@, n, n).contains(bools8(b@)));
                assert(sols_set_vec(solutions@, n) =~= sols_set_vec(pre, n).union(
                    target_vec(rows, b@, n, n),
                ));
            }
        } else {
            proof {
                assert forall|aa: Seq<bool>| !target_vec(rows, b@, n, n).contains(aa) by {
                    if extends_vec(aa, b@, n, n) && sat_all(aa, rows) {
                        assert(aa =~= bools8(b@));
                        assert(false);
                    }
                }
                assert(target_vec(rows, b@, n, n) =~= Set::<Seq<bool>>::empty());
                assert(sols_set_vec(solutions@, n) =~= sols_set_vec(pre, n).union(
                    target_vec(rows, b@, n, n),
                ));
            }
        }
        return;
    }
    let mut with_one = clone_assignment(b);
    with_one.set(i, 1);
    proof {
        lemma_target_vec_split(rows, b@, with_one@, i as int, n);
    }
    let ghost pre = solutions@;
    let solved = check_solved(a, x, &with_one, Ghost(rows));
    if solved {
        find_solutions_pruning(a, x, &with_one, i + 1, solutions, Ghost(rows));
        let ghost mid = solutions@;
        let ghost wov = with_one@;
        let ghost wo_vec = with_one;
        solutions.push(with_one);
        proof {
            lemma_sols_set_vec_push(mid, wo_vec, n);
            assert(extends_vec(bools8(wov), wov, i + 1, n));
            assert(target_vec(rows, wov, i + 1, n).contains(bools8(wov)));
            assert(sols_set_vec(solutions@, n) =~= sols_set_vec(pre, n).union(
                target_vec(rows, wov, i + 1, n),
            ));
        }
    } else {
        let unrec = check_unrecoverable(a, x, &with_one, Ghost(rows));
        if !unrec {
            find_solutions_pruning(a, x, &with_one, i + 1, solutions, Ghost(rows));
        } else {
            proof {
                let r = choose|r: int|
                    0 <= r < rows.len() && weight(bools8(with_one@), rows[r].mask, n)
                        > rows[r].rhs;
                assert(rows[r].mask == bools8(mat_rows(*a)[r]));
                assert(rows[r].mask.len() == n);
                lemma_pruned_vec_empty(rows, with_one@, i + 1, n, r);
                assert(sols_set_vec(solutions@, n) =~= sols_set_vec(pre, n).union(
                    target_vec(rows, with_one@, i + 1, n),
                ));
            }
        }
    }
    find_solutions_pruning(a, x, b, i + 1, solutions, Ghost(rows));
    proof {
        assert(sols_set_vec(solutions@, n) =~= sols_set_vec(pre, n).union(
            target_vec(rows, b@, i as int, n),
        ));
    }
}

impl Minefield {
    /// Builds the dense constraint system over the given hidden cells.
    /// Returns nothing when the board is inconsistently flagged, in which
    /// case no assignment could meet the system anyway.
    #[verifier::rlimit(100)]
    #[verifier::spinoff_prover]
    pub(crate) fn create_system(
        &self,
        hidden_cells: &Vec<usize>,
        include_total_mines: bool,
    ) -> (r: Option<(DenseMatrix, Vec<u8>)>)
        requires
            self@.wf(),
            hidden_cells@.len() <= 255,
            forall|k: int| 0 <= k < hidden_cells@.len() ==> hidden_cells@[k] < self@.cells.len(),
        ensures
            match r {
                Some(ax) => mat_width(ax.0) == hidden_cells@.len() as int && corresponds_vec(
                    mat_rows(ax.0),
                    ax.1@,
                    system_spec(self@, lifted_idx(hidden_cells@), include_total_mines),
                    hidden_cells@.len() as int,
                ),
                None => forall|a: Seq<bool>|
                    a.len() == hidden_cells@.len() ==> !sat_all(
                        a,
                        system_spec(self@, lifted_idx(hidden_cells@), include_total_mines),
                    ),
            },
    {
        let ghost hidden = lifted_idx(hidden_cells@);
        let nvars = hidden_cells.len();
        let mut entries: Vec<u8> = Vec::new();
        let mut rhs: Vec<u8> = Vec::new();
        let mut nrows: usize = 0;
        let mut i: usize = 0;
        while i < self.cells.len()
            invariant
                i <= self.cells@.len(),
                self@.wf(),
                nvars == hidden_cells@.len() <= 255,
                hidden == lifted_idx(hidden_cells@),
                forall|k: int| 0 <= k < hidden_cells@.len() ==> hidden_cells@[k]
                    < self@.cells.len(),
                nrows == crate::system::rows_prefix(self@, hidden, i as int).len(),
                rhs@.len() == nrows,
                entries@.len() == nrows * nvars,
                nrows <= i,
                forall|r2: int|
                    0 <= r2 < nrows ==> {
                        &&& binary(
                            #[trigger] entries@.subrange(r2 * nvars, r2 * nvars + nvars),
                        )
                        &&& crate::system::rows_prefix(self@, hidden, i as int)[r2].mask == bools8(
                            entries@.subrange(r2 * nvars, r2 * nvars + nvars),
                        )
                        &&& crate::system::rows_prefix(self@, hidden, i as int)[r2].rhs
                            == rhs@[r2] as int
                    },
            decreases self.cells@.len() - i,
        {
            let ghost rows_pre = crate::system::rows_prefix(self@, hidden, i as int);
            if self.cells[i].state == CellState::Opened {
                proof {
                    lemma_coords_of_index(self@, i as int);
                }
                let x = i % self.width;
                let y = i / self.width;
                let mines = self.count_mines(x, y);
                if mines != 0 {
                    let flags = self.count_flags(x, y);
                    if flags > mines {
                        proof {
                            crate::system::lemma_bad_row_unsat(
                                self@,
                                hidden,
                                include_total_mines,
                                i as int,
                                nvars as int,
                            );
                        }
                        return None;
                    }
                    let ghost entries_pre = entries@;
                    let mut k: usize = 0;
                    while k < hidden_cells.len()
                        invariant
                            k <= hidden_cells@.len(),
                            self@.wf(),
                            nvars == hidden_cells@.len(),
                            hidden == lifted_idx(hidden_cells@),
                            forall|j: int| 0 <= j < hidden_cells@.len() ==> hidden_cells@[j]
                                < self@.cells.len(),
                            x < self@.width,
                            y < self@.height,
                            i as int == self@.index_of(x as int, y as int),
                            entries@.len() == entries_pre.len() + k,
                            entries@.subrange(0, entries_pre.len() as int) == entries_pre,
                            forall|j: int|
                                0 <= j < k ==> #[trigger] entries@[entries_pre.len() + j]
                                    == (if near(self@, hidden[j], x as int, y as int) {
                                    1u8
                                } else {
                                    0u8
                                }),
                        decreases hidden_cells@.len() - k,
                    {
                        let hi = hidden_cells[k];
                        proof {
                            lemma_coords_of_index(self@, hi as int);
                        }
                        let hx = hi % self.width;
                        let hy = hi / self.width;
                        let dx = if hx >= x {
                            hx - x
                        } else {
                            x - hx
                        };
                        let dy = if hy >= y {
                            hy - y
                        } else {
                            y - hy
                        };
                        let v: u8 = if dx <= 1 && dy <= 1 {
                            1
                        } else {
                            0
                        };
                        entries.push(v);
                        proof {
                            assert(entries@.subrange(0, entries_pre.len() as int)
                                =~= entries_pre);
                        }
                        k = k + 1;
                    }
                    let ghost rhs_pre_v = rhs@;
                    rhs.push((mines - flags) as u8);
                    nrows = nrows + 1;
                    proof {
                        lemma_chunk_arith(nrows - 1, nvars as int);
                        let rows1 = crate::system::rows_prefix(self@, hidden, i + 1);
                        assert(rows1 =~= rows_pre + seq![
                            crate::system::row_of(self@, hidden, i as int),
                        ]);
                        let newrow = entries@.subrange(
                            entries_pre.len() as int,
                            entries@.len() as int,
                        );
                        assert forall|j: int| 0 <= j < nvars implies newrow[j] == (if near(
                            self@,
                            hidden[j],
                            x as int,
                            y as int,
                        ) {
                            1u8
                        } else {
                            0u8
                        }) by {
                            assert(newrow[j] == entries@[entries_pre.len() + j]);
                        }
                        assert(bools8(newrow) =~= crate::system::row_mask(
                            self@,
                            hidden,
                            x as int,
                            y as int,
                        ));
                        assert(binary(newrow));
                        assert(rhs@ == rhs_pre_v.push(rhs@.last()));
                        assert forall|r2: int| 0 <= r2 < rows_pre.len() implies #[trigger] rows1[
                            r2
                        ] == rows_pre[r2] by {}
                        lemma_rows_extend(
                            entries_pre,
                            entries@,
                            rhs_pre_v,
                            rhs@,
                            rows_pre,
                            rows1,
                            nvars as int,
                        );
                    }
                } else {
                    proof {
                        assert(crate::system::rows_prefix(self@, hidden, i + 1) =~= rows_pre);
                    }
                }
            } else {
                proof {
                    assert(crate::system::rows_prefix(self@, hidden, i + 1) =~= rows_pre);
                }
            }
            i = i + 1;
        }
        proof {
            assert(crate::system::rows_prefix(self@, hidden, self@.cells.len() as int)
                == crate::system::board_rows(self@, hidden));
        }
        if include_total_mines {
            let tm = self.total_mines();
            let tf = self.total_flags();
            if tf > tm || tm - tf > nvars {
                proof {
                    crate::system::lemma_bad_total_unsat(self@, hidden, nvars as int);
                }
                return None;
            }
            let ghost entries_pre = entries@;
            let mut k: usize = 0;
            while k < nvars
                invariant
                    k <= nvars,
                    entries@.len() == entries_pre.len() + k,
                    entries@.subrange(0, entries_pre.len() as int) == entries_pre,
                    forall|j: int|
                        0 <= j < k ==> #[trigger] entries@[entries_pre.len() + j] == 1u8,
                decreases nvars - k,
            {
                entries.push(1);
                proof {
                    assert(entries@.subrange(0, entries_pre.len() as int) =~= entries_pre);
                }
                k = k + 1;
            }
            let ghost rhs_pre_v = rhs@;
            rhs.push((tm - tf) as u8);
            let ghost old_nrows = nrows as int;
            let nrows2 = rhs.len();
            let ghost sys = system_spec(self@, hidden, true);
            proof {
                lemma_chunk_arith(old_nrows, nvars as int);
                assert(sys =~= crate::system::board_rows(self@, hidden) + seq![
                    crate::system::total_row(self@, hidden),
                ]);
                let newrow = entries@.subrange(
                    entries_pre.len() as int,
                    entries@.len() as int,
                );
                assert forall|j: int| 0 <= j < nvars implies newrow[j] == 1u8 by {
                    assert(newrow[j] == entries@[entries_pre.len() + j]);
                }
                assert(bools8(newrow) =~= Seq::new(hidden.len(), |j: int| true));
                assert(binary(newrow));
                assert(rhs@ == rhs_pre_v.push(rhs@.last()));
                assert forall|r2: int|
                    0 <= r2 < crate::system::board_rows(self@, hidden).len()
                        implies #[trigger] sys[r2] == crate::system::board_rows(
                        self@,
                        hidden,
                    )[r2] by {}
                lemma_rows_extend(
                    entries_pre,
                    entries@,
                    rhs_pre_v,
                    rhs@,
                    crate::system::board_rows(self@, hidden),
                    sys,
                    nvars as int,
                );
            }
            let a2 = dmatrix_from_rows(nrows2, nvars, &entries);
            proof {
                assert forall|r2: int| 0 <= r2 < sys.len() implies {
                    &&& (#[trigger] mat_rows(a2)[r2]).len() == nvars
                    &&& binary(mat_rows(a2)[r2])
                    &&& sys[r2].mask == bools8(mat_rows(a2)[r2])
                    &&& sys[r2].rhs == rhs@[r2] as int
                } by {
                    lemma_chunk_in_prefix(r2, sys.len() as int, nvars as int);
                    assert(mat_rows(a2)[r2] == entries@.subrange(
                        r2 * nvars,
                        r2 * nvars + nvars,
                    ));
                }
                assert(corresponds_vec(mat_rows(a2), rhs@, sys, nvars as int));
            }
            Some((a2, rhs))
        } else {
            let a2 = dmatrix_from_rows(nrows, nvars, &entries);
            proof {
                let sys = system_spec(self@, hidden, false);
                assert(sys =~= crate::system::board_rows(self@, hidden));
                assert forall|r2: int| 0 <= r2 < sys.len() implies {
                    &&& (#[trigger] mat_rows(a2)[r2]).len() == nvars
                    &&& binary(mat_rows(a2)[r2])
                    &&& sys[r2].mask == bools8(mat_rows(a2)[r2])
                    &&& sys[r2].rhs == rhs@[r2] as int
                } by {
                    lemma_chunk_in_prefix(r2, sys.len() as int, nvars as int);
                    assert(mat_rows(a2)[r2] == entries@.subrange(
                        r2 * nvars,
                        r2 * nvars + nvars,
                    ));
                }
                assert(corresponds_vec(mat_rows(a2), rhs@, sys, nvars as int));
            }
            Some((a2, rhs))
        }
    }
}

/// Applies every deduction on which all enumerated byte solutions agree,
/// exactly as the bitmask analyzer does.
fn analyze_solutions(
    minefield: &mut Minefield,
    hidden_cells: &Vec<usize>,
    solutions: &Vec<Vec<u8>>,
) -> (changed: bool)
    requires
        old(minefield)@.wf(),
        forall|k: int| 0 <= k < hidden_cells@.len() ==> hidden_cells@[k]
            < old(minefield)@.cells.len(),
        forall|k: int|
            0 <= k < solutions@.len() ==> (#[trigger] solutions@[k])@.len()
                == hidden_cells@.len() && binary(solutions@[k]@),
    ensures
        final(minefield)@ == apply_deds(
            old(minefield)@,
            lifted_idx(hidden_cells@),
            sols_set_vec(solutions@, hidden_cells@.len() as int),
            0,
        ),
        changed == any_forced(
            sols_set_vec(solutions@, hidden_cells@.len() as int),
            hidden_cells@.len() as int,
        ),
{
    let ghost o = old(minefield)@;
    let ghost hidden = lifted_idx(hidden_cells@);
    let ghost nv = hidden_cells@.len() as int;
    let ghost s = sols_set_vec(solutions@, nv);
    if solutions.len() == 0 {
        proof {
            assert forall|a: Seq<bool>| !s.contains(a) by {
                if exists|k: int|
                    0 <= k < solutions@.len() && solutions@[k]@.len() == nv && bools8(
                        solutions@[k]@,
                    ) == a {
                    let k = choose|k: int|
                        0 <= k < solutions@.len() && solutions@[k]@.len() == nv && bools8(
                            solutions@[k]@,
                        ) == a;
                    assert(false);
                }
            }
            lemma_no_solutions_no_change(o, hidden, s, nv);
        }
        return false;
    }
    let n = hidden_cells.len();
    let mut changed = false;
    let mut i: usize = 0;
    while i < n
        invariant
            i <= n,
            n == hidden_cells@.len(),
            solutions@.len() > 0,
            o.wf(),
            hidden == lifted_idx(hidden_cells@),
            nv == n as int,
            s == sols_set_vec(solutions@, nv),
            forall|k: int|
                0 <= k < solutions@.len() ==> (#[trigger] solutions@[k])@.len() == n && binary(
                    solutions@[k]@,
                ),
            minefield@.wf(),
            minefield@.width == o.width,
            minefield@.height == o.height,
            minefield@.cells.len() == o.cells.len(),
            forall|k: int| 0 <= k < hidden_cells@.len() ==> hidden_cells@[k] < o.cells.len(),
            apply_deds(o, hidden, s, 0) == apply_deds(minefield@, hidden, s, i as int),
            changed == exists|j: int|
                0 <= j < i && (forced(s, j, true) || forced(s, j, false)),
        decreases n - i,
    {
        let ghost pre = minefield@;
        let first = solutions[0][i];
        let mut agree = true;
        let mut t: usize = 1;
        while t < solutions.len()
            invariant
                1 <= t <= solutions@.len(),
                i < n,
                forall|k: int|
                    0 <= k < solutions@.len() ==> (#[trigger] solutions@[k])@.len() == n,
                first == solutions@[0]@[i as int],
                agree == forall|k: int| 0 <= k < t ==> (#[trigger] solutions@[k])@[i as int]
                    == first,
            decreases solutions@.len() - t,
        {
            if solutions[t][i] != first {
                agree = false;
                t = solutions.len();
            } else {
                t = t + 1;
            }
        }
        if agree {
            let first_one = first == 1;
            proof {
                assert(s.contains(bools8(solutions@[0]@)));
                assert forall|a: Seq<bool>| s.contains(a) implies a[i as int] == first_one by {
                    let k = choose|k: int|
                        0 <= k < solutions@.len() && solutions@[k]@.len() == nv && bools8(
                            solutions@[k]@,
                        ) == a;
                    assert(solutions@[k]@[i as int] == first);
                    assert(a[i as int] == (solutions@[k]@[i as int] == 1));
                }
                assert(forced(s, i as int, first_one));
                assert(bools8(solutions@[0]@)[i as int] == first_one);
                assert(!forced(s, i as int, !first_one));
            }
            changed = true;
            let hv = hidden_cells[i];
            if !first_one {
                proof {
                    lemma_coords_of_index(pre, hv as int);
                }
                let x = hv % minefield.width;
                let y = hv / minefield.width;
                minefield.open(x, y);
                proof {
                    assert(minefield@ == pre.open_result(
                        pre.x_of(hidden[i as int]),
                        pre.y_of(hidden[i as int]),
                    ));
                    assert(apply_deds(pre, hidden, s, i as int) == apply_deds(
                        minefield@,
                        hidden,
                        s,
                        i + 1,
                    ));
                }
            } else {
                let kind = minefield.cells[hv].kind;
                minefield.cells.set(hv, Cell { kind, state: CellState::Flagged });
                proof {
                    assert(minefield@.cells =~= flag_result(pre, hidden[i as int]).cells);
                    assert(minefield@ =~= flag_result(pre, hidden[i as int]));
                    assert(apply_deds(pre, hidden, s, i as int) == apply_deds(
                        minefield@,
                        hidden,
                        s,
                        i + 1,
                    ));
                }
            }
        } else {
            proof {
                let bad = choose|k: int|
                    0 <= k < solutions@.len() && (#[trigger] solutions@[k])@[i as int] != first;
                assert(s.contains(bools8(solutions@[bad]@)));
                assert(bools8(solutions@[bad]@)[i as int] == (solutions@[bad]@[i as int] == 1));
                assert(s.contains(bools8(solutions@[0]@)));
                assert(bools8(solutions@[0]@)[i as int] == (first == 1));
                assert(solutions@[bad]@[i as int] <= 1 && first <= 1);
                assert(bools8(solutions@[bad]@)[i as int] != bools8(solutions@[0]@)[i as int]);
                assert(!forced(s, i as int, true) && !forced(s, i as int, false));
                assert(apply_deds(pre, hidden, s, i as int) == apply_deds(
                    minefield@,
                    hidden,
                    s,
                    i + 1,
                ));
            }
        }
        i = i + 1;
    }
    proof {
        assert(apply_deds(minefield@, hidden, s, n as int) == minefield@);
        if changed {
            assert(any_forced(s, nv));
        }
        if any_forced(s, nv) {
            let j = choose|j: int| 0 <= j < nv && (forced(s, j, true) || forced(s, j, false));
            assert(changed);
        }
    }
    changed
}

/// One deduction round with the exhaustive enumeration.
pub fn solve_step_bf(minefield: &mut Minefield) -> (changed: bool)
    requires
        old(minefield)@.wf(),
        hidden_list(old(minefield)@, true).len() <= 255,
    ensures
        final(minefield)@ == step_result(old(minefield)@, true),
        changed == step_changed(old(minefield)@, true),
{
    dense_step(minefield, true)
}

/// One deduction round with the pruned backtracking enumeration.
pub fn solve_step_pruning(minefield: &mut Minefield) -> (changed: bool)
    requires
        old(minefield)@.wf(),
        hidden_list(old(minefield)@, true).len() <= 255,
    ensures
        final(minefield)@ == step_result(old(minefield)@, true),
        changed == step_changed(old(minefield)@, true),
{
    dense_step(minefield, false)
}

/// The shared dense deduction round; `exhaustive` picks the
/// enumeration strategy, the solution set is the same either way.
fn dense_step(minefield: &mut Minefield, exhaustive: bool) -> (changed: bool)
    requires
        old(minefield)@.wf(),
        hidden_list(old(minefield)@, true).len() <= 255,
    ensures
        final(minefield)@ == step_result(old(minefield)@, true),
        changed == step_changed(old(minefield)@, true),
{
    let ghost o = old(minefield)@;
    let hidden_cells = minefield.get_hidden_cells(true);
    let ghost hidden = lifted_idx(hidden_cells@);
    let ghost nv = hidden_cells@.len() as int;
    let ghost sys = system_spec(o, hidden, true);
    let ghost sset = solution_set(sys, nv);
    let system = minefield.create_system(&hidden_cells, true);
    match system {
        Option::None => {
            proof {
                assert forall|a: Seq<bool>| !sset.contains(a) by {
                    if a.len() == nv && sat_all(a, sys) {
                        assert(false);
                    }
                }
                lemma_no_solutions_no_change(o, hidden, sset, nv);
                assert(apply_deds(o, hidden, sset, 0) == o);
            }
            false
        },
        Option::Some(ax) => {
            let (a2, x2) = ax;
            let mut b0: Vec<u8> = Vec::new();
            let mut k: usize = 0;
            while k < hidden_cells.len()
                invariant
                    k <= hidden_cells@.len(),
                    b0@.len() == k,
                    forall|j: int| 0 <= j < k ==> b0@[j] == 0u8,
                decreases hidden_cells@.len() - k,
            {
                b0.push(0);
                k = k + 1;
            }
            let mut solutions: Vec<Vec<u8>> = Vec::new();
            if exhaustive {
                find_solutions(&a2, &x2, &b0, 0, &mut solutions, Ghost(sys));
            } else {
                find_solutions_pruning(&a2, &x2, &b0, 0, &mut solutions, Ghost(sys));
            }
            proof {
                assert forall|a: Seq<bool>|
                    !sols_set_vec(Seq::<Vec<u8>>::empty(), nv).contains(a) by {
                    let empty_sols = Seq::<Vec<u8>>::empty();
                    if exists|k2: int|
                        0 <= k2 < empty_sols.len() && empty_sols[k2]@.len() == nv && bools8(
                            empty_sols[k2]@,
                        ) == a {
                        let k2 = choose|k2: int|
                            0 <= k2 < empty_sols.len() && empty_sols[k2]@.len() == nv
                                && bools8(empty_sols[k2]@) == a;
                        assert(false);
                    }
                }
                assert(target_vec(sys, b0@, 0, nv) =~= sset);
                assert(sols_set_vec(solutions@, nv) =~= sset);
            }
            analyze_solutions(minefield, &hidden_cells, &solutions)
        },
    }
}

/// Runs the exhaustive strategy to its fixpoint; it reaches the same
/// board as every other strategy.
pub fn solve_bf(minefield: &mut Minefield)
    requires
        old(minefield)@.wf(),
        crate::minefield::count_hidden_cells(old(minefield)@.cells) <= 255,
    ensures
        final(minefield)@ == crate::solver::solve_result(old(minefield)@, true),
{
    loop
        invariant
            minefield@.wf(),
            crate::minefield::count_hidden_cells(minefield@.cells) <= 255,
            crate::solver::solve_result(minefield@, true) == crate::solver::solve_result(
                old(minefield)@,
                true,
            ),
        ensures
            minefield@ == crate::solver::solve_result(old(minefield)@, true),
        decreases crate::minefield::count_hidden_cells(minefield@.cells),
    {
        let ghost pre = minefield@;
        proof {
            crate::solver::lemma_hidden_list_le_count(pre, true);
            crate::solver::lemma_count_hidden_nonneg(pre.cells);
        }
        let changed = solve_step_bf(minefield);
        proof {
            crate::solver::lemma_step_shape(pre, true);
            crate::solver::lemma_step_hidden(pre, true);
            crate::solver::lemma_count_hidden_nonneg(minefield@.cells);
            if changed {
                assert(crate::solver::solve_result(pre, true)
                    == crate::solver::solve_result(minefield@, true));
            } else {
                crate::solver::lemma_solve_step_idempotent(pre, true);
                assert(minefield@ == pre);
                assert(crate::solver::solve_result(minefield@, true) == minefield@);
            }
        }
        if !changed {
            break;
        }
    }
}

/// Runs the pruned strategy to its fixpoint; it reaches the same
/// board as every other strategy.
pub fn solve_pruning(minefield: &mut Minefield)
    requires
        old(minefield)@.wf(),
        crate::minefield::count_hidden_cells(old(minefield)@.cells) <= 255,
    ensures
        final(minefield)@ == crate::solver::solve_result(old(minefield)@, true),
{
    loop
        invariant
            minefield@.wf(),
            crate::minefield::count_hidden_cells(minefield@.cells) <= 255,
            crate::solver::solve_result(minefield@, true) == crate::solver::solve_result(
                old(minefield)@,
                true,
            ),
        ensures
            minefield@ == crate::solver::solve_result(old(minefield)@, true),
        decreases crate::minefield::count_hidden_cells(minefield@.cells),
    {
        let ghost pre = minefield@;
        proof {
            crate::solver::lemma_hidden_list_le_count(pre, true);
            crate::solver::lemma_count_hidden_nonneg(pre.cells);
        }
        let changed = solve_step_pruning(minefield);
        proof {
            crate::solver::lemma_step_shape(pre, true);
            crate::solver::lemma_step_hidden(pre, true);
            crate::solver::lemma_count_hidden_nonneg(minefield@.cells);
            if changed {
                assert(crate::solver::solve_result(pre, true)
                    == crate::solver::solve_result(minefield@, true));
            } else {
                crate::solver::lemma_solve_step_idempotent(pre, true);
                assert(minefield@ == pre);
                assert(crate::solver::solve_result(minefield@, true) == minefield@);
            }
        }
        if !changed {
            break;
        }
    }
}

/// Whether `(x, y)` lies inside the chunk window.
pub open spec fn in_chuck(x: int, y: int, cx0: int, cx1: int, cy0: int, cy1: int) -> bool {
    cx0 <= x < cx1 && cy0 <= y < cy1
}

/// Whether `(x, y)` lies on the one-cell ring around the chunk window.
pub open spec fn chuck_edge(x: int, y: int, cx0: int, cx1: int, cy0: int, cy1: int) -> bool {
    x + 1 == cx0 || x == cx1 || y + 1 == cy0 || y == cy1
}

/// Whether hidden cell `i` joins a chunk's variables: hidden, inside the
/// window or on its ring, and next to an opened cell.
pub open spec fn chuck_sel(b: BoardView, i: int, cx0: int, cx1: int, cy0: int, cy1: int) -> bool {
    &&& b.cells[i].state is Hidden
    &&& (in_chuck(b.x_of(i), b.y_of(i), cx0, cx1, cy0, cy1) || chuck_edge(
        b.x_of(i),
        b.y_of(i),
        cx0,
        cx1,
        cy0,
        cy1,
    ))
    &&& crate::system::has_open_neighbor(b, i)
}

pub open spec fn chuck_hidden_prefix(
    b: BoardView,
    n: int,
    cx0: int,
    cx1: int,
    cy0: int,
    cy1: int,
) -> Seq<int>
    decreases n,
{
    if n <= 0 {
        Seq::empty()
    } else {
        chuck_hidden_prefix(b, n - 1, cx0, cx1, cy0, cy1) + if chuck_sel(
            b,
            n - 1,
            cx0,
            cx1,
            cy0,
            cy1,
        ) {
            seq![n - 1]
        } else {
            Seq::empty()
        }
    }
}

pub open spec fn chuck_hidden_list(b: BoardView, cx0: int, cx1: int, cy0: int, cy1: int) -> Seq<
    int,
> {
    chuck_hidden_prefix(b, b.cells.len() as int, cx0, cx1, cy0, cy1)
}

/// Whether cell `i` contributes a row to a chunk's system: opened, with
/// adjacent mines, inside the window.
pub open spec fn chuck_emits(b: BoardView, i: int, cx0: int, cx1: int, cy0: int, cy1: int) -> bool {
    crate::system::emits_row(b, i) && in_chuck(b.x_of(i), b.y_of(i), cx0, cx1, cy0, cy1)
}

pub open spec fn chuck_rows_prefix(
    b: BoardView,
    hidden: Seq<int>,
    n: int,
    cx0: int,
    cx1: int,
    cy0: int,
    cy1: int,
) -> Seq<Row>
    decreases n,
{
    if n <= 0 {
        Seq::empty()
    } else {
        chuck_rows_prefix(b, hidden, n - 1, cx0, cx1, cy0, cy1) + if chuck_emits(
            b,
            n - 1,
            cx0,
            cx1,
            cy0,
            cy1,
        ) {
            seq![crate::system::row_of(b, hidden, n - 1)]
        } else {
            Seq::empty()
        }
    }
}

pub open spec fn chuck_rows(b: BoardView, hidden: Seq<int>, cx0: int, cx1: int, cy0: int, cy1: int) -> Seq<Row> {
    chuck_rows_prefix(b, hidden, b.cells.len() as int, cx0, cx1, cy0, cy1)
}

/// One chunk's deduction round: the forced deductions of its local
/// system, or nothing when the chunk has too many variables to pack.
pub open spec fn chuck_step_result(b: BoardView, cx0: int, cx1: int, cy0: int, cy1: int) -> BoardView {
    let hidden = chuck_hidden_list(b, cx0, cx1, cy0, cy1);
    if hidden.len() > 64 {
        b
    } else {
        apply_deds(
            b,
            hidden,
            solution_set(chuck_rows(b, hidden, cx0, cx1, cy0, cy1), hidden.len() as int),
            0,
        )
    }
}

pub open spec fn chuck_step_changed(b: BoardView, cx0: int, cx1: int, cy0: int, cy1: int) -> bool {
    let hidden = chuck_hidden_list(b, cx0, cx1, cy0, cy1);
    if hidden.len() > 64 {
        false
    } else {
        any_forced(
            solution_set(chuck_rows(b, hidden, cx0, cx1, cy0, cy1), hidden.len() as int),
            hidden.len() as int,
        )
    }
}

/// Every entry of the chunk's hidden list is an in-range hidden cell.
proof fn lemma_chuck_hidden_entries(b: BoardView, n: int, cx0: int, cx1: int, cy0: int, cy1: int)
    ensures
        forall|k: int|
            0 <= k < chuck_hidden_prefix(b, n, cx0, cx1, cy0, cy1).len() ==> {
                &&& 0 <= #[trigger] chuck_hidden_prefix(b, n, cx0, cx1, cy0, cy1)[k] < n
                &&& chuck_sel(b, chuck_hidden_prefix(b, n, cx0, cx1, cy0, cy1)[k], cx0, cx1, cy0, cy1)
            },
    decreases n,
{
    if n > 0 {
        lemma_chuck_hidden_entries(b, n - 1, cx0, cx1, cy0, cy1);
        let prev = chuck_hidden_prefix(b, n - 1, cx0, cx1, cy0, cy1);
        let cur = chuck_hidden_prefix(b, n, cx0, cx1, cy0, cy1);
        assert forall|k: int| 0 <= k < cur.len() implies {
            &&& 0 <= #[trigger] cur[k] < n
            &&& chuck_sel(b, cur[k], cx0, cx1, cy0, cy1)
        } by {
            if k < prev.len() {
                assert(cur[k] == prev[k]);
            } else {
                assert(cur[k] == n - 1);
            }
        }
    }
}

/// A prefix of the board contributes a prefix of a chunk's rows.
proof fn lemma_chuck_rows_monotone(
    b: BoardView,
    hidden: Seq<int>,
    n: int,
    m: int,
    cx0: int,
    cx1: int,
    cy0: int,
    cy1: int,
)
    requires
        0 <= n <= m,
    ensures
        chuck_rows_prefix(b, hidden, n, cx0, cx1, cy0, cy1).len() <= chuck_rows_prefix(
            b,
            hidden,
            m,
            cx0,
            cx1,
            cy0,
            cy1,
        ).len(),
        forall|r: int|
            0 <= r < chuck_rows_prefix(b, hidden, n, cx0, cx1, cy0, cy1).len()
                ==> #[trigger] chuck_rows_prefix(b, hidden, m, cx0, cx1, cy0, cy1)[r]
                == chuck_rows_prefix(b, hidden, n, cx0, cx1, cy0, cy1)[r],
    decreases m - n,
{
    if n < m {
        lemma_chuck_rows_monotone(b, hidden, n, m - 1, cx0, cx1, cy0, cy1);
    }
}

/// A chunk row demanding fewer than zero mines leaves the chunk system
/// without solutions.
proof fn lemma_chuck_bad_row_unsat(
    b: BoardView,
    hidden: Seq<int>,
    i: int,
    n: int,
    cx0: int,
    cx1: int,
    cy0: int,
    cy1: int,
)
    requires
        0 <= i < b.cells.len(),
        chuck_emits(b, i, cx0, cx1, cy0, cy1),
        crate::system::row_of(b, hidden, i).rhs < 0,
    ensures
        forall|a: Seq<bool>|
            a.len() == n ==> !sat_all(a, chuck_rows(b, hidden, cx0, cx1, cy0, cy1)),
{
    let sys = chuck_rows(b, hidden, cx0, cx1, cy0, cy1);
    let pos = chuck_rows_prefix(b, hidden, i, cx0, cx1, cy0, cy1).len();
    lemma_chuck_rows_monotone(b, hidden, i + 1, b.cells.len() as int, cx0, cx1, cy0, cy1);
    assert(chuck_rows_prefix(b, hidden, i + 1, cx0, cx1, cy0, cy1) =~= chuck_rows_prefix(
        b,
        hidden,
        i,
        cx0,
        cx1,
        cy0,
        cy1,
    ) + seq![crate::system::row_of(b, hidden, i)]);
    assert(chuck_rows_prefix(b, hidden, i + 1, cx0, cx1, cy0, cy1)[pos as int]
        == crate::system::row_of(b, hidden, i));
    assert(sys[pos as int] == crate::system::row_of(b, hidden, i));
    assert forall|a: Seq<bool>| a.len() == n implies !sat_all(a, sys) by {
        lemma_weight_bounds(
            a,
            crate::system::row_of(b, hidden, i).mask,
            crate::system::row_of(b, hidden, i).mask.len() as int,
        );
        assert(!sat_row(a, sys[pos as int]));
    }
}

impl Minefield {
    /// The hidden cells a chunk window reasons about: those inside the
    /// window or on its one-cell ring, next to an opened cell.
    pub(crate) fn get_hidden_cells_in_chuck(
        &self,
        cx0: usize,
        cx1: usize,
        cy0: usize,
        cy1: usize,
    ) -> (r: Vec<usize>)
        requires
            self@.wf(),
        ensures
            lifted_idx(r@) == chuck_hidden_list(
                self@,
                cx0 as int,
                cx1 as int,
                cy0 as int,
                cy1 as int,
            ),
            forall|k: int| 0 <= k < r@.len() ==> r@[k] < self@.cells.len(),
    {
        let ghost gx0 = cx0 as int;
        let ghost gx1 = cx1 as int;
        let ghost gy0 = cy0 as int;
        let ghost gy1 = cy1 as int;
        let mut r: Vec<usize> = Vec::new();
        let mut i: usize = 0;
        proof {
            assert(lifted_idx(r@) =~= chuck_hidden_prefix(self@, 0, gx0, gx1, gy0, gy1));
        }
        while i < self.cells.len()
            invariant
                i <= self.cells@.len(),
                self@.wf(),
                gx0 == cx0 as int && gx1 == cx1 as int && gy0 == cy0 as int && gy1 == cy1 as int,
                lifted_idx(r@) == chuck_hidden_prefix(self@, i as int, gx0, gx1, gy0, gy1),
                forall|k: int| 0 <= k < r@.len() ==> r@[k] < self@.cells.len(),
            decreases self.cells@.len() - i,
        {
            if self.cells[i].state == CellState::Hidden {
                proof {
                    lemma_coords_of_index(self@, i as int);
                }
                let x = i % self.width;
                let y = i / self.width;
                let inside = cx0 <= x && x < cx1 && cy0 <= y && y < cy1;
                let edge = x + 1 == cx0 || x == cx1 || y + 1 == cy0 || y == cy1;
                if (inside || edge) && self.neighboring_open(x, y) {
                    r.push(i);
                }
            }
            proof {
                assert(lifted_idx(r@) =~= chuck_hidden_prefix(self@, i + 1, gx0, gx1, gy0, gy1));
            }
            i = i + 1;
        }
        r
    }

    /// Builds one chunk window's constraint system: a row for every
    /// opened numbered cell inside the window, over the chunk's hidden
    /// cells.  Returns nothing when the window is inconsistently flagged,
    /// in which case its system has no solutions anyway.
    #[verifier::rlimit(100)]
    #[verifier::spinoff_prover]
    pub fn create_chuck_system(
        &self,
        hidden_cells: &Vec<usize>,
        cx0: usize,
        cx1: usize,
        cy0: usize,
        cy1: usize,
    ) -> (r: Option<(DenseMatrix, Vec<u8>)>)
        requires
            self@.wf(),
            hidden_cells@.len() <= 255,
            forall|k: int| 0 <= k < hidden_cells@.len() ==> hidden_cells@[k] < self@.cells.len(),
        ensures
            match r {
                Some(ax) => mat_width(ax.0) == hidden_cells@.len() as int && corresponds_vec(
                    mat_rows(ax.0),
                    ax.1@,
                    chuck_rows(
                        self@,
                        lifted_idx(hidden_cells@),
                        cx0 as int,
                        cx1 as int,
                        cy0 as int,
                        cy1 as int,
                    ),
                    hidden_cells@.len() as int,
                ),
                None => forall|a: Seq<bool>|
                    a.len() == hidden_cells@.len() ==> !sat_all(
                        a,
                        chuck_rows(
                            self@,
                            lifted_idx(hidden_cells@),
                            cx0 as int,
                            cx1 as int,
                            cy0 as int,
                            cy1 as int,
                        ),
                    ),
            },
    {
        let ghost hidden = lifted_idx(hidden_cells@);
        let ghost gx0 = cx0 as int;
        let ghost gx1 = cx1 as int;
        let ghost gy0 = cy0 as int;
        let ghost gy1 = cy1 as int;
        let nvars = hidden_cells.len();
        let mut entries: Vec<u8> = Vec::new();
        let mut rhs: Vec<u8> = Vec::new();
        let mut nrows: usize = 0;
        let mut i: usize = 0;
        while i < self.cells.len()
            invariant
                i <= self.cells@.len(),
                self@.wf(),
                nvars == hidden_cells@.len() <= 255,
                hidden == lifted_idx(hidden_cells@),
                gx0 == cx0 as int && gx1 == cx1 as int && gy0 == cy0 as int && gy1 == cy1 as int,
                forall|k: int| 0 <= k < hidden_cells@.len() ==> hidden_cells@[k]
                    < self@.cells.len(),
                nrows == chuck_rows_prefix(self@, hidden, i as int, gx0, gx1, gy0, gy1).len(),
                rhs@.len() == nrows,
                entries@.len() == nrows * nvars,
                nrows <= i,
                forall|r2: int|
                    0 <= r2 < nrows ==> {
                        &&& binary(
                            #[trigger] entries@.subrange(r2 * nvars, r2 * nvars + nvars),
                        )
                        &&& chuck_rows_prefix(self@, hidden, i as int, gx0, gx1, gy0, gy1)[
                            r2
                        ].mask == bools8(entries@.subrange(r2 * nvars, r2 * nvars + nvars))
                        &&& chuck_rows_prefix(self@, hidden, i as int, gx0, gx1, gy0, gy1)[
                            r2
                        ].rhs == rhs@[r2] as int
                    },
            decreases self.cells@.len() - i,
        {
            let ghost rows_pre = chuck_rows_prefix(self@, hidden, i as int, gx0, gx1, gy0, gy1);
            let mut emitted = false;
            if self.cells[i].state == CellState::Opened {
                proof {
                    lemma_coords_of_index(self@, i as int);
                }
                let x = i % self.width;
                let y = i / self.width;
                if cx0 <= x && x < cx1 && cy0 <= y && y < cy1 {
                    let mines = self.count_mines(x, y);
                    if mines != 0 {
                        emitted = true;
                        let flags = self.count_flags(x, y);
                        if flags > mines {
                            proof {
                                lemma_chuck_bad_row_unsat(
                                    self@,
                                    hidden,
                                    i as int,
                                    nvars as int,
                                    gx0,
                                    gx1,
                                    gy0,
                                    gy1,
                                );
                            }
                            return None;
                        }
                        let ghost entries_pre = entries@;
                        self.build_row_entries(hidden_cells, x, y, &mut entries);
                        let ghost rhs_pre_v = rhs@;
                        rhs.push((mines - flags) as u8);
                        nrows = nrows + 1;
                        proof {
                            lemma_chunk_arith(nrows - 1, nvars as int);
                            let rows1 = chuck_rows_prefix(
                                self@,
                                hidden,
                                i + 1,
                                gx0,
                                gx1,
                                gy0,
                                gy1,
                            );
                            assert(rows1 =~= rows_pre + seq![
                                crate::system::row_of(self@, hidden, i as int),
                            ]);
                            let newrow = entries@.subrange(
                                entries_pre.len() as int,
                                entries@.len() as int,
                            );
                            assert forall|j: int| 0 <= j < nvars implies newrow[j] == (if near(
                                self@,
                                hidden[j],
                                x as int,
                                y as int,
                            ) {
                                1u8
                            } else {
                                0u8
                            }) by {
                                assert(newrow[j] == entries@[entries_pre.len() + j]);
                            }
                            assert(bools8(newrow) =~= crate::system::row_mask(
                                self@,
                                hidden,
                                x as int,
                                y as int,
                            ));
                            assert(binary(newrow));
                            assert(rhs@ == rhs_pre_v.push(rhs@.last()));
                            assert forall|r2: int|
                                0 <= r2 < rows_pre.len() implies #[trigger] rows1[r2]
                                == rows_pre[r2] by {}
                            lemma_rows_extend(
                                entries_pre,
                                entries@,
                                rhs_pre_v,
                                rhs@,
                                rows_pre,
                                rows1,
                                nvars as int,
                            );
                        }
                    }
                }
            }
            if !emitted {
                proof {
                    assert(chuck_rows_prefix(self@, hidden, i + 1, gx0, gx1, gy0, gy1)
                        =~= rows_pre);
                }
            }
            i = i + 1;
        }
        let ghost sys = chuck_rows(self@, hidden, gx0, gx1, gy0, gy1);
        let a2 = dmatrix_from_rows(nrows, nvars, &entries);
        proof {
            assert forall|r2: int| 0 <= r2 < sys.len() implies {
                &&& (#[trigger] mat_rows(a2)[r2]).len() == nvars
                &&& binary(mat_rows(a2)[r2])
                &&& sys[r2].mask == bools8(mat_rows(a2)[r2])
                &&& sys[r2].rhs == rhs@[r2] as int
            } by {
                lemma_chunk_in_prefix(r2, sys.len() as int, nvars as int);
                assert(mat_rows(a2)[r2] == entries@.subrange(r2 * nvars, r2 * nvars + nvars));
            }
            assert(corresponds_vec(mat_rows(a2), rhs@, sys, nvars as int));
        }
        Some((a2, rhs))
    }

    /// Appends one row of 0/1 coefficients for the hidden cells near
    /// `(x, y)`.
    fn build_row_entries(
        &self,
        hidden_cells: &Vec<usize>,
        x: usize,
        y: usize,
        entries: &mut Vec<u8>,
    )
        requires
            self@.wf(),
            forall|k: int| 0 <= k < hidden_cells@.len() ==> hidden_cells@[k] < self@.cells.len(),
        ensures
            final(entries)@.len() == old(entries)@.len() + hidden_cells@.len(),
            final(entries)@.subrange(0, old(entries)@.len() as int) == old(entries)@,
            forall|j: int|
                0 <= j < hidden_cells@.len() ==> #[trigger] final(entries)@[old(
                    entries,
                )@.len() + j] == (if near(
                    self@,
                    lifted_idx(hidden_cells@)[j],
                    x as int,
                    y as int,
                ) {
                    1u8
                } else {
                    0u8
                }),
    {
        let ghost pre = entries@;
        let ghost hidden = lifted_idx(hidden_cells@);
        let mut k: usize = 0;
        while k < hidden_cells.len()
            invariant
                k <= hidden_cells@.len(),
                self@.wf(),
                pre == old(entries)@,
                hidden == lifted_idx(hidden_cells@),
                forall|j: int| 0 <= j < hidden_cells@.len() ==> hidden_cells@[j]
                    < self@.cells.len(),
                entries@.len() == pre.len() + k,
                entries@.subrange(0, pre.len() as int) == pre,
                forall|j: int|
                    0 <= j < k ==> #[trigger] entries@[pre.len() + j] == (if near(
                        self@,
                        hidden[j],
                        x as int,
                        y as int,
                    ) {
                        1u8
                    } else {
                        0u8
                    }),
            decreases hidden_cells@.len() - k,
        {
            let hi = hidden_cells[k];
            proof {
                lemma_coords_of_index(self@, hi as int);
            }
            let hx = hi % self.width;
            let hy = hi / self.width;
            let dx = if hx >= x {
                hx - x
            } else {
                x - hx
            };
            let dy = if hy >= y {
                hy - y
            } else {
                y - hy
            };
            let v: u8 = if dx <= 1 && dy <= 1 {
                1
            } else {
                0
            };
            entries.push(v);
            proof {
                assert(entries@.subrange(0, pre.len() as int) =~= pre);
            }
            k = k + 1;
        }
    }
}

/// One chunk window's deduction round.
pub fn solve_chuck(
    minefield: &mut Minefield,
    cx0: usize,
    cx1: usize,
    cy0: usize,
    cy1: usize,
) -> (changed: bool)
    requires
        old(minefield)@.wf(),
    ensures
        final(minefield)@ == chuck_step_result(
            old(minefield)@,
            cx0 as int,
            cx1 as int,
            cy0 as int,
            cy1 as int,
        ),
        changed == chuck_step_changed(
            old(minefield)@,
            cx0 as int,
            cx1 as int,
            cy0 as int,
            cy1 as int,
        ),
{
    let ghost o = old(minefield)@;
    let ghost gx0 = cx0 as int;
    let ghost gx1 = cx1 as int;
    let ghost gy0 = cy0 as int;
    let ghost gy1 = cy1 as int;
    let hidden_cells = minefield.get_hidden_cells_in_chuck(cx0, cx1, cy0, cy1);
    let ghost hidden = lifted_idx(hidden_cells@);
    let ghost nv = hidden_cells@.len() as int;
    let ghost sys = chuck_rows(o, hidden, gx0, gx1, gy0, gy1);
    let ghost sset = solution_set(sys, nv);
    if hidden_cells.len() > 64 {
        return false;
    }
    let system = minefield.create_chuck_system(&hidden_cells, cx0, cx1, cy0, cy1);
    match system {
        Option::None => {
            proof {
                assert forall|a: Seq<bool>| !sset.contains(a) by {
                    if a.len() == nv && sat_all(a, sys) {
                        assert(false);
                    }
                }
                lemma_no_solutions_no_change(o, hidden, sset, nv);
                assert(apply_deds(o, hidden, sset, 0) == o);
            }
            false
        },
        Option::Some(ax) => {
            let (a2, x2) = ax;
            let mut b0: Vec<u8> = Vec::new();
            let mut k: usize = 0;
            while k < hidden_cells.len()
                invariant
                    k <= hidden_cells@.len(),
                    b0@.len() == k,
                    forall|j: int| 0 <= j < k ==> b0@[j] == 0u8,
                decreases hidden_cells@.len() - k,
            {
                b0.push(0);
                k = k + 1;
            }
            let mut solutions: Vec<Vec<u8>> = Vec::new();
            find_solutions(&a2, &x2, &b0, 0, &mut solutions, Ghost(sys));
            proof {
                assert forall|a: Seq<bool>|
                    !sols_set_vec(Seq::<Vec<u8>>::empty(), nv).contains(a) by {
                    let empty_sols = Seq::<Vec<u8>>::empty();
                    if exists|k2: int|
                        0 <= k2 < empty_sols.len() && empty_sols[k2]@.len() == nv && bools8(
                            empty_sols[k2]@,
                        ) == a {
                        let k2 = choose|k2: int|
                            0 <= k2 < empty_sols.len() && empty_sols[k2]@.len() == nv && bools8(
                                empty_sols[k2]@,
                            ) == a;
                        assert(false);
                    }
                }
                assert(target_vec(sys, b0@, 0, nv) =~= sset);
                assert(sols_set_vec(solutions@, nv) =~= sset);
            }
            analyze_solutions(minefield, &hidden_cells, &solutions)
        },
    }
}

/// The chunk window start positions along one axis: every `step` cells,
/// as long as the start still lies on the board.
pub open spec fn window_starts(limit: int, step: int, from: int) -> Seq<int>
    decreases (if from <= limit {
        limit + 1 - from
    } else {
        0
    }),
{
    if step <= 0 || from > limit {
        Seq::empty()
    } else {
        seq![from] + window_starts(limit, step, from + step)
    }
}

/// All window corners, row by row.
pub open spec fn window_pairs(ys: Seq<int>, xs: Seq<int>) -> Seq<(int, int)>
    decreases ys.len(),
{
    if ys.len() == 0 {
        Seq::empty()
    } else {
        row_windows(ys[0], xs) + window_pairs(ys.drop_first(), xs)
    }
}

pub open spec fn row_windows(y: int, xs: Seq<int>) -> Seq<(int, int)>
    decreases xs.len(),
{
    if xs.len() == 0 {
        Seq::empty()
    } else {
        seq![(xs[0], y)] + row_windows(y, xs.drop_first())
    }
}

/// The window corners one chunking pass visits on this board.
pub open spec fn board_windows(b: BoardView, size: int, overlap: int) -> Seq<(int, int)> {
    window_pairs(
        window_starts(b.height as int, size - overlap, 0),
        window_starts(b.width as int, size - overlap, 0),
    )
}

/// The board after the chunk windows from position `k` on.
pub open spec fn apply_windows(b: BoardView, ws: Seq<(int, int)>, size: int, k: int) -> BoardView
    decreases ws.len() - k,
{
    if k < 0 || k >= ws.len() {
        b
    } else {
        apply_windows(
            chuck_step_result(b, ws[k].0, ws[k].0 + size, ws[k].1, ws[k].1 + size),
            ws,
            size,
            k + 1,
        )
    }
}

/// Whether any window from position `k` on finds a deduction.
pub open spec fn windows_changed(b: BoardView, ws: Seq<(int, int)>, size: int, k: int) -> bool
    decreases ws.len() - k,
{
    if k < 0 || k >= ws.len() {
        false
    } else {
        chuck_step_changed(b, ws[k].0, ws[k].0 + size, ws[k].1, ws[k].1 + size)
            || windows_changed(
            chuck_step_result(b, ws[k].0, ws[k].0 + size, ws[k].1, ws[k].1 + size),
            ws,
            size,
            k + 1,
        )
    }
}

/// One full chunking pass over the board.
pub open spec fn chucking_pass_result(b: BoardView, size: int, overlap: int) -> BoardView {
    apply_windows(b, board_windows(b, size, overlap), size, 0)
}

pub open spec fn chucking_pass_changed(b: BoardView, size: int, overlap: int) -> bool {
    windows_changed(b, board_windows(b, size, overlap), size, 0)
}

/// A chunk round keeps the board's shape.
proof fn lemma_chuck_step_shape(b: BoardView, cx0: int, cx1: int, cy0: int, cy1: int)
    ensures
        chuck_step_result(b, cx0, cx1, cy0, cy1).width == b.width,
        chuck_step_result(b, cx0, cx1, cy0, cy1).height == b.height,
        chuck_step_result(b, cx0, cx1, cy0, cy1).cells.len() == b.cells.len(),
{
    let hidden = chuck_hidden_list(b, cx0, cx1, cy0, cy1);
    if hidden.len() <= 64 {
        crate::solver::lemma_apply_deds_shape(
            b,
            hidden,
            solution_set(chuck_rows(b, hidden, cx0, cx1, cy0, cy1), hidden.len() as int),
            0,
        );
    }
}

/// A chunk round only uncovers cells, strictly so when it changes
/// anything.
proof fn lemma_chuck_step_hidden(b: BoardView, cx0: int, cx1: int, cy0: int, cy1: int)
    requires
        b.wf(),
    ensures
        count_hidden_cells(chuck_step_result(b, cx0, cx1, cy0, cy1).cells) <= count_hidden_cells(
            b.cells,
        ),
        chuck_step_changed(b, cx0, cx1, cy0, cy1) ==> count_hidden_cells(
            chuck_step_result(b, cx0, cx1, cy0, cy1).cells,
        ) < count_hidden_cells(b.cells),
        !chuck_step_changed(b, cx0, cx1, cy0, cy1) ==> chuck_step_result(b, cx0, cx1, cy0, cy1)
            == b,
{
    let hidden = chuck_hidden_list(b, cx0, cx1, cy0, cy1);
    if hidden.len() <= 64 {
        let s = solution_set(chuck_rows(b, hidden, cx0, cx1, cy0, cy1), hidden.len() as int);
        crate::solver::lemma_apply_deds_hidden_le(b, hidden, s, 0);
        if chuck_step_changed(b, cx0, cx1, cy0, cy1) {
            lemma_chuck_hidden_entries(b, b.cells.len() as int, cx0, cx1, cy0, cy1);
            assert forall|k: int| 0 <= k < hidden.len() implies 0 <= #[trigger] hidden[k]
                < b.cells.len() && b.cells[hidden[k]].state is Hidden by {
                assert(chuck_sel(b, hidden[k], cx0, cx1, cy0, cy1));
            }
            crate::solver::lemma_apply_deds_hidden_lt(b, hidden, s, 0);
        } else {
            assert forall|j: int| 0 <= j < hidden.len() implies !forced(s, j, true) && !forced(
                s,
                j,
                false,
            ) by {
                if forced(s, j, true) || forced(s, j, false) {
                    assert(any_forced(s, hidden.len() as int));
                }
            }
            crate::solver::lemma_apply_deds_id(b, hidden, s, 0);
        }
    }
}

/// A chunking pass keeps the board's shape, only uncovers cells, does so
/// strictly when it changes anything, and does nothing when it does not.
proof fn lemma_windows_facts(b: BoardView, ws: Seq<(int, int)>, size: int, k: int)
    requires
        b.wf(),
    ensures
        apply_windows(b, ws, size, k).width == b.width,
        apply_windows(b, ws, size, k).height == b.height,
        apply_windows(b, ws, size, k).cells.len() == b.cells.len(),
        count_hidden_cells(apply_windows(b, ws, size, k).cells) <= count_hidden_cells(b.cells),
        windows_changed(b, ws, size, k) ==> count_hidden_cells(
            apply_windows(b, ws, size, k).cells,
        ) < count_hidden_cells(b.cells),
        !windows_changed(b, ws, size, k) ==> apply_windows(b, ws, size, k) == b,
    decreases ws.len() - k,
{
    if 0 <= k < ws.len() {
        let b1 = chuck_step_result(b, ws[k].0, ws[k].0 + size, ws[k].1, ws[k].1 + size);
        lemma_chuck_step_shape(b, ws[k].0, ws[k].0 + size, ws[k].1, ws[k].1 + size);
        lemma_chuck_step_hidden(b, ws[k].0, ws[k].0 + size, ws[k].1, ws[k].1 + size);
        lemma_windows_facts(b1, ws, size, k + 1);
    }
}

/// Running chunking passes to their fixpoint.
pub open spec fn chucking_result(b: BoardView, size: int, overlap: int) -> BoardView
    decreases count_hidden_cells(b.cells),
    when b.wf()
    via chucking_result_decreases
{
    if !chucking_pass_changed(b, size, overlap) {
        b
    } else {
        chucking_result(chucking_pass_result(b, size, overlap), size, overlap)
    }
}

#[via_fn]
proof fn chucking_result_decreases(b: BoardView, size: int, overlap: int) {
    if chucking_pass_changed(b, size, overlap) {
        lemma_windows_facts(b, board_windows(b, size, overlap), size, 0);
        crate::solver::lemma_count_hidden_nonneg(
            chucking_pass_result(b, size, overlap).cells,
        );
    }
}

/// Window corner pairs as mathematical integers.
pub open spec fn lifted_pairs(v: Seq<(usize, usize)>) -> Seq<(int, int)> {
    v.map_values(|p: (usize, usize)| (p.0 as int, p.1 as int))
}

/// One chunking pass: every window of the given size, overlapping its
/// neighbors by the given amount, gets one deduction round.
pub fn solve_step_chucking(
    minefield: &mut Minefield,
    chuck_size: usize,
    chuck_overlap: usize,
) -> (changed: bool)
    requires
        old(minefield)@.wf(),
        chuck_overlap < chuck_size,
        old(minefield).width + chuck_size <= usize::MAX,
        old(minefield).height + chuck_size <= usize::MAX,
    ensures
        final(minefield)@ == chucking_pass_result(
            old(minefield)@,
            chuck_size as int,
            chuck_overlap as int,
        ),
        changed == chucking_pass_changed(
            old(minefield)@,
            chuck_size as int,
            chuck_overlap as int,
        ),
{
    let ghost o = old(minefield)@;
    let ghost size = chuck_size as int;
    let step = chuck_size - chuck_overlap;
    let width = minefield.width;
    let height = minefield.height;

    let mut xs: Vec<usize> = Vec::new();
    let mut sx: usize = 0;
    proof {
        assert(lifted_idx(xs@) =~= Seq::<int>::empty());
    }
    while sx <= width
        invariant
            o.width == width,
            step == chuck_size - chuck_overlap >= 1,
            width + chuck_size <= usize::MAX,
            sx <= width + step,
            forall|t: int| 0 <= t < xs@.len() ==> #[trigger] xs@[t] <= width,
            window_starts(width as int, step as int, 0) == lifted_idx(xs@) + window_starts(
                width as int,
                step as int,
                sx as int,
            ),
        decreases width + step - sx,
    {
        xs.push(sx);
        proof {
            assert(window_starts(width as int, step as int, sx as int) == seq![sx as int]
                + window_starts(width as int, step as int, sx + step));
            assert(lifted_idx(xs@) =~= lifted_idx(xs@.drop_last()) + seq![sx as int]);
            assert(lifted_idx(xs@) + window_starts(width as int, step as int, sx + step)
                =~= lifted_idx(xs@.drop_last()) + window_starts(
                width as int,
                step as int,
                sx as int,
            ));
        }
        sx = sx + step;
    }
    proof {
        assert(window_starts(width as int, step as int, sx as int) =~= Seq::<int>::empty());
        assert(lifted_idx(xs@) + Seq::<int>::empty() =~= lifted_idx(xs@));
        assert(window_starts(width as int, step as int, 0) == lifted_idx(xs@));
    }

    let mut ys: Vec<usize> = Vec::new();
    let mut sy: usize = 0;
    proof {
        assert(lifted_idx(ys@) =~= Seq::<int>::empty());
    }
    while sy <= height
        invariant
            o.height == height,
            step == chuck_size - chuck_overlap >= 1,
            height + chuck_size <= usize::MAX,
            sy <= height + step,
            forall|t: int| 0 <= t < ys@.len() ==> #[trigger] ys@[t] <= height,
            window_starts(height as int, step as int, 0) == lifted_idx(ys@) + window_starts(
                height as int,
                step as int,
                sy as int,
            ),
        decreases height + step - sy,
    {
        ys.push(sy);
        proof {
            assert(window_starts(height as int, step as int, sy as int) == seq![sy as int]
                + window_starts(height as int, step as int, sy + step));
            assert(lifted_idx(ys@) =~= lifted_idx(ys@.drop_last()) + seq![sy as int]);
            assert(lifted_idx(ys@) + window_starts(height as int, step as int, sy + step)
                =~= lifted_idx(ys@.drop_last()) + window_starts(
                height as int,
                step as int,
                sy as int,
            ));
        }
        sy = sy + step;
    }
    proof {
        assert(window_starts(height as int, step as int, sy as int) =~= Seq::<int>::empty());
        assert(lifted_idx(ys@) + Seq::<int>::empty() =~= lifted_idx(ys@));
        assert(window_starts(height as int, step as int, 0) == lifted_idx(ys@));
    }

    let mut pairs: Vec<(usize, usize)> = Vec::new();
    let mut iy: usize = 0;
    let ghost lys = lifted_idx(ys@);
    let ghost lxs = lifted_idx(xs@);
    proof {
        assert(lys.skip(0) =~= lys);
        assert(lifted_pairs(pairs@) =~= Seq::<(int, int)>::empty());
    }
    while iy < ys.len()
        invariant
            iy <= ys@.len(),
            lys == lifted_idx(ys@),
            lxs == lifted_idx(xs@),
            o.width == width,
            o.height == height,
            forall|t: int| 0 <= t < xs@.len() ==> #[trigger] xs@[t] <= width,
            forall|t: int| 0 <= t < ys@.len() ==> #[trigger] ys@[t] <= height,
            forall|t: int| 0 <= t < pairs@.len() ==> (#[trigger] pairs@[t]).0 <= width
                && pairs@[t].1 <= height,
            window_pairs(lys, lxs) == lifted_pairs(pairs@) + window_pairs(
                lys.skip(iy as int),
                lxs,
            ),
        decreases ys@.len() - iy,
    {
        let y = ys[iy];
        let mut ix: usize = 0;
        proof {
            assert(lys.skip(iy as int)[0] == y as int);
            assert(lys.skip(iy as int).drop_first() =~= lys.skip(iy + 1));
            assert(window_pairs(lys.skip(iy as int), lxs) == row_windows(y as int, lxs)
                + window_pairs(lys.skip(iy + 1), lxs));
            assert(lxs.skip(0) =~= lxs);
        }
        while ix < xs.len()
            invariant
                ix <= xs@.len(),
                iy < ys@.len(),
                y == ys@[iy as int],
                y <= height,
                lys == lifted_idx(ys@),
                lxs == lifted_idx(xs@),
                forall|t: int| 0 <= t < xs@.len() ==> #[trigger] xs@[t] <= width,
                forall|t: int| 0 <= t < pairs@.len() ==> (#[trigger] pairs@[t]).0 <= width
                    && pairs@[t].1 <= height,
                window_pairs(lys, lxs) == lifted_pairs(pairs@) + row_windows(
                    y as int,
                    lxs.skip(ix as int),
                ) + window_pairs(lys.skip(iy + 1), lxs),
            decreases xs@.len() - ix,
        {
            let x = xs[ix];
            pairs.push((x, y));
            proof {
                assert(lxs.skip(ix as int)[0] == x as int);
                assert(lxs.skip(ix as int).drop_first() =~= lxs.skip(ix + 1));
                assert(row_windows(y as int, lxs.skip(ix as int)) == seq![(x as int, y as int)]
                    + row_windows(y as int, lxs.skip(ix + 1)));
                assert(lifted_pairs(pairs@) =~= lifted_pairs(pairs@.drop_last()) + seq![
                    (x as int, y as int),
                ]);
                assert(lifted_pairs(pairs@) + row_windows(y as int, lxs.skip(ix + 1))
                    =~= lifted_pairs(pairs@.drop_last()) + row_windows(
                    y as int,
                    lxs.skip(ix as int),
                ));
            }
            ix = ix + 1;
        }
        iy = iy + 1;
    }
    proof {
        assert(lys.skip(ys@.len() as int) =~= Seq::<int>::empty());
        assert(lifted_pairs(pairs@) + Seq::<(int, int)>::empty() =~= lifted_pairs(pairs@));
        assert(window_pairs(lys, lxs) == lifted_pairs(pairs@));
        assert(board_windows(o, size, chuck_overlap as int) == lifted_pairs(pairs@));
    }

    let ghost ws = lifted_pairs(pairs@);
    let mut changed = false;
    let mut k: usize = 0;
    while k < pairs.len()
        invariant
            k <= pairs@.len(),
            ws == lifted_pairs(pairs@),
            o.wf(),
            minefield@.wf(),
            minefield@.width == o.width,
            minefield@.height == o.height,
            minefield@.cells.len() == o.cells.len(),
            size == chuck_size as int,
            o.width + chuck_size <= usize::MAX,
            o.height + chuck_size <= usize::MAX,
            forall|t: int| 0 <= t < pairs@.len() ==> (#[trigger] pairs@[t]).0 <= width
                && pairs@[t].1 <= height,
            width == o.width,
            height == o.height,
            width + chuck_size <= usize::MAX,
            height + chuck_size <= usize::MAX,
            apply_windows(o, ws, size, 0) == apply_windows(minefield@, ws, size, k as int),
            (changed || windows_changed(minefield@, ws, size, k as int)) == windows_changed(
                o,
                ws,
                size,
                0,
            ),
        decreases pairs@.len() - k,
    {
        let (px, py) = pairs[k];
        let ghost pre = minefield@;
        let c = solve_chuck(minefield, px, px + chuck_size, py, py + chuck_size);
        proof {
            assert(ws[k as int] == (px as int, py as int));
            assert(minefield@ == chuck_step_result(
                pre,
                ws[k as int].0,
                ws[k as int].0 + size,
                ws[k as int].1,
                ws[k as int].1 + size,
            ));
            lemma_chuck_step_shape(
                pre,
                ws[k as int].0,
                ws[k as int].0 + size,
                ws[k as int].1,
                ws[k as int].1 + size,
            );
        }
        changed = changed || c;
        k = k + 1;
    }
    proof {
        assert(apply_windows(minefield@, ws, size, pairs@.len() as int) == minefield@);
        assert(!windows_changed(minefield@, ws, size, pairs@.len() as int));
    }
    changed
}

/// Runs chunking passes until none of the windows finds a deduction.
pub fn solve_chucking(minefield: &mut Minefield, chuck_size: usize, chuck_overlap: usize)
    requires
        old(minefield)@.wf(),
        chuck_overlap < chuck_size,
        old(minefield).width + chuck_size <= usize::MAX,
        old(minefield).height + chuck_size <= usize::MAX,
    ensures
        final(minefield)@ == chucking_result(
            old(minefield)@,
            chuck_size as int,
            chuck_overlap as int,
        ),
{
    let ghost size = chuck_size as int;
    let ghost ov = chuck_overlap as int;
    loop
        invariant
            minefield@.wf(),
            minefield@.width == old(minefield)@.width,
            minefield@.height == old(minefield)@.height,
            minefield@.cells.len() == old(minefield)@.cells.len(),
            minefield.width == old(minefield).width,
            minefield.height == old(minefield).height,
            chuck_overlap < chuck_size,
            old(minefield).width + chuck_size <= usize::MAX,
            old(minefield).height + chuck_size <= usize::MAX,
            size == chuck_size as int,
            ov == chuck_overlap as int,
            chucking_result(minefield@, size, ov) == chucking_result(old(minefield)@, size, ov),
        ensures
            minefield@ == chucking_result(old(minefield)@, size, ov),
        decreases count_hidden_cells(minefield@.cells),
    {
        let ghost pre = minefield@;
        proof {
            crate::solver::lemma_count_hidden_nonneg(pre.cells);
        }
        let changed = solve_step_chucking(minefield, chuck_size, chuck_overlap);
        proof {
            lemma_windows_facts(pre, board_windows(pre, size, ov), size, 0);
            crate::solver::lemma_count_hidden_nonneg(minefield@.cells);
            if changed {
                assert(chucking_result(pre, size, ov) == chucking_result(
                    minefield@,
                    size,
                    ov,
                ));
            } else {
                assert(minefield@ == pre);
                assert(chucking_result(minefield@, size, ov) == minefield@);
            }
        }
        if !changed {
            break;
        }
    }
}

} // verus!
