//! Operations on the covariance: blocks taken out, put in, added and removed.
//!
//! A list of runs (first row and length of each variable) stands for the rows
//! of a smaller matrix, one run after the other.

use vstd::prelude::*;

use crate::algebra::{entries, is, ring, symmetric_part, symmetrize, Ring};
use crate::arith::{apply_two, binary, of_two};
use crate::double::Double;
use crate::matrix::Matrix;
use crate::vio::estimates::{Estimates, InertialValues};
use crate::vio::landmark::Landmark;
use crate::vio::state::{
    camera_base, camera_stride, clone_runs, covered, feature_runs, initial_dim,
    lemma_chained_covers, lemma_head_chained, run_has, shifted_feature, shifted_run, tiles, Run,
    State, Variable,
};

verus! {

/// The number of rows before run `i` of a list.
pub open spec fn column(order: Seq<Run>, i: int) -> int
    decreases i,
{
    if i <= 0 {
        0
    } else {
        column(order, i - 1) + order[i - 1].1
    }
}

/// Whether every run of a list lies inside the first `n` rows.
pub open spec fn in_rows(order: Seq<Run>, n: int) -> bool {
    forall|i: int|
        0 <= i < order.len() ==> 0 <= (#[trigger] order[i]).0 && order[i].0 + order[i].1 <= n
}

/// The places of two runs in a list do not overlap.
pub proof fn lemma_column_monotonic(order: Seq<Run>, i: int, j: int)
    requires
        0 <= i <= j <= order.len(),
    ensures
        0 <= column(order, i) <= column(order, j),
        i < j ==> column(order, i) + order[i].1 <= column(order, j),
    decreases j,
{
    if i < j {
        lemma_column_monotonic(order, i, j - 1);
    } else if i > 0 {
        lemma_column_monotonic(order, i - 1, i - 1);
    }
}

/// The number of rows before run `i` of the list; past its end, of all of it.
pub fn hx_col(i: usize, x_order: &Vec<(i32, usize)>) -> (col: usize)
    requires
        column(
            x_order@,
            if i < x_order@.len() {
                i as int
            } else {
                x_order@.len() as int
            },
        ) <= usize::MAX,
    ensures
        col == column(
            x_order@,
            if i < x_order@.len() {
                i as int
            } else {
                x_order@.len() as int
            },
        ),
{
    let end: usize = if i < x_order.len() {
        i
    } else {
        x_order.len()
    };
    let mut sum: usize = 0;
    let mut k: usize = 0;
    while k < end
        invariant
            k <= end <= x_order@.len(),
            column(x_order@, end as int) <= usize::MAX,
            sum == column(x_order@, k as int),
        decreases end - k,
    {
        proof {
            lemma_column_monotonic(x_order@, k + 1, end as int);
        }
        sum += x_order[k].1;
        k += 1;
    }
    sum
}

/// Where each run of a list starts, and the length of the whole.
pub fn order_columns(order: &Vec<(i32, usize)>) -> (cols: (Vec<usize>, usize))
    requires
        column(order@, order@.len() as int) <= usize::MAX,
    ensures
        cols.0@.len() == order@.len(),
        forall|i: int| 0 <= i < order@.len() ==> #[trigger] cols.0@[i] == column(order@, i),
        cols.1 == column(order@, order@.len() as int),
{
    let mut starts: Vec<usize> = Vec::new();
    let mut sum: usize = 0;
    let mut k: usize = 0;
    while k < order.len()
        invariant
            k <= order@.len(),
            column(order@, order@.len() as int) <= usize::MAX,
            sum == column(order@, k as int),
            starts@.len() == k,
            forall|i: int| 0 <= i < k ==> #[trigger] starts@[i] == column(order@, i),
        decreases order@.len() - k,
    {
        proof {
            lemma_column_monotonic(order@, k + 1, order@.len() as int);
        }
        starts.push(sum);
        sum += order[k].1;
        k += 1;
    }
    (starts, sum)
}

/// Whether `small` holds, for each pair of runs, their block of `cov`.
pub open spec fn gathers(small: &Matrix, cov: &Matrix, order: Seq<Run>) -> bool {
    forall|a: int, b: int, x: int, y: int|
        0 <= a < order.len() && 0 <= b < order.len() && 0 <= x < order[a].1 && 0 <= y < order[b].1
            ==> #[trigger] gathered(small, order, a, b, x, y) == cov.at(
            order[a].0 + x,
            order[b].0 + y,
        )
}

/// The entry of `small` for row `x` of run `a` and row `y` of run `b`.
pub open spec fn gathered(small: &Matrix, order: Seq<Run>, a: int, b: int, x: int, y: int) -> Double {
    small.at(column(order, a) + x, column(order, b) + y)
}

/// The covariance of the listed variables alone.
pub fn get_marginal_covariance(state: &State, small_variables: &Vec<(i32, usize)>) -> (small: Matrix)
    requires
        state.cov.shaped(state.dim(), state.dim()),
        in_rows(small_variables@, state.dim()),
        column(small_variables@, small_variables@.len() as int) * column(
            small_variables@,
            small_variables@.len() as int,
        ) <= usize::MAX,
    ensures
        small.shaped(
            column(small_variables@, small_variables@.len() as int),
            column(small_variables@, small_variables@.len() as int),
        ),
        gathers(&small, &state.cov, small_variables@),
{
    let ghost order = small_variables@;
    let ghost total = column(order, order.len() as int);
    proof {
        lemma_column_monotonic(order, 0, order.len() as int);
        assert(total <= total * total) by (nonlinear_arith)
            requires
                total >= 0,
        ;
    }
    let (starts, size) = order_columns(small_variables);
    let mut small = Matrix::filled(size, size, Double::zero());
    let n: usize = small_variables.len();
    let mut a: usize = 0;
    while a < n
        invariant
            a <= n,
            n == order.len(),
            order == small_variables@,
            size == column(order, order.len() as int),
            size * size <= usize::MAX,
            starts@.len() == n,
            forall|i: int| 0 <= i < n ==> #[trigger] starts@[i] == column(order, i),
            state.cov.shaped(state.dim(), state.dim()),
            in_rows(order, state.dim()),
            small.shaped(size as int, size as int),
            forall|p: int, q: int, x: int, y: int|
                0 <= p < a && 0 <= q < n && 0 <= x < order[p].1 && 0 <= y < order[q].1
                    ==> #[trigger] gathered(&small, order, p, q, x, y) == state.cov.at(
                    order[p].0 + x,
                    order[q].0 + y,
                ),
        decreases n - a,
    {
        let mut b: usize = 0;
        while b < n
            invariant
                a < n,
                b <= n,
                n == order.len(),
                order == small_variables@,
                size == column(order, order.len() as int),
                size * size <= usize::MAX,
                starts@.len() == n,
                forall|i: int| 0 <= i < n ==> #[trigger] starts@[i] == column(order, i),
                state.cov.shaped(state.dim(), state.dim()),
                in_rows(order, state.dim()),
                small.shaped(size as int, size as int),
                forall|p: int, q: int, x: int, y: int|
                    0 <= p < n && 0 <= q < n && (p < a || (p == a && q < b)) && 0 <= x < order[p].1
                        && 0 <= y < order[q].1 ==> #[trigger] gathered(&small, order, p, q, x, y)
                        == state.cov.at(order[p].0 + x, order[q].0 + y),
            decreases n - b,
        {
            proof {
                lemma_column_monotonic(order, a as int, n as int);
                lemma_column_monotonic(order, b as int, n as int);
                lemma_block_fits(order[a as int].1 as int, order[b as int].1 as int, size as int);
            }
            let sub = state.cov.block(
                small_variables[a].0 as usize,
                small_variables[b].0 as usize,
                small_variables[a].1,
                small_variables[b].1,
            );
            let ghost before = small;
            small.set_block(starts[a], starts[b], &sub);
            assert forall|p: int, q: int, x: int, y: int|
                0 <= p < n && 0 <= q < n && (p < a || (p == a && q < b + 1)) && 0 <= x < order[p].1
                    && 0 <= y < order[q].1 implies #[trigger] gathered(&small, order, p, q, x, y)
                == state.cov.at(order[p].0 + x, order[q].0 + y) by {
                lemma_column_monotonic(order, p, n as int);
                lemma_column_monotonic(order, q, n as int);
                let row = column(order, p) + x;
                let col = column(order, q) + y;
                assert(before.has(row, col));
                if p == a && q == b {
                    assert(sub.has(row - starts@[a as int], col - starts@[b as int]));
                } else {
                    assert(gathered(&before, order, p, q, x, y) == state.cov.at(
                        order[p].0 + x,
                        order[q].0 + y,
                    ));
                    if p < a {
                        lemma_column_monotonic(order, p, a as int);
                    } else {
                        lemma_column_monotonic(order, q, b as int);
                    }
                    assert(!sub.has(row - starts@[a as int], col - starts@[b as int]));
                }
            }
            b += 1;
        }
        a += 1;
    }
    small
}

/// A block of a square matrix has no more entries than the matrix.
proof fn lemma_block_fits(h: int, w: int, n: int)
    by (nonlinear_arith)
    requires
        0 <= h <= n,
        0 <= w <= n,
    ensures
        h * w <= n * n,
{
}

/// A copy of the whole covariance.
pub fn get_full_covariance(state: &State) -> (m: Matrix)
    requires
        state.cov.wf(),
    ensures
        m.same(&state.cov),
{
    state.cov.clone()
}

/// The last of the first `len` runs that holds row `r`; minus one if none does.
pub open spec fn last_holder(order: Seq<Run>, len: int, r: int) -> int
    decreases len,
{
    if len <= 0 {
        -1
    } else if run_has(order[len - 1], r) {
        len - 1
    } else {
        last_holder(order, len - 1, r)
    }
}

/// Entry `(r, c)` after the blocks of `small` were written to the rows of the
/// listed runs: of overlapping runs the last one counts.
pub open spec fn scattered(cov: &Matrix, small: &Matrix, order: Seq<Run>, r: int, c: int) -> Double {
    let a = last_holder(order, order.len() as int, r);
    let b = last_holder(order, order.len() as int, c);
    if a >= 0 && b >= 0 {
        small.at(column(order, a) + r - order[a].0, column(order, b) + c - order[b].0)
    } else {
        cov.at(r, c)
    }
}

/// The entry after the blocks of the pairs before `(a, b)` were written.
spec fn scattered_until(
    cov: &Matrix,
    small: &Matrix,
    order: Seq<Run>,
    a: int,
    b: int,
    r: int,
    c: int,
) -> Double {
    let n = order.len() as int;
    let p = last_holder(order, a, r);
    let q = last_holder(order, n, c);
    let t = last_holder(order, b, c);
    if 0 <= a < n && run_has(order[a], r) && t >= 0 {
        small.at(column(order, a) + r - order[a].0, column(order, t) + c - order[t].0)
    } else if p >= 0 && q >= 0 {
        small.at(column(order, p) + r - order[p].0, column(order, q) + c - order[q].0)
    } else {
        cov.at(r, c)
    }
}

/// The holder of a row is a run of the list that holds it.
proof fn lemma_last_holder(order: Seq<Run>, len: int, r: int)
    requires
        0 <= len <= order.len(),
    ensures
        -1 <= last_holder(order, len, r) < len,
        last_holder(order, len, r) >= 0 ==> run_has(order[last_holder(order, len, r)], r),
    decreases len,
{
    if len > 0 && !run_has(order[len - 1], r) {
        lemma_last_holder(order, len - 1, r);
    }
}

/// The covariance after blocks were written to the rows of the listed variables.
pub open spec fn scattered_entries(cov: &Matrix, small: &Matrix, order: Seq<Run>) -> spec_fn(
    int,
    int,
) -> Double {
    |r: int, c: int| scattered(cov, small, order, r, c)
}

/// Writes the blocks of `covariance` to the rows of the listed variables and makes
/// the whole symmetric. The blocks between them and other variables stay but for
/// that.
pub fn set_initial_covariance<P: Fn(Double, Double) -> Double, T: Fn(Double, Double) -> Double>(
    state: &mut State,
    covariance: &Matrix,
    order: &Vec<(i32, usize)>,
    plus: &P,
    times: &T,
)
    requires
        old(state).cov.shaped(old(state).dim(), old(state).dim()),
        in_rows(order@, old(state).dim()),
        covariance.wf(),
        column(order@, order@.len() as int) <= covariance.height(),
        column(order@, order@.len() as int) <= covariance.width(),
        binary(*plus),
        binary(*times),
    ensures
        *final(state) == (State { cov: final(state).cov, ..*old(state) }),
        is(
            &final(state).cov,
            old(state).dim(),
            old(state).dim(),
            symmetric_part(
                scattered_entries(&old(state).cov, covariance, order@),
                ring(*plus, *times),
            ),
        ),
{
    let ghost before = state.cov;
    write_blocks(state, covariance, order);
    let ghost written = state.cov;
    let even = symmetrize(&state.cov, plus, times);
    state.cov = even;
    proof {
        let e = scattered_entries(&before, covariance, order@);
        assert forall|i: int, j: int| even.has(i, j) implies #[trigger] even.at(i, j)
            == symmetric_part(e, ring(*plus, *times))(i, j) by {
            assert(before.has(i, j) && before.has(j, i));
            assert(written.at(i, j) == e(i, j));
            assert(written.at(j, i) == e(j, i));
        }
    }
}

/// Writes the blocks of `covariance` to the rows of the listed variables.
fn write_blocks(state: &mut State, covariance: &Matrix, order: &Vec<(i32, usize)>)
    requires
        old(state).cov.shaped(old(state).dim(), old(state).dim()),
        in_rows(order@, old(state).dim()),
        covariance.wf(),
        column(order@, order@.len() as int) <= covariance.height(),
        column(order@, order@.len() as int) <= covariance.width(),
    ensures
        *final(state) == (State { cov: final(state).cov, ..*old(state) }),
        final(state).cov.shaped(old(state).dim(), old(state).dim()),
        forall|r: int, c: int|
            old(state).cov.has(r, c) ==> #[trigger] final(state).cov.at(r, c) == scattered(
                &old(state).cov,
                covariance,
                order@,
                r,
                c,
            ),
{
    let ghost runs = order@;
    let ghost old_cov = state.cov;
    proof {
        covariance.lemma_shape();
    }
    let (starts, _size) = order_columns(order);
    let n: usize = order.len();
    let mut a: usize = 0;
    while a < n
        invariant
            a <= n,
            n == runs.len(),
            runs == order@,
            starts@.len() == n,
            forall|i: int| 0 <= i < n ==> #[trigger] starts@[i] == column(runs, i),
            covariance.wf(),
            column(runs, n as int) <= covariance.height(),
            column(runs, n as int) <= covariance.width(),
            in_rows(runs, old_cov.height()),
            old_cov.shaped(old_cov.height(), old_cov.height()),
            old_cov == old(state).cov,
            *state == (State { cov: state.cov, ..*old(state) }),
            state.cov.shaped(old_cov.height(), old_cov.height()),
            forall|r: int, c: int|
                old_cov.has(r, c) ==> #[trigger] state.cov.at(r, c) == scattered_until(
                    &old_cov,
                    covariance,
                    runs,
                    a as int,
                    0,
                    r,
                    c,
                ),
        decreases n - a,
    {
        let mut b: usize = 0;
        while b < n
            invariant
                a < n,
                b <= n,
                n == runs.len(),
                runs == order@,
                starts@.len() == n,
                forall|i: int| 0 <= i < n ==> #[trigger] starts@[i] == column(runs, i),
                covariance.wf(),
                column(runs, n as int) <= covariance.height(),
                column(runs, n as int) <= covariance.width(),
                in_rows(runs, old_cov.height()),
                old_cov.shaped(old_cov.height(), old_cov.height()),
                old_cov == old(state).cov,
                *state == (State { cov: state.cov, ..*old(state) }),
                state.cov.shaped(old_cov.height(), old_cov.height()),
                forall|r: int, c: int|
                    old_cov.has(r, c) ==> #[trigger] state.cov.at(r, c) == scattered_until(
                        &old_cov,
                        covariance,
                        runs,
                        a as int,
                        b as int,
                        r,
                        c,
                    ),
            decreases n - b,
        {
            proof {
                lemma_column_monotonic(runs, a as int, n as int);
                lemma_column_monotonic(runs, b as int, n as int);
            }
            let top: usize = order[a].0 as usize;
            let left: usize = order[b].0 as usize;
            let mut x: usize = 0;
            let ghost before = state.cov;
            while x < order[a].1
                invariant
                    a < n,
                    b < n,
                    n == runs.len(),
                    runs == order@,
                    starts@.len() == n,
                    starts@[a as int] == column(runs, a as int),
                    starts@[b as int] == column(runs, b as int),
                    covariance.wf(),
                    starts@[a as int] + runs[a as int].1 <= covariance.height(),
                    starts@[b as int] + runs[b as int].1 <= covariance.width(),
                    top == runs[a as int].0,
                    left == runs[b as int].0,
                    top + runs[a as int].1 <= old_cov.height(),
                    left + runs[b as int].1 <= old_cov.height(),
                    x <= runs[a as int].1,
                    *state == (State { cov: state.cov, ..*old(state) }),
                    before.shaped(old_cov.height(), old_cov.height()),
                    state.cov.shaped(old_cov.height(), old_cov.height()),
                    forall|r: int, c: int|
                        before.has(r, c) ==> #[trigger] state.cov.at(r, c) == (if top <= r < top + x
                            && run_has(runs[b as int], c) {
                            covariance.at(
                                starts@[a as int] + r - top,
                                starts@[b as int] + c - left,
                            )
                        } else {
                            before.at(r, c)
                        }),
                decreases runs[a as int].1 - x,
            {
                let mut y: usize = 0;
                while y < order[b].1
                    invariant
                        a < n,
                        b < n,
                        n == runs.len(),
                        runs == order@,
                        starts@.len() == n,
                        covariance.wf(),
                        starts@[a as int] + runs[a as int].1 <= covariance.height(),
                        starts@[b as int] + runs[b as int].1 <= covariance.width(),
                        top == runs[a as int].0,
                        left == runs[b as int].0,
                        top + runs[a as int].1 <= old_cov.height(),
                        left + runs[b as int].1 <= old_cov.height(),
                        x < runs[a as int].1,
                        y <= runs[b as int].1,
                        *state == (State { cov: state.cov, ..*old(state) }),
                        before.shaped(old_cov.height(), old_cov.height()),
                        state.cov.shaped(old_cov.height(), old_cov.height()),
                        forall|r: int, c: int|
                            before.has(r, c) ==> #[trigger] state.cov.at(r, c) == (if (top <= r
                                < top + x && run_has(runs[b as int], c)) || (r == top + x && left <= c
                                < left + y) {
                                covariance.at(
                                    starts@[a as int] + r - top,
                                    starts@[b as int] + c - left,
                                )
                            } else {
                                before.at(r, c)
                            }),
                    decreases runs[b as int].1 - y,
                {
                    proof {
                        covariance.lemma_shape();
                        old_cov.lemma_shape();
                    }
                    let v = covariance.get(starts[a] + x, starts[b] + y);
                    state.cov.set(top + x, left + y, v);
                    y += 1;
                }
                x += 1;
            }
            assert forall|r: int, c: int| old_cov.has(r, c) implies #[trigger] state.cov.at(r, c)
                == scattered_until(&old_cov, covariance, runs, a as int, b + 1, r, c) by {
                lemma_last_holder(runs, b as int, c);
            }
            b += 1;
        }
        assert forall|r: int, c: int| old_cov.has(r, c) implies #[trigger] state.cov.at(r, c)
            == scattered_until(&old_cov, covariance, runs, a + 1, 0, r, c) by {
            lemma_last_holder(runs, a as int, r);
            lemma_last_holder(runs, n as int, c);
        }
        a += 1;
    }
}

/// The row of the larger matrix that row `k` was, before `size` rows from `id`
/// on left it.
pub open spec fn row_before(k: int, id: int, size: int) -> int {
    if k < id {
        k
    } else {
        k + size
    }
}

/// Whether `small` is `cov` without the `size` rows and columns from `id` on.
/// The block below the diagonal is taken from above it.
pub open spec fn removed(small: &Matrix, cov: &Matrix, id: int, size: int) -> bool {
    &&& small.shaped(cov.height() - size, cov.height() - size)
    &&& forall|i: int, j: int|
        small.has(i, j) ==> #[trigger] small.at(i, j) == (if i >= id && j < id {
            cov.at(j, i + size)
        } else {
            cov.at(row_before(i, id, size), row_before(j, id, size))
        })
}

/// Removes the rows and columns of a variable, and moves the variables behind
/// it forward. The variable's own record is left to the caller.
pub fn marginalize(state: &mut State, marg_id: i32, marg_size: usize)
    requires
        old(state).cov.shaped(old(state).dim(), old(state).dim()),
        old(state).dim() <= i32::MAX,
        old(state).dim() * old(state).dim() <= usize::MAX,
        0 <= marg_id,
        marg_id + marg_size <= old(state).dim(),
    ensures
        removed(&final(state).cov, &old(state).cov, marg_id as int, marg_size as int),
        final(state).renumbered(old(state), marg_id as int, marg_size as int),
{
    let id: usize = marg_id as usize;
    let total: usize = state.cov.nrows();
    let rest: usize = total - id - marg_size;
    let n: usize = total - marg_size;
    proof {
        lemma_block_fits(n as int, n as int, total as int);
        lemma_block_fits(id as int, id as int, total as int);
        lemma_block_fits(id as int, rest as int, total as int);
        lemma_block_fits(rest as int, rest as int, total as int);
    }
    let mut cov = Matrix::filled(n, n, Double::zero());
    let first = state.cov.block(0, 0, id, id);
    let upper = state.cov.block(0, id + marg_size, id, rest);
    let lower = upper.transpose();
    let last = state.cov.block(id + marg_size, id + marg_size, rest, rest);
    cov.set_block(0, 0, &first);
    cov.set_block(0, id, &upper);
    cov.set_block(id, 0, &lower);
    cov.set_block(id, id, &last);
    assert forall|i: int, j: int| cov.has(i, j) implies #[trigger] cov.at(i, j) == (if i >= id && j
        < id {
        state.cov.at(j, i + marg_size)
    } else {
        state.cov.at(
            row_before(i, id as int, marg_size as int),
            row_before(j, id as int, marg_size as int),
        )
    }) by {
        assert(first.has(i, j) <==> i < id && j < id);
        assert(upper.has(i, j - id) <==> i < id && j >= id);
        assert(lower.has(i - id, j) <==> i >= id && j < id);
        assert(last.has(i - id, j - id) <==> i >= id && j >= id);
    }
    state.cov = cov;
    state.renumber_after(marg_id, marg_size);
}

/// The row that row `k` copies when the pose in the first six rows from `pose`
/// on is cloned behind row `n`.
pub open spec fn cloned_row(k: int, n: int, pose: int) -> int {
    if k < n {
        k
    } else {
        pose + k - n
    }
}

/// Copies the inertial pose to the end of the covariance and of the window.
fn clone_pose(state: &mut State)
    requires
        old(state).wf(),
        old(state).dim() + 6 <= i32::MAX,
        (old(state).dim() + 6) * (old(state).dim() + 6) <= usize::MAX,
        forall|i: int|
            0 <= i < old(state).clones_imu@.len() ==> (#[trigger] old(state).clones_imu@[i]).0
                != old(state).timestamp,
    ensures
        final(state).wf(),
        final(state).clones_imu@ == old(state).clones_imu@.push(
            (old(state).timestamp, Variable { id: old(state).dim() as i32, size: 6 }),
        ),
        *final(state) == (State {
            cov: final(state).cov,
            clones_imu: final(state).clones_imu,
            ..*old(state)
        }),
        final(state).cov.shaped(old(state).dim() + 6, old(state).dim() + 6),
        forall|i: int, j: int|
            final(state).cov.has(i, j) ==> #[trigger] final(state).cov.at(i, j) == old(state).cov.at(
                cloned_row(i, old(state).dim(), 0),
                cloned_row(j, old(state).dim(), 0),
            ),
{
    let n: usize = state.cov.nrows();
    let pose: usize = state.imu.id as usize;
    proof {
        assert(run_has(state.runs()[0], 0));
        assert(state.runs()[0] == (state.imu.id, state.imu.size));
        assert((n + 6) * (n + 6) == n * n + 12 * n + 36) by (nonlinear_arith);
        assert(n * 6 <= (n + 6) * (n + 6));
    }
    let mut cov = Matrix::filled(n + 6, n + 6, Double::zero());
    cov.set_block(0, 0, &state.cov);
    let corner = state.cov.block(pose, pose, 6, 6);
    let columns = state.cov.block(0, pose, n, 6);
    let rows = state.cov.block(pose, 0, 6, n);
    cov.set_block(n, n, &corner);
    cov.set_block(0, n, &columns);
    cov.set_block(n, 0, &rows);
    assert forall|i: int, j: int| cov.has(i, j) implies #[trigger] cov.at(i, j) == state.cov.at(
        cloned_row(i, n as int, 0),
        cloned_row(j, n as int, 0),
    ) by {
        assert(state.cov.has(i, j) <==> i < n && j < n);
        assert(corner.has(i - n, j - n) <==> i >= n && j >= n);
        assert(columns.has(i, j - n) <==> i < n && j >= n);
        assert(rows.has(i - n, j) <==> i >= n && j < n);
    }
    let ghost before = *state;
    state.cov = cov;
    state.clones_imu.push((state.timestamp, Variable { id: n as i32, size: 6 }));
    proof {
        let head = before.runs_before_clones();
        let pos = head.len() + before.clones_imu@.len();
        assert(state.runs_before_clones() == head);
        assert(clone_runs(state.clones_imu@) =~= clone_runs(before.clones_imu@).push(
            (n as i32, 6usize),
        ));
        assert(state.runs() =~= before.runs().insert(pos as int, (n as i32, 6usize)));
        lemma_tiles_insert(before.runs(), n as int, pos as int, (n as i32, 6usize));
    }
}

/// Entry `(i, j)` of a covariance of `n` rows with its pose cloned.
pub open spec fn cloned_entry(cov: &Matrix, n: int, i: int, j: int) -> Double {
    cov.at(cloned_row(i, n, 0), cloned_row(j, n, 0))
}

/// The same entry once the columns of the clone know of the time offset in row
/// `dt`; `rate` is how the pose changes with time.
pub open spec fn column_entry<P: Fn(Double, Double) -> Double, T: Fn(Double, Double) -> Double>(
    cov: &Matrix,
    n: int,
    dt: int,
    rate: Seq<Double>,
    plus: P,
    times: T,
    i: int,
    j: int,
) -> Double {
    if j >= n {
        of_two(
            plus,
            cloned_entry(cov, n, i, j),
            of_two(times, cloned_entry(cov, n, i, dt), rate[j - n]),
        )
    } else {
        cloned_entry(cov, n, i, j)
    }
}

/// The same entry once the rows of the clone know of the time offset as well.
pub open spec fn offset_entry<P: Fn(Double, Double) -> Double, T: Fn(Double, Double) -> Double>(
    cov: &Matrix,
    n: int,
    dt: int,
    rate: Seq<Double>,
    plus: P,
    times: T,
    i: int,
    j: int,
) -> Double {
    if i >= n {
        of_two(
            plus,
            column_entry(cov, n, dt, rate, plus, times, i, j),
            of_two(times, rate[i - n], column_entry(cov, n, dt, rate, plus, times, dt, j)),
        )
    } else {
        column_entry(cov, n, dt, rate, plus, times, i, j)
    }
}

/// Copies the inertial pose to the end of the covariance and of the window. Where
/// the time offset is calibrated, it is worked into the new rows and columns by how
/// the pose changes with time: the angular rate `last_w`, then the velocity. The clone
/// has the estimate and the first estimate of the inertial pose.
pub fn augment_clone<P: Fn(Double, Double) -> Double, T: Fn(Double, Double) -> Double>(
    state: &mut State,
    values: &mut Estimates,
    last_w: &[Double; 3],
    plus: &P,
    times: &T,
)
    requires
        old(state).wf(),
        old(values).fits(old(state)),
        old(state).dim() + 6 <= i32::MAX,
        (old(state).dim() + 6) * (old(state).dim() + 6) <= usize::MAX,
        forall|i: int|
            0 <= i < old(state).clones_imu@.len() ==> (#[trigger] old(state).clones_imu@[i]).0
                != old(state).timestamp,
        binary(*plus),
        binary(*times),
    ensures
        final(state).wf(),
        final(values).fits(final(state)),
        *final(values) == (Estimates { clones: final(values).clones, ..*old(values) }),
        final(values).clones@ == old(values).clones@.push(
            (old(values).inertial.pose, old(values).inertial_first.pose),
        ),
        final(state).clones_imu@ == old(state).clones_imu@.push(
            (old(state).timestamp, Variable { id: old(state).dim() as i32, size: 6 }),
        ),
        *final(state) == (State {
            cov: final(state).cov,
            clones_imu: final(state).clones_imu,
            ..*old(state)
        }),
        final(state).cov.shaped(old(state).dim() + 6, old(state).dim() + 6),
        !old(state).options.do_calib_camera_timeoffset ==> forall|i: int, j: int|
            final(state).cov.has(i, j) ==> #[trigger] final(state).cov.at(i, j) == cloned_entry(
                &old(state).cov,
                old(state).dim(),
                i,
                j,
            ),
        old(state).options.do_calib_camera_timeoffset ==> forall|i: int, j: int|
            final(state).cov.has(i, j) ==> #[trigger] final(state).cov.at(i, j) == offset_entry(
                &old(state).cov,
                old(state).dim(),
                old(state).calib_dt_cam_to_imu->0.id as int,
                pose_rate(last_w@, old(values).inertial),
                *plus,
                *times,
                i,
                j,
            ),
{
    let n: usize = state.cov.nrows();
    let vel = values.inertial.vel;
    let rate = [last_w[0], last_w[1], last_w[2], vel[0], vel[1], vel[2]];
    assert(rate@ =~= pose_rate(last_w@, values.inertial));
    proof {
        if state.options.do_calib_camera_timeoffset {
            lemma_offset_row(&*state);
        }
    }
    clone_pose(state);
    if state.options.do_calib_camera_timeoffset {
        if let Some(v) = state.calib_dt_cam_to_imu {
            let ghost before = old(state).cov;
            let ghost cloned = *state;
            let dt: usize = v.id as usize;
            offset_columns(&mut state.cov, Ghost(before), n, dt, &rate, plus, times);
            offset_rows(&mut state.cov, Ghost(before), n, dt, &rate, plus, times);
            assert(state.runs() =~= cloned.runs());
        }
    }
    values.clones.push((values.inertial.pose, values.inertial_first.pose));
}

/// How the inertial pose changes with time: the angular rate, then the velocity.
pub open spec fn pose_rate(last_w: Seq<Double>, v: InertialValues) -> Seq<Double> {
    last_w + v.vel@
}

/// A calibrated time offset has a row of its own.
proof fn lemma_offset_row(st: &State)
    requires
        st.wf(),
        st.options.do_calib_camera_timeoffset,
    ensures
        st.calib_dt_cam_to_imu is Some,
        0 <= st.calib_dt_cam_to_imu->0.id < st.dim(),
{
    let o = st.options;
    assert(o.num_cameras * crate::vio::state::camera_stride(o) >= 0) by (nonlinear_arith)
        requires
            crate::vio::state::camera_stride(o) >= 0,
            o.num_cameras >= 0,
    ;
}

/// Works the time offset into the columns of a clone.
fn offset_columns<P: Fn(Double, Double) -> Double, T: Fn(Double, Double) -> Double>(
    cov: &mut Matrix,
    Ghost(before): Ghost<Matrix>,
    n: usize,
    dt: usize,
    rate: &[Double; 6],
    plus: &P,
    times: &T,
)
    requires
        dt < n,
        n + 6 <= usize::MAX,
        old(cov).shaped(n + 6, n + 6),
        binary(*plus),
        binary(*times),
        forall|i: int, j: int|
            old(cov).has(i, j) ==> #[trigger] old(cov).at(i, j) == cloned_entry(
                &before,
                n as int,
                i,
                j,
            ),
    ensures
        final(cov).shaped(n + 6, n + 6),
        forall|i: int, j: int|
            final(cov).has(i, j) ==> #[trigger] final(cov).at(i, j) == column_entry(
                &before,
                n as int,
                dt as int,
                rate@,
                *plus,
                *times,
                i,
                j,
            ),
{
    let mut i: usize = 0;
    while i < n + 6
        invariant
            i <= n + 6,
            dt < n,
            n + 6 <= usize::MAX,
            cov.shaped(n + 6, n + 6),
            binary(*plus),
            binary(*times),
            forall|k: int, l: int|
                cov.has(k, l) ==> #[trigger] cov.at(k, l) == (if k < i {
                    column_entry(&before, n as int, dt as int, rate@, *plus, *times, k, l)
                } else {
                    cloned_entry(&before, n as int, k, l)
                }),
        decreases n + 6 - i,
    {
        let own = cov.get(i, dt);
        let mut j: usize = 0;
        while j < 6
            invariant
                j <= 6,
                i < n + 6,
                dt < n,
                n + 6 <= usize::MAX,
                cov.shaped(n + 6, n + 6),
                binary(*plus),
                binary(*times),
                own == cloned_entry(&before, n as int, i as int, dt as int),
                forall|k: int, l: int|
                    cov.has(k, l) ==> #[trigger] cov.at(k, l) == (if k < i || (k == i && l < n + j) {
                        column_entry(&before, n as int, dt as int, rate@, *plus, *times, k, l)
                    } else {
                        cloned_entry(&before, n as int, k, l)
                    }),
            decreases 6 - j,
        {
            let term = apply_two(times, own, rate[j]);
            let sum = apply_two(plus, cov.get(i, n + j), term);
            cov.set(i, n + j, sum);
            j += 1;
        }
        i += 1;
    }
}

/// Works the time offset into the rows of a clone.
fn offset_rows<P: Fn(Double, Double) -> Double, T: Fn(Double, Double) -> Double>(
    cov: &mut Matrix,
    Ghost(before): Ghost<Matrix>,
    n: usize,
    dt: usize,
    rate: &[Double; 6],
    plus: &P,
    times: &T,
)
    requires
        dt < n,
        n + 6 <= usize::MAX,
        old(cov).shaped(n + 6, n + 6),
        binary(*plus),
        binary(*times),
        forall|i: int, j: int|
            old(cov).has(i, j) ==> #[trigger] old(cov).at(i, j) == column_entry(
                &before,
                n as int,
                dt as int,
                rate@,
                *plus,
                *times,
                i,
                j,
            ),
    ensures
        final(cov).shaped(n + 6, n + 6),
        forall|i: int, j: int|
            final(cov).has(i, j) ==> #[trigger] final(cov).at(i, j) == offset_entry(
                &before,
                n as int,
                dt as int,
                rate@,
                *plus,
                *times,
                i,
                j,
            ),
{
    let mut j: usize = 0;
    while j < n + 6
        invariant
            j <= n + 6,
            dt < n,
            n + 6 <= usize::MAX,
            cov.shaped(n + 6, n + 6),
            binary(*plus),
            binary(*times),
            forall|k: int, l: int|
                cov.has(k, l) ==> #[trigger] cov.at(k, l) == (if l < j {
                    offset_entry(&before, n as int, dt as int, rate@, *plus, *times, k, l)
                } else {
                    column_entry(&before, n as int, dt as int, rate@, *plus, *times, k, l)
                }),
        decreases n + 6 - j,
    {
        let own = cov.get(dt, j);
        let mut i: usize = 0;
        while i < 6
            invariant
                i <= 6,
                j < n + 6,
                dt < n,
                n + 6 <= usize::MAX,
                cov.shaped(n + 6, n + 6),
                binary(*plus),
                binary(*times),
                own == column_entry(
                    &before,
                    n as int,
                    dt as int,
                    rate@,
                    *plus,
                    *times,
                    dt as int,
                    j as int,
                ),
                forall|k: int, l: int|
                    cov.has(k, l) ==> #[trigger] cov.at(k, l) == (if l < j || (l == j && k < n + i) {
                        offset_entry(&before, n as int, dt as int, rate@, *plus, *times, k, l)
                    } else {
                        column_entry(&before, n as int, dt as int, rate@, *plus, *times, k, l)
                    }),
            decreases 6 - i,
        {
            let term = apply_two(times, rate[i], own);
            let sum = apply_two(plus, cov.get(n + i, j), term);
            cov.set(n + i, j, sum);
            i += 1;
        }
        j += 1;
    }
}

/// A run added behind all rows keeps the tiling, wherever it is listed.
proof fn lemma_tiles_insert(runs: Seq<Run>, n: int, pos: int, run: Run)
    requires
        tiles(runs, n),
        0 <= pos <= runs.len(),
        run.0 == n,
        run.1 > 0,
        n >= 0,
    ensures
        tiles(runs.insert(pos, run), n + run.1),
{
    let longer = runs.insert(pos, run);
    let old_index = |i: int|
        if i < pos {
            i
        } else {
            i - 1
        };
    assert forall|i: int| 0 <= i < longer.len() && i != pos implies #[trigger] longer[i]
        == runs[old_index(i)] by {}
    assert(longer[pos] == run);
    assert forall|k: int| 0 <= k < n + run.1 implies #[trigger] covered(longer, k) by {
        if k < n {
            assert(covered(runs, k));
            let i = choose|i: int| 0 <= i < runs.len() && run_has(#[trigger] runs[i], k);
            let j = if i < pos {
                i
            } else {
                i + 1
            };
            assert(longer[j] == runs[i]);
            assert(run_has(longer[j], k));
        } else {
            assert(run_has(longer[pos], k));
        }
    }
}

/// Removing a variable leaves a tiling of the rows that stay.
proof fn lemma_tiles_remove(runs: Seq<Run>, n: int, p: int)
    requires
        tiles(runs, n),
        0 <= p < runs.len(),
        n <= i32::MAX,
    ensures
        tiles(shifted_runs(runs, runs[p]).remove(p), n - runs[p].1),
{
    let id = runs[p].0 as int;
    let size = runs[p].1 as int;
    let moved = shifted_runs(runs, runs[p]);
    let rest = moved.remove(p);
    assert forall|i: int| 0 <= i < rest.len() implies #[trigger] rest[i] == moved[if i < p {
        i
    } else {
        i + 1
    }] by {}
    assert forall|i: int| 0 <= i < runs.len() && i != p implies (#[trigger] moved[i]).1 == runs[i].1
        && (if runs[i].0 + runs[i].1 <= id {
        moved[i].0 == runs[i].0
    } else {
        runs[i].0 >= id + size && moved[i].0 == runs[i].0 - size
    }) by {
        assert(runs[i].0 + runs[i].1 <= runs[p].0 || runs[p].0 + runs[p].1 <= runs[i].0);
    }
    assert forall|k: int| 0 <= k < n - size implies #[trigger] covered(rest, k) by {
        let k0 = row_before(k, id, size);
        assert(covered(runs, k0));
        let i = choose|i: int| 0 <= i < runs.len() && run_has(#[trigger] runs[i], k0);
        assert(i != p);
        let j = if i < p {
            i
        } else {
            i - 1
        };
        assert(rest[j] == moved[i]);
        assert(run_has(rest[j], k));
    }
    assert forall|i: int, j: int|
        0 <= i < rest.len() && 0 <= j < rest.len() && i != j implies (#[trigger] rest[i]).0
        + rest[i].1 <= (#[trigger] rest[j]).0 || rest[j].0 + rest[j].1 <= rest[i].0 by {
        let a = if i < p {
            i
        } else {
            i + 1
        };
        let b = if j < p {
            j
        } else {
            j + 1
        };
        assert(rest[i] == moved[a]);
        assert(rest[j] == moved[b]);
        assert(runs[a].0 + runs[a].1 <= runs[b].0 || runs[b].0 + runs[b].1 <= runs[a].0);
    }
}

/// The runs after the rows of `gone` have left the covariance.
pub open spec fn shifted_runs(runs: Seq<Run>, gone: Run) -> Seq<Run> {
    Seq::new(runs.len(), |i: int| shifted_run(runs[i], gone.0 as int, gone.1 as int))
}

/// The runs of features that are all in the covariance, in their order.
pub(crate) proof fn lemma_feature_runs(features: Seq<Landmark>, k: int)
    requires
        0 <= k <= features.len(),
        forall|i: int| 0 <= i < features.len() ==> (#[trigger] features[i]).id >= 0,
    ensures
        feature_runs(features, k).len() == k,
        forall|i: int|
            0 <= i < k ==> #[trigger] feature_runs(features, k)[i] == (
            features[i].id,
            features[i].value.len()),
    decreases k,
{
    if k > 0 {
        lemma_feature_runs(features, k - 1);
    }
}

/// Shifting changes nothing before the rows that leave, so calibration stays.
proof fn lemma_calibration_stays(before: &State, after: &State, id: int, size: int)
    requires
        before.calibration_in_place(),
        after.fixed_renumbered(before, id, size),
        initial_dim(before.options) <= id,
        after.options == before.options,
        after.imu == before.imu,
    ensures
        after.calibration_in_place(),
        after.calib_imu_dw == before.calib_imu_dw,
        after.calib_imu_da == before.calib_imu_da,
        after.calib_imu_tg == before.calib_imu_tg,
        after.calib_imu_gyro_to_imu == before.calib_imu_gyro_to_imu,
        after.calib_imu_acc_to_imu == before.calib_imu_acc_to_imu,
        after.calib_dt_cam_to_imu == before.calib_dt_cam_to_imu,
        after.calib_imu_to_cam@ == before.calib_imu_to_cam@,
        after.cam_intrinsics@ == before.cam_intrinsics@,
        after.runs_before_clones() == before.runs_before_clones(),
{
    let o = before.options;
    let stride = camera_stride(o);
    let m = o.num_cameras as int;
    assert(m * stride >= 0) by (nonlinear_arith)
        requires
            m >= 0,
            stride >= 0,
    ;
    assert forall|c: int| 0 <= c < m implies camera_base(o) + #[trigger] (c * stride) + stride
        <= initial_dim(o) by {
        assert((c + 1) * stride <= m * stride) by (nonlinear_arith)
            requires
                c + 1 <= m,
                stride >= 0,
        ;
        assert((c + 1) * stride == c * stride + stride) by (nonlinear_arith);
    }
    assert(after.calib_imu_to_cam@ =~= before.calib_imu_to_cam@);
    assert(after.cam_intrinsics@ =~= before.cam_intrinsics@);
}

/// Lets the oldest clone go with its estimates, where the window holds more than it
/// should.
pub fn marginalize_old_clone(state: &mut State, values: &mut Estimates)
    requires
        old(state).wf(),
        old(values).fits(old(state)),
        old(state).dim() * old(state).dim() <= usize::MAX,
        old(state).clones_imu@.len() > old(state).options.max_clone_size ==> (Double {
            bits: 0,
        }).spec_le(old(state).clones_imu@[0].0),
    ensures
        final(state).wf(),
        final(values).fits(final(state)),
        *final(values) == (Estimates { clones: final(values).clones, ..*old(values) }),
        final(values).clones@ == (if old(state).clones_imu@.len() > old(
            state,
        ).options.max_clone_size {
            old(values).clones@.remove(0)
        } else {
            old(values).clones@
        }),
        old(state).clones_imu@.len() <= old(state).options.max_clone_size ==> *final(state) == *old(
            state,
        ),
        old(state).clones_imu@.len() > old(state).options.max_clone_size ==> window_slid(
            old(state),
            final(state),
        ),
{
    if state.clones_imu.len() > state.options.max_clone_size {
        let ghost before = *state;
        let clone = state.clones_imu[0].1;
        proof {
            let p = before.runs_before_clones().len() as int;
            assert(before.runs()[p] == (clone.id, 6usize));
        }
        marginalize(state, clone.id, clone.size);
        let ghost mid = *state;
        state.clones_imu.remove(0);
        values.clones.remove(0);
        proof {
            lemma_calibration_stays(&before, state, clone.id as int, 6);
            lemma_window_slid_wf(&before, state);
        }
    }
}

/// Whether `after` is `before` without its oldest clone.
pub open spec fn window_slid(before: &State, after: &State) -> bool {
    let gone = before.clones_imu@[0].1;
    &&& removed(&after.cov, &before.cov, gone.id as int, 6)
    &&& after.timestamp == before.timestamp
    &&& after.options == before.options
    &&& after.imu == before.imu
    &&& after.fixed_renumbered(before, gone.id as int, 6)
    &&& after.clones_imu@.len() == before.clones_imu@.len() - 1
    &&& forall|k: int|
        0 <= k < after.clones_imu@.len() ==> #[trigger] after.clones_imu@[k] == (
        before.clones_imu@[k + 1].0,
        before.clones_imu@[k + 1].1.shifted(gone.id as int, 6))
    &&& after.features_slam@.len() == before.features_slam@.len()
    &&& forall|k: int|
        0 <= k < before.features_slam@.len() ==> #[trigger] after.features_slam@[k]
            == shifted_feature(before.features_slam@[k], gone.id as int, 6)
}

/// Sliding the window keeps the state well-formed.
proof fn lemma_window_slid_wf(before: &State, after: &State)
    requires
        before.wf(),
        before.clones_imu@.len() > 0,
        window_slid(before, after),
        after.calibration_in_place(),
        after.runs_before_clones() == before.runs_before_clones(),
    ensures
        after.wf(),
{
    let gone = before.clones_imu@[0].1;
    let head = before.runs_before_clones();
    let p = head.len() as int;
    let runs = before.runs();
    let n = before.dim();
    let base = initial_dim(before.options);
    let clones = before.clones_imu@.len() as int;
    let features = before.features_slam@;
    lemma_feature_runs(features, features.len() as int);
    assert(runs[p] == (gone.id, 6usize));
    assert forall|i: int| 0 <= i < runs.len() && i != p implies (#[trigger] runs[i]).0 + runs[i].1
        <= gone.id || gone.id + 6 <= runs[i].0 by {
        assert(runs[i].0 + runs[i].1 <= runs[p].0 || runs[p].0 + runs[p].1 <= runs[i].0);
    }
    assert forall|k: int| 0 <= k < features.len() implies #[trigger] after.features_slam@[k].id
        >= base && after.features_slam@[k].wf() by {
        assert(runs[p + clones + k] == (features[k].id, features[k].value.len()));
        assert(after.features_slam@[k] == shifted_feature(features[k], gone.id as int, 6));
    }
    lemma_feature_runs(after.features_slam@, features.len() as int);
    let rest = shifted_runs(runs, runs[p]).remove(p);
    assert forall|i: int| 0 <= i < head.len() implies shifted_run(#[trigger] runs[i], gone.id as int, 6)
        == head[i] by {
        lemma_head_before(before, i);
    }
    assert(after.runs() =~= rest) by {
        assert(after.runs().len() == rest.len());
        assert forall|i: int| 0 <= i < rest.len() implies #[trigger] after.runs()[i] == rest[i] by {
            if i < p {
                assert(rest[i] == shifted_run(runs[i], gone.id as int, 6));
            } else {
                assert(rest[i] == shifted_run(runs[i + 1], gone.id as int, 6));
                if i < p + clones - 1 {
                    assert(runs[i + 1] == (before.clones_imu@[i + 1 - p].1.id, 6usize));
                    assert(after.clones_imu@[i - p] == (
                        before.clones_imu@[i - p + 1].0,
                        before.clones_imu@[i - p + 1].1.shifted(gone.id as int, 6),
                    ));
                } else {
                    let k = i - (p + clones - 1);
                    assert(runs[i + 1] == (features[k].id, features[k].value.len()));
                    assert(after.features_slam@[k] == shifted_feature(
                        features[k],
                        gone.id as int,
                        6,
                    ));
                }
            }
        }
    }
    lemma_tiles_remove(runs, n, p);
    assert forall|i: int| 0 <= i < after.clones_imu@.len() implies (#[trigger] after.clones_imu@[i]).1.size
        == 6 && after.clones_imu@[i].1.id >= base by {
        assert(runs[p + i + 1] == (before.clones_imu@[i + 1].1.id, 6usize));
    }
    assert(after.features_unique()) by {
        assert forall|i: int, j: int| 0 <= i < j < features.len() implies (
        #[trigger] after.features_slam@[i]).featid != (#[trigger] after.features_slam@[j]).featid by {
            assert(features[i].featid != features[j].featid);
        }
    }
}

/// The runs of a state's calibration lie before its clones and features.
proof fn lemma_head_before(st: &State, i: int)
    requires
        st.wf(),
        0 <= i < st.runs_before_clones().len(),
    ensures
        st.runs()[i] == st.runs_before_clones()[i],
        st.runs()[i].0 + st.runs()[i].1 <= initial_dim(st.options),
{
    lemma_head_chained(st);
    lemma_chained_covers(st.runs_before_clones(), 0, initial_dim(st.options));
}

/// Whether `after` is `before` without feature `q` and its rows.
pub open spec fn feature_removed(before: &State, after: &State, q: int) -> bool {
    let id = before.features_slam@[q].id as int;
    let size = before.features_slam@[q].value@.len() as int;
    &&& removed(&after.cov, &before.cov, id, size)
    &&& after.timestamp == before.timestamp
    &&& after.options == before.options
    &&& after.imu == before.imu
    &&& after.fixed_renumbered(before, id, size)
    &&& after.clones_imu@.len() == before.clones_imu@.len()
    &&& forall|k: int|
        0 <= k < before.clones_imu@.len() ==> #[trigger] after.clones_imu@[k] == (
        before.clones_imu@[k].0,
        before.clones_imu@[k].1.shifted(id, size))
    &&& after.features_slam@.len() == before.features_slam@.len() - 1
    &&& forall|k: int|
        0 <= k < after.features_slam@.len() ==> #[trigger] after.features_slam@[k]
            == shifted_feature(before.features_slam@[skip(k, q)], id, size)
}

/// The place of entry `k` before entry `q` was taken out of a list.
pub open spec fn skip(k: int, q: int) -> int {
    if k < q {
        k
    } else {
        k + 1
    }
}

/// Every other run of a state lies before or behind a feature's rows.
proof fn lemma_feature_clear(st: &State, q: int)
    requires
        st.wf(),
        0 <= q < st.features_slam@.len(),
    ensures
        forall|k: int|
            0 <= k < st.clones_imu@.len() ==> (#[trigger] st.clones_imu@[k]).1.id + 6
                <= st.features_slam@[q].id || st.features_slam@[q].id
                + st.features_slam@[q].value@.len() <= st.clones_imu@[k].1.id,
        forall|k: int|
            0 <= k < st.features_slam@.len() && k != q ==> (#[trigger] st.features_slam@[k]).id
                + st.features_slam@[k].value@.len() <= st.features_slam@[q].id
                || st.features_slam@[q].id + st.features_slam@[q].value@.len()
                <= st.features_slam@[k].id,
        forall|k: int|
            0 <= k < st.clones_imu@.len() ==> (#[trigger] st.clones_imu@[k]).1.id + 6 <= st.dim(),
        forall|k: int|
            0 <= k < st.features_slam@.len() ==> (#[trigger] st.features_slam@[k]).id
                + st.features_slam@[k].value@.len() <= st.dim(),
        st.runs()[st.runs_before_clones().len() + st.clones_imu@.len() + q] == (
            st.features_slam@[q].id,
            st.features_slam@[q].value.len(),
        ),
{
    let head = st.runs_before_clones().len() as int;
    let clones = st.clones_imu@.len() as int;
    let features = st.features_slam@;
    let runs = st.runs();
    lemma_feature_runs(features, features.len() as int);
    let p = head + clones + q;
    assert(runs[p] == (features[q].id, features[q].value.len()));
    assert forall|k: int| 0 <= k < clones implies (#[trigger] st.clones_imu@[k]).1.id + 6
        <= features[q].id || features[q].id + features[q].value@.len() <= st.clones_imu@[k].1.id by {
        assert(runs[head + k] == (st.clones_imu@[k].1.id, 6usize));
    }
    assert forall|k: int| 0 <= k < clones implies (#[trigger] st.clones_imu@[k]).1.id + 6
        <= st.dim() by {
        assert(runs[head + k] == (st.clones_imu@[k].1.id, 6usize));
    }
    assert forall|k: int| 0 <= k < features.len() && k != q implies (#[trigger] features[k]).id
        + features[k].value@.len() <= features[q].id || features[q].id + features[q].value@.len()
        <= features[k].id by {
        assert(runs[head + clones + k] == (features[k].id, features[k].value.len()));
    }
    assert forall|k: int| 0 <= k < features.len() implies (#[trigger] features[k]).id
        + features[k].value@.len() <= st.dim() by {
        assert(runs[head + clones + k] == (features[k].id, features[k].value.len()));
    }
}

/// Removing a feature keeps the state well-formed.
proof fn lemma_feature_removed_wf(before: &State, after: &State, q: int)
    requires
        before.wf(),
        0 <= q < before.features_slam@.len(),
        feature_removed(before, after, q),
        after.calibration_in_place(),
        after.runs_before_clones() == before.runs_before_clones(),
    ensures
        after.wf(),
{
    let features = before.features_slam@;
    let id = features[q].id as int;
    let size = features[q].value@.len() as int;
    let head = before.runs_before_clones();
    let clones = before.clones_imu@.len() as int;
    let runs = before.runs();
    let p = head.len() + clones + q;
    let base = initial_dim(before.options);
    lemma_feature_clear(before, q);
    lemma_feature_runs(features, features.len() as int);
    assert forall|k: int| 0 <= k < after.features_slam@.len() implies (
    #[trigger] after.features_slam@[k]).wf() && after.features_slam@[k].id >= base by {
        let old_f = features[skip(k, q)];
        assert(after.features_slam@[k] == shifted_feature(old_f, id, size));
    }
    lemma_feature_runs(after.features_slam@, after.features_slam@.len() as int);
    let rest = shifted_runs(runs, runs[p]).remove(p);
    assert(after.runs() =~= rest) by {
        assert(after.runs().len() == rest.len());
        assert forall|i: int| 0 <= i < rest.len() implies #[trigger] after.runs()[i] == rest[i] by {
            assert(rest[i] == shifted_run(runs[skip(i, p)], id, size));
            if i < head.len() {
                lemma_head_before(before, i);
            } else if i < head.len() + clones {
                let k = i - head.len();
                assert(runs[i] == (before.clones_imu@[k].1.id, 6usize));
                assert(after.clones_imu@[k] == (
                    before.clones_imu@[k].0,
                    before.clones_imu@[k].1.shifted(id, size),
                ));
            } else {
                let k = i - head.len() - clones;
                let old_f = features[skip(k, q)];
                assert(runs[skip(i, p)] == (old_f.id, old_f.value.len()));
                assert(after.features_slam@[k] == shifted_feature(old_f, id, size));
            }
        }
    }
    lemma_tiles_remove(runs, before.dim(), p);
    assert(after.features_unique()) by {
        assert forall|i: int, j: int| 0 <= i < j < after.features_slam@.len() implies (
        #[trigger] after.features_slam@[i]).featid != (#[trigger] after.features_slam@[j]).featid by {
            assert(features[skip(i, q)].featid != features[skip(j, q)].featid);
        }
    }
}

/// Whether the rows from `new_id` on stand for the rows from `old_id` on.
pub open spec fn rows_follow(rows: Seq<int>, new_id: int, old_id: int, size: int) -> bool {
    &&& 0 <= new_id
    &&& new_id + size <= rows.len()
    &&& forall|k: int| new_id <= k < new_id + size ==> #[trigger] rows[k] == old_id + k - new_id
}

/// Whether `after` holds, in their order, the rows of `before` that `rows`
/// lists, each variable that stays still on its own rows.
pub open spec fn survives(before: &State, after: &State, rows: Seq<int>) -> bool {
    &&& rows.len() == after.dim()
    &&& forall|i: int| 0 <= i < rows.len() ==> 0 <= #[trigger] rows[i] < before.dim()
    &&& forall|i: int, j: int|
        0 <= i < j < rows.len() ==> #[trigger] rows[i] < #[trigger] rows[j]
    &&& forall|i: int, j: int|
        after.cov.has(i, j) ==> #[trigger] after.cov.at(i, j) == before.cov.at(rows[i], rows[j])
            || after.cov.at(i, j) == before.cov.at(rows[j], rows[i])
    &&& after.timestamp == before.timestamp
    &&& after.options == before.options
    &&& after.calibration_in_place()
    &&& after.clones_imu@.len() == before.clones_imu@.len()
    &&& forall|k: int|
        0 <= k < before.clones_imu@.len() ==> (#[trigger] after.clones_imu@[k]).0
            == before.clones_imu@[k].0 && after.clones_imu@[k].1.size == 6 && rows_follow(
            rows,
            after.clones_imu@[k].1.id as int,
            before.clones_imu@[k].1.id as int,
            6,
        )
}

/// Whether `after` has the features of `before` that `kept` lists, in their order.
#[verifier::opaque]
pub open spec fn features_survive(
    before: &State,
    after: &State,
    rows: Seq<int>,
    kept: Seq<int>,
) -> bool {
    &&& kept.len() == after.features_slam@.len()
    &&& forall|i: int|
        0 <= i < kept.len() ==> 0 <= #[trigger] kept[i] < before.features_slam@.len()
    &&& forall|i: int, j: int|
        0 <= i < j < kept.len() ==> #[trigger] kept[i] < #[trigger] kept[j]
    &&& forall|k: int|
        0 <= k < kept.len() ==> (#[trigger] after.features_slam@[k]) == (Landmark {
            id: after.features_slam@[k].id,
            ..before.features_slam@[kept[k]]
        }) && rows_follow(
            rows,
            after.features_slam@[k].id as int,
            before.features_slam@[kept[k]].id as int,
            before.features_slam@[kept[k]].value@.len() as int,
        )
    &&& forall|r: int|
        0 <= r < before.dim() ==> (#[trigger] rows.contains(r) <==> row_kept(before, kept, r))
}

/// Whether row `r` belongs to no feature outside `kept`.
pub open spec fn row_kept(st: &State, kept: Seq<int>, r: int) -> bool {
    forall|q: int|
        0 <= q < st.features_slam@.len() && feature_has(#[trigger] st.features_slam@[q], r)
            ==> kept.contains(q)
}

/// Whether row `r` belongs to the feature.
pub open spec fn feature_has(l: Landmark, r: int) -> bool {
    l.id <= r < l.id + l.value@.len()
}

/// One more feature removed: the rows and features that stay.
proof fn lemma_drop_feature(
    first: &State,
    before: &State,
    after: &State,
    rows: Seq<int>,
    kept: Seq<int>,
    i: int,
) -> (res: (Seq<int>, Seq<int>))
    requires
        first.wf(),
        before.wf(),
        survives(first, before, rows),
        features_survive(first, before, rows, kept),
        0 <= i < before.features_slam@.len(),
        feature_removed(before, after, i),
        after.calibration_in_place(),
    ensures
        res.1 == kept.remove(i),
        survives(first, after, res.0),
        features_survive(first, after, res.0, res.1),
{
    reveal(features_survive);
    let id = before.features_slam@[i].id as int;
    let size = before.features_slam@[i].value@.len() as int;
    let q = kept[i];
    let n = before.dim();
    let fewer = Seq::new((n - size) as nat, |k: int| rows[row_before(k, id, size)]);
    let rest = kept.remove(i);
    lemma_feature_clear(before, i);
    assert(before.features_slam@[i].value == first.features_slam@[q].value);
    assert(rows_follow(rows, id, first.features_slam@[q].id as int, size));
    assert forall|k: int| 0 <= k < before.clones_imu@.len() implies rows_follow(
        fewer,
        (#[trigger] after.clones_imu@[k]).1.id as int,
        first.clones_imu@[k].1.id as int,
        6,
    ) by {
        let v = before.clones_imu@[k].1;
        assert(after.clones_imu@[k].1 == v.shifted(id, size));
        assert(rows_follow(rows, v.id as int, first.clones_imu@[k].1.id as int, 6));
    }
    assert forall|k: int| 0 <= k < rest.len() implies (#[trigger] after.features_slam@[k]) == (
    Landmark { id: after.features_slam@[k].id, ..first.features_slam@[rest[k]] }) && rows_follow(
        fewer,
        after.features_slam@[k].id as int,
        first.features_slam@[rest[k]].id as int,
        first.features_slam@[rest[k]].value@.len() as int,
    ) by {
        let m = skip(k, i);
        let f = before.features_slam@[m];
        assert(rest[k] == kept[m]);
        assert(after.features_slam@[k] == shifted_feature(f, id, size));
        assert(rows_follow(
            rows,
            f.id as int,
            first.features_slam@[kept[m]].id as int,
            f.value@.len() as int,
        ));
    }
    assert forall|r: int| 0 <= r < first.dim() implies (#[trigger] fewer.contains(r) <==> row_kept(
        first,
        rest,
        r,
    )) by {
        assert(rows.contains(r) <==> row_kept(first, kept, r));
        if fewer.contains(r) {
            let k = choose|k: int| 0 <= k < fewer.len() && fewer[k] == r;
            let m = row_before(k, id, size);
            assert(rows[m] == r);
            assert(rows.contains(r));
            assert forall|p: int|
                0 <= p < first.features_slam@.len() && feature_has(
                    #[trigger] first.features_slam@[p],
                    r,
                ) implies rest.contains(p) by {
                assert(kept.contains(p));
                let w = choose|w: int| 0 <= w < kept.len() && kept[w] == p;
                if w == i {
                    let t = id + r - first.features_slam@[q].id;
                    assert(rows[t] == r);
                    assert(m < t ==> rows[m] < rows[t]);
                    assert(t < m ==> rows[t] < rows[m]);
                    assert(false);
                }
                let u = if w < i {
                    w
                } else {
                    w - 1
                };
                assert(rest[u] == p);
            }
        }
        if row_kept(first, rest, r) {
            assert forall|p: int|
                0 <= p < first.features_slam@.len() && feature_has(
                    #[trigger] first.features_slam@[p],
                    r,
                ) implies kept.contains(p) by {
                assert(rest.contains(p));
                let w = choose|w: int| 0 <= w < rest.len() && rest[w] == p;
                assert(kept[skip(w, i)] == p);
            }
            assert(row_kept(first, kept, r));
            assert(rows.contains(r));
            let m = choose|m: int| 0 <= m < rows.len() && rows[m] == r;
            if id <= m < id + size {
                assert(rows[m] == first.features_slam@[q].id + m - id);
                assert(feature_has(first.features_slam@[q], r));
                assert(rest.contains(q));
                let w = choose|w: int| 0 <= w < rest.len() && rest[w] == q;
                let v = skip(w, i);
                assert(kept[v] == q);
                assert(v < i ==> kept[v] < kept[i]);
                assert(i < v ==> kept[i] < kept[v]);
                assert(false);
            }
            let k = if m < id {
                m
            } else {
                m - size
            };
            assert(fewer[k] == r);
        }
    }
    (fewer, rest)
}

/// Takes feature `i` and its rows out of the state.
fn remove_feature(state: &mut State, i: usize)
    requires
        old(state).wf(),
        old(state).dim() * old(state).dim() <= usize::MAX,
        i < old(state).features_slam@.len(),
    ensures
        final(state).wf(),
        feature_removed(old(state), final(state), i as int),
{
    let ghost before = *state;
    proof {
        lemma_feature_clear(&before, i as int);
    }
    let lm = state.features_slam.remove(i);
    marginalize(state, lm.id, lm.size());
    proof {
        lemma_calibration_stays(&before, state, lm.id as int, lm.value@.len() as int);
        lemma_feature_removed_wf(&before, state, i as int);
    }
}

/// Lets every feature go that is marked to leave. The others keep their order,
/// their records and their rows.
pub fn marginalize_slam(state: &mut State)
    requires
        old(state).wf(),
        old(state).dim() * old(state).dim() <= usize::MAX,
    ensures
        final(state).wf(),
        exists|rows: Seq<int>, kept: Seq<int>| #[trigger]
            features_marginalized(old(state), final(state), rows, kept),
{
    let ghost first = *state;
    let ghost mut rows: Seq<int> = Seq::empty();
    let ghost mut kept: Seq<int> = Seq::empty();
    let mut i: usize = 0;
    proof {
        let all = lemma_all_survive(&first);
        rows = all.0;
        kept = all.1;
    }
    while i < state.features_slam.len()
        invariant
            i <= state.features_slam@.len(),
            first == *old(state),
            first.wf(),
            first.dim() * first.dim() <= usize::MAX,
            state.wf(),
            state.dim() <= first.dim(),
            survives(&first, state, rows),
            features_survive(&first, state, rows, kept),
            forall|k: int| 0 <= k < i ==> !first.features_slam@[#[trigger] kept[k]].should_marg,
            forall|q: int|
                0 <= q < first.features_slam@.len() && !(#[trigger] first.features_slam@[q]).should_marg
                    ==> kept.contains(q),
        decreases state.features_slam@.len() - i,
    {
        proof {
            lemma_same_mark(&first, state, rows, kept, i as int);
        }
        if state.features_slam[i].should_marg {
            let ghost before = *state;
            proof {
                before.cov.lemma_shape();
                lemma_block_fits(before.dim(), before.dim(), first.dim());
            }
            remove_feature(state, i);
            proof {
                let res = lemma_drop_feature(&first, &before, state, rows, kept, i as int);
                lemma_unmarked_kept(&first, kept, i as int);
                rows = res.0;
                kept = res.1;
            }
        } else {
            i += 1;
        }
    }
    proof {
        lemma_marked_gone(&first, state, rows, kept);
    }
}

/// A feature that survives keeps its mark.
proof fn lemma_same_mark(first: &State, last: &State, rows: Seq<int>, kept: Seq<int>, i: int)
    requires
        features_survive(first, last, rows, kept),
        0 <= i < last.features_slam@.len(),
    ensures
        kept.len() == last.features_slam@.len(),
        last.features_slam@[i].should_marg == first.features_slam@[kept[i]].should_marg,
{
    reveal(features_survive);
}

/// Taking a marked feature off the list keeps the unmarked ones on it.
proof fn lemma_unmarked_kept(first: &State, kept: Seq<int>, i: int)
    requires
        0 <= i < kept.len(),
        first.features_slam@[kept[i]].should_marg,
        forall|q: int|
            0 <= q < first.features_slam@.len() && !(#[trigger] first.features_slam@[q]).should_marg
                ==> kept.contains(q),
    ensures
        forall|q: int|
            0 <= q < first.features_slam@.len() && !(#[trigger] first.features_slam@[q]).should_marg
                ==> kept.remove(i).contains(q),
{
    assert forall|q: int|
        0 <= q < first.features_slam@.len() && !(
        #[trigger] first.features_slam@[q]).should_marg implies kept.remove(i).contains(q) by {
        assert(kept.contains(q));
        let w = choose|w: int| 0 <= w < kept.len() && kept[w] == q;
        let u = if w < i {
            w
        } else {
            w - 1
        };
        assert(kept.remove(i)[u] == q);
    }
}

/// Once no marked feature is on the list, exactly the unmarked ones are.
proof fn lemma_marked_gone(first: &State, last: &State, rows: Seq<int>, kept: Seq<int>)
    requires
        survives(first, last, rows),
        features_survive(first, last, rows, kept),
        forall|k: int|
            0 <= k < last.features_slam@.len() ==> !first.features_slam@[#[trigger] kept[k]].should_marg,
        forall|q: int|
            0 <= q < first.features_slam@.len() && !(#[trigger] first.features_slam@[q]).should_marg
                ==> kept.contains(q),
    ensures
        features_marginalized(first, last, rows, kept),
{
    reveal(features_survive);
    assert forall|q: int| 0 <= q < first.features_slam@.len() implies (#[trigger] kept.contains(q)
        <==> !first.features_slam@[q].should_marg) by {
        if kept.contains(q) {
            let w = choose|w: int| 0 <= w < kept.len() && kept[w] == q;
            assert(!first.features_slam@[kept[w]].should_marg);
        }
    }
}

/// In a state that nothing left, all rows and features survive.
proof fn lemma_all_survive(st: &State) -> (all: (Seq<int>, Seq<int>))
    requires
        st.wf(),
    ensures
        survives(st, st, all.0),
        features_survive(st, st, all.0, all.1),
        forall|q: int|
            0 <= q < st.features_slam@.len() && !(#[trigger] st.features_slam@[q]).should_marg
                ==> all.1.contains(q),
{
    reveal(features_survive);
    let rows: Seq<int> = Seq::new(st.dim() as nat, |k: int| k);
    let kept: Seq<int> = Seq::new(st.features_slam@.len(), |k: int| k);
    st.cov.lemma_shape();
    let head = st.runs_before_clones().len() as int;
    let clones = st.clones_imu@.len() as int;
    let features = st.features_slam@;
    lemma_feature_runs(features, features.len() as int);
    assert forall|k: int| 0 <= k < clones implies (#[trigger] st.clones_imu@[k]).1.id + 6
        <= st.dim() by {
        assert(st.runs()[head + k] == (st.clones_imu@[k].1.id, 6usize));
    }
    assert forall|k: int| 0 <= k < features.len() implies (#[trigger] features[k]).id
        + features[k].value@.len() <= st.dim() by {
        assert(st.runs()[head + clones + k] == (features[k].id, features[k].value.len()));
    }
    assert forall|r: int| 0 <= r < st.dim() implies #[trigger] rows.contains(r) by {
        assert(rows[r] == r);
    }
    assert forall|q: int| 0 <= q < features.len() implies #[trigger] kept.contains(q) by {
        assert(kept[q] == q);
    }
    (rows, kept)
}

/// Whether `after` is `before` without the features that are marked to leave:
/// `kept` lists the others, and `rows` the rows that none of those gone owned.
pub open spec fn features_marginalized(
    before: &State,
    after: &State,
    rows: Seq<int>,
    kept: Seq<int>,
) -> bool {
    &&& survives(before, after, rows)
    &&& features_survive(before, after, rows, kept)
    &&& forall|q: int|
        0 <= q < before.features_slam@.len() ==> (#[trigger] kept.contains(q)
            <==> !before.features_slam@[q].should_marg)
}

/// Entry `(i, j)` of a covariance of `n` rows that was extended by a variable
/// with cross covariance `cross` and covariance `own`.
pub open spec fn extended(cov: &Matrix, cross: &Matrix, own: &Matrix, n: int, i: int, j: int) -> Double {
    if i < n && j < n {
        cov.at(i, j)
    } else if i < n {
        cross.at(i, j - n)
    } else if j < n {
        cross.at(j, i - n)
    } else {
        own.at(i - n, j - n)
    }
}

/// Whether a feature joined a state, at the end of the covariance. A feature with
/// the same number is replaced in the list.
pub open spec fn feature_entered(
    before: &State,
    after: &State,
    landmark: Landmark,
    cross: &Matrix,
    own: &Matrix,
) -> bool {
    let n = before.dim();
    let d = landmark.value@.len() as int;
    let placed = Landmark { id: n as i32, ..landmark };
    &&& *after == (State { cov: after.cov, features_slam: after.features_slam, ..*before })
    &&& after.cov.shaped(n + d, n + d)
    &&& forall|i: int, j: int|
        after.cov.has(i, j) ==> #[trigger] after.cov.at(i, j) == extended(
            &before.cov,
            cross,
            own,
            n,
            i,
            j,
        )
    &&& !feature_known(before, landmark.featid) ==> after.wf() && after.features_slam@
        == before.features_slam@.push(placed)
    &&& feature_known(before, landmark.featid) ==> exists|q: int|
        0 <= q < before.features_slam@.len() && (#[trigger] before.features_slam@[q]).featid
            == landmark.featid && after.features_slam@ == before.features_slam@.update(q, placed)
}

/// Adds a feature to the end of the covariance, unless the residual of its
/// measurements is too large: `chi2` must not exceed `threshold`. A feature with
/// the same number is replaced in the list. Tells whether the feature was added.
pub fn enter_feature(
    state: &mut State,
    landmark: Landmark,
    chi2: Double,
    threshold: Double,
    cross: &Matrix,
    own: &Matrix,
) -> (added: bool)
    requires
        old(state).wf(),
        landmark.wf(),
        cross.shaped(old(state).dim(), landmark.value@.len() as int),
        own.shaped(landmark.value@.len() as int, landmark.value@.len() as int),
        old(state).dim() + 3 <= i32::MAX,
        (old(state).dim() + 3) * (old(state).dim() + 3) <= usize::MAX,
    ensures
        added == !threshold.spec_lt(chi2),
        !added ==> *final(state) == *old(state),
        added ==> feature_entered(old(state), final(state), landmark, cross, own),
{
    if threshold.lt(chi2) {
        return false;
    }
    let ghost before = *state;
    let n: usize = state.cov.nrows();
    let d: usize = landmark.size();
    proof {
        lemma_block_fits(n + d, n + d, n + 3);
    }
    let mut cov = Matrix::filled(n + d, n + d, Double::zero());
    let lower = cross.transpose();
    cov.set_block(0, 0, &state.cov);
    cov.set_block(0, n, cross);
    cov.set_block(n, 0, &lower);
    cov.set_block(n, n, own);
    assert forall|i: int, j: int| cov.has(i, j) implies #[trigger] cov.at(i, j) == extended(
        &before.cov,
        cross,
        own,
        n as int,
        i,
        j,
    ) by {
        assert(before.cov.has(i, j) <==> i < n && j < n);
        assert(cross.has(i, j - n) <==> i < n && j >= n);
        assert(lower.has(i - n, j) <==> i >= n && j < n);
        assert(own.has(i - n, j - n) <==> i >= n && j >= n);
    }
    state.cov = cov;
    let mut placed = landmark;
    placed.set_local_id(n as i32);
    let mut q: usize = 0;
    while q < state.features_slam.len()
        invariant
            q <= state.features_slam@.len(),
            state.features_slam == before.features_slam,
            forall|k: int|
                0 <= k < q ==> (#[trigger] before.features_slam@[k]).featid != placed.featid,
        ensures
            state.features_slam == before.features_slam,
            q <= before.features_slam@.len(),
            q < before.features_slam@.len() ==> before.features_slam@[q as int].featid
                == placed.featid,
            forall|k: int|
                0 <= k < q ==> (#[trigger] before.features_slam@[k]).featid != placed.featid,
        decreases state.features_slam@.len() - q,
    {
        if state.features_slam[q].featid == placed.featid {
            break;
        }
        q += 1;
    }
    if q < state.features_slam.len() {
        state.features_slam.set(q, placed);
        assert(feature_known(&before, landmark.featid));
    } else {
        assert(!feature_known(&before, landmark.featid));
        state.features_slam.push(placed);
        proof {
            let pos = before.runs().len() as int;
            lemma_feature_runs(before.features_slam@, before.features_slam@.len() as int);
            lemma_feature_runs(state.features_slam@, state.features_slam@.len() as int);
            assert(state.runs_before_clones() == before.runs_before_clones());
            assert(state.runs() =~= before.runs().insert(pos, (n as i32, d)));
            lemma_tiles_insert(before.runs(), n as int, pos, (n as i32, d));
        }
    }
    true
}

/// Whether a feature with the given number is in the state.
pub open spec fn feature_known(st: &State, featid: usize) -> bool {
    exists|q: int| 0 <= q < st.features_slam@.len() && (#[trigger] st.features_slam@[q]).featid == featid
}

/// Whether `k` is the first diagonal entry that is negative or no number.
pub open spec fn first_bad(m: &Matrix, k: int) -> bool {
    &&& 0 <= k < m.height()
    &&& !(Double { bits: 0 }).spec_le(m.at(k, k))
    &&& forall|i: int| 0 <= i < k ==> (Double { bits: 0 }).spec_le(#[trigger] m.at(i, i))
}

/// Whether no diagonal entry is negative or no number.
pub open spec fn all_good(m: &Matrix) -> bool {
    forall|i: int| 0 <= i < m.height() ==> (Double { bits: 0 }).spec_le(#[trigger] m.at(i, i))
}

/// The first diagonal entry that is negative or no number, if there is one.
pub fn check_diagonal(m: &Matrix) -> (res: Result<(), usize>)
    requires
        m.shaped(m.height(), m.height()),
    ensures
        match res {
            Ok(_) => all_good(m),
            Err(k) => first_bad(m, k as int),
        },
{
    let n: usize = m.nrows();
    let mut i: usize = 0;
    while i < n
        invariant
            i <= n,
            m.shaped(n as int, n as int),
            forall|k: int| 0 <= k < i ==> (Double { bits: 0 }).spec_le(#[trigger] m.at(k, k)),
        decreases n - i,
    {
        let v = m.get(i, i);
        if !Double::zero().le(v) {
            return Err(i);
        }
        i += 1;
    }
    Ok(())
}

/// Entry `(i, j)` after the rows and columns from `s` on, `m` of them, were
/// replaced: `cross` holds the columns, `own` the block on the diagonal.
pub open spec fn replaced(
    cov: &Matrix,
    cross: &Matrix,
    own: &Matrix,
    s: int,
    m: int,
    i: int,
    j: int,
) -> Double {
    let row_in = s <= i < s + m;
    let col_in = s <= j < s + m;
    if row_in && col_in {
        own.at(i - s, j - s)
    } else if col_in {
        cross.at(i, j - s)
    } else if row_in {
        cross.at(j, i - s)
    } else {
        cov.at(i, j)
    }
}

/// Writes a propagated covariance back. `cov_phi_t` is the covariance times the
/// transposed transition, `phi_cov_phi_t` the propagated block itself; both are
/// laid out by the listed variables, which start at the first of them. Fails
/// with the first diagonal entry that is not at least zero.
pub fn write_propagation(
    state: &mut State,
    order_new: &Vec<(i32, usize)>,
    cov_phi_t: &Matrix,
    phi_cov_phi_t: &Matrix,
) -> (res: Result<(), usize>)
    requires
        old(state).cov.shaped(old(state).dim(), old(state).dim()),
        order_new@.len() > 0,
        order_new@[0].0 >= 0,
        order_new@[0].0 + column(order_new@, order_new@.len() as int) <= old(state).dim(),
        cov_phi_t.shaped(old(state).dim(), column(order_new@, order_new@.len() as int)),
        phi_cov_phi_t.shaped(
            column(order_new@, order_new@.len() as int),
            column(order_new@, order_new@.len() as int),
        ),
    ensures
        *final(state) == (State { cov: final(state).cov, ..*old(state) }),
        final(state).cov.shaped(old(state).dim(), old(state).dim()),
        forall|i: int, j: int|
            old(state).cov.has(i, j) ==> #[trigger] final(state).cov.at(i, j) == replaced(
                &old(state).cov,
                cov_phi_t,
                phi_cov_phi_t,
                order_new@[0].0 as int,
                column(order_new@, order_new@.len() as int),
                i,
                j,
            ),
        match res {
            Ok(_) => all_good(&final(state).cov),
            Err(k) => first_bad(&final(state).cov, k as int),
        },
{
    let start: usize = order_new[0].0 as usize;
    let ghost before = state.cov;
    let ghost m = column(order_new@, order_new@.len() as int);
    let rows = cov_phi_t.transpose();
    state.cov.set_block(start, 0, &rows);
    state.cov.set_block(0, start, cov_phi_t);
    state.cov.set_block(start, start, phi_cov_phi_t);
    assert forall|i: int, j: int| before.has(i, j) implies #[trigger] state.cov.at(i, j) == replaced(
        &before,
        cov_phi_t,
        phi_cov_phi_t,
        start as int,
        m,
        i,
        j,
    ) by {
        assert(rows.has(i - start, j) <==> start <= i < start + m);
        assert(cov_phi_t.has(i, j - start) <==> start <= j < start + m);
        assert(phi_cov_phi_t.has(i - start, j - start) <==> start <= i < start + m && start <= j < start
            + m);
    }
    check_diagonal(&state.cov)
}

/// Stacks one block of rows for each variable of the state, each on the
/// variable's own rows.
pub fn stack_rows(state: &State, blocks: &Vec<Matrix>, cols: usize) -> (m: Matrix)
    requires
        state.wf(),
        blocks@.len() == state.runs().len(),
        forall|v: int|
            0 <= v < blocks@.len() ==> (#[trigger] blocks@[v]).shaped(
                state.runs()[v].1 as int,
                cols as int,
            ),
        state.dim() * cols <= usize::MAX,
    ensures
        m.shaped(state.dim(), cols as int),
        forall|v: int, x: int, y: int|
            0 <= v < blocks@.len() && 0 <= x < state.runs()[v].1 && 0 <= y < cols
                ==> #[trigger] stacked(&m, state.runs(), v, x, y) == blocks@[v].at(x, y),
{
    let order = state.variable_order();
    let n: usize = state.cov.nrows();
    let mut m = Matrix::filled(n, cols, Double::zero());
    let mut v: usize = 0;
    while v < order.len()
        invariant
            v <= order@.len(),
            order@ == state.runs(),
            state.wf(),
            n == state.dim(),
            blocks@.len() == order@.len(),
            forall|w: int|
                0 <= w < blocks@.len() ==> (#[trigger] blocks@[w]).shaped(
                    order@[w].1 as int,
                    cols as int,
                ),
            m.shaped(n as int, cols as int),
            forall|w: int, x: int, y: int|
                0 <= w < v && 0 <= x < order@[w].1 && 0 <= y < cols ==> #[trigger] stacked(
                    &m,
                    order@,
                    w,
                    x,
                    y,
                ) == blocks@[w].at(x, y),
        decreases order@.len() - v,
    {
        let ghost before = m;
        let ghost runs = order@;
        assert(blocks@[v as int].shaped(runs[v as int].1 as int, cols as int));
        assert(tiles(runs, n as int));
        m.set_block(order[v].0 as usize, 0, &blocks[v]);
        assert forall|w: int, x: int, y: int|
            0 <= w < v + 1 && 0 <= x < runs[w].1 && 0 <= y < cols implies #[trigger] stacked(
            &m,
            runs,
            w,
            x,
            y,
        ) == blocks@[w].at(x, y) by {
            let row = runs[w].0 + x;
            assert(before.has(row, y));
            if w < v {
                assert(stacked(&before, runs, w, x, y) == blocks@[w].at(x, y));
                assert(!blocks@[v as int].has(row - runs[v as int].0, y));
            } else {
                assert(blocks@[w].has(x, y));
            }
        }
        v += 1;
    }
    m
}

/// The entry of a stack for row `x` of variable `v` and column `y`.
pub open spec fn stacked(m: &Matrix, runs: Seq<Run>, v: int, x: int, y: int) -> Double {
    m.at(runs[v].0 + x, y)
}

/// Puts an updated covariance in place. Fails with the first diagonal entry that
/// is not at least zero.
pub fn write_update(state: &mut State, cov: Matrix) -> (res: Result<(), usize>)
    requires
        old(state).wf(),
        cov.shaped(old(state).dim(), old(state).dim()),
    ensures
        *final(state) == (State { cov, ..*old(state) }),
        final(state).wf(),
        match res {
            Ok(_) => all_good(&cov),
            Err(k) => first_bad(&cov, k as int),
        },
{
    let ghost before = *state;
    state.cov = cov;
    assert(state.runs() =~= before.runs());
    check_diagonal(&state.cov)
}

/// Whether a state has the time, the options, the window and the cameras of another.
pub open spec fn same_window(before: &State, after: &State) -> bool {
    &&& after.timestamp == before.timestamp
    &&& after.options == before.options
    &&& after.clones_imu == before.clones_imu
    &&& after.calib_imu_to_cam == before.calib_imu_to_cam
    &&& after.cam_intrinsics == before.cam_intrinsics
}

/// The window never grows beyond its limit: a clone is added and, if that is
/// one too many, the oldest leaves.
pub proof fn law_window_stays_bounded(before: &State, after: &State)
    requires
        before.clones_imu@.len() <= before.options.max_clone_size + 1,
        before.clones_imu@.len() <= before.options.max_clone_size ==> *after == *before,
        before.clones_imu@.len() > before.options.max_clone_size ==> window_slid(before, after),
    ensures
        after.clones_imu@.len() <= after.options.max_clone_size,
        after.clones_imu@.len() <= before.options.max_clone_size,
{
}

/// Removing the clone that was just added gives back the covariance.
pub proof fn law_removal_undoes_clone(cov: &Matrix, cloned: &Matrix, back: &Matrix, pose: int)
    requires
        cov.shaped(cov.height(), cov.height()),
        0 <= pose,
        pose + 6 <= cov.height(),
        cloned.shaped(cov.height() + 6, cov.height() + 6),
        forall|i: int, j: int|
            cloned.has(i, j) ==> #[trigger] cloned.at(i, j) == cov.at(
                cloned_row(i, cov.height(), pose),
                cloned_row(j, cov.height(), pose),
            ),
        removed(back, cloned, cov.height(), 6),
    ensures
        back.same(cov),
{
    assert forall|i: int, j: int| back.has(i, j) implies #[trigger] back.at(i, j) == cov.at(i, j) by {
        assert(cloned.has(i, j));
        assert(cloned.at(i, j) == cov.at(i, j));
    }
}

/// Whether a matrix equals its transpose.
pub open spec fn symmetric(m: &Matrix) -> bool {
    forall|i: int, j: int| m.has(i, j) ==> #[trigger] m.at(i, j) == m.at(j, i)
}

/// Removing a variable from a symmetric covariance keeps it symmetric, and keeps
/// every entry between the variables that stay.
pub proof fn law_removal_keeps_symmetry(cov: &Matrix, small: &Matrix, id: int, size: int)
    requires
        cov.shaped(cov.height(), cov.height()),
        symmetric(cov),
        0 <= id,
        0 <= size,
        id + size <= cov.height(),
        removed(small, cov, id, size),
    ensures
        symmetric(small),
        forall|i: int, j: int|
            small.has(i, j) ==> #[trigger] small.at(i, j) == cov.at(
                row_before(i, id, size),
                row_before(j, id, size),
            ),
{
    assert forall|i: int, j: int| small.has(i, j) implies #[trigger] small.at(i, j) == cov.at(
        row_before(i, id, size),
        row_before(j, id, size),
    ) by {
        let a = row_before(i, id, size);
        let b = row_before(j, id, size);
        assert(cov.has(a, b) && cov.has(b, a));
        assert(cov.at(a, b) == cov.at(b, a));
    }
    assert forall|i: int, j: int| small.has(i, j) implies #[trigger] small.at(i, j) == small.at(j, i) by {
        let a = row_before(i, id, size);
        let b = row_before(j, id, size);
        assert(small.has(j, i));
        assert(small.at(i, j) == cov.at(a, b));
        assert(small.at(j, i) == cov.at(b, a));
        assert(cov.has(a, b));
        assert(cov.at(a, b) == cov.at(b, a));
    }
}

/// Adding a clone to a symmetric covariance keeps it symmetric.
pub proof fn law_clone_keeps_symmetry(cov: &Matrix, cloned: &Matrix, pose: int)
    requires
        cov.shaped(cov.height(), cov.height()),
        symmetric(cov),
        0 <= pose,
        pose + 6 <= cov.height(),
        cloned.shaped(cov.height() + 6, cov.height() + 6),
        forall|i: int, j: int|
            cloned.has(i, j) ==> #[trigger] cloned.at(i, j) == cov.at(
                cloned_row(i, cov.height(), pose),
                cloned_row(j, cov.height(), pose),
            ),
    ensures
        symmetric(cloned),
{
    let n = cov.height();
    assert forall|i: int, j: int| cloned.has(i, j) implies #[trigger] cloned.at(i, j) == cloned.at(
        j,
        i,
    ) by {
        let a = cloned_row(i, n, pose);
        let b = cloned_row(j, n, pose);
        assert(cloned.has(j, i));
        assert(cov.has(a, b));
        assert(cov.at(a, b) == cov.at(b, a));
    }
}

/// Reading the blocks of variables that do not overlap gives back the symmetric
/// covariance that was written to them, wherever half of twice a number is that
/// number.
pub proof fn law_read_gives_back_write(
    cov: &Matrix,
    small: &Matrix,
    after: &Matrix,
    read: &Matrix,
    order: Seq<Run>,
    op: Ring,
)
    requires
        cov.shaped(cov.height(), cov.height()),
        in_rows(order, cov.height()),
        forall|i: int, j: int|
            0 <= i < j < order.len() ==> (#[trigger] order[i]).0 + order[i].1 <= (
            #[trigger] order[j]).0 || order[j].0 + order[j].1 <= order[i].0,
        small.shaped(small.height(), small.height()),
        column(order, order.len() as int) <= small.height(),
        forall|p: int, q: int| small.has(p, q) ==> #[trigger] small.at(p, q) == small.at(q, p),
        forall|p: int, q: int|
            small.has(p, q) ==> symmetric_part(entries(small), op)(p, q) == #[trigger] small.at(
                p,
                q,
            ),
        is(
            after,
            cov.height(),
            cov.height(),
            symmetric_part(scattered_entries(cov, small, order), op),
        ),
        gathers(read, after, order),
    ensures
        forall|a: int, b: int, x: int, y: int|
            0 <= a < order.len() && 0 <= b < order.len() && 0 <= x < order[a].1 && 0 <= y
                < order[b].1 ==> #[trigger] gathered(read, order, a, b, x, y) == small.at(
                column(order, a) + x,
                column(order, b) + y,
            ),
{
    assert forall|a: int, b: int, x: int, y: int|
        0 <= a < order.len() && 0 <= b < order.len() && 0 <= x < order[a].1 && 0 <= y
            < order[b].1 implies #[trigger] gathered(read, order, a, b, x, y) == small.at(
        column(order, a) + x,
        column(order, b) + y,
    ) by {
        let r = order[a].0 + x;
        let c = order[b].0 + y;
        let p = column(order, a) + x;
        let q = column(order, b) + y;
        assert(cov.has(r, c));
        lemma_only_holder(order, order.len() as int, a, r);
        lemma_only_holder(order, order.len() as int, b, c);
        assert(gathered(read, order, a, b, x, y) == after.at(r, c));
        assert(after.has(r, c));
        let e = scattered_entries(cov, small, order);
        assert(e(r, c) == small.at(p, q));
        assert(e(c, r) == small.at(q, p));
        lemma_column_monotonic(order, a + 1, order.len() as int);
        lemma_column_monotonic(order, b + 1, order.len() as int);
        lemma_column_monotonic(order, 0, a);
        lemma_column_monotonic(order, 0, b);
        assert(small.has(p, q));
        assert(symmetric_part(entries(small), op)(p, q) == small.at(p, q));
    }
}

/// Among runs that do not overlap, a row's holder is the run that has it.
proof fn lemma_only_holder(order: Seq<Run>, len: int, a: int, r: int)
    requires
        0 <= a < len <= order.len(),
        run_has(order[a], r),
        forall|i: int, j: int|
            0 <= i < j < order.len() ==> (#[trigger] order[i]).0 + order[i].1 <= (
            #[trigger] order[j]).0 || order[j].0 + order[j].1 <= order[i].0,
    ensures
        last_holder(order, len, r) == a,
    decreases len,
{
    if len - 1 != a {
        assert(order[a].0 + order[a].1 <= order[len - 1].0 || order[len - 1].0 + order[len - 1].1
            <= order[a].0);
        lemma_only_holder(order, len - 1, a, r);
    }
}

} // verus!
