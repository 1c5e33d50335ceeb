//! Propagation and update of the covariance.
//!
//! A list of runs says which rows of the covariance the columns of a derivative
//! stand for.

use vstd::prelude::*;

use crate::algebra::{
    add_matrices, apply_inverse, col_of, dot, entries, flipped, inverse_of, inverts, is,
    law_symmetric_part_is_symmetric,
    lemma_dot_same, lemma_product, list_of, multiply, negate, negation, nothing, product, ring,
    row_of, sum_of, symmetric_part, symmetrize, transform, unit, Ring,
};
use crate::arith::{apply_two, binary};
use crate::double::Double;
use crate::matrix::Matrix;
use crate::vio::state::{Run, State};
use crate::vio::state_helper::{
    all_good, column, first_bad, gathered, gathers, get_marginal_covariance, in_rows,
    lemma_column_monotonic, order_columns, symmetric, write_propagation, write_update,
};

verus! {

/// A list of numbers from place `by` on.
pub open spec fn shifted(f: spec_fn(int) -> Double, by: int) -> spec_fn(int) -> Double {
    |k: int| f(by + k)
}

/// The sum, over the first `n` variables, of a row of the covariance times a row
/// of a derivative.
pub open spec fn spread(
    cov: spec_fn(int, int) -> Double,
    h: spec_fn(int, int) -> Double,
    order: Seq<Run>,
    op: Ring,
    i: int,
    j: int,
    n: int,
) -> Double
    decreases n,
{
    if n <= 0 {
        Double { bits: 0 }
    } else {
        (op.plus)(
            spread(cov, h, order, op, i, j, n - 1),
            dot(
                shifted(row_of(cov, i), order[n - 1].0 as int),
                shifted(row_of(h, j), column(order, n - 1)),
                op,
                order[n - 1].1 as int,
            ),
        )
    }
}

/// The covariance of the whole state with what a derivative measures: the columns
/// of the covariance that the derivative stands for, times its transpose.
pub open spec fn covariance_with(
    cov: spec_fn(int, int) -> Double,
    h: spec_fn(int, int) -> Double,
    order: Seq<Run>,
    op: Ring,
) -> spec_fn(int, int) -> Double {
    |i: int, j: int| spread(cov, h, order, op, i, j, order.len() as int)
}

/// The sum of products of two stretches of rows.
fn dot_rows<P: Fn(Double, Double) -> Double, T: Fn(Double, Double) -> Double>(
    a: &Matrix,
    i: usize,
    left: usize,
    b: &Matrix,
    j: usize,
    right: usize,
    n: usize,
    plus: &P,
    times: &T,
) -> (sum: Double)
    requires
        a.wf(),
        b.wf(),
        i < a.height(),
        j < b.height(),
        left + n <= a.width(),
        right + n <= b.width(),
        binary(*plus),
        binary(*times),
    ensures
        sum == dot(
            shifted(row_of(entries(a), i as int), left as int),
            shifted(row_of(entries(b), j as int), right as int),
            ring(*plus, *times),
            n as int,
        ),
{
    let ghost op = ring(*plus, *times);
    let ghost f = shifted(row_of(entries(a), i as int), left as int);
    let ghost g = shifted(row_of(entries(b), j as int), right as int);
    proof {
        a.lemma_shape();
        b.lemma_shape();
    }
    let mut sum = Double::zero();
    let mut k: usize = 0;
    while k < n
        invariant
            k <= n,
            a.wf(),
            b.wf(),
            i < a.height(),
            j < b.height(),
            left + n <= a.width() <= usize::MAX,
            right + n <= b.width() <= usize::MAX,
            binary(*plus),
            binary(*times),
            op == ring(*plus, *times),
            f == shifted(row_of(entries(a), i as int), left as int),
            g == shifted(row_of(entries(b), j as int), right as int),
            sum == dot(f, g, op, k as int),
        decreases n - k,
    {
        let t = apply_two(times, a.get(i, left + k), b.get(j, right + k));
        assert(a.at(i as int, left + k) == f(k as int));
        assert(b.at(j as int, right + k) == g(k as int));
        sum = apply_two(plus, sum, t);
        k += 1;
    }
    sum
}

/// The sum of products of a stretch of a row and a stretch of a column.
fn dot_row_col<P: Fn(Double, Double) -> Double, T: Fn(Double, Double) -> Double>(
    a: &Matrix,
    i: usize,
    left: usize,
    b: &Matrix,
    top: usize,
    j: usize,
    n: usize,
    plus: &P,
    times: &T,
) -> (sum: Double)
    requires
        a.wf(),
        b.wf(),
        i < a.height(),
        j < b.width(),
        left + n <= a.width(),
        top + n <= b.height(),
        binary(*plus),
        binary(*times),
    ensures
        sum == dot(
            shifted(row_of(entries(a), i as int), left as int),
            shifted(col_of(entries(b), j as int), top as int),
            ring(*plus, *times),
            n as int,
        ),
{
    let ghost op = ring(*plus, *times);
    let ghost f = shifted(row_of(entries(a), i as int), left as int);
    let ghost g = shifted(col_of(entries(b), j as int), top as int);
    proof {
        a.lemma_shape();
        b.lemma_shape();
    }
    let mut sum = Double::zero();
    let mut k: usize = 0;
    while k < n
        invariant
            k <= n,
            a.wf(),
            b.wf(),
            i < a.height(),
            j < b.width(),
            left + n <= a.width() <= usize::MAX,
            top + n <= b.height() <= usize::MAX,
            binary(*plus),
            binary(*times),
            op == ring(*plus, *times),
            f == shifted(row_of(entries(a), i as int), left as int),
            g == shifted(col_of(entries(b), j as int), top as int),
            sum == dot(f, g, op, k as int),
        decreases n - k,
    {
        let t = apply_two(times, a.get(i, left + k), b.get(top + k, j));
        assert(a.at(i as int, left + k) == f(k as int));
        assert(b.at(top + k, j as int) == g(k as int));
        sum = apply_two(plus, sum, t);
        k += 1;
    }
    sum
}

/// The covariance of the whole state with what a derivative measures.
pub fn covariance_times<P: Fn(Double, Double) -> Double, T: Fn(Double, Double) -> Double>(
    cov: &Matrix,
    h: &Matrix,
    order: &Vec<(i32, usize)>,
    plus: &P,
    times: &T,
) -> (m: Matrix)
    requires
        cov.shaped(cov.height(), cov.height()),
        h.shaped(h.height(), column(order@, order@.len() as int)),
        in_rows(order@, cov.height()),
        cov.height() * h.height() <= usize::MAX,
        binary(*plus),
        binary(*times),
    ensures
        is(
            &m,
            cov.height(),
            h.height(),
            covariance_with(entries(cov), entries(h), order@, ring(*plus, *times)),
        ),
{
    let ghost op = ring(*plus, *times);
    let ghost runs = order@;
    let ghost c = entries(cov);
    let ghost e = entries(h);
    let rows: usize = cov.nrows();
    let cols: usize = h.nrows();
    proof {
        h.lemma_shape();
    }
    let (starts, _size) = order_columns(order);
    let n: usize = order.len();
    let mut m = Matrix::filled(rows, cols, Double::zero());
    let mut i: usize = 0;
    while i < rows
        invariant
            i <= rows,
            n == order@.len(),
            runs == order@,
            cov.shaped(rows as int, rows as int),
            h.shaped(cols as int, column(runs, n as int)),
            in_rows(runs, rows as int),
            starts@.len() == n,
            forall|v: int| 0 <= v < n ==> #[trigger] starts@[v] == column(runs, v),
            m.shaped(rows as int, cols as int),
            binary(*plus),
            binary(*times),
            op == ring(*plus, *times),
            c == entries(cov),
            e == entries(h),
            forall|x: int, y: int|
                m.has(x, y) && x < i ==> #[trigger] m.at(x, y) == spread(c, e, runs, op, x, y, n as int),
        decreases rows - i,
    {
        let mut j: usize = 0;
        while j < cols
            invariant
                i < rows,
                j <= cols,
                n == order@.len(),
                runs == order@,
                cov.shaped(rows as int, rows as int),
                h.shaped(cols as int, column(runs, n as int)),
                in_rows(runs, rows as int),
                starts@.len() == n,
                forall|v: int| 0 <= v < n ==> #[trigger] starts@[v] == column(runs, v),
                m.shaped(rows as int, cols as int),
                binary(*plus),
                binary(*times),
                op == ring(*plus, *times),
                c == entries(cov),
                e == entries(h),
                forall|x: int, y: int|
                    m.has(x, y) && (x < i || (x == i && y < j)) ==> #[trigger] m.at(x, y) == spread(
                        c,
                        e,
                        runs,
                        op,
                        x,
                        y,
                        n as int,
                    ),
            decreases cols - j,
        {
            let mut sum = Double::zero();
            let mut v: usize = 0;
            while v < n
                invariant
                    i < rows,
                    j < cols,
                    v <= n,
                    n == order@.len(),
                    runs == order@,
                    cov.shaped(rows as int, rows as int),
                    h.shaped(cols as int, column(runs, n as int)),
                    in_rows(runs, rows as int),
                    starts@.len() == n,
                    forall|w: int| 0 <= w < n ==> #[trigger] starts@[w] == column(runs, w),
                    binary(*plus),
                    binary(*times),
                    op == ring(*plus, *times),
                    c == entries(cov),
                    e == entries(h),
                    sum == spread(c, e, runs, op, i as int, j as int, v as int),
                decreases n - v,
            {
                proof {
                    lemma_column_monotonic(runs, v + 1, n as int);
                    assert(0 <= runs[v as int].0);
                }
                let run = order[v];
                let part = dot_rows(
                    cov,
                    i,
                    run.0 as usize,
                    h,
                    j,
                    starts[v],
                    run.1,
                    plus,
                    times,
                );
                sum = apply_two(plus, sum, part);
                v += 1;
            }
            m.set(i, j, sum);
            j += 1;
        }
        i += 1;
    }
    m
}

/// The noise plus, over the first `n` variables, the transition times the
/// covariance with it.
pub open spec fn carried(
    phi: spec_fn(int, int) -> Double,
    cross: spec_fn(int, int) -> Double,
    q: spec_fn(int, int) -> Double,
    order: Seq<Run>,
    op: Ring,
    i: int,
    j: int,
    n: int,
) -> Double
    decreases n,
{
    if n <= 0 {
        q(i, j)
    } else {
        (op.plus)(
            carried(phi, cross, q, order, op, i, j, n - 1),
            dot(
                shifted(row_of(phi, i), column(order, n - 1)),
                shifted(col_of(cross, j), order[n - 1].0 as int),
                op,
                order[n - 1].1 as int,
            ),
        )
    }
}

/// The propagated block itself.
pub open spec fn propagated_block(
    phi: spec_fn(int, int) -> Double,
    cross: spec_fn(int, int) -> Double,
    q: spec_fn(int, int) -> Double,
    order: Seq<Run>,
    op: Ring,
) -> spec_fn(int, int) -> Double {
    |i: int, j: int| carried(phi, cross, q, order, op, i, j, order.len() as int)
}

/// The propagated block itself, from the covariance with the transition.
fn propagate_block<P: Fn(Double, Double) -> Double, T: Fn(Double, Double) -> Double>(
    phi: &Matrix,
    cross: &Matrix,
    q: &Matrix,
    order: &Vec<(i32, usize)>,
    plus: &P,
    times: &T,
) -> (m: Matrix)
    requires
        phi.shaped(q.height(), column(order@, order@.len() as int)),
        q.shaped(q.height(), q.height()),
        cross.shaped(cross.height(), q.height()),
        in_rows(order@, cross.height()),
        binary(*plus),
        binary(*times),
    ensures
        is(
            &m,
            q.height(),
            q.height(),
            propagated_block(
                entries(phi),
                entries(cross),
                entries(q),
                order@,
                ring(*plus, *times),
            ),
        ),
{
    let ghost op = ring(*plus, *times);
    let ghost runs = order@;
    let ghost f = entries(phi);
    let ghost g = entries(cross);
    let ghost e = entries(q);
    let size: usize = q.nrows();
    proof {
        phi.lemma_shape();
        q.lemma_area();
    }
    let (starts, _size) = order_columns(order);
    let n: usize = order.len();
    let mut m = Matrix::filled(size, size, Double::zero());
    let mut i: usize = 0;
    while i < size
        invariant
            i <= size,
            n == order@.len(),
            runs == order@,
            phi.shaped(size as int, column(runs, n as int)),
            q.shaped(size as int, size as int),
            cross.shaped(cross.height(), size as int),
            in_rows(runs, cross.height()),
            starts@.len() == n,
            forall|v: int| 0 <= v < n ==> #[trigger] starts@[v] == column(runs, v),
            m.shaped(size as int, size as int),
            binary(*plus),
            binary(*times),
            op == ring(*plus, *times),
            f == entries(phi),
            g == entries(cross),
            e == entries(q),
            forall|x: int, y: int|
                m.has(x, y) && x < i ==> #[trigger] m.at(x, y) == carried(
                    f,
                    g,
                    e,
                    runs,
                    op,
                    x,
                    y,
                    n as int,
                ),
        decreases size - i,
    {
        let mut j: usize = 0;
        while j < size
            invariant
                i < size,
                j <= size,
                n == order@.len(),
                runs == order@,
                phi.shaped(size as int, column(runs, n as int)),
                q.shaped(size as int, size as int),
                cross.shaped(cross.height(), size as int),
                in_rows(runs, cross.height()),
                starts@.len() == n,
                forall|v: int| 0 <= v < n ==> #[trigger] starts@[v] == column(runs, v),
                m.shaped(size as int, size as int),
                binary(*plus),
                binary(*times),
                op == ring(*plus, *times),
                f == entries(phi),
                g == entries(cross),
                e == entries(q),
                forall|x: int, y: int|
                    m.has(x, y) && (x < i || (x == i && y < j)) ==> #[trigger] m.at(x, y) == carried(
                        f,
                        g,
                        e,
                        runs,
                        op,
                        x,
                        y,
                        n as int,
                    ),
            decreases size - j,
        {
            let mut sum = q.get(i, j);
            let mut v: usize = 0;
            while v < n
                invariant
                    i < size,
                    j < size,
                    v <= n,
                    n == order@.len(),
                    runs == order@,
                    phi.shaped(size as int, column(runs, n as int)),
                    cross.shaped(cross.height(), size as int),
                    in_rows(runs, cross.height()),
                    starts@.len() == n,
                    forall|w: int| 0 <= w < n ==> #[trigger] starts@[w] == column(runs, w),
                    binary(*plus),
                    binary(*times),
                    op == ring(*plus, *times),
                    f == entries(phi),
                    g == entries(cross),
                    sum == carried(f, g, e, runs, op, i as int, j as int, v as int),
                decreases n - v,
            {
                proof {
                    lemma_column_monotonic(runs, v + 1, n as int);
                    assert(0 <= runs[v as int].0);
                }
                let run = order[v];
                let part = dot_row_col(
                    phi,
                    i,
                    starts[v],
                    cross,
                    run.0 as usize,
                    j,
                    run.1,
                    plus,
                    times,
                );
                sum = apply_two(plus, sum, part);
                v += 1;
            }
            m.set(i, j, sum);
            j += 1;
        }
        i += 1;
    }
    m
}

/// The propagated block depends on the covariance with the transition alone.
proof fn lemma_carried_same(
    phi: spec_fn(int, int) -> Double,
    a: spec_fn(int, int) -> Double,
    b: spec_fn(int, int) -> Double,
    q: spec_fn(int, int) -> Double,
    order: Seq<Run>,
    op: Ring,
    rows: int,
    i: int,
    j: int,
    n: int,
)
    requires
        n <= order.len(),
        in_rows(order, rows),
        forall|k: int| 0 <= k < rows ==> #[trigger] a(k, j) == b(k, j),
    ensures
        carried(phi, a, q, order, op, i, j, n) == carried(phi, b, q, order, op, i, j, n),
    decreases n,
{
    if n > 0 {
        lemma_carried_same(phi, a, b, q, order, op, rows, i, j, n - 1);
        let start = order[n - 1].0 as int;
        let size = order[n - 1].1 as int;
        let f = shifted(row_of(phi, i), column(order, n - 1));
        assert forall|k: int| 0 <= k < size implies #[trigger] shifted(col_of(a, j), start)(k)
            == shifted(col_of(b, j), start)(k) by {
            assert(a(start + k, j) == b(start + k, j));
        }
        lemma_dot_same(
            f,
            shifted(col_of(a, j), start),
            f,
            shifted(col_of(b, j), start),
            op,
            size,
        );
    }
}

/// Entry `(i, j)` of a covariance whose rows and columns from `s` on, `m` of them,
/// were replaced.
pub open spec fn replaced_by(
    cov: spec_fn(int, int) -> Double,
    cross: spec_fn(int, int) -> Double,
    own: spec_fn(int, int) -> Double,
    s: int,
    m: int,
) -> spec_fn(int, int) -> Double {
    |i: int, j: int|
        {
            let row_in = s <= i < s + m;
            let col_in = s <= j < s + m;
            if row_in && col_in {
                own(i - s, j - s)
            } else if col_in {
                cross(i, j - s)
            } else if row_in {
                cross(j, i - s)
            } else {
                cov(i, j)
            }
        }
}

/// A covariance after a propagation: the variables of `order_new` follow from
/// those of `order_old` by the transition `phi`, and gain the noise `q`.
pub open spec fn propagated_covariance(
    cov: spec_fn(int, int) -> Double,
    phi: spec_fn(int, int) -> Double,
    q: spec_fn(int, int) -> Double,
    order_new: Seq<Run>,
    order_old: Seq<Run>,
    op: Ring,
) -> spec_fn(int, int) -> Double {
    let cross = covariance_with(cov, phi, order_old, op);
    replaced_by(
        cov,
        cross,
        propagated_block(phi, cross, q, order_old, op),
        order_new[0].0 as int,
        column(order_new, order_new.len() as int),
    )
}

/// Propagates the covariance: the variables of `order_new`, which start at the
/// first of them, follow from those of `order_old` by the transition `phi`, and
/// gain the noise `q`. Fails with the first diagonal entry that is not at least
/// zero.
pub fn ekf_propagation<P: Fn(Double, Double) -> Double, T: Fn(Double, Double) -> Double>(
    state: &mut State,
    order_new: &Vec<(i32, usize)>,
    order_old: &Vec<(i32, usize)>,
    phi: &Matrix,
    q: &Matrix,
    plus: &P,
    times: &T,
) -> (res: Result<(), usize>)
    requires
        old(state).cov.shaped(old(state).dim(), old(state).dim()),
        order_new@.len() > 0,
        order_new@[0].0 >= 0,
        order_new@[0].0 + column(order_new@, order_new@.len() as int) <= old(state).dim(),
        in_rows(order_old@, old(state).dim()),
        phi.shaped(
            column(order_new@, order_new@.len() as int),
            column(order_old@, order_old@.len() as int),
        ),
        q.shaped(
            column(order_new@, order_new@.len() as int),
            column(order_new@, order_new@.len() as int),
        ),
        binary(*plus),
        binary(*times),
    ensures
        *final(state) == (State { cov: final(state).cov, ..*old(state) }),
        is(
            &final(state).cov,
            old(state).dim(),
            old(state).dim(),
            propagated_covariance(
                entries(&old(state).cov),
                entries(phi),
                entries(q),
                order_new@,
                order_old@,
                ring(*plus, *times),
            ),
        ),
        match res {
            Ok(_) => all_good(&final(state).cov),
            Err(k) => first_bad(&final(state).cov, k as int),
        },
{
    let ghost op = ring(*plus, *times);
    let ghost before = state.cov;
    let ghost dim = state.dim();
    let ghost m = column(order_new@, order_new@.len() as int);
    let ghost s = order_new@[0].0 as int;
    proof {
        phi.lemma_shape();
        state.cov.lemma_area();
        assert(dim * m <= dim * dim) by (nonlinear_arith)
            requires
                0 <= m <= dim,
        ;
    }
    let cross = covariance_times(&state.cov, phi, order_old, plus, times);
    let own = propagate_block(phi, &cross, q, order_old, plus, times);
    let done = write_propagation(state, order_new, &cross, &own);
    proof {
        let c = covariance_with(entries(&before), entries(phi), order_old@, op);
        let b = propagated_block(entries(phi), c, entries(q), order_old@, op);
        let whole = replaced_by(entries(&before), c, b, s, m);
        assert forall|i: int, j: int| state.cov.has(i, j) implies #[trigger] state.cov.at(i, j) == whole(
            i,
            j,
        ) by {
            assert(before.has(i, j));
            if s <= i < s + m && s <= j < s + m {
                assert(own.has(i - s, j - s));
                assert forall|k: int| 0 <= k < dim implies #[trigger] entries(&cross)(k, j - s) == c(
                    k,
                    j - s,
                ) by {
                    assert(cross.has(k, j - s));
                    assert(cross.at(k, j - s) == c(k, j - s));
                }
                lemma_carried_same(
                    entries(phi),
                    entries(&cross),
                    c,
                    entries(q),
                    order_old@,
                    op,
                    dim,
                    i - s,
                    j - s,
                    order_old@.len() as int,
                );
            } else if s <= j < s + m {
                assert(cross.has(i, j - s));
            } else if s <= i < s + m {
                assert(cross.has(j, i - s));
            }
        }
    }
    done
}

/// The row of the covariance that column `c` stands for, among the first `n`
/// variables of a list.
pub open spec fn row_at(order: Seq<Run>, c: int, n: int) -> int
    decreases n,
{
    if n <= 0 {
        0
    } else if column(order, n - 1) <= c {
        order[n - 1].0 + c - column(order, n - 1)
    } else {
        row_at(order, c, n - 1)
    }
}

/// The covariance of the listed variables alone.
pub open spec fn marginal(cov: spec_fn(int, int) -> Double, order: Seq<Run>) -> spec_fn(
    int,
    int,
) -> Double {
    let n = order.len() as int;
    |x: int, y: int| cov(row_at(order, x, n), row_at(order, y, n))
}

/// The variable that column `c` belongs to.
proof fn lemma_row_at(order: Seq<Run>, c: int, n: int) -> (a: int)
    requires
        0 <= n <= order.len(),
        0 <= c < column(order, n),
    ensures
        0 <= a < n,
        column(order, a) <= c < column(order, a) + order[a].1,
        row_at(order, c, n) == order[a].0 + c - column(order, a),
    decreases n,
{
    if column(order, n - 1) <= c {
        n - 1
    } else {
        lemma_row_at(order, c, n - 1)
    }
}

/// The covariance of listed variables holds what the formula gives.
pub proof fn lemma_marginal(small: &Matrix, cov: &Matrix, order: Seq<Run>)
    requires
        small.shaped(column(order, order.len() as int), column(order, order.len() as int)),
        gathers(small, cov, order),
    ensures
        is(small, small.height(), small.height(), marginal(entries(cov), order)),
{
    let n = order.len() as int;
    assert forall|x: int, y: int| small.has(x, y) implies #[trigger] small.at(x, y) == marginal(
        entries(cov),
        order,
    )(x, y) by {
        let a = lemma_row_at(order, x, n);
        let b = lemma_row_at(order, y, n);
        assert(gathered(small, order, a, b, x - column(order, a), y - column(order, b)) == cov.at(
            order[a].0 + (x - column(order, a)),
            order[b].0 + (y - column(order, b)),
        ));
    }
}

/// The covariance of a residual: that of the listed variables carried over by the
/// derivative, plus the noise.
pub open spec fn innovation(
    cov: spec_fn(int, int) -> Double,
    h: spec_fn(int, int) -> Double,
    r: spec_fn(int, int) -> Double,
    order: Seq<Run>,
    op: Ring,
) -> spec_fn(int, int) -> Double {
    let w = column(order, order.len() as int);
    sum_of(product(product(h, marginal(cov, order), op, w), flipped(h), op, w), r, op)
}

/// The covariance of a residual as far as the state's own goes.
pub open spec fn spread_of(
    cov: spec_fn(int, int) -> Double,
    h: spec_fn(int, int) -> Double,
    order: Seq<Run>,
    op: Ring,
) -> spec_fn(int, int) -> Double {
    let w = column(order, order.len() as int);
    product(product(h, marginal(cov, order), op, w), flipped(h), op, w)
}

/// The covariance of a residual as far as the state's own goes.
pub fn spread_through<P: Fn(Double, Double) -> Double, T: Fn(Double, Double) -> Double>(
    state: &State,
    order: &Vec<(i32, usize)>,
    h: &Matrix,
    plus: &P,
    times: &T,
) -> (s: Matrix)
    requires
        state.cov.shaped(state.dim(), state.dim()),
        in_rows(order@, state.dim()),
        column(order@, order@.len() as int) * column(order@, order@.len() as int) <= usize::MAX,
        h.shaped(h.height(), column(order@, order@.len() as int)),
        h.height() * h.height() <= usize::MAX,
        binary(*plus),
        binary(*times),
    ensures
        is(
            &s,
            h.height(),
            h.height(),
            spread_of(entries(&state.cov), entries(h), order@, ring(*plus, *times)),
        ),
{
    let ghost op = ring(*plus, *times);
    let ghost w = column(order@, order@.len() as int);
    let small = get_marginal_covariance(state, order);
    proof {
        lemma_marginal(&small, &state.cov, order@);
        h.lemma_area();
    }
    let half = multiply(h, &small, plus, times);
    let ht = h.transpose();
    let full = multiply(&half, &ht, plus, times);
    let ghost f = product(entries(h), marginal(entries(&state.cov), order@), op, w);
    proof {
        lemma_product(&half, h, &small, entries(h), marginal(entries(&state.cov), order@), op);
        assert(is(&ht, w, h.height(), flipped(entries(h))));
        lemma_product(&full, &half, &ht, f, flipped(entries(h)), op);
    }
    full
}

/// The covariance of a residual.
pub fn innovate<P: Fn(Double, Double) -> Double, T: Fn(Double, Double) -> Double>(
    state: &State,
    order: &Vec<(i32, usize)>,
    h: &Matrix,
    r: &Matrix,
    plus: &P,
    times: &T,
) -> (s: Matrix)
    requires
        state.cov.shaped(state.dim(), state.dim()),
        in_rows(order@, state.dim()),
        column(order@, order@.len() as int) * column(order@, order@.len() as int) <= usize::MAX,
        h.shaped(r.height(), column(order@, order@.len() as int)),
        r.shaped(r.height(), r.height()),
        binary(*plus),
        binary(*times),
    ensures
        is(
            &s,
            r.height(),
            r.height(),
            innovation(
                entries(&state.cov),
                entries(h),
                entries(r),
                order@,
                ring(*plus, *times),
            ),
        ),
{
    let ghost op = ring(*plus, *times);
    proof {
        r.lemma_area();
    }
    let full = spread_through(state, order, h, plus, times);
    let s = add_matrices(&full, r, plus);
    assert forall|i: int, j: int| s.has(i, j) implies #[trigger] s.at(i, j) == innovation(
        entries(&state.cov),
        entries(h),
        entries(r),
        order@,
        op,
    )(i, j) by {
        assert(full.has(i, j));
        assert(full.at(i, j) == spread_of(entries(&state.cov), entries(h), order@, op)(i, j));
    }
    s
}

/// The gain: the covariance with the residual, times the inverse of the residual's own.
pub open spec fn gain(
    cross: spec_fn(int, int) -> Double,
    s_inv: spec_fn(int, int) -> Double,
    op: Ring,
    rows: int,
) -> spec_fn(int, int) -> Double {
    product(cross, s_inv, op, rows)
}

/// The covariance after an update: what the residual explains is taken away, and
/// the rest made symmetric.
pub open spec fn updated_covariance(
    cov: spec_fn(int, int) -> Double,
    cross: spec_fn(int, int) -> Double,
    k: spec_fn(int, int) -> Double,
    op: Ring,
    rows: int,
) -> spec_fn(int, int) -> Double {
    symmetric_part(sum_of(cov, negation(product(k, flipped(cross), op, rows)), op), op)
}

/// The increment of the whole state: the gain times the residual.
pub open spec fn increment(
    k: spec_fn(int, int) -> Double,
    res: Seq<Double>,
    op: Ring,
    dim: int,
) -> Seq<Double> {
    Seq::new(dim as nat, |i: int| dot(row_of(k, i), list_of(res), op, res.len() as int))
}

/// Why an update was not made.
#[derive(Clone, Copy, Debug, PartialEq, Eq, Structural)]
pub enum UpdateFault {
    /// The covariance of the residual has no inverse.
    Singular,
    /// This diagonal entry of the new covariance is not at least zero.
    Negative(usize),
}

/// Whether a state became another by a residual: the covariance loses what the
/// residual explains, and the increment is the gain times the residual. Without an
/// inverse nothing changes; a diagonal entry that is not at least zero is a fault.
pub open spec fn ekf_updated<I: Fn(&Matrix) -> Option<Matrix>>(
    before: &State,
    after: &State,
    order: Seq<Run>,
    h: &Matrix,
    res: Seq<Double>,
    r: &Matrix,
    invert: I,
    op: Ring,
    done: Result<Vec<Double>, UpdateFault>,
) -> bool {
    let n = res.len() as int;
    let dim = before.dim();
    let cov = entries(&before.cov);
    let cross = covariance_with(cov, entries(h), order, op);
    let s = innovation(cov, entries(h), entries(r), order, op);
    match inverse_of(invert, n, s) {
        None => done == Err::<Vec<Double>, UpdateFault>(UpdateFault::Singular) && *after == *before,
        Some(s_inv) => {
            let k = gain(cross, entries(&s_inv), op, n);
            &&& *after == (State { cov: after.cov, ..*before })
            &&& is(&after.cov, dim, dim, updated_covariance(cov, cross, k, op, n))
            &&& match done {
                Ok(dx) => all_good(&after.cov) && dx@ == increment(k, res, op, dim),
                Err(UpdateFault::Negative(i)) => first_bad(&after.cov, i as int),
                Err(UpdateFault::Singular) => false,
            }
        },
    }
}

/// Updates the covariance by a residual with derivative `h` and noise `r`, and gives
/// the error increment of the whole state.
pub fn update_covariance<
    I: Fn(&Matrix) -> Option<Matrix>,
    P: Fn(Double, Double) -> Double,
    T: Fn(Double, Double) -> Double,
>(
    state: &mut State,
    h_order: &Vec<(i32, usize)>,
    h: &Matrix,
    res: &Vec<Double>,
    r: &Matrix,
    invert: &I,
    plus: &P,
    times: &T,
) -> (done: Result<Vec<Double>, UpdateFault>)
    requires
        old(state).wf(),
        in_rows(h_order@, old(state).dim()),
        column(h_order@, h_order@.len() as int) * column(h_order@, h_order@.len() as int)
            <= usize::MAX,
        h.shaped(res@.len() as int, column(h_order@, h_order@.len() as int)),
        r.shaped(res@.len() as int, res@.len() as int),
        old(state).dim() * res@.len() <= usize::MAX,
        inverts(*invert),
        binary(*plus),
        binary(*times),
    ensures
        final(state).wf(),
        ekf_updated(
            old(state),
            final(state),
            h_order@,
            h,
            res@,
            r,
            *invert,
            ring(*plus, *times),
            done,
        ),
{
    let ghost op = ring(*plus, *times);
    let ghost n = res@.len() as int;
    let ghost dim = state.dim();
    let ghost cov = entries(&state.cov);
    let ghost cross = covariance_with(cov, entries(h), h_order@, op);
    let ghost formula = innovation(cov, entries(h), entries(r), h_order@, op);
    proof {
        state.cov.lemma_area();
        state.cov.lemma_shape();
        r.lemma_area();
    }
    let m_a = covariance_times(&state.cov, h, h_order, plus, times);
    let s = innovate(state, h_order, h, r, plus, times);
    let s_inv = match apply_inverse(&s, invert, Ghost(formula)) {
        None => {
            return Err(UpdateFault::Singular);
        },
        Some(x) => x,
    };
    let ghost chosen = inverse_of(*invert, n, formula)->0;
    let ghost k = gain(cross, entries(&chosen), op, n);
    let gains = multiply(&m_a, &s_inv, plus, times);
    proof {
        assert(s_inv.same(&chosen));
        lemma_product(&gains, &m_a, &s_inv, cross, entries(&chosen), op);
    }
    let m_at = m_a.transpose();
    let explained = multiply(&gains, &m_at, plus, times);
    proof {
        assert(is(&m_at, n, dim, flipped(cross))) by {
            assert forall|i: int, j: int| m_at.has(i, j) implies #[trigger] m_at.at(i, j) == flipped(
                cross,
            )(i, j) by {
                assert(m_a.has(j, i));
                assert(m_a.at(j, i) == cross(j, i));
            }
        }
        lemma_product(&explained, &gains, &m_at, k, flipped(cross), op);
    }
    let less = negate(&explained);
    let rest = add_matrices(&state.cov, &less, plus);
    let updated = symmetrize(&rest, plus, times);
    let dx = transform(&gains, res, plus, times);
    proof {
        let e = product(k, flipped(cross), op, n);
        let left = sum_of(cov, negation(e), op);
        assert forall|i: int, j: int| rest.has(i, j) implies #[trigger] rest.at(i, j) == left(i, j) by {
            assert(explained.has(i, j));
            assert(less.has(i, j));
            assert(explained.at(i, j) == e(i, j));
            assert(less.at(i, j) == explained.at(i, j).spec_neg());
        }
        assert forall|i: int, j: int| updated.has(i, j) implies #[trigger] updated.at(i, j)
            == symmetric_part(left, op)(i, j) by {
            assert(rest.has(i, j) && rest.has(j, i));
            assert(rest.at(i, j) == left(i, j));
            assert(rest.at(j, i) == left(j, i));
        }
        assert(dx@ =~= increment(k, res@, op, dim)) by {
            assert forall|i: int| 0 <= i < dim implies #[trigger] dx@[i] == increment(
                k,
                res@,
                op,
                dim,
            )[i] by {
                assert forall|x: int| 0 <= x < n implies #[trigger] row_of(entries(&gains), i)(x)
                    == row_of(k, i)(x) by {
                    assert(gains.has(i, x));
                    assert(gains.at(i, x) == k(i, x));
                }
                lemma_dot_same(
                    row_of(entries(&gains), i),
                    list_of(res@),
                    row_of(k, i),
                    list_of(res@),
                    op,
                    n,
                );
            }
        }
    }
    match write_update(state, updated) {
        Ok(_) => Ok(dx),
        Err(i) => Err(UpdateFault::Negative(i)),
    }
}

/// One step of a propagation.
#[derive(Debug)]
pub struct Transition {
    /// The transition of the inertial variables.
    pub f: Matrix,
    /// The noise that they gain.
    pub qd: Matrix,
}

/// The transition over the first `n` steps.
pub open spec fn composed(steps: Seq<Transition>, op: Ring, dim: int, n: int) -> spec_fn(
    int,
    int,
) -> Double
    decreases n,
{
    if n <= 0 {
        unit()
    } else {
        product(entries(&steps[n - 1].f), composed(steps, op, dim, n - 1), op, dim)
    }
}

/// The noise gained over the first `n` steps: what there was moves on with the
/// next step, which adds its own.
pub open spec fn gathered_noise(steps: Seq<Transition>, op: Ring, dim: int, n: int) -> spec_fn(
    int,
    int,
) -> Double
    decreases n,
{
    if n <= 0 {
        nothing()
    } else {
        let f = entries(&steps[n - 1].f);
        let before = gathered_noise(steps, op, dim, n - 1);
        symmetric_part(
            sum_of(
                product(product(f, before, op, dim), flipped(f), op, dim),
                entries(&steps[n - 1].qd),
                op,
            ),
            op,
        )
    }
}

/// The transition and the noise of several steps together.
pub fn compose<P: Fn(Double, Double) -> Double, T: Fn(Double, Double) -> Double>(
    steps: &Vec<Transition>,
    dim: usize,
    plus: &P,
    times: &T,
) -> (whole: (Matrix, Matrix))
    requires
        dim * dim <= usize::MAX,
        forall|i: int|
            0 <= i < steps@.len() ==> (#[trigger] steps@[i]).f.shaped(dim as int, dim as int)
                && steps@[i].qd.shaped(dim as int, dim as int),
        binary(*plus),
        binary(*times),
    ensures
        is(
            &whole.0,
            dim as int,
            dim as int,
            composed(steps@, ring(*plus, *times), dim as int, steps@.len() as int),
        ),
        is(
            &whole.1,
            dim as int,
            dim as int,
            gathered_noise(steps@, ring(*plus, *times), dim as int, steps@.len() as int),
        ),
{
    let ghost op = ring(*plus, *times);
    let ghost d = dim as int;
    let mut phi = Matrix::filled(dim, dim, Double::zero());
    phi.set_diagonal(0, dim, Double::one());
    let mut q = Matrix::filled(dim, dim, Double::zero());
    let mut i: usize = 0;
    while i < steps.len()
        invariant
            i <= steps@.len(),
            d == dim,
            dim * dim <= usize::MAX,
            forall|k: int|
                0 <= k < steps@.len() ==> (#[trigger] steps@[k]).f.shaped(d, d)
                    && steps@[k].qd.shaped(d, d),
            binary(*plus),
            binary(*times),
            op == ring(*plus, *times),
            is(&phi, d, d, composed(steps@, op, d, i as int)),
            is(&q, d, d, gathered_noise(steps@, op, d, i as int)),
        decreases steps@.len() - i,
    {
        let step = &steps[i];
        let ghost f = entries(&step.f);
        let ghost before = gathered_noise(steps@, op, d, i as int);
        let moved = multiply(&step.f, &phi, plus, times);
        let half = multiply(&step.f, &q, plus, times);
        let ft = step.f.transpose();
        let full = multiply(&half, &ft, plus, times);
        let grown = add_matrices(&full, &step.qd, plus);
        let even = symmetrize(&grown, plus, times);
        proof {
            lemma_product(&moved, &step.f, &phi, f, composed(steps@, op, d, i as int), op);
            lemma_product(&half, &step.f, &q, f, before, op);
            assert(is(&ft, d, d, flipped(f)));
            lemma_product(&full, &half, &ft, product(f, before, op, d), flipped(f), op);
            let sum = sum_of(
                product(product(f, before, op, d), flipped(f), op, d),
                entries(&step.qd),
                op,
            );
            assert forall|x: int, y: int| even.has(x, y) implies #[trigger] even.at(x, y)
                == symmetric_part(sum, op)(x, y) by {
                assert(grown.has(x, y) && grown.has(y, x));
                assert(full.has(x, y) && full.has(y, x));
                assert(grown.at(x, y) == sum(x, y));
                assert(grown.at(y, x) == sum(y, x));
            }
        }
        phi = moved;
        q = even;
        i += 1;
    }
    (phi, q)
}

/// The covariance with a derivative depends on the derivative's rows alone.
pub(crate) proof fn lemma_spread_same(
    cov: spec_fn(int, int) -> Double,
    g: spec_fn(int, int) -> Double,
    h: spec_fn(int, int) -> Double,
    order: Seq<Run>,
    op: Ring,
    i: int,
    j: int,
    n: int,
)
    requires
        0 <= n <= order.len(),
        forall|k: int| 0 <= k < column(order, n) ==> #[trigger] g(j, k) == h(j, k),
    ensures
        spread(cov, g, order, op, i, j, n) == spread(cov, h, order, op, i, j, n),
    decreases n,
{
    if n > 0 {
        lemma_column_monotonic(order, 0, n - 1);
        lemma_spread_same(cov, g, h, order, op, i, j, n - 1);
        let start = column(order, n - 1);
        let size = order[n - 1].1 as int;
        let f = shifted(row_of(cov, i), order[n - 1].0 as int);
        assert forall|k: int| 0 <= k < size implies #[trigger] shifted(row_of(g, j), start)(k)
            == shifted(row_of(h, j), start)(k) by {
            assert(g(j, start + k) == h(j, start + k));
        }
        lemma_dot_same(
            f,
            shifted(row_of(g, j), start),
            f,
            shifted(row_of(h, j), start),
            op,
            size,
        );
    }
}

/// The propagated block depends on the transition's rows and the noise alone.
proof fn lemma_carried_from(
    phi: spec_fn(int, int) -> Double,
    psi: spec_fn(int, int) -> Double,
    cross: spec_fn(int, int) -> Double,
    q: spec_fn(int, int) -> Double,
    p: spec_fn(int, int) -> Double,
    order: Seq<Run>,
    op: Ring,
    i: int,
    j: int,
    n: int,
)
    requires
        0 <= n <= order.len(),
        q(i, j) == p(i, j),
        forall|k: int| 0 <= k < column(order, n) ==> #[trigger] phi(i, k) == psi(i, k),
    ensures
        carried(phi, cross, q, order, op, i, j, n) == carried(psi, cross, p, order, op, i, j, n),
    decreases n,
{
    if n > 0 {
        lemma_column_monotonic(order, 0, n - 1);
        lemma_carried_from(phi, psi, cross, q, p, order, op, i, j, n - 1);
        let start = column(order, n - 1);
        let size = order[n - 1].1 as int;
        let g = shifted(col_of(cross, j), order[n - 1].0 as int);
        assert forall|k: int| 0 <= k < size implies #[trigger] shifted(row_of(phi, i), start)(k)
            == shifted(row_of(psi, i), start)(k) by {
            assert(phi(i, start + k) == psi(i, start + k));
        }
        lemma_dot_same(
            shifted(row_of(phi, i), start),
            g,
            shifted(row_of(psi, i), start),
            g,
            op,
            size,
        );
    }
}

/// A propagated covariance depends on the entries of transition and noise alone.
pub proof fn lemma_propagated_same(
    cov: spec_fn(int, int) -> Double,
    phi: spec_fn(int, int) -> Double,
    psi: spec_fn(int, int) -> Double,
    q: spec_fn(int, int) -> Double,
    p: spec_fn(int, int) -> Double,
    order_new: Seq<Run>,
    order_old: Seq<Run>,
    op: Ring,
    dim: int,
    i: int,
    j: int,
)
    requires
        order_new.len() > 0,
        0 <= order_new[0].0,
        in_rows(order_old, dim),
        forall|x: int, y: int|
            0 <= x < column(order_new, order_new.len() as int) && 0 <= y < column(
                order_old,
                order_old.len() as int,
            ) ==> #[trigger] phi(x, y) == psi(x, y),
        forall|x: int, y: int|
            0 <= x < column(order_new, order_new.len() as int) && 0 <= y < column(
                order_new,
                order_new.len() as int,
            ) ==> #[trigger] q(x, y) == p(x, y),
    ensures
        propagated_covariance(cov, phi, q, order_new, order_old, op)(i, j)
            == propagated_covariance(cov, psi, p, order_new, order_old, op)(i, j),
{
    let n = order_old.len() as int;
    let s = order_new[0].0 as int;
    let m = column(order_new, order_new.len() as int);
    let c = covariance_with(cov, phi, order_old, op);
    let d = covariance_with(cov, psi, order_old, op);
    assert forall|x: int, y: int| 0 <= y < m implies #[trigger] c(x, y) == d(x, y) by {
        lemma_spread_same(cov, phi, psi, order_old, op, x, y, n);
    }
    if s <= i < s + m && s <= j < s + m {
        lemma_carried_same(phi, c, d, q, order_old, op, dim, i - s, j - s, n);
        assert(q(i - s, j - s) == p(i - s, j - s));
        lemma_carried_from(phi, psi, d, q, p, order_old, op, i - s, j - s, n);
    } else if s <= j < s + m {
        assert(c(i, j - s) == d(i, j - s));
    } else if s <= i < s + m {
        assert(c(j, i - s) == d(j, i - s));
    }
}

/// An update leaves a symmetric covariance, if sums do not depend on the order of
/// their terms; one that is not made leaves the covariance as symmetric as it was.
pub proof fn law_update_leaves_symmetry<I: Fn(&Matrix) -> Option<Matrix>>(
    before: &State,
    after: &State,
    order: Seq<Run>,
    h: &Matrix,
    res: Seq<Double>,
    r: &Matrix,
    invert: I,
    op: Ring,
    done: Result<Vec<Double>, UpdateFault>,
)
    requires
        ekf_updated(before, after, order, h, res, r, invert, op, done),
        done is Ok || symmetric(&before.cov),
        forall|a: Double, b: Double| #[trigger] (op.plus)(a, b) == (op.plus)(b, a),
    ensures
        symmetric(&after.cov),
{
    let n = res.len() as int;
    let cov = entries(&before.cov);
    let cross = covariance_with(cov, entries(h), order, op);
    let s = innovation(cov, entries(h), entries(r), order, op);
    if let Some(s_inv) = inverse_of(invert, n, s) {
        let k = gain(cross, entries(&s_inv), op, n);
        let left = sum_of(cov, negation(product(k, flipped(cross), op, n)), op);
        let new = updated_covariance(cov, cross, k, op, n);
        assert forall|i: int, j: int| after.cov.has(i, j) implies #[trigger] after.cov.at(i, j)
            == after.cov.at(j, i) by {
            law_symmetric_part_is_symmetric(left, op, i, j);
            assert(after.cov.has(j, i));
            assert(after.cov.at(i, j) == new(i, j));
            assert(after.cov.at(j, i) == new(j, i));
        }
    }
}

} // verus!
