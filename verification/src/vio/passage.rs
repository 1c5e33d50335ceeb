//! What a propagation carries over: transitions act one after another, a variance is that
//! of what the transition makes of a variable, and covariances are read at the rows that
//! a list stands for.

use vstd::prelude::*;

use crate::algebra::{col_of, dot, entries, flipped, product, row_of, sum_of, Ring};
use crate::double::Double;
use crate::vio::certainty::quadratic;
use crate::vio::kalman::{composed, gathered_noise, row_at, shifted, spread, Transition};
use crate::vio::state::Run;
use crate::vio::state_helper::column;
use crate::void_esikf::propagator::stepped_covariance;
use crate::void_types::state::DIM_STATE;
use crate::whole::{
    exact, halves, lemma_half, lemma_long_dot, lemma_plus, lemma_sum_either_way, lemma_sum_same,
    lemma_sum_scaled, lemma_zero, sum_to, value, whole, EXACT,
};

verus! {

/// Whether the entries of a formula of `n` rows and columns are whole within a bound.
pub open spec fn whole_table(f: spec_fn(int, int) -> Double, n: int, m: int) -> bool {
    forall|i: int, j: int| 0 <= i < n && 0 <= j < n ==> whole(#[trigger] f(i, j), m)
}

/// The entries of a product of `n` rows and columns.
proof fn lemma_table_product(
    f: spec_fn(int, int) -> Double,
    g: spec_fn(int, int) -> Double,
    op: Ring,
    n: int,
    p: int,
    q: int,
    i: int,
    j: int,
)
    requires
        exact(op),
        whole_table(f, n, p),
        whole_table(g, n, q),
        0 <= p <= EXACT,
        0 <= q <= EXACT,
        p * q <= EXACT,
        n * (p * q) <= EXACT,
        0 <= i < n,
        0 <= j < n,
    ensures
        whole(product(f, g, op, n)(i, j), n * (p * q)),
        value(product(f, g, op, n)(i, j)) == sum_to(|k: int| value(f(i, k)) * value(g(k, j)), n),
{
    let x = row_of(f, i);
    let y = col_of(g, j);
    assert forall|k: int| 0 <= k < n implies whole(#[trigger] x(k), p) by {
        assert(whole(f(i, k), p));
    }
    assert forall|k: int| 0 <= k < n implies whole(#[trigger] y(k), q) by {
        assert(whole(g(k, j), q));
    }
    lemma_long_dot(x, y, op, n, p, q);
    lemma_sum_same(|k: int| value(x(k)) * value(y(k)), |k: int| value(f(i, k)) * value(g(k, j)), n);
}

/// What the transition over several steps makes of a vector is what the last step makes
/// of what the steps before it make of the vector.
pub proof fn law_steps_act_in_turn(
    steps: Seq<Transition>,
    op: Ring,
    dim: int,
    n: int,
    v: spec_fn(int) -> int,
    p: int,
    q: int,
    i: int,
)
    requires
        exact(op),
        1 <= n,
        whole_table(entries(&steps[n - 1].f), dim, p),
        whole_table(composed(steps, op, dim, n - 1), dim, q),
        0 <= p <= EXACT,
        0 <= q <= EXACT,
        p * q <= EXACT,
        dim * (p * q) <= EXACT,
        0 <= i < dim,
    ensures
        sum_to(|j: int| value(composed(steps, op, dim, n)(i, j)) * v(j), dim) == sum_to(
            |k: int|
                value(steps[n - 1].f.at(i, k)) * sum_to(
                    |j: int| value(composed(steps, op, dim, n - 1)(k, j)) * v(j),
                    dim,
                ),
            dim,
        ),
{
    let f = entries(&steps[n - 1].f);
    let g = composed(steps, op, dim, n - 1);
    let h = composed(steps, op, dim, n);
    let a = |j: int, k: int| (value(f(i, k)) * value(g(k, j))) * v(j);
    let left = |j: int| value(h(i, j)) * v(j);
    let rows = |j: int| sum_to(|k: int| a(j, k), dim);
    assert forall|j: int| 0 <= j < dim implies #[trigger] left(j) == rows(j) by {
        lemma_table_product(f, g, op, dim, p, q, i, j);
        let t = |k: int| value(f(i, k)) * value(g(k, j));
        lemma_sum_scaled(v(j), t, dim);
        let one = |k: int| v(j) * t(k);
        let two = |k: int| a(j, k);
        assert forall|k: int| 0 <= k < dim implies #[trigger] one(k) == two(k) by {
            let (x, y) = (value(f(i, k)) * value(g(k, j)), v(j));
            assert(y * x == x * y) by (nonlinear_arith);
        }
        lemma_sum_same(one, two, dim);
        let (x, y) = (sum_to(t, dim), v(j));
        assert(x * y == y * x) by (nonlinear_arith);
    }
    lemma_sum_same(left, rows, dim);
    lemma_sum_either_way(a, dim, dim);
    let right = |k: int| value(steps[n - 1].f.at(i, k)) * sum_to(|j: int| value(g(k, j)) * v(j), dim);
    let columns = |k: int| sum_to(|j: int| a(j, k), dim);
    assert forall|k: int| 0 <= k < dim implies #[trigger] columns(k) == right(k) by {
        let t = |j: int| value(g(k, j)) * v(j);
        lemma_sum_scaled(value(f(i, k)), t, dim);
        let one = |j: int| value(f(i, k)) * t(j);
        let two = |j: int| a(j, k);
        assert forall|j: int| 0 <= j < dim implies #[trigger] one(j) == two(j) by {
            let (x, y, z) = (value(f(i, k)), value(g(k, j)), v(j));
            assert(x * (y * z) == (x * y) * z) by (nonlinear_arith);
        }
        lemma_sum_same(one, two, dim);
        lemma_sum_same(t, |j: int| value(g(k, j)) * v(j), dim);
    }
    lemma_sum_same(columns, right, dim);
    lemma_sum_same(|k: int| sum_to(|j: int| a(j, k), dim), columns, dim);
    lemma_sum_same(|j: int| sum_to(|k: int| a(j, k), dim), rows, dim);
    lemma_sum_same(|j: int| value(composed(steps, op, dim, n)(i, j)) * v(j), left, dim);
    lemma_sum_same(
        |k: int|
            value(steps[n - 1].f.at(i, k)) * sum_to(
                |j: int| value(composed(steps, op, dim, n - 1)(k, j)) * v(j),
                dim,
            ),
        right,
        dim,
    );
}

/// A variance carried over by a transition: that of what the transition makes of the
/// variable.
proof fn lemma_carried_variance(
    f: spec_fn(int, int) -> Double,
    c: spec_fn(int, int) -> Double,
    op: Ring,
    n: int,
    p: int,
    q: int,
    i: int,
)
    requires
        exact(op),
        whole_table(f, n, p),
        whole_table(c, n, q),
        1 <= p <= EXACT,
        0 <= q <= EXACT,
        n * ((n * (p * q)) * p) <= EXACT,
        0 <= i < n,
    ensures
        whole(
            product(product(f, c, op, n), flipped(f), op, n)(i, i),
            n * ((n * (p * q)) * p),
        ),
        value(product(product(f, c, op, n), flipped(f), op, n)(i, i)) == quadratic(
            |k: int| value(f(i, k)),
            |k: int, l: int| value(c(k, l)),
            n,
        ),
        0 <= n * ((n * (p * q)) * p),
{
    let a = p * q;
    assert(0 <= a) by (nonlinear_arith)
        requires
            a == p * q,
            0 <= p,
            0 <= q,
    ;
    let b = n * a;
    assert(a <= b) by (nonlinear_arith)
        requires
            b == n * a,
            1 <= n,
            0 <= a,
    ;
    let d = b * p;
    assert(b <= d) by (nonlinear_arith)
        requires
            d == b * p,
            1 <= p,
            0 <= b,
    ;
    assert(d <= n * d) by (nonlinear_arith)
        requires
            1 <= n,
            0 <= d,
    ;
    let e = product(f, c, op, n);
    let v = |k: int| value(f(i, k));
    let s = |k: int, l: int| value(c(k, l));
    let x = row_of(e, i);
    let y = col_of(flipped(f), i);
    assert forall|l: int| 0 <= l < n implies whole(#[trigger] x(l), b) && value(x(l)) == sum_to(
        |k: int| v(k) * s(k, l),
        n,
    ) by {
        lemma_table_product(f, c, op, n, p, q, i, l);
        lemma_sum_same(|k: int| value(f(i, k)) * value(c(k, l)), |k: int| v(k) * s(k, l), n);
    }
    assert forall|l: int| 0 <= l < n implies whole(#[trigger] y(l), p) by {
        assert(whole(f(i, l), p));
    }
    lemma_long_dot(x, y, op, n, b, p);
    lemma_sum_same(
        |l: int| value(x(l)) * value(y(l)),
        |l: int| sum_to(|k: int| v(k) * s(k, l), n) * v(l),
        n,
    );
}

/// A step of the state carries its covariance over: the variance of each part of the
/// error afterwards is that, before, of what the transition makes of it, and the noise.
pub proof fn law_steps_carry_variances_over(
    f: spec_fn(int, int) -> Double,
    cov: spec_fn(int, int) -> Double,
    noise: spec_fn(int, int) -> Double,
    op: Ring,
    p: int,
    q: int,
    i: int,
)
    requires
        exact(op),
        whole_table(f, DIM_STATE as int, p),
        whole_table(cov, DIM_STATE as int, q),
        whole(noise(i, i), q),
        1 <= p <= EXACT,
        0 <= q <= EXACT,
        DIM_STATE * ((DIM_STATE * (p * q)) * p) + q <= EXACT,
        0 <= i < DIM_STATE,
    ensures
        value(stepped_covariance(f, cov, noise, op)(i, i)) == quadratic(
            |k: int| value(f(i, k)),
            |k: int, l: int| value(cov(k, l)),
            DIM_STATE as int,
        ) + value(noise(i, i)),
{
    let n = DIM_STATE as int;
    lemma_carried_variance(f, cov, op, n, p, q, i);
    let e = product(product(f, cov, op, n), flipped(f), op, n)(i, i);
    lemma_plus(op, e, noise(i, i), n * ((n * (p * q)) * p), q);
}

/// Noise over several steps: the variance that a variable has gained is that of what the
/// last step makes of it, of what was gained before, and the step's own.
pub proof fn law_noise_is_carried_on(
    steps: Seq<Transition>,
    op: Ring,
    dim: int,
    n: int,
    p: int,
    q: int,
    i: int,
)
    requires
        exact(op),
        halves(op),
        1 <= n,
        whole_table(entries(&steps[n - 1].f), dim, p),
        whole_table(gathered_noise(steps, op, dim, n - 1), dim, q),
        whole(steps[n - 1].qd.at(i, i), q),
        1 <= p <= EXACT,
        0 <= q <= EXACT,
        2 * (dim * ((dim * (p * q)) * p) + q) <= EXACT,
        0 <= i < dim,
    ensures
        value(gathered_noise(steps, op, dim, n)(i, i)) == quadratic(
            |k: int| value(steps[n - 1].f.at(i, k)),
            |k: int, l: int| value(gathered_noise(steps, op, dim, n - 1)(k, l)),
            dim,
        ) + value(steps[n - 1].qd.at(i, i)),
{
    let f = entries(&steps[n - 1].f);
    let c = gathered_noise(steps, op, dim, n - 1);
    let b = dim * ((dim * (p * q)) * p);
    lemma_carried_variance(f, c, op, dim, p, q, i);
    let e = product(product(f, c, op, dim), flipped(f), op, dim);
    let s = sum_of(e, entries(&steps[n - 1].qd), op);
    lemma_plus(op, e(i, i), steps[n - 1].qd.at(i, i), b, q);
    let v = s(i, i);
    lemma_plus(op, v, v, b + q, b + q);
    assert((2 * value(v)) % 2 == 0);
    lemma_half(op, (op.plus)(v, v), 2 * (b + q));
    let x = |k: int| value(f(i, k));
    let y = |k: int| value(steps[n - 1].f.at(i, k));
    let t = |k: int, l: int| value(c(k, l));
    let one = |l: int| sum_to(|k: int| x(k) * t(k, l), dim) * x(l);
    let two = |l: int| sum_to(|k: int| y(k) * t(k, l), dim) * y(l);
    assert forall|l: int| 0 <= l < dim implies #[trigger] one(l) == two(l) by {
        lemma_sum_same(|k: int| x(k) * t(k, l), |k: int| y(k) * t(k, l), dim);
    }
    lemma_sum_same(one, two, dim);
    assert(quadratic(x, t, dim) == quadratic(y, t, dim));
}

/// Columns come one after another.
proof fn lemma_columns_grow(order: Seq<Run>, n: int)
    requires
        0 <= n <= order.len(),
    ensures
        0 <= column(order, n),
        n > 0 ==> column(order, n - 1) <= column(order, n),
    decreases n,
{
    if n > 0 {
        lemma_columns_grow(order, n - 1);
    }
}

/// A sum in two parts.
proof fn lemma_sum_parts(f: spec_fn(int) -> int, a: int, b: int)
    requires
        0 <= a,
        0 <= b,
    ensures
        sum_to(f, a + b) == sum_to(f, a) + sum_to(|k: int| f(a + k), b),
    decreases b,
{
    if b > 0 {
        lemma_sum_parts(f, a, b - 1);
        let g = |k: int| f(a + k);
        assert(sum_to(f, a + b) == sum_to(f, a + b - 1) + f(a + b - 1));
        assert(sum_to(g, b) == sum_to(g, b - 1) + g(b - 1));
    }
}

/// The covariance with what a derivative measures: each column of the derivative meets
/// the row of the covariance that the list says it stands for.
pub proof fn law_covariance_is_read_at_the_listed_rows(
    cov: spec_fn(int, int) -> Double,
    h: spec_fn(int, int) -> Double,
    order: Seq<Run>,
    op: Ring,
    i: int,
    j: int,
    n: int,
    p: int,
    q: int,
)
    requires
        exact(op),
        0 <= n <= order.len(),
        forall|c: int|
            0 <= c < column(order, n) ==> whole(cov(i, #[trigger] row_at(order, c, n)), p) && whole(
                h(j, c),
                q,
            ),
        0 <= p <= EXACT,
        0 <= q <= EXACT,
        p * q <= EXACT,
        column(order, n) * (p * q) <= EXACT,
    ensures
        whole(spread(cov, h, order, op, i, j, n), column(order, n) * (p * q)),
        value(spread(cov, h, order, op, i, j, n)) == sum_to(
            |c: int| value(cov(i, row_at(order, c, n))) * value(h(j, c)),
            column(order, n),
        ),
    decreases n,
{
    let w = p * q;
    assert(0 <= w) by (nonlinear_arith)
        requires
            w == p * q,
            0 <= p,
            0 <= q,
    ;
    if n == 0 {
        lemma_zero();
        assert(column(order, n) * w == 0) by (nonlinear_arith)
            requires
                column(order, n) == 0,
        ;
    } else {
        lemma_columns_grow(order, n);
        lemma_columns_grow(order, n - 1);
        let a = column(order, n - 1);
        let b = order[n - 1].1 as int;
        assert((a + b) * w == a * w + b * w && 0 <= a * w && 0 <= b * w) by (nonlinear_arith)
            requires
                0 <= a,
                0 <= b,
                0 <= w,
        ;
        assert forall|c: int| 0 <= c < a implies whole(cov(i, #[trigger] row_at(order, c, n - 1)), p)
            && whole(h(j, c), q) && row_at(order, c, n) == row_at(order, c, n - 1) by {
            assert(row_at(order, c, n) == row_at(order, c, n - 1));
        }
        law_covariance_is_read_at_the_listed_rows(cov, h, order, op, i, j, n - 1, p, q);
        let x = shifted(row_of(cov, i), order[n - 1].0 as int);
        let y = shifted(row_of(h, j), a);
        assert forall|k: int| 0 <= k < b implies whole(#[trigger] x(k), p) && row_at(order, a + k, n)
            == order[n - 1].0 + k by {
            assert(row_at(order, a + k, n) == order[n - 1].0 + k);
            assert(x(k) == cov(i, row_at(order, a + k, n)));
        }
        assert forall|k: int| 0 <= k < b implies whole(#[trigger] y(k), q) by {
            let c = a + k;
            let r = row_at(order, c, n);
            assert(whole(cov(i, row_at(order, c, n)), p) && whole(h(j, c), q));
        }
        lemma_long_dot(x, y, op, b, p, q);
        lemma_plus(op, spread(cov, h, order, op, i, j, n - 1), dot(x, y, op, b), a * w, b * w);
        let all = |c: int| value(cov(i, row_at(order, c, n))) * value(h(j, c));
        let before = |c: int| value(cov(i, row_at(order, c, n - 1))) * value(h(j, c));
        lemma_sum_parts(all, a, b);
        assert forall|c: int| 0 <= c < a implies #[trigger] before(c) == all(c) by {
            assert(row_at(order, c, n) == row_at(order, c, n - 1));
        }
        lemma_sum_same(before, all, a);
        let own = |k: int| value(x(k)) * value(y(k));
        let rest = |k: int| all(a + k);
        assert forall|k: int| 0 <= k < b implies #[trigger] own(k) == rest(k) by {
            assert(row_at(order, a + k, n) == order[n - 1].0 + k);
        }
        lemma_sum_same(own, rest, b);
        lemma_sum_same(|k: int| all(a + k), rest, b);
    }
}

} // verus!
