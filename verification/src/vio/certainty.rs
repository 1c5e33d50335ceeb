//! What an update is for: it takes away what the residual explains, so that nothing
//! becomes less certain, and moves the estimates by the weighed residual.

use vstd::prelude::*;

use crate::algebra::{
    col_of, dot, entries, flipped, inverse_of, is, list_of, negation, product, row_of, sum_of,
    Ring,
};
use crate::double::Double;
use crate::matrix::Matrix;
use crate::vio::kalman::{
    covariance_with, ekf_updated, gain, increment, innovation, updated_covariance, UpdateFault,
};
use crate::vio::state::{Run, State};
use crate::void_esikf::steps::{is_zero, knows_zero};
use crate::whole::{
    exact, halves, lemma_half, lemma_long_dot, lemma_neg, lemma_plus, lemma_sum_either_way,
    lemma_sum_same, lemma_sum_scaled, sum_to, value, whole, EXACT,
};

verus! {

/// The product of a vector with itself through a matrix.
pub open spec fn quadratic(v: spec_fn(int) -> int, s: spec_fn(int, int) -> int, n: int) -> int {
    sum_to(|l: int| sum_to(|q: int| v(q) * s(q, l), n) * v(l), n)
}

/// The values of the entries of a matrix.
pub open spec fn values_of(m: &Matrix) -> spec_fn(int, int) -> int {
    |q: int, l: int| value(m.at(q, l))
}

/// Whether the covariance with a residual of `n` rows, and the inverse of the residual's
/// own, are whole numbers within a bound that is small enough.
pub open spec fn small_update(
    cov: spec_fn(int, int) -> Double,
    cross: spec_fn(int, int) -> Double,
    s_inv: spec_fn(int, int) -> Double,
    i: int,
    n: int,
    m: int,
) -> bool {
    &&& 0 <= n
    &&& 1 <= m
    &&& whole(cov(i, i), m)
    &&& forall|l: int| 0 <= l < n ==> whole(#[trigger] cross(i, l), m)
    &&& forall|q: int, l: int| 0 <= q < n && 0 <= l < n ==> whole(#[trigger] s_inv(q, l), m)
    &&& 2 * (m + n * ((n * (m * m)) * m)) <= EXACT
}

/// The gain of a variable in whole numbers.
proof fn lemma_gain(
    cov: spec_fn(int, int) -> Double,
    cross: spec_fn(int, int) -> Double,
    s_inv: spec_fn(int, int) -> Double,
    op: Ring,
    i: int,
    n: int,
    m: int,
    l: int,
)
    requires
        exact(op),
        small_update(cov, cross, s_inv, i, n, m),
        0 <= l < n,
    ensures
        whole(gain(cross, s_inv, op, n)(i, l), n * (m * m)),
        value(gain(cross, s_inv, op, n)(i, l)) == sum_to(
            |q: int| value(cross(i, q)) * value(s_inv(q, l)),
            n,
        ),
        0 <= m * m <= n * (m * m) <= (n * (m * m)) * m <= n * ((n * (m * m)) * m),
{
    let a = m * m;
    assert(m <= a && 0 <= a) by (nonlinear_arith)
        requires
            a == m * m,
            1 <= m,
    ;
    let b = n * a;
    assert(a <= b) by (nonlinear_arith)
        requires
            b == n * a,
            1 <= n,
            0 <= a,
    ;
    let c = b * m;
    assert(b <= c) by (nonlinear_arith)
        requires
            c == b * m,
            1 <= m,
            0 <= b,
    ;
    assert(c <= n * c) by (nonlinear_arith)
        requires
            1 <= n,
            0 <= c,
    ;
    let x = row_of(cross, i);
    let y = col_of(s_inv, l);
    assert forall|q: int| 0 <= q < n implies whole(#[trigger] x(q), m) by {
        assert(whole(cross(i, q), m));
    }
    assert forall|q: int| 0 <= q < n implies whole(#[trigger] y(q), m) by {
        assert(whole(s_inv(q, l), m));
    }
    lemma_long_dot(x, y, op, n, m, m);
    lemma_sum_same(
        |q: int| value(x(q)) * value(y(q)),
        |q: int| value(cross(i, q)) * value(s_inv(q, l)),
        n,
    );
}

/// A variance after an update in whole numbers: it loses the product, through the
/// inverse, of the variable's covariance with the residual.
proof fn lemma_variance(
    cov: spec_fn(int, int) -> Double,
    cross: spec_fn(int, int) -> Double,
    s_inv: spec_fn(int, int) -> Double,
    op: Ring,
    i: int,
    n: int,
    m: int,
)
    requires
        exact(op),
        halves(op),
        small_update(cov, cross, s_inv, i, n, m),
    ensures
        value(updated_covariance(cov, cross, gain(cross, s_inv, op, n), op, n)(i, i)) == value(cov(i, i))
            - quadratic(
            |q: int| value(cross(i, q)),
            |q: int, l: int| value(s_inv(q, l)),
            n,
        ),
{
    let k = gain(cross, s_inv, op, n);
    let c = |q: int| value(cross(i, q));
    let s = |q: int, l: int| value(s_inv(q, l));
    let b = n * (m * m);
    let d = n * (b * m);
    let x = row_of(k, i);
    let y = col_of(flipped(cross), i);
    assert forall|l: int| 0 <= l < n implies whole(#[trigger] x(l), b) && value(x(l)) == sum_to(
        |q: int| c(q) * s(q, l),
        n,
    ) by {
        lemma_gain(cov, cross, s_inv, op, i, n, m, l);
        lemma_sum_same(
            |q: int| value(cross(i, q)) * value(s_inv(q, l)),
            |q: int| c(q) * s(q, l),
            n,
        );
    }
    assert forall|l: int| 0 <= l < n implies whole(#[trigger] y(l), m) by {
        assert(whole(cross(i, l), m));
    }
    assert(0 <= b && 0 <= b * m <= d && b <= b * m || n == 0) by {
        if n > 0 {
            lemma_gain(cov, cross, s_inv, op, i, n, m, 0);
        }
    }
    if n == 0 {
        assert(b == 0 && d == 0) by (nonlinear_arith)
            requires
                n == 0,
                b == n * (m * m),
                d == n * (b * m),
        ;
        assert(b * m == 0) by (nonlinear_arith)
            requires
                b == 0,
        ;
    }
    lemma_long_dot(x, y, op, n, b, m);
    let e = product(k, flipped(cross), op, n);
    assert(e(i, i) == dot(x, y, op, n));
    lemma_sum_same(
        |l: int| value(x(l)) * value(y(l)),
        |l: int| sum_to(|q: int| c(q) * s(q, l), n) * c(l),
        n,
    );
    lemma_neg(e(i, i), d);
    lemma_plus(op, cov(i, i), e(i, i).spec_neg(), m, d);
    let f = sum_of(cov, negation(e), op);
    let v = f(i, i);
    lemma_plus(op, v, v, m + d, m + d);
    assert((2 * value(v)) % 2 == 0);
    lemma_half(op, (op.plus)(v, v), 2 * (m + d));
}

/// Nothing becomes less certain by an update: where the inverse of the residual's
/// covariance gives no vector a negative size, no variance of the state grows. What a
/// variable loses is what its covariance with the residual explains.
pub proof fn law_updates_do_not_lose_certainty<I: Fn(&Matrix) -> Option<Matrix>>(
    before: &State,
    after: &State,
    order: Seq<Run>,
    h: &Matrix,
    res: Seq<Double>,
    r: &Matrix,
    invert: I,
    op: Ring,
    done: Result<Vec<Double>, UpdateFault>,
    s_inv: &Matrix,
    i: int,
    m: int,
)
    requires
        ekf_updated(before, after, order, h, res, r, invert, op, done),
        inverse_of(
            invert,
            res.len() as int,
            innovation(entries(&before.cov), entries(h), entries(r), order, op),
        ) == Some(*s_inv),
        exact(op),
        halves(op),
        0 <= i < before.dim(),
        small_update(
            entries(&before.cov),
            covariance_with(entries(&before.cov), entries(h), order, op),
            entries(s_inv),
            i,
            res.len() as int,
            m,
        ),
        forall|v: spec_fn(int) -> int|
            0 <= #[trigger] quadratic(v, values_of(s_inv), res.len() as int),
    ensures
        value(after.cov.at(i, i)) <= value(before.cov.at(i, i)),
{
    let n = res.len() as int;
    let cov = entries(&before.cov);
    let cross = covariance_with(cov, entries(h), order, op);
    lemma_variance(cov, cross, entries(s_inv), op, i, n, m);
    let c = |q: int| value(cross(i, q));
    let s = values_of(s_inv);
    let t = |q: int, l: int| value(entries(s_inv)(q, l));
    assert(quadratic(c, t, n) == quadratic(c, s, n)) by {
        let x = |l: int| sum_to(|q: int| c(q) * t(q, l), n) * c(l);
        let y = |l: int| sum_to(|q: int| c(q) * s(q, l), n) * c(l);
        assert forall|l: int| 0 <= l < n implies #[trigger] x(l) == y(l) by {
            lemma_sum_same(|q: int| c(q) * t(q, l), |q: int| c(q) * s(q, l), n);
        }
        lemma_sum_same(x, y, n);
    }
    assert(0 <= quadratic(c, s, n));
    assert(after.cov.has(i, i));
}

/// The increment of a variable is its covariance with the residual, times the residual
/// weighed by the inverse of its own covariance.
pub proof fn law_increment_follows_the_weighed_residual(
    cov: spec_fn(int, int) -> Double,
    cross: spec_fn(int, int) -> Double,
    s_inv: spec_fn(int, int) -> Double,
    res: Seq<Double>,
    weighed: spec_fn(int) -> int,
    op: Ring,
    dim: int,
    i: int,
    m: int,
)
    requires
        exact(op),
        small_update(cov, cross, s_inv, i, res.len() as int, m),
        forall|l: int| 0 <= l < res.len() ==> whole(#[trigger] res[l], m),
        0 <= i < dim,
        forall|q: int|
            0 <= q < res.len() ==> #[trigger] weighed(q) == sum_to(
                |l: int| value(s_inv(q, l)) * value(res[l]),
                res.len() as int,
            ),
    ensures
        value(increment(gain(cross, s_inv, op, res.len() as int), res, op, dim)[i]) == sum_to(
            |q: int| value(cross(i, q)) * weighed(q),
            res.len() as int,
        ),
{
    let n = res.len() as int;
    let k = gain(cross, s_inv, op, n);
    let c = |q: int| value(cross(i, q));
    let s = |q: int, l: int| value(s_inv(q, l));
    let z = |l: int| value(res[l]);
    let b = n * (m * m);
    let x = row_of(k, i);
    let y = list_of(res);
    assert forall|l: int| 0 <= l < n implies whole(#[trigger] x(l), b) && value(x(l)) == sum_to(
        |q: int| c(q) * s(q, l),
        n,
    ) by {
        lemma_gain(cov, cross, s_inv, op, i, n, m, l);
        lemma_sum_same(
            |q: int| value(cross(i, q)) * value(s_inv(q, l)),
            |q: int| c(q) * s(q, l),
            n,
        );
    }
    assert forall|l: int| 0 <= l < n implies whole(#[trigger] y(l), m) by {
        assert(whole(res[l], m));
    }
    if n == 0 {
        assert(b == 0 && n * (b * m) == 0 && b * m == 0) by (nonlinear_arith)
            requires
                n == 0,
                b == n * (m * m),
        ;
    } else {
        lemma_gain(cov, cross, s_inv, op, i, n, m, 0);
    }
    lemma_long_dot(x, y, op, n, b, m);
    let left = |l: int| value(x(l)) * value(y(l));
    let mid = |l: int| sum_to(|q: int| (c(q) * s(q, l)) * z(l), n);
    assert forall|l: int| 0 <= l < n implies #[trigger] left(l) == mid(l) by {
        let g = |q: int| c(q) * s(q, l);
        lemma_sum_scaled(z(l), g, n);
        let one = |q: int| z(l) * g(q);
        let two = |q: int| (c(q) * s(q, l)) * z(l);
        assert forall|q: int| 0 <= q < n implies #[trigger] one(q) == two(q) by {
            let u = c(q) * s(q, l);
            let w = z(l);
            assert(w * u == u * w) by (nonlinear_arith);
        }
        lemma_sum_same(one, two, n);
        let t = sum_to(g, n);
        let w = z(l);
        assert(t * w == w * t) by (nonlinear_arith);
    }
    lemma_sum_same(left, mid, n);
    let a = |l: int, q: int| (c(q) * s(q, l)) * z(l);
    let rows = |l: int| sum_to(|q: int| a(l, q), n);
    assert forall|l: int| 0 <= l < n implies #[trigger] mid(l) == rows(l) by {
        lemma_sum_same(|q: int| (c(q) * s(q, l)) * z(l), |q: int| a(l, q), n);
    }
    lemma_sum_same(mid, rows, n);
    lemma_sum_either_way(a, n, n);
    let right = |q: int| c(q) * weighed(q);
    let inner = |q: int| sum_to(|l: int| a(l, q), n);
    assert forall|q: int| 0 <= q < n implies #[trigger] inner(q) == right(q) by {
        let g = |l: int| s(q, l) * z(l);
        lemma_sum_scaled(c(q), g, n);
        let one = |l: int| a(l, q);
        let two = |l: int| c(q) * g(l);
        assert forall|l: int| 0 <= l < n implies #[trigger] one(l) == two(l) by {
            let u = c(q);
            let v = s(q, l);
            let w = z(l);
            assert((u * v) * w == u * (v * w)) by (nonlinear_arith);
        }
        lemma_sum_same(one, two, n);
        lemma_sum_same(g, |l: int| value(s_inv(q, l)) * value(res[l]), n);
    }
    lemma_sum_same(inner, right, n);
    lemma_sum_same(|q: int| value(cross(i, q)) * weighed(q), right, n);
    assert(sum_to(|j: int| sum_to(|i: int| a(i, j), n), n) == sum_to(inner, n)) by {
        lemma_sum_same(|j: int| sum_to(|i: int| a(i, j), n), inner, n);
    }
}

/// A sum of products with zeros.
pub proof fn lemma_dot_of_zeros(f: spec_fn(int) -> Double, g: spec_fn(int) -> Double, op: Ring, n: int)
    requires
        knows_zero(op),
        forall|k: int| 0 <= k < n ==> (#[trigger] f(k)).spec_is_finite(),
        forall|k: int| 0 <= k < n ==> is_zero(#[trigger] g(k)),
    ensures
        is_zero(dot(f, g, op, n)),
    decreases n,
{
    if n > 0 {
        lemma_dot_of_zeros(f, g, op, n - 1);
        assert(f(n - 1).spec_is_finite() && is_zero(g(n - 1)));
        assert(is_zero((op.times)(f(n - 1), g(n - 1))));
        assert(dot(f, g, op, n - 1).spec_is_finite());
    }
}

/// A residual of zero moves nothing.
pub proof fn law_no_residual_moves_nothing(
    k: spec_fn(int, int) -> Double,
    res: Seq<Double>,
    op: Ring,
    dim: int,
)
    requires
        knows_zero(op),
        0 <= dim,
        forall|i: int, l: int| 0 <= i < dim && 0 <= l < res.len() ==> (#[trigger] k(i, l)).spec_is_finite(),
        forall|l: int| 0 <= l < res.len() ==> is_zero(#[trigger] res[l]),
    ensures
        forall|i: int| 0 <= i < dim ==> is_zero(#[trigger] increment(k, res, op, dim)[i]),
{
    assert forall|i: int| 0 <= i < dim implies is_zero(#[trigger] increment(k, res, op, dim)[i]) by {
        let f = row_of(k, i);
        let g = list_of(res);
        assert forall|l: int| 0 <= l < res.len() implies (#[trigger] f(l)).spec_is_finite() by {
            assert(k(i, l).spec_is_finite());
        }
        lemma_dot_of_zeros(f, g, op, res.len() as int);
    }
}

} // verus!
