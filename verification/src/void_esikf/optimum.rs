//! What an update of the error state is for: it goes to where what the measurement says
//! and what the prior says are in balance, and leaves the covariance that both together
//! have.

use vstd::prelude::*;

use crate::algebra::{
    col_of, dot, list_of, negation, product, row_of, sum_of, unit, Ring,
};
use crate::double::Double;
use crate::void_esikf::gain::{corrected, seen_share, shrunk};
use crate::void_types::state::DIM_STATE;
use crate::whole::{
    exact, lemma_long_dot, lemma_neg, lemma_one, lemma_plus, lemma_sum_either_way, lemma_sum_plus,
    lemma_sum_same, lemma_sum_scaled, lemma_widened, lemma_zero, sum_to, value, whole, EXACT,
};

verus! {

/// Whether the entries of a formula over the error are whole numbers within a bound.
pub open spec fn whole_square(f: spec_fn(int, int) -> Double, m: int) -> bool {
    forall|i: int, j: int|
        0 <= i < DIM_STATE && 0 <= j < DIM_STATE ==> whole(#[trigger] f(i, j), m)
}

/// The values of a formula's entries.
pub open spec fn values2(f: spec_fn(int, int) -> Double) -> spec_fn(int, int) -> int {
    |i: int, j: int| value(f(i, j))
}

/// Entry `(i, j)` of a product.
pub open spec fn times2(f: spec_fn(int, int) -> int, g: spec_fn(int, int) -> int, i: int, j: int) -> int {
    sum_to(|k: int| f(i, k) * g(k, j), DIM_STATE as int)
}

/// One on the diagonal, zero beside it.
pub open spec fn kronecker(i: int, j: int) -> int {
    if i == j {
        1
    } else {
        0
    }
}

/// Whether one formula is the inverse of the sum of two others.
pub open spec fn inverts_sum(
    inv: spec_fn(int, int) -> int,
    s: spec_fn(int, int) -> int,
    p: spec_fn(int, int) -> int,
) -> bool {
    forall|i: int, j: int|
        0 <= i < DIM_STATE && 0 <= j < DIM_STATE ==> #[trigger] times2(inv, s, i, j) + times2(
            inv,
            p,
            i,
            j,
        ) == kronecker(i, j)
}

/// A product of formulas over the error in whole numbers.
proof fn lemma_big_product(
    f: spec_fn(int, int) -> Double,
    g: spec_fn(int, int) -> Double,
    op: Ring,
    p: int,
    q: int,
    i: int,
    j: int,
)
    requires
        exact(op),
        whole_square(f, p),
        whole_square(g, q),
        0 <= p <= EXACT,
        0 <= q <= EXACT,
        p * q <= EXACT,
        DIM_STATE * (p * q) <= EXACT,
        0 <= i < DIM_STATE,
        0 <= j < DIM_STATE,
    ensures
        whole(product(f, g, op, DIM_STATE as int)(i, j), DIM_STATE * (p * q)),
        value(product(f, g, op, DIM_STATE as int)(i, j)) == times2(values2(f), values2(g), i, j),
{
    let n = DIM_STATE as int;
    let x = row_of(f, i);
    let y = col_of(g, j);
    assert forall|k: int| 0 <= k < n implies whole(#[trigger] x(k), p) by {
        assert(whole(f(i, k), p));
    }
    assert forall|k: int| 0 <= k < n implies whole(#[trigger] y(k), q) by {
        assert(whole(g(k, j), q));
    }
    lemma_long_dot(x, y, op, n, p, q);
    lemma_sum_same(
        |k: int| value(x(k)) * value(y(k)),
        |k: int| values2(f)(i, k) * values2(g)(k, j),
        n,
    );
}

/// Powers of a bound.
proof fn lemma_bounds(m: int)
    requires
        1 <= m,
    ensures
        m <= m * m <= m * m * m,
        (19 * (m * m)) * m == 19 * (m * m * m),
        (20 * (m * m)) * m == 20 * (m * m * m),
{
    assert(m <= m * m) by (nonlinear_arith)
        requires
            1 <= m,
    ;
    let a = m * m;
    assert(a <= a * m) by (nonlinear_arith)
        requires
            1 <= m,
            0 <= a,
    ;
    assert((19 * a) * m == 19 * (a * m)) by (nonlinear_arith);
    assert((20 * a) * m == 20 * (a * m)) by (nonlinear_arith);
}

/// What a measurement does not see, in whole numbers: what the prior's share is.
proof fn lemma_unseen(
    inv: spec_fn(int, int) -> Double,
    s: spec_fn(int, int) -> Double,
    p: spec_fn(int, int) -> int,
    op: Ring,
    m: int,
    i: int,
    j: int,
)
    requires
        exact(op),
        whole_square(inv, m),
        whole_square(s, m),
        1 <= m,
        400 * (m * m * m) <= EXACT,
        inverts_sum(values2(inv), values2(s), p),
        0 <= i < DIM_STATE,
        0 <= j < DIM_STATE,
    ensures
        whole(sum_of(unit(), negation(seen_share(inv, s, op)), op)(i, j), 20 * (m * m)),
        value(sum_of(unit(), negation(seen_share(inv, s, op)), op)(i, j)) == times2(
            values2(inv),
            p,
            i,
            j,
        ),
{
    lemma_bounds(m);
    lemma_big_product(inv, s, op, m, m, i, j);
    let e = seen_share(inv, s, op)(i, j);
    lemma_neg(e, 19 * (m * m));
    lemma_one();
    lemma_zero();
    let u = unit()(i, j);
    assert(whole(u, 1) && value(u) == kronecker(i, j)) by {
        lemma_widened(Double { bits: 0 }, 0, 1);
    }
    lemma_widened(u, 1, m * m);
    lemma_plus(op, u, e.spec_neg(), m * m, 19 * (m * m));
    assert(times2(values2(inv), values2(s), i, j) + times2(values2(inv), p, i, j) == kronecker(i, j));
}

/// The correction goes to the balance of measurement and prior: it is, turned by the
/// inverse of both informations together, against the sum of what the measurement says
/// and what the prior says, the prior's information times the way from it.
pub proof fn law_correction_goes_to_the_balance(
    inv: spec_fn(int, int) -> Double,
    s: spec_fn(int, int) -> Double,
    p: spec_fn(int, int) -> int,
    b: Seq<Double>,
    delta: Seq<Double>,
    op: Ring,
    m: int,
    i: int,
)
    requires
        exact(op),
        whole_square(inv, m),
        whole_square(s, m),
        b.len() == DIM_STATE,
        delta.len() == DIM_STATE,
        forall|k: int| 0 <= k < DIM_STATE ==> whole(#[trigger] b[k], m),
        forall|k: int| 0 <= k < DIM_STATE ==> whole(#[trigger] delta[k], m),
        1 <= m,
        400 * (m * m * m) <= EXACT,
        inverts_sum(values2(inv), values2(s), p),
        0 <= i < DIM_STATE,
    ensures
        value(corrected(inv, s, b, delta, op)[i]) == -sum_to(
            |k: int|
                value(inv(i, k)) * (value(b[k]) + sum_to(
                    |j: int| p(k, j) * value(delta[j]),
                    DIM_STATE as int,
                )),
            DIM_STATE as int,
        ),
{
    let n = DIM_STATE as int;
    lemma_bounds(m);
    let v = values2(inv);
    let d = |j: int| value(delta[j]);
    let rest = sum_of(unit(), negation(seen_share(inv, s, op)), op);
    let x = row_of(inv, i);
    let y = list_of(b);
    assert forall|k: int| 0 <= k < n implies whole(#[trigger] x(k), m) by {
        assert(whole(inv(i, k), m));
    }
    assert forall|k: int| 0 <= k < n implies whole(#[trigger] y(k), m) by {
        assert(whole(b[k], m));
    }
    lemma_long_dot(x, y, op, n, m, m);
    let f = row_of(rest, i);
    let g = list_of(delta);
    assert forall|j: int| 0 <= j < n implies whole(#[trigger] f(j), 20 * (m * m)) && value(f(j)) == times2(
        v,
        p,
        i,
        j,
    ) by {
        lemma_unseen(inv, s, p, op, m, i, j);
    }
    assert forall|j: int| 0 <= j < n implies whole(#[trigger] g(j), m) by {
        assert(whole(delta[j], m));
    }
    lemma_long_dot(f, g, op, n, 20 * (m * m), m);
    let one = dot(x, y, op, n);
    let two = dot(f, g, op, n);
    lemma_neg(one, 19 * (m * m));
    lemma_neg(two, 19 * (20 * (m * m * m)));
    lemma_widened(one.spec_neg(), 19 * (m * m), 19 * (m * m * m));
    lemma_plus(op, one.spec_neg(), two.spec_neg(), 19 * (m * m * m), 380 * (m * m * m));
    let first = |k: int| v(i, k) * value(b[k]);
    lemma_sum_same(|k: int| value(x(k)) * value(y(k)), first, n);
    let a = |j: int, k: int| (v(i, k) * p(k, j)) * d(j);
    let rows = |j: int| sum_to(|k: int| a(j, k), n);
    let left = |j: int| value(f(j)) * value(g(j));
    assert forall|j: int| 0 <= j < n implies #[trigger] left(j) == rows(j) by {
        let h = |k: int| v(i, k) * p(k, j);
        lemma_sum_scaled(d(j), h, n);
        let t = |k: int| d(j) * h(k);
        let u = |k: int| a(j, k);
        assert forall|k: int| 0 <= k < n implies #[trigger] t(k) == u(k) by {
            let (q, w) = (v(i, k) * p(k, j), d(j));
            assert(w * q == q * w) by (nonlinear_arith);
        }
        lemma_sum_same(t, u, n);
        lemma_sum_same(|k: int| v(i, k) * p(k, j), h, n);
        let (q, w) = (sum_to(h, n), d(j));
        assert(q * w == w * q) by (nonlinear_arith);
    }
    lemma_sum_same(left, rows, n);
    lemma_sum_either_way(a, n, n);
    let columns = |k: int| sum_to(|j: int| a(j, k), n);
    let inner = |k: int| sum_to(|j: int| p(k, j) * d(j), n);
    let second = |k: int| v(i, k) * inner(k);
    assert forall|k: int| 0 <= k < n implies #[trigger] columns(k) == second(k) by {
        let h = |j: int| p(k, j) * d(j);
        lemma_sum_scaled(v(i, k), h, n);
        let t = |j: int| v(i, k) * h(j);
        let u = |j: int| a(j, k);
        assert forall|j: int| 0 <= j < n implies #[trigger] t(j) == u(j) by {
            let (q, r, w) = (v(i, k), p(k, j), d(j));
            assert(q * (r * w) == (q * r) * w) by (nonlinear_arith);
        }
        lemma_sum_same(t, u, n);
        lemma_sum_same(h, |j: int| p(k, j) * d(j), n);
    }
    lemma_sum_same(columns, second, n);
    lemma_sum_same(|j: int| sum_to(|i: int| a(i, j), n), columns, n);
    lemma_sum_same(|i: int| sum_to(|j: int| a(i, j), n), rows, n);
    lemma_sum_plus(first, second, n);
    let whole_row = |k: int|
        value(inv(i, k)) * (value(b[k]) + sum_to(
            |j: int| p(k, j) * value(delta[j]),
            DIM_STATE as int,
        ));
    assert forall|k: int| 0 <= k < n implies #[trigger] whole_row(k) == first(k) + second(k) by {
        lemma_sum_same(|j: int| p(k, j) * value(delta[j]), |j: int| p(k, j) * d(j), n);
        let (q, r, w) = (v(i, k), value(b[k]), inner(k));
        assert(q * (r + w) == q * r + q * w) by (nonlinear_arith);
    }
    lemma_sum_same(whole_row, |k: int| first(k) + second(k), n);
}

/// The covariance after an update is that of measurement and prior together, the inverse
/// of both informations, where the prior's information is the inverse of its covariance.
pub proof fn law_covariance_is_that_of_both(
    cov: spec_fn(int, int) -> Double,
    inv: spec_fn(int, int) -> Double,
    s: spec_fn(int, int) -> Double,
    p: spec_fn(int, int) -> int,
    op: Ring,
    m: int,
    i: int,
    j: int,
)
    requires
        exact(op),
        whole_square(cov, m),
        whole_square(inv, m),
        whole_square(s, m),
        1 <= m,
        400 * (m * m * m) <= EXACT,
        inverts_sum(values2(inv), values2(s), p),
        forall|k: int, l: int|
            0 <= k < DIM_STATE && 0 <= l < DIM_STATE ==> #[trigger] times2(p, values2(cov), k, l)
                == kronecker(k, l),
        0 <= i < DIM_STATE,
        0 <= j < DIM_STATE,
    ensures
        value(shrunk(cov, inv, s, op)(i, j)) == value(inv(i, j)),
{
    let n = DIM_STATE as int;
    lemma_bounds(m);
    let v = values2(inv);
    let c = values2(cov);
    let seen = seen_share(inv, s, op);
    assert forall|a: int, b: int| 0 <= a < n && 0 <= b < n implies whole(
        #[trigger] seen(a, b),
        19 * (m * m),
    ) by {
        lemma_big_product(inv, s, op, m, m, a, b);
    }
    lemma_big_product(seen, cov, op, 19 * (m * m), m, i, j);
    let e = product(seen, cov, op, n)(i, j);
    lemma_neg(e, 19 * (19 * (m * m * m)));
    lemma_widened(cov(i, j), m, m * m * m);
    lemma_plus(op, cov(i, j), e.spec_neg(), m * m * m, 361 * (m * m * m));
    let z = values2(seen);
    let first = |k: int| z(i, k) * c(k, j);
    let unseen = |k: int| times2(v, p, i, k) * c(k, j);
    let own = |k: int| kronecker(i, k) * c(k, j);
    assert forall|k: int| 0 <= k < n implies first(k) + #[trigger] unseen(k) == own(k) by {
        lemma_big_product(inv, s, op, m, m, i, k);
        assert(times2(v, values2(s), i, k) + times2(v, p, i, k) == kronecker(i, k));
        let (q, r, w) = (z(i, k), times2(v, p, i, k), c(k, j));
        assert(q * w + r * w == (q + r) * w) by (nonlinear_arith);
    }
    lemma_sum_plus(first, unseen, n);
    lemma_sum_same(own, |k: int| first(k) + unseen(k), n);
    lemma_sum_picked(i, |k: int| c(k, j), n);
    lemma_sum_same(own, |k: int| kronecker(i, k) * (|k: int| c(k, j))(k), n);
    let a = |k: int, l: int| (v(i, l) * p(l, k)) * c(k, j);
    let rows = |k: int| sum_to(|l: int| a(k, l), n);
    assert forall|k: int| 0 <= k < n implies #[trigger] unseen(k) == rows(k) by {
        let h = |l: int| v(i, l) * p(l, k);
        lemma_sum_scaled(c(k, j), h, n);
        let t = |l: int| c(k, j) * h(l);
        let u = |l: int| a(k, l);
        assert forall|l: int| 0 <= l < n implies #[trigger] t(l) == u(l) by {
            let (q, w) = (v(i, l) * p(l, k), c(k, j));
            assert(w * q == q * w) by (nonlinear_arith);
        }
        lemma_sum_same(t, u, n);
        lemma_sum_same(|l: int| v(i, l) * p(l, k), h, n);
        let (q, w) = (sum_to(h, n), c(k, j));
        assert(q * w == w * q) by (nonlinear_arith);
    }
    lemma_sum_same(unseen, rows, n);
    lemma_sum_either_way(a, n, n);
    let columns = |l: int| sum_to(|k: int| a(k, l), n);
    let picked = |l: int| kronecker(j, l) * v(i, l);
    assert forall|l: int| 0 <= l < n implies #[trigger] columns(l) == picked(l) by {
        let h = |k: int| p(l, k) * c(k, j);
        lemma_sum_scaled(v(i, l), h, n);
        let t = |k: int| v(i, l) * h(k);
        let u = |k: int| a(k, l);
        assert forall|k: int| 0 <= k < n implies #[trigger] t(k) == u(k) by {
            let (q, r, w) = (v(i, l), p(l, k), c(k, j));
            assert(q * (r * w) == (q * r) * w) by (nonlinear_arith);
        }
        lemma_sum_same(t, u, n);
        lemma_sum_same(h, |k: int| p(l, k) * c(k, j), n);
        assert(times2(p, c, l, j) == kronecker(l, j));
        let (q, w) = (v(i, l), kronecker(l, j));
        assert(q * w == w * q) by (nonlinear_arith);
    }
    lemma_sum_same(columns, picked, n);
    lemma_sum_same(|l: int| sum_to(|k: int| a(k, l), n), columns, n);
    lemma_sum_same(|k: int| sum_to(|l: int| a(k, l), n), rows, n);
    let own_row = |l: int| v(i, l);
    lemma_sum_picked(j, own_row, n);
    lemma_sum_same(picked, |l: int| kronecker(j, l) * own_row(l), n);
}

/// A sum in which one term is picked.
proof fn lemma_sum_picked(i: int, f: spec_fn(int) -> int, n: int)
    requires
        0 <= i,
    ensures
        sum_to(|k: int| kronecker(i, k) * f(k), n) == (if i < n {
            f(i)
        } else {
            0
        }),
    decreases n,
{
    if n > 0 {
        lemma_sum_picked(i, f, n - 1);
        let x = f(n - 1);
        assert(1 * x == x && 0 * x == 0);
    }
}

} // verus!
