//! Whole numbers among the doubles.
//!
//! Sums and products of whole numbers are exact as long as they stay within two to
//! the power of fifty-three. What holds of a formula over all whole numbers within a
//! bound is therefore what the formula is for: laws about sums and products are
//! stated on them, over their values as integers.

use vstd::arithmetic::power2::{
    lemma2_to64, lemma2_to64_rest, lemma_pow2_pos, lemma_pow2_strictly_increases, pow2,
};
use vstd::prelude::*;

use crate::algebra::{dot, Ring, HALF_BITS};
use crate::double::{Double, FRACTION_SCALE, ONE_BITS};

verus! {

/// Up to here all whole numbers are doubles.
pub const EXACT: u64 = 9007199254740992;

/// The value of a whole number.
#[verifier::opaque]
pub open spec fn value(a: Double) -> int {
    a.truncated()
}

/// Whether a number is whole, and no further from zero than a bound.
#[verifier::opaque]
pub open spec fn whole(a: Double, bound: int) -> bool {
    &&& a.spec_is_finite()
    &&& !a.fractional()
    &&& -bound <= a.truncated() <= bound
}

/// Whether sums and products of whole numbers are exact wherever they stay within
/// two to the power of fifty-three.
#[verifier::opaque]
pub open spec fn exact(op: Ring) -> bool {
    &&& forall|a: Double, b: Double|
        whole(a, EXACT as int) && whole(b, EXACT as int) && -EXACT <= value(a) + value(b) <= EXACT
            ==> whole(#[trigger] (op.plus)(a, b), EXACT as int) && value((op.plus)(a, b)) == value(a)
            + value(b)
    &&& forall|a: Double, b: Double|
        whole(a, EXACT as int) && whole(b, EXACT as int) && -EXACT <= value(a) * value(b) <= EXACT
            ==> whole(#[trigger] (op.times)(a, b), EXACT as int) && value((op.times)(a, b)) == value(
            a,
        ) * value(b)
}

/// Whether half of an even number is exact.
#[verifier::opaque]
pub open spec fn halves(op: Ring) -> bool {
    forall|a: Double|
        whole(a, EXACT as int) && value(a) % 2 == 0 ==> whole(
            #[trigger] (op.times)(Double { bits: HALF_BITS }, a),
            EXACT as int,
        ) && 2 * value((op.times)(Double { bits: HALF_BITS }, a)) == value(a)
}

/// Whether three numbers are whole, and no further from zero than a bound.
pub open spec fn whole3(v: Seq<Double>, bound: int) -> bool {
    &&& v.len() == 3
    &&& forall|i: int| 0 <= i < 3 ==> whole(#[trigger] v[i], bound)
}

/// Whether nine numbers are whole, and no further from zero than a bound.
pub open spec fn whole9(m: Seq<Double>, bound: int) -> bool {
    &&& m.len() == 9
    &&& forall|i: int| 0 <= i < 9 ==> whole(#[trigger] m[i], bound)
}

/// The values of a list.
pub open spec fn values(v: Seq<Double>) -> spec_fn(int) -> int {
    |i: int| value(v[i])
}

/// The values of nine numbers, row by row.
pub open spec fn square(m: Seq<Double>) -> spec_fn(int, int) -> int {
    |i: int, j: int| value(m[3 * i + j])
}

/// The scalar product of two vectors.
pub open spec fn scalar(a: spec_fn(int) -> int, b: spec_fn(int) -> int) -> int {
    a(0) * b(0) + a(1) * b(1) + a(2) * b(2)
}

/// A matrix applied to a vector.
pub open spec fn applied(m: spec_fn(int, int) -> int, v: spec_fn(int) -> int) -> spec_fn(
    int,
) -> int {
    |i: int| scalar(|k: int| m(i, k), v)
}

/// A matrix with rows and columns exchanged.
pub open spec fn exchanged(m: spec_fn(int, int) -> int) -> spec_fn(int, int) -> int {
    |i: int, j: int| m(j, i)
}

/// The variance along a direction, of a covariance.
pub open spec fn along(m: spec_fn(int, int) -> int, v: spec_fn(int) -> int) -> int {
    scalar(v, applied(m, v))
}

/// Whether a matrix is a rotation, times a number whose square is `s`: its columns
/// are orthogonal to each other, and `s` is the square of their lengths.
pub open spec fn turns(m: spec_fn(int, int) -> int, s: int) -> bool {
    forall|k: int, l: int|
        0 <= k < 3 && 0 <= l < 3 ==> #[trigger] (m(0, k) * m(0, l)) + m(1, k) * m(1, l) + m(2, k)
            * m(2, l) == (if k == l {
            s
        } else {
            0
        })
}

/// A bound may be widened.
pub proof fn lemma_widened(a: Double, m: int, n: int)
    requires
        whole(a, m),
        m <= n,
    ensures
        whole(a, n),
{
    reveal(whole);
}

/// The value of a whole number lies within its bound.
pub proof fn lemma_within(a: Double, m: int)
    requires
        whole(a, m),
    ensures
        -m <= value(a) <= m,
{
    reveal(whole);
    reveal(value);
}

/// A whole number lies within each bound that its value lies within.
pub proof fn lemma_bounded_by(a: Double, m: int, n: int)
    requires
        whole(a, m),
        -n <= value(a) <= n,
    ensures
        whole(a, n),
{
    reveal(whole);
    reveal(value);
}

/// Zero is whole.
pub proof fn lemma_zero()
    ensures
        whole(Double { bits: 0 }, 0),
        value(Double { bits: 0 }) == 0,
{
    reveal(whole);
    reveal(value);
}

/// One is whole.
pub proof fn lemma_one()
    ensures
        whole(Double { bits: ONE_BITS }, 1),
        value(Double { bits: ONE_BITS }) == 1,
{
    reveal(whole);
    reveal(value);
    lemma2_to64();
    lemma2_to64_rest();
    let one = Double { bits: ONE_BITS };
    assert(one.magnitude() == ONE_BITS as int);
    assert(one.exponent() == 1023);
    assert(one.significand() == FRACTION_SCALE as int);
    assert(pow2(52) == FRACTION_SCALE as int);
    assert(one.significand() / (pow2(52) as int) == 1);
    assert(one.significand() % (pow2(52) as int) == 0);
    assert((1075 - one.exponent()) as nat == 52);
}

/// The sign of a whole number may be changed.
pub proof fn lemma_neg(a: Double, m: int)
    requires
        whole(a, m),
    ensures
        whole(a.spec_neg(), m),
        value(a.spec_neg()) == -value(a),
{
    reveal(whole);
    reveal(value);
    assert(a.spec_neg().magnitude() == a.magnitude());
}

/// A whole number is less or greater than zero as its value is.
pub proof fn lemma_sign(a: Double, m: int)
    requires
        whole(a, m),
    ensures
        a.spec_lt(Double { bits: 0 }) <==> value(a) < 0,
        (Double { bits: 0 }).spec_lt(a) <==> value(a) > 0,
{
    reveal(whole);
    reveal(value);
    let e = a.exponent();
    let s = a.significand();
    if e >= 1075 {
        let p = pow2((e - 1075) as nat) as int;
        lemma_pow2_pos((e - 1075) as nat);
        assert(s * p >= 1) by (nonlinear_arith)
            requires
                s >= 1,
                p >= 1,
        ;
    } else if e >= 1023 {
        let k = (1075 - e) as nat;
        let p = pow2(k) as int;
        lemma2_to64_rest();
        lemma_pow2_pos(k);
        if k < 52 {
            lemma_pow2_strictly_increases(k, 52);
        }
        assert(p <= s);
        assert(s / p >= 1) by (nonlinear_arith)
            requires
                0 < p <= s,
        ;
    }
}

/// A sum of whole numbers.
pub proof fn lemma_plus(op: Ring, a: Double, b: Double, m: int, n: int)
    requires
        exact(op),
        whole(a, m),
        whole(b, n),
        m + n <= EXACT,
    ensures
        whole((op.plus)(a, b), m + n),
        value((op.plus)(a, b)) == value(a) + value(b),
{
    reveal(exact);
    lemma_within(a, m);
    lemma_within(b, n);
    lemma_widened(a, m, EXACT as int);
    lemma_widened(b, n, EXACT as int);
    lemma_bounded_by((op.plus)(a, b), EXACT as int, m + n);
}

/// A product of whole numbers.
pub proof fn lemma_times(op: Ring, a: Double, b: Double, m: int, n: int)
    requires
        exact(op),
        whole(a, m),
        whole(b, n),
        m <= EXACT,
        n <= EXACT,
        m * n <= EXACT,
    ensures
        whole((op.times)(a, b), m * n),
        value((op.times)(a, b)) == value(a) * value(b),
{
    reveal(exact);
    lemma_within(a, m);
    lemma_within(b, n);
    lemma_widened(a, m, EXACT as int);
    lemma_widened(b, n, EXACT as int);
    let x = value(a);
    let y = value(b);
    assert(-(m * n) <= x * y <= m * n) by (nonlinear_arith)
        requires
            -m <= x <= m,
            -n <= y <= n,
    ;
    lemma_bounded_by((op.times)(a, b), EXACT as int, m * n);
}

/// Half of an even number.
pub proof fn lemma_half(op: Ring, a: Double, m: int)
    requires
        halves(op),
        whole(a, m),
        m <= EXACT,
        value(a) % 2 == 0,
    ensures
        whole((op.times)(Double { bits: HALF_BITS }, a), m),
        2 * value((op.times)(Double { bits: HALF_BITS }, a)) == value(a),
{
    reveal(halves);
    lemma_within(a, m);
    lemma_widened(a, m, EXACT as int);
    lemma_bounded_by((op.times)(Double { bits: HALF_BITS }, a), EXACT as int, m);
}

/// A sum of three products of whole numbers.
pub proof fn lemma_dot(
    f: spec_fn(int) -> Double,
    g: spec_fn(int) -> Double,
    op: Ring,
    m: int,
    n: int,
)
    requires
        exact(op),
        forall|k: int| 0 <= k < 3 ==> whole(#[trigger] f(k), m),
        forall|k: int| 0 <= k < 3 ==> whole(#[trigger] g(k), n),
        0 <= m <= EXACT,
        0 <= n <= EXACT,
        3 * (m * n) <= EXACT,
    ensures
        whole(dot(f, g, op, 3), 3 * (m * n)),
        value(dot(f, g, op, 3)) == scalar(|k: int| value(f(k)), |k: int| value(g(k))),
{
    let p = m * n;
    assert(p >= 0) by (nonlinear_arith)
        requires
            p == m * n,
            0 <= m,
            0 <= n,
    ;
    lemma_zero();
    reveal_with_fuel(dot, 4);
    let a = dot(f, g, op, 1);
    let b = dot(f, g, op, 2);
    lemma_times(op, f(0), g(0), m, n);
    lemma_times(op, f(1), g(1), m, n);
    lemma_times(op, f(2), g(2), m, n);
    lemma_plus(op, Double { bits: 0 }, (op.times)(f(0), g(0)), 0, p);
    lemma_plus(op, a, (op.times)(f(1), g(1)), p, p);
    lemma_plus(op, b, (op.times)(f(2), g(2)), 2 * p, p);
}

/// A number times a sum of three products.
proof fn lemma_spread_out(w: int, a: int, b: int, c: int, x: int, y: int, z: int)
    ensures
        w * (a * x + b * y + c * z) == (w * a) * x + (w * b) * y + (w * c) * z,
{
    assert(w * (a * x + b * y + c * z) == w * (a * x) + w * (b * y) + w * (c * z))
        by (nonlinear_arith);
    assert(w * (a * x) == (w * a) * x) by (nonlinear_arith);
    assert(w * (b * y) == (w * b) * y) by (nonlinear_arith);
    assert(w * (c * z) == (w * c) * z) by (nonlinear_arith);
}

/// A sum of three numbers times a number.
proof fn lemma_gathered(a: int, b: int, c: int, x: int)
    ensures
        a * x + b * x + c * x == (a + b + c) * x,
{
    assert(a * x + b * x + c * x == (a + b + c) * x) by (nonlinear_arith);
}

/// A matrix between two vectors may be applied to either.
pub proof fn lemma_exchange(
    w: spec_fn(int) -> int,
    m: spec_fn(int, int) -> int,
    v: spec_fn(int) -> int,
)
    ensures
        scalar(w, applied(m, v)) == scalar(applied(exchanged(m), w), v),
{
    lemma_spread_out(w(0), m(0, 0), m(0, 1), m(0, 2), v(0), v(1), v(2));
    lemma_spread_out(w(1), m(1, 0), m(1, 1), m(1, 2), v(0), v(1), v(2));
    lemma_spread_out(w(2), m(2, 0), m(2, 1), m(2, 2), v(0), v(1), v(2));
    lemma_gathered(w(0) * m(0, 0), w(1) * m(1, 0), w(2) * m(2, 0), v(0));
    lemma_gathered(w(0) * m(0, 1), w(1) * m(1, 1), w(2) * m(2, 1), v(1));
    lemma_gathered(w(0) * m(0, 2), w(1) * m(1, 2), w(2) * m(2, 2), v(2));
    assert forall|i: int, j: int| #[trigger] (w(i) * m(i, j)) == m(i, j) * w(i) by {
        assert(w(i) * m(i, j) == m(i, j) * w(i)) by (nonlinear_arith);
    }
    assert(scalar(w, applied(m, v)) == w(0) * applied(m, v)(0) + w(1) * applied(m, v)(1) + w(2)
        * applied(m, v)(2));
    let t = applied(exchanged(m), w);
    assert(t(0) == m(0, 0) * w(0) + m(1, 0) * w(1) + m(2, 0) * w(2));
    assert(t(1) == m(0, 1) * w(0) + m(1, 1) * w(1) + m(2, 1) * w(2));
    assert(t(2) == m(0, 2) * w(0) + m(1, 2) * w(1) + m(2, 2) * w(2));
}

/// What is turned and turned back is what it was, times the square of the factor.
pub proof fn lemma_turned_back(m: spec_fn(int, int) -> int, v: spec_fn(int) -> int, s: int, k: int)
    requires
        turns(m, s),
        0 <= k < 3,
    ensures
        applied(exchanged(m), applied(m, v))(k) == s * v(k),
{
    let w = |i: int| m(i, k);
    lemma_exchange(w, m, v);
    let a = applied(m, v);
    assert(applied(exchanged(m), a)(k) == scalar(w, a));
    let t = applied(exchanged(m), w);
    assert forall|l: int| 0 <= l < 3 implies #[trigger] t(l) == (if k == l {
        s
    } else {
        0
    }) by {
        assert(t(l) == m(0, l) * m(0, k) + m(1, l) * m(1, k) + m(2, l) * m(2, k));
        assert((m(0, l) * m(0, k)) + m(1, l) * m(1, k) + m(2, l) * m(2, k) == (if l == k {
            s
        } else {
            0
        }));
    }
    assert(t(0) * v(0) + t(1) * v(1) + t(2) * v(2) == s * v(k)) by {
        if k == 0 {
            assert(t(0) == s && t(1) == 0 && t(2) == 0);
        } else if k == 1 {
            assert(t(0) == 0 && t(1) == s && t(2) == 0);
        } else {
            assert(t(0) == 0 && t(1) == 0 && t(2) == s);
        }
    }
}

/// The sum of the first `n` numbers of a list.
pub open spec fn sum_to(f: spec_fn(int) -> int, n: int) -> int
    decreases n,
{
    if n <= 0 {
        0
    } else {
        sum_to(f, n - 1) + f(n - 1)
    }
}

/// Lists that agree have the same sum.
pub proof fn lemma_sum_same(f: spec_fn(int) -> int, g: spec_fn(int) -> int, n: int)
    requires
        forall|k: int| 0 <= k < n ==> #[trigger] f(k) == g(k),
    ensures
        sum_to(f, n) == sum_to(g, n),
    decreases n,
{
    if n > 0 {
        lemma_sum_same(f, g, n - 1);
        assert(f(n - 1) == g(n - 1));
    }
}

/// Sums of two lists.
pub proof fn lemma_sum_plus(f: spec_fn(int) -> int, g: spec_fn(int) -> int, n: int)
    ensures
        sum_to(|k: int| f(k) + g(k), n) == sum_to(f, n) + sum_to(g, n),
    decreases n,
{
    if n > 0 {
        lemma_sum_plus(f, g, n - 1);
    }
}

/// A sum of multiples.
pub proof fn lemma_sum_scaled(c: int, f: spec_fn(int) -> int, n: int)
    ensures
        sum_to(|k: int| c * f(k), n) == c * sum_to(f, n),
    decreases n,
{
    if n > 0 {
        lemma_sum_scaled(c, f, n - 1);
        let a = sum_to(f, n - 1);
        let b = f(n - 1);
        assert(c * a + c * b == c * (a + b)) by (nonlinear_arith);
    }
}

/// A sum over rows and columns may be taken either way.
pub proof fn lemma_sum_either_way(a: spec_fn(int, int) -> int, m: int, n: int)
    ensures
        sum_to(|i: int| sum_to(|j: int| a(i, j), n), m) == sum_to(
            |j: int| sum_to(|i: int| a(i, j), m),
            n,
        ),
    decreases m,
{
    let right = |m: int| |j: int| sum_to(|i: int| a(i, j), m);
    if m <= 0 {
        lemma_sum_same(right(m), |j: int| 0, n);
        lemma_sum_nothing(n);
        assert(sum_to(|j: int| sum_to(|i: int| a(i, j), m), n) == sum_to(right(m), n));
    } else {
        lemma_sum_either_way(a, m - 1, n);
        let last = |j: int| a(m - 1, j);
        lemma_sum_plus(right(m - 1), last, n);
        lemma_sum_same(right(m), |j: int| right(m - 1)(j) + last(j), n);
        assert(sum_to(|j: int| sum_to(|i: int| a(i, j), m), n) == sum_to(right(m), n));
        assert(sum_to(|j: int| sum_to(|i: int| a(i, j), m - 1), n) == sum_to(right(m - 1), n));
    }
}

/// A sum of nothing.
proof fn lemma_sum_nothing(n: int)
    ensures
        sum_to(|j: int| 0, n) == 0,
    decreases n,
{
    if n > 0 {
        lemma_sum_nothing(n - 1);
    }
}

/// A sum of `n` products of whole numbers.
pub proof fn lemma_long_dot(
    f: spec_fn(int) -> Double,
    g: spec_fn(int) -> Double,
    op: Ring,
    n: int,
    p: int,
    q: int,
)
    requires
        exact(op),
        0 <= n,
        forall|k: int| 0 <= k < n ==> whole(#[trigger] f(k), p),
        forall|k: int| 0 <= k < n ==> whole(#[trigger] g(k), q),
        0 <= p <= EXACT,
        0 <= q <= EXACT,
        p * q <= EXACT,
        n * (p * q) <= EXACT,
    ensures
        whole(dot(f, g, op, n), n * (p * q)),
        value(dot(f, g, op, n)) == sum_to(|k: int| value(f(k)) * value(g(k)), n),
    decreases n,
{
    let c = p * q;
    assert(c >= 0) by (nonlinear_arith)
        requires
            c == p * q,
            0 <= p,
            0 <= q,
    ;
    if n == 0 {
        lemma_zero();
        assert(n * c == 0) by (nonlinear_arith)
            requires
                n == 0,
        ;
    } else {
        assert(n * c == (n - 1) * c + c && 0 <= (n - 1) * c) by (nonlinear_arith)
            requires
                n >= 1,
                c >= 0,
        ;
        lemma_long_dot(f, g, op, n - 1, p, q);
        lemma_times(op, f(n - 1), g(n - 1), p, q);
        lemma_plus(op, dot(f, g, op, n - 1), (op.times)(f(n - 1), g(n - 1)), (n - 1) * c, c);
    }
}

} // verus!
