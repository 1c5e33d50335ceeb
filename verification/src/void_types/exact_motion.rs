//! Motion in whole numbers: what sums, differences and turned vectors come to where
//! all of them are exact.

use vstd::prelude::*;

use crate::algebra::Ring;
use crate::double::Double;
use crate::void_types::motion::{
    difference3, half3, half_square, placed, rotated3, scaled3, sum3, way,
};
use crate::whole::{
    applied, exact, halves, lemma_half, lemma_neg, lemma_plus, lemma_times, square, value, values, whole,
    whole3, whole9, EXACT,
};

verus! {

/// A turned vector of whole numbers is the matrix applied to it.
pub proof fn lemma_rotated(rot: Seq<Double>, v: Seq<Double>, op: Ring, m: int, n: int)
    requires
        exact(op),
        whole9(rot, m),
        whole3(v, n),
        0 <= m <= EXACT,
        0 <= n <= EXACT,
        3 * (m * n) <= EXACT,
    ensures
        whole3(rotated3(rot, v, op), 3 * (m * n)),
        forall|i: int|
            0 <= i < 3 ==> #[trigger] values(rotated3(rot, v, op))(i) == applied(
                square(rot),
                values(v),
            )(i),
{
    let p = m * n;
    assert(p >= 0) by (nonlinear_arith)
        requires
            p == m * n,
            0 <= m,
            0 <= n,
    ;
    let w = rotated3(rot, v, op);
    assert forall|i: int| 0 <= i < 3 implies whole(#[trigger] w[i], 3 * p) && value(w[i]) == applied(
        square(rot),
        values(v),
    )(i) by {
        assert(whole(rot[3 * i], m) && whole(rot[3 * i + 1], m) && whole(rot[3 * i + 2], m));
        lemma_times(op, rot[3 * i], v[0], m, n);
        lemma_times(op, rot[3 * i + 1], v[1], m, n);
        lemma_times(op, rot[3 * i + 2], v[2], m, n);
        let a = (op.times)(rot[3 * i], v[0]);
        let b = (op.times)(rot[3 * i + 1], v[1]);
        let c = (op.times)(rot[3 * i + 2], v[2]);
        lemma_plus(op, a, b, p, p);
        lemma_plus(op, (op.plus)(a, b), c, 2 * p, p);
        assert(w[i] == (op.plus)((op.plus)(a, b), c));
        assert(square(rot)(i, 0) == value(rot[3 * i]));
    }
}

/// A placed vector of whole numbers is the matrix applied to it, and moved.
pub proof fn lemma_placed(rot: Seq<Double>, v: Seq<Double>, by: Seq<Double>, op: Ring, m: int, n: int)
    requires
        exact(op),
        whole9(rot, m),
        whole3(v, n),
        whole3(by, n),
        0 <= m <= EXACT,
        0 <= n <= EXACT,
        3 * (m * n) + n <= EXACT,
    ensures
        whole3(placed(rot, v, by, op), 3 * (m * n) + n),
        forall|i: int|
            0 <= i < 3 ==> #[trigger] values(placed(rot, v, by, op))(i) == applied(
                square(rot),
                values(v),
            )(i) + value(by[i]),
{
    lemma_rotated(rot, v, op, m, n);
    let w = rotated3(rot, v, op);
    let q = placed(rot, v, by, op);
    assert forall|i: int| 0 <= i < 3 implies whole(#[trigger] q[i], 3 * (m * n) + n) && value(q[i])
        == applied(square(rot), values(v))(i) + value(by[i]) by {
        assert(values(w)(i) == value(w[i]));
        lemma_plus(op, w[i], by[i], 3 * (m * n), n);
    }
}

/// A sum of vectors.
pub proof fn lemma_sum3(a: Seq<Double>, b: Seq<Double>, op: Ring, m: int, n: int)
    requires
        exact(op),
        whole3(a, m),
        whole3(b, n),
        m + n <= EXACT,
    ensures
        whole3(sum3(a, b, op), m + n),
        forall|i: int| 0 <= i < 3 ==> value(#[trigger] sum3(a, b, op)[i]) == value(a[i]) + value(b[i]),
{
    assert forall|i: int| 0 <= i < 3 implies whole(#[trigger] sum3(a, b, op)[i], m + n) && value(
        sum3(a, b, op)[i],
    ) == value(a[i]) + value(b[i]) by {
        lemma_plus(op, a[i], b[i], m, n);
    }
}

/// A difference of vectors.
pub proof fn lemma_difference3(a: Seq<Double>, b: Seq<Double>, op: Ring, m: int, n: int)
    requires
        exact(op),
        whole3(a, m),
        whole3(b, n),
        m + n <= EXACT,
    ensures
        whole3(difference3(a, b, op), m + n),
        forall|i: int|
            0 <= i < 3 ==> value(#[trigger] difference3(a, b, op)[i]) == value(a[i]) - value(b[i]),
{
    assert forall|i: int| 0 <= i < 3 implies whole(#[trigger] difference3(a, b, op)[i], m + n) && value(
        difference3(a, b, op)[i],
    ) == value(a[i]) - value(b[i]) by {
        lemma_neg(b[i], n);
        lemma_plus(op, a[i], b[i].spec_neg(), m, n);
    }
}

/// A vector times a number.
pub proof fn lemma_scaled3(a: Seq<Double>, k: Double, op: Ring, m: int, n: int)
    requires
        exact(op),
        whole3(a, m),
        whole(k, n),
        m <= EXACT,
        n <= EXACT,
        m * n <= EXACT,
    ensures
        whole3(scaled3(a, k, op), m * n),
        forall|i: int| 0 <= i < 3 ==> value(#[trigger] scaled3(a, k, op)[i]) == value(a[i]) * value(k),
{
    assert forall|i: int| 0 <= i < 3 implies whole(#[trigger] scaled3(a, k, op)[i], m * n) && value(
        scaled3(a, k, op)[i],
    ) == value(a[i]) * value(k) by {
        lemma_times(op, a[i], k, m, n);
    }
}

/// Half of a vector of even numbers.
pub proof fn lemma_half3(a: Seq<Double>, op: Ring, m: int)
    requires
        halves(op),
        whole3(a, m),
        m <= EXACT,
        forall|i: int| 0 <= i < 3 ==> value(#[trigger] a[i]) % 2 == 0,
    ensures
        whole3(half3(a, op), m),
        forall|i: int| 0 <= i < 3 ==> 2 * value(#[trigger] half3(a, op)[i]) == value(a[i]),
{
    assert forall|i: int| 0 <= i < 3 implies whole(#[trigger] half3(a, op)[i], m) && 2 * value(
        half3(a, op)[i],
    ) == value(a[i]) by {
        lemma_half(op, a[i], m);
    }
}

/// Half the acceleration times the square of the time, for even accelerations.
pub proof fn lemma_half_square(a: Seq<Double>, dt: Double, op: Ring, m: int, t: int)
    requires
        exact(op),
        halves(op),
        whole3(a, m),
        whole(dt, t),
        0 <= m,
        1 <= t <= EXACT,
        (m * t) * t <= EXACT,
        forall|i: int| 0 <= i < 3 ==> value(#[trigger] a[i]) % 2 == 0,
    ensures
        whole3(half_square(a, dt, op), (m * t) * t),
        forall|i: int|
            0 <= i < 3 ==> 2 * value(#[trigger] half_square(a, dt, op)[i]) == value(a[i]) * value(dt)
                * value(dt),
{
    assert(m <= m * t <= (m * t) * t) by (nonlinear_arith)
        requires
            0 <= m,
            1 <= t,
    ;
    let h = half3(a, op);
    lemma_half3(a, op, m);
    lemma_scaled3(h, dt, op, m, t);
    lemma_scaled3(scaled3(h, dt, op), dt, op, m * t, t);
    assert forall|i: int| 0 <= i < 3 implies 2 * value(#[trigger] half_square(a, dt, op)[i]) == value(
        a[i],
    ) * value(dt) * value(dt) by {
        let x = value(h[i]);
        let d = value(dt);
        assert(value(scaled3(h, dt, op)[i]) == x * d);
        assert(2 * ((x * d) * d) == (2 * x) * d * d) by (nonlinear_arith);
    }
}

/// The way of a step, for even accelerations.
pub proof fn lemma_way(v: Seq<Double>, a: Seq<Double>, dt: Double, op: Ring, n: int, m: int, t: int)
    requires
        exact(op),
        halves(op),
        whole3(v, n),
        whole3(a, m),
        whole(dt, t),
        0 <= m,
        0 <= n <= EXACT,
        1 <= t <= EXACT,
        n * t + (m * t) * t <= EXACT,
        forall|i: int| 0 <= i < 3 ==> value(#[trigger] a[i]) % 2 == 0,
    ensures
        whole3(way(v, a, dt, op), n * t + (m * t) * t),
        forall|i: int|
            0 <= i < 3 ==> 2 * value(#[trigger] way(v, a, dt, op)[i]) == 2 * (value(v[i]) * value(dt))
                + value(a[i]) * value(dt) * value(dt),
{
    assert(0 <= n * t && 0 <= (m * t) * t) by (nonlinear_arith)
        requires
            0 <= m,
            0 <= n,
            1 <= t,
    ;
    lemma_scaled3(v, dt, op, n, t);
    lemma_half_square(a, dt, op, m, t);
    lemma_sum3(scaled3(v, dt, op), half_square(a, dt, op), op, n * t, (m * t) * t);
}

} // verus!
