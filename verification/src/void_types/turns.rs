//! What turns and increments are: a rotation leaves its axis where it is, its twist tells
//! its axis and its trace its angle, and a state moves by the rows of an error.

use vstd::prelude::*;

use crate::algebra::{product, ring, unit, Ring};
use crate::double::{Double, ONE_BITS};
use crate::vio::sight::{entry_values, lemma_product_values, whole_entries};
use crate::void_types::so3::{cross, rodrigues, skew_entry, twist};
use crate::void_types::state::{part, triple, turned, State};
use crate::whole::{
    applied, exact, exchanged, lemma_exchange, lemma_neg, lemma_one, lemma_plus, lemma_times,
    lemma_widened, lemma_zero, scalar, value, values, whole, whole3, EXACT,
};

verus! {

/// Entry `(i, j)` of the matrix that multiplies as a cross product.
pub open spec fn crossing(a: spec_fn(int) -> int) -> spec_fn(int, int) -> int {
    |i: int, j: int|
        if i == 0 && j == 1 {
            -a(2)
        } else if i == 0 && j == 2 {
            a(1)
        } else if i == 1 && j == 0 {
            a(2)
        } else if i == 1 && j == 2 {
            -a(0)
        } else if i == 2 && j == 0 {
            -a(1)
        } else if i == 2 && j == 1 {
            a(0)
        } else {
            0
        }
}

/// The entries of a cross product matrix in whole numbers.
proof fn lemma_crossing(a: Seq<Double>, m: int)
    requires
        whole3(a, m),
        0 <= m,
    ensures
        whole_entries(cross(a), m),
        forall|i: int, j: int|
            0 <= i < 3 && 0 <= j < 3 ==> value(#[trigger] cross(a)(i, j)) == crossing(values(a))(i, j),
{
    lemma_zero();
    lemma_widened(Double { bits: 0 }, 0, m);
    assert(whole(a[0], m) && whole(a[1], m) && whole(a[2], m));
    lemma_neg(a[0], m);
    lemma_neg(a[1], m);
    lemma_neg(a[2], m);
}

/// The square of a cross product matrix.
pub open spec fn crossing_twice(a: spec_fn(int) -> int) -> spec_fn(int, int) -> int {
    |i: int, j: int|
        crossing(a)(i, 0) * crossing(a)(0, j) + crossing(a)(i, 1) * crossing(a)(1, j) + crossing(a)(
            i,
            2,
        ) * crossing(a)(2, j)
}

/// The entries of a rotation in whole numbers.
proof fn lemma_rodrigues(axis: Seq<Double>, s: Double, c: Double, op: Ring, m: int)
    requires
        exact(op),
        whole3(axis, m),
        whole(s, m),
        whole(c, m),
        1 <= m,
        8 * (m * m * m) <= EXACT,
    ensures
        whole_entries(rodrigues(axis, s, c, op), 8 * (m * m * m)),
        forall|i: int, j: int|
            0 <= i < 3 && 0 <= j < 3 ==> value(#[trigger] rodrigues(axis, s, c, op)(i, j)) == (if i == j {
                1int
            } else {
                0
            }) + value(s) * crossing(values(axis))(i, j) + (1 - value(c)) * crossing_twice(values(axis))(
                i,
                j,
            ),
{
    assert(m <= m * m <= m * m * m) by (nonlinear_arith)
        requires
            1 <= m,
    ;
    let k = cross(axis);
    lemma_crossing(axis, m);
    lemma_product_values(k, k, op, m, m);
    let k2 = product(k, k, op, 3);
    lemma_one();
    lemma_zero();
    lemma_neg(c, m);
    lemma_plus(op, Double { bits: ONE_BITS }, c.spec_neg(), 1, m);
    let g = (op.plus)(Double { bits: ONE_BITS }, c.spec_neg());
    lemma_widened(g, 1 + m, 2 * m);
    assert((2 * m) * (3 * (m * m)) == 6 * (m * m * m)) by (nonlinear_arith);
    let x = values(axis);
    assert forall|i: int, j: int| 0 <= i < 3 && 0 <= j < 3 implies whole(
        #[trigger] rodrigues(axis, s, c, op)(i, j),
        8 * (m * m * m),
    ) && value(rodrigues(axis, s, c, op)(i, j)) == (if i == j {
        1int
    } else {
        0
    }) + value(s) * crossing(x)(i, j) + (1 - value(c)) * crossing_twice(x)(i, j) by {
        let u = unit()(i, j);
        assert(whole(u, 1)) by {
            lemma_widened(Double { bits: 0 }, 0, 1);
        }
        lemma_widened(u, 1, m * m * m);
        assert(whole(k(i, j), m));
        assert(value(k(i, j)) == crossing(x)(i, j));
        lemma_times(op, s, skew_entry(axis, i, j), m, m);
        let t = (op.times)(s, skew_entry(axis, i, j));
        lemma_widened(t, m * m, m * m * m);
        lemma_plus(op, u, t, m * m * m, m * m * m);
        assert(whole(k2(i, j), 3 * (m * m)));
        assert(value(product(k, k, op, 3)(i, j)) == scalar(
            |l: int| value(k(i, l)),
            |l: int| value(k(l, j)),
        ));
        assert(value(k(i, 0)) == crossing(x)(i, 0) && value(k(0, j)) == crossing(x)(0, j));
        assert(value(k(i, 1)) == crossing(x)(i, 1) && value(k(1, j)) == crossing(x)(1, j));
        assert(value(k(i, 2)) == crossing(x)(i, 2) && value(k(2, j)) == crossing(x)(2, j));
        lemma_times(op, g, k2(i, j), 2 * m, 3 * (m * m));
        lemma_plus(
            op,
            (op.plus)(u, t),
            (op.times)(g, k2(i, j)),
            2 * (m * m * m),
            6 * (m * m * m),
        );
    }
}

/// A cross product of a vector with itself.
proof fn lemma_crossed_with_itself(x: spec_fn(int) -> int, i: int)
    requires
        0 <= i < 3,
    ensures
        applied(crossing(x), x)(i) == 0,
{
    let (a, b, c) = (x(0), x(1), x(2));
    assert(0 * a + (-c) * b + b * c == 0) by (nonlinear_arith);
    assert(c * a + 0 * b + (-a) * c == 0) by (nonlinear_arith);
    assert((-b) * a + a * b + 0 * c == 0) by (nonlinear_arith);
}

/// A rotation leaves its axis where it is, whatever the angle.
pub proof fn law_rotations_keep_their_axis(
    axis: Seq<Double>,
    s: Double,
    c: Double,
    op: Ring,
    m: int,
    i: int,
)
    requires
        exact(op),
        whole3(axis, m),
        whole(s, m),
        whole(c, m),
        1 <= m,
        8 * (m * m * m) <= EXACT,
        0 <= i < 3,
    ensures
        applied(entry_values(rodrigues(axis, s, c, op)), values(axis))(i) == value(axis[i]),
{
    lemma_rodrigues(axis, s, c, op, m);
    let x = values(axis);
    let r = entry_values(rodrigues(axis, s, c, op));
    let k = crossing(x);
    let k2 = crossing_twice(x);
    let (p, q) = (value(s), 1 - value(c));
    lemma_crossed_with_itself(x, 0);
    lemma_crossed_with_itself(x, 1);
    lemma_crossed_with_itself(x, 2);
    let z = applied(k, x);
    let row = |l: int| k(i, l);
    lemma_exchange(row, k, x);
    let y = applied(exchanged(k), row);
    assert forall|j: int| 0 <= j < 3 implies #[trigger] y(j) == k2(i, j) by {
        lemma_either_order(k(0, j), k(i, 0));
        lemma_either_order(k(1, j), k(i, 1));
        lemma_either_order(k(2, j), k(i, 2));
    }
    assert(y(0) == k2(i, 0) && y(1) == k2(i, 1) && y(2) == k2(i, 2));
    lemma_nothing_times(row(0), z(0));
    lemma_nothing_times(row(1), z(1));
    lemma_nothing_times(row(2), z(2));
    assert(k2(i, 0) * x(0) + k2(i, 1) * x(1) + k2(i, 2) * x(2) == 0);
    let d = |j: int|
        if i == j {
            1int
        } else {
            0
        };
    assert(r(i, 0) == d(0) + p * k(i, 0) + q * k2(i, 0));
    assert(r(i, 1) == d(1) + p * k(i, 1) + q * k2(i, 1));
    assert(r(i, 2) == d(2) + p * k(i, 2) + q * k2(i, 2));
    lemma_three_parts(d(0), p, k(i, 0), q, k2(i, 0), x(0));
    lemma_three_parts(d(1), p, k(i, 1), q, k2(i, 1), x(1));
    lemma_three_parts(d(2), p, k(i, 2), q, k2(i, 2), x(2));
    lemma_common(p, k(i, 0) * x(0), k(i, 1) * x(1), k(i, 2) * x(2));
    lemma_common(q, k2(i, 0) * x(0), k2(i, 1) * x(1), k2(i, 2) * x(2));
    lemma_nothing_times(p, z(i));
    lemma_nothing_times(q, k2(i, 0) * x(0) + k2(i, 1) * x(1) + k2(i, 2) * x(2));
    assert(1 * x(i) == x(i));
}

/// A product may be taken in either order.
proof fn lemma_either_order(a: int, b: int)
    ensures
        a * b == b * a,
{
    assert(a * b == b * a) by (nonlinear_arith);
}

/// A product with zero.
proof fn lemma_nothing_times(a: int, z: int)
    requires
        z == 0,
    ensures
        a * z == 0,
{
}

/// A sum of three parts times a number.
proof fn lemma_three_parts(d: int, p: int, k: int, q: int, l: int, x: int)
    ensures
        (d + p * k + q * l) * x == d * x + p * (k * x) + q * (l * x),
{
    assert((d + p * k + q * l) * x == d * x + (p * k) * x + (q * l) * x) by (nonlinear_arith);
    assert((p * k) * x == p * (k * x)) by (nonlinear_arith);
    assert((q * l) * x == q * (l * x)) by (nonlinear_arith);
}

/// A common factor of three numbers.
proof fn lemma_common(p: int, a: int, b: int, c: int)
    ensures
        p * a + p * b + p * c == p * (a + b + c),
{
    assert(p * a + p * b + p * c == p * (a + b + c)) by (nonlinear_arith);
}

/// The twist of a rotation is its axis, times twice the sine of its angle, and its trace
/// is one and twice the cosine, for an axis of length one.
pub proof fn law_twist_and_trace_tell_the_rotation(
    rot: Seq<Double>,
    axis: Seq<Double>,
    s: Double,
    c: Double,
    op: Ring,
    m: int,
)
    requires
        exact(op),
        rot.len() == 9,
        forall|i: int, j: int|
            0 <= i < 3 && 0 <= j < 3 ==> rot[3 * i + j] == #[trigger] rodrigues(axis, s, c, op)(i, j),
        whole3(axis, m),
        whole(s, m),
        whole(c, m),
        1 <= m,
        16 * (m * m * m) <= EXACT,
    ensures
        forall|k: int|
            0 <= k < 3 ==> value(#[trigger] twist(rot, op)[k]) == 2 * (value(s) * value(axis[k])),
        scalar(values(axis), values(axis)) == 1 ==> value(rot[0]) + value(rot[4]) + value(rot[8]) == 1 + 2
            * value(c),
{
    let n = 8 * (m * m * m);
    lemma_rodrigues(axis, s, c, op, m);
    let r = rodrigues(axis, s, c, op);
    let x = values(axis);
    let k2 = crossing_twice(x);
    assert(r(0, 0) == rot[0] && r(0, 1) == rot[1] && r(0, 2) == rot[2]);
    assert(r(1, 0) == rot[3] && r(1, 1) == rot[4] && r(1, 2) == rot[5]);
    assert(r(2, 0) == rot[6] && r(2, 1) == rot[7] && r(2, 2) == rot[8]);
    assert(whole(r(0, 1), n) && whole(r(0, 2), n) && whole(r(1, 0), n));
    assert(whole(r(1, 2), n) && whole(r(2, 0), n) && whole(r(2, 1), n));
    lemma_neg(rot[5], n);
    lemma_neg(rot[6], n);
    lemma_neg(rot[1], n);
    lemma_plus(op, rot[7], rot[5].spec_neg(), n, n);
    lemma_plus(op, rot[2], rot[6].spec_neg(), n, n);
    lemma_plus(op, rot[3], rot[1].spec_neg(), n, n);
    let (a, b, d) = (x(0), x(1), x(2));
    let (p, q) = (value(s), 1 - value(c));
    assert(k2(0, 1) == k2(1, 0) && k2(0, 2) == k2(2, 0) && k2(1, 2) == k2(2, 1)) by {
        assert(0 * (-d) + (-d) * 0 + b * a == d * 0 + 0 * d + (-a) * (-b)) by (nonlinear_arith);
        assert(0 * b + (-d) * (-a) + b * 0 == (-b) * 0 + a * d + 0 * (-b)) by (nonlinear_arith);
        assert(d * b + 0 * (-a) + (-a) * 0 == (-b) * (-d) + a * 0 + 0 * a) by (nonlinear_arith);
    }
    assert(p * (-a) == -(p * a) && p * (-b) == -(p * b) && p * (-d) == -(p * d)) by (nonlinear_arith);
    assert(value(r(2, 1)) == 0 + p * a + q * k2(2, 1));
    assert(value(r(1, 2)) == 0 + p * (-a) + q * k2(1, 2));
    assert(value(r(0, 2)) == 0 + p * b + q * k2(0, 2));
    assert(value(r(2, 0)) == 0 + p * (-b) + q * k2(2, 0));
    assert(value(r(1, 0)) == 0 + p * d + q * k2(1, 0));
    assert(value(r(0, 1)) == 0 + p * (-d) + q * k2(0, 1));
    if scalar(x, x) == 1 {
        assert(value(r(0, 0)) == 1 + p * 0 + q * k2(0, 0));
        assert(value(r(1, 1)) == 1 + p * 0 + q * k2(1, 1));
        assert(value(r(2, 2)) == 1 + p * 0 + q * k2(2, 2));
        assert(p * 0 == 0);
        assert(k2(0, 0) == 0 * 0 + (-d) * d + b * (-b));
        assert(k2(1, 1) == d * (-d) + 0 * 0 + (-a) * a);
        assert(k2(2, 2) == (-b) * b + a * (-a) + 0 * 0);
        assert((-d) * d == -(d * d) && b * (-b) == -(b * b) && d * (-d) == -(d * d)) by (nonlinear_arith);
        assert((-a) * a == -(a * a) && (-b) * b == -(b * b) && a * (-a) == -(a * a)) by (nonlinear_arith);
        lemma_common(q, k2(0, 0), k2(1, 1), k2(2, 2));
        assert(q * (-2) == -2 * q);
    }
}

/// A state moves by the rows of an error: position, exposure, velocity, biases and gravity
/// by theirs, in whole numbers exactly, and the orientation turns by the first three.
pub proof fn law_states_move_by_the_rows_of_an_error<
    T: Fn([Double; 9], [Double; 3]) -> [Double; 9],
    P: Fn(Double, Double) -> Double,
    M: Fn(Double, Double) -> Double,
>(x: &State, next: &State, delta: Seq<Double>, turn: T, plus: P, times: M, m: int, i: int)
    requires
        x.moved(delta, turn, plus, next),
        exact(ring(plus, times)),
        delta.len() == 19,
        forall|k: int| 0 <= k < 19 ==> whole(#[trigger] delta[k], m),
        whole3(x.pos@, m),
        whole3(x.vel@, m),
        whole3(x.bias_g@, m),
        whole3(x.bias_a@, m),
        whole3(x.gravity@, m),
        whole(x.inv_expo_time, m),
        0 <= m,
        2 * m <= EXACT,
        0 <= i < 3,
    ensures
        next.rot == turned(turn, x.rot, triple(delta.subrange(0, 3))),
        value(next.pos@[i]) - value(x.pos@[i]) == value(delta[3 + i]),
        value(next.inv_expo_time) - value(x.inv_expo_time) == value(delta[6]),
        value(next.vel@[i]) - value(x.vel@[i]) == value(delta[7 + i]),
        value(next.bias_g@[i]) - value(x.bias_g@[i]) == value(delta[10 + i]),
        value(next.bias_a@[i]) - value(x.bias_a@[i]) == value(delta[13 + i]),
        value(next.gravity@[i]) - value(x.gravity@[i]) == value(delta[16 + i]),
        next.cov.same(&x.cov),
{
    let op = ring(plus, times);
    assert(part(delta, 3)[i] == delta[3 + i]);
    assert(part(delta, 7)[i] == delta[7 + i]);
    assert(part(delta, 10)[i] == delta[10 + i]);
    assert(part(delta, 13)[i] == delta[13 + i]);
    assert(part(delta, 16)[i] == delta[16 + i]);
    lemma_plus(op, x.pos@[i], delta[3 + i], m, m);
    lemma_plus(op, x.inv_expo_time, delta[6], m, m);
    lemma_plus(op, x.vel@[i], delta[7 + i], m, m);
    lemma_plus(op, x.bias_g@[i], delta[10 + i], m, m);
    lemma_plus(op, x.bias_a@[i], delta[13 + i], m, m);
    lemma_plus(op, x.gravity@[i], delta[16 + i], m, m);
}

} // verus!
