//! Rotations: skew-symmetric matrices, exponential, logarithm and Jacobian. Roots,
//! sines and cosines are handed in.

use vstd::prelude::*;

use crate::algebra::{is, lemma_product, multiply, product, ring, unit, Ring, HALF_BITS};
use crate::arith::{
    apply_length, apply_one, apply_two, binary, length_of, lengths, of_one, of_two, unary,
};
use crate::double::{Double, MINUS_ONE_BITS, ONE_BITS};
use crate::matrix::Matrix;

verus! {

/// The shortest vector that turns anything: 1e-7.
pub const LEAST_TURN: u64 = 0x3E7A_D7F2_9ABC_AF48;

/// A trace above which nothing is turned: a millionth below three.
pub const FULL_TRACE: u64 = 0x4007_FFFF_79C8_42FA;

/// An angle below which a sine counts as its angle: 0.001.
pub const SMALL_ANGLE: u64 = 0x3F50_624D_D2F1_A9FC;

/// An angle below which the left Jacobian is the identity: a millionth.
pub const FLAT_ANGLE: u64 = 0x3EB0_C6F7_A0B5_ED8D;

/// Entry `(i, j)` of the matrix that multiplies as the cross product with `v`.
pub open spec fn skew_entry(v: Seq<Double>, i: int, j: int) -> Double {
    if i == 0 && j == 1 {
        v[2].spec_neg()
    } else if i == 0 && j == 2 {
        v[1]
    } else if i == 1 && j == 0 {
        v[2]
    } else if i == 1 && j == 2 {
        v[0].spec_neg()
    } else if i == 2 && j == 0 {
        v[1].spec_neg()
    } else if i == 2 && j == 1 {
        v[0]
    } else {
        Double { bits: 0 }
    }
}

/// The matrix that multiplies as the cross product with `v`.
pub fn skew(v: &[Double; 3]) -> (m: Matrix)
    ensures
        m.shaped(3, 3),
        forall|i: int, j: int| m.has(i, j) ==> #[trigger] m.at(i, j) == skew_entry(v@, i, j),
{
    let mut m = Matrix::filled(3, 3, Double::zero());
    m.set(0, 1, v[2].neg());
    m.set(0, 2, v[1]);
    m.set(1, 0, v[2]);
    m.set(1, 2, v[0].neg());
    m.set(2, 0, v[1].neg());
    m.set(2, 1, v[0]);
    m
}

/// The cross product matrix, entry by entry.
pub open spec fn cross(v: Seq<Double>) -> spec_fn(int, int) -> Double {
    |i: int, j: int| skew_entry(v, i, j)
}

/// The rotation about a unit axis by an angle with the given sine and cosine.
pub open spec fn rodrigues(axis: Seq<Double>, s: Double, c: Double, op: Ring) -> spec_fn(
    int,
    int,
) -> Double {
    |i: int, j: int|
        (op.plus)(
            (op.plus)(unit()(i, j), (op.times)(s, skew_entry(axis, i, j))),
            (op.times)(
                (op.plus)(Double { bits: ONE_BITS }, c.spec_neg()),
                product(cross(axis), cross(axis), op, 3)(i, j),
            ),
        )
}

/// A vector divided by a number.
pub open spec fn divided<V: Fn(Double, Double) -> Double>(v: Seq<Double>, n: Double, divide: V) -> Seq<
    Double,
> {
    Seq::new(3, |k: int| of_two(divide, v[k], n))
}

/// Divides a vector by a number.
pub fn divide3<V: Fn(Double, Double) -> Double>(v: &[Double; 3], n: Double, divide: &V) -> (r: [Double; 3])
    requires
        binary(*divide),
    ensures
        r@ == divided(v@, n, *divide),
{
    let r = [apply_two(divide, v[0], n), apply_two(divide, v[1], n), apply_two(divide, v[2], n)];
    assert(r@ =~= divided(v@, n, *divide));
    r
}

/// The identity, three by three.
fn identity() -> (m: Matrix)
    ensures
        is(&m, 3, 3, unit()),
{
    let mut m = Matrix::filled(3, 3, Double::zero());
    m.set_diagonal(0, 3, Double::one());
    m
}

/// The rotation about a unit axis by an angle with the given sine and cosine.
fn turned_about<P: Fn(Double, Double) -> Double, T: Fn(Double, Double) -> Double>(
    axis: &[Double; 3],
    s: Double,
    c: Double,
    plus: &P,
    times: &T,
) -> (m: Matrix)
    requires
        binary(*plus),
        binary(*times),
    ensures
        is(&m, 3, 3, rodrigues(axis@, s, c, ring(*plus, *times))),
{
    let ghost op = ring(*plus, *times);
    let ghost f = rodrigues(axis@, s, c, op);
    let k = skew(axis);
    let kk = multiply(&k, &k, plus, times);
    proof {
        lemma_product(&kk, &k, &k, cross(axis@), cross(axis@), op);
    }
    let one = identity();
    let rest = apply_two(plus, Double::one(), c.neg());
    let mut m = Matrix::filled(3, 3, Double::zero());
    let mut i: usize = 0;
    while i < 3
        invariant
            i <= 3,
            binary(*plus),
            binary(*times),
            op == ring(*plus, *times),
            f == rodrigues(axis@, s, c, op),
            k.shaped(3, 3),
            forall|x: int, y: int| k.has(x, y) ==> #[trigger] k.at(x, y) == skew_entry(axis@, x, y),
            is(&kk, 3, 3, product(cross(axis@), cross(axis@), op, 3)),
            is(&one, 3, 3, unit()),
            rest == (op.plus)(Double { bits: ONE_BITS }, c.spec_neg()),
            m.shaped(3, 3),
            forall|x: int, y: int| m.has(x, y) && x < i ==> #[trigger] m.at(x, y) == f(x, y),
        decreases 3 - i,
    {
        let mut j: usize = 0;
        while j < 3
            invariant
                i < 3,
                j <= 3,
                binary(*plus),
                binary(*times),
                op == ring(*plus, *times),
                f == rodrigues(axis@, s, c, op),
                k.shaped(3, 3),
                forall|x: int, y: int|
                    k.has(x, y) ==> #[trigger] k.at(x, y) == skew_entry(axis@, x, y),
                is(&kk, 3, 3, product(cross(axis@), cross(axis@), op, 3)),
                is(&one, 3, 3, unit()),
                rest == (op.plus)(Double { bits: ONE_BITS }, c.spec_neg()),
                m.shaped(3, 3),
                forall|x: int, y: int|
                    m.has(x, y) && (x < i || (x == i && y < j)) ==> #[trigger] m.at(x, y) == f(x, y),
            decreases 3 - j,
        {
            let by_sine = apply_two(times, s, k.get(i, j));
            let by_cosine = apply_two(times, rest, kk.get(i, j));
            let e = apply_two(plus, apply_two(plus, one.get(i, j), by_sine), by_cosine);
            m.set(i, j, e);
            j += 1;
        }
        i += 1;
    }
    m
}

/// The rotation by a vector; the identity for one that is too short.
pub fn exp<
    L: Fn([Double; 3]) -> Double,
    S: Fn(Double) -> Double,
    C: Fn(Double) -> Double,
    P: Fn(Double, Double) -> Double,
    T: Fn(Double, Double) -> Double,
    V: Fn(Double, Double) -> Double,
>(
    ang: &[Double; 3],
    length: &L,
    sine: &S,
    cosine: &C,
    plus: &P,
    times: &T,
    divide: &V,
) -> (m: Matrix)
    requires
        lengths(*length),
        unary(*sine),
        unary(*cosine),
        binary(*plus),
        binary(*times),
        binary(*divide),
    ensures
        ({
            let n = length_of(*length, ang@);
            is(
                &m,
                3,
                3,
                if (Double { bits: LEAST_TURN }).spec_lt(n) {
                    rodrigues(
                        divided(ang@, n, *divide),
                        of_one(*sine, n),
                        of_one(*cosine, n),
                        ring(*plus, *times),
                    )
                } else {
                    unit()
                },
            )
        }),
{
    let n = apply_length(length, *ang);
    if (Double { bits: LEAST_TURN }).lt(n) {
        let axis = divide3(ang, n, divide);
        turned_about(&axis, apply_one(sine, n), apply_one(cosine, n), plus, times)
    } else {
        identity()
    }
}

/// The rotation by an angular velocity over a time; the identity for one that is
/// too slow.
pub fn exp_dt<
    L: Fn([Double; 3]) -> Double,
    S: Fn(Double) -> Double,
    C: Fn(Double) -> Double,
    P: Fn(Double, Double) -> Double,
    T: Fn(Double, Double) -> Double,
    V: Fn(Double, Double) -> Double,
>(
    ang_vel: &[Double; 3],
    dt: Double,
    length: &L,
    sine: &S,
    cosine: &C,
    plus: &P,
    times: &T,
    divide: &V,
) -> (m: Matrix)
    requires
        lengths(*length),
        unary(*sine),
        unary(*cosine),
        binary(*plus),
        binary(*times),
        binary(*divide),
    ensures
        ({
            let n = length_of(*length, ang_vel@);
            let angle = of_two(*times, n, dt);
            is(
                &m,
                3,
                3,
                if (Double { bits: LEAST_TURN }).spec_lt(n) {
                    rodrigues(
                        divided(ang_vel@, n, *divide),
                        of_one(*sine, angle),
                        of_one(*cosine, angle),
                        ring(*plus, *times),
                    )
                } else {
                    unit()
                },
            )
        }),
{
    let n = apply_length(length, *ang_vel);
    if (Double { bits: LEAST_TURN }).lt(n) {
        let axis = divide3(ang_vel, n, divide);
        let angle = apply_two(times, n, dt);
        turned_about(&axis, apply_one(sine, angle), apply_one(cosine, angle), plus, times)
    } else {
        identity()
    }
}

/// What a rotation, given row by row, does not share with its transpose.
pub open spec fn twist(rot: Seq<Double>, op: Ring) -> Seq<Double> {
    seq![
        (op.plus)(rot[7], rot[5].spec_neg()),
        (op.plus)(rot[2], rot[6].spec_neg()),
        (op.plus)(rot[3], rot[1].spec_neg()),
    ]
}

/// The angle of a rotation, given row by row.
pub open spec fn angle_of<A: Fn(Double) -> Double>(rot: Seq<Double>, arccos: A, op: Ring) -> Double {
    let trace = (op.plus)((op.plus)(rot[0], rot[4]), rot[8]);
    if (Double { bits: FULL_TRACE }).spec_lt(trace) {
        Double { bits: 0 }
    } else {
        of_one(
            arccos,
            (op.times)(Double { bits: HALF_BITS }, (op.plus)(trace, Double { bits: MINUS_ONE_BITS })),
        )
    }
}

/// The factor between a rotation's twist and its vector.
pub open spec fn twist_factor<S: Fn(Double) -> Double, V: Fn(Double, Double) -> Double>(
    theta: Double,
    sine: S,
    divide: V,
    op: Ring,
) -> Double {
    if theta.spec_abs().spec_lt(Double { bits: SMALL_ANGLE }) {
        Double { bits: HALF_BITS }
    } else {
        of_two(divide, (op.times)(Double { bits: HALF_BITS }, theta), of_one(sine, theta))
    }
}

/// The vector of a rotation, given row by row.
pub fn log<
    A: Fn(Double) -> Double,
    S: Fn(Double) -> Double,
    P: Fn(Double, Double) -> Double,
    T: Fn(Double, Double) -> Double,
    V: Fn(Double, Double) -> Double,
>(rot: &[Double; 9], arccos: &A, sine: &S, plus: &P, times: &T, divide: &V) -> (v: [Double; 3])
    requires
        unary(*arccos),
        unary(*sine),
        binary(*plus),
        binary(*times),
        binary(*divide),
    ensures
        ({
            let op = ring(*plus, *times);
            let by = twist_factor(angle_of(rot@, *arccos, op), *sine, *divide, op);
            v@ == Seq::new(3, |k: int| (op.times)(by, twist(rot@, op)[k]))
        }),
{
    let ghost op = ring(*plus, *times);
    let half = Double { bits: HALF_BITS };
    let trace = apply_two(plus, apply_two(plus, rot[0], rot[4]), rot[8]);
    let theta = if (Double { bits: FULL_TRACE }).lt(trace) {
        Double::zero()
    } else {
        let less = apply_two(plus, trace, Double::minus_one());
        apply_one(arccos, apply_two(times, half, less))
    };
    let by = if theta.abs().lt(Double { bits: SMALL_ANGLE }) {
        half
    } else {
        apply_two(divide, apply_two(times, half, theta), apply_one(sine, theta))
    };
    let v = [
        apply_two(times, by, apply_two(plus, rot[7], rot[5].neg())),
        apply_two(times, by, apply_two(plus, rot[2], rot[6].neg())),
        apply_two(times, by, apply_two(plus, rot[3], rot[1].neg())),
    ];
    assert(v@ =~= Seq::new(3, |k: int| (op.times)(by, twist(rot@, op)[k])));
    v
}

/// The left Jacobian for a unit axis: of the identity, of the axis with itself and
/// of the cross product with the given shares.
pub open spec fn jacobian_about(axis: Seq<Double>, s: Double, c: Double, op: Ring) -> spec_fn(
    int,
    int,
) -> Double {
    |i: int, j: int|
        (op.plus)(
            (op.plus)(
                (op.times)(s, unit()(i, j)),
                (op.times)(
                    (op.plus)(Double { bits: ONE_BITS }, s.spec_neg()),
                    (op.times)(axis[i], axis[j]),
                ),
            ),
            (op.times)(c, skew_entry(axis, i, j)),
        )
}

/// The left Jacobian of the exponential; the identity for a small angle.
pub fn left_jacobian<
    L: Fn([Double; 3]) -> Double,
    S: Fn(Double) -> Double,
    C: Fn(Double) -> Double,
    P: Fn(Double, Double) -> Double,
    T: Fn(Double, Double) -> Double,
    V: Fn(Double, Double) -> Double,
>(
    ang: &[Double; 3],
    length: &L,
    sine: &S,
    cosine: &C,
    plus: &P,
    times: &T,
    divide: &V,
) -> (m: Matrix)
    requires
        lengths(*length),
        unary(*sine),
        unary(*cosine),
        binary(*plus),
        binary(*times),
        binary(*divide),
    ensures
        ({
            let op = ring(*plus, *times);
            let theta = length_of(*length, ang@);
            let less = (op.plus)(Double { bits: ONE_BITS }, of_one(*cosine, theta).spec_neg());
            is(
                &m,
                3,
                3,
                if theta.spec_lt(Double { bits: FLAT_ANGLE }) {
                    unit()
                } else {
                    jacobian_about(
                        divided(ang@, theta, *divide),
                        of_two(*divide, of_one(*sine, theta), theta),
                        of_two(*divide, less, theta),
                        op,
                    )
                },
            )
        }),
{
    let ghost op = ring(*plus, *times);
    let theta = apply_length(length, *ang);
    if theta.lt(Double { bits: FLAT_ANGLE }) {
        return identity();
    }
    let axis = divide3(ang, theta, divide);
    let s = apply_two(divide, apply_one(sine, theta), theta);
    let less = apply_two(plus, Double::one(), apply_one(cosine, theta).neg());
    let c = apply_two(divide, less, theta);
    let rest = apply_two(plus, Double::one(), s.neg());
    let ghost f = jacobian_about(axis@, s, c, op);
    let k = skew(&axis);
    let one = identity();
    let mut m = Matrix::filled(3, 3, Double::zero());
    let mut i: usize = 0;
    while i < 3
        invariant
            i <= 3,
            binary(*plus),
            binary(*times),
            op == ring(*plus, *times),
            f == jacobian_about(axis@, s, c, op),
            k.shaped(3, 3),
            forall|x: int, y: int| k.has(x, y) ==> #[trigger] k.at(x, y) == skew_entry(axis@, x, y),
            is(&one, 3, 3, unit()),
            rest == (op.plus)(Double { bits: ONE_BITS }, s.spec_neg()),
            m.shaped(3, 3),
            forall|x: int, y: int| m.has(x, y) && x < i ==> #[trigger] m.at(x, y) == f(x, y),
        decreases 3 - i,
    {
        let mut j: usize = 0;
        while j < 3
            invariant
                i < 3,
                j <= 3,
                binary(*plus),
                binary(*times),
                op == ring(*plus, *times),
                f == jacobian_about(axis@, s, c, op),
                k.shaped(3, 3),
                forall|x: int, y: int|
                    k.has(x, y) ==> #[trigger] k.at(x, y) == skew_entry(axis@, x, y),
                is(&one, 3, 3, unit()),
                rest == (op.plus)(Double { bits: ONE_BITS }, s.spec_neg()),
                m.shaped(3, 3),
                forall|x: int, y: int|
                    m.has(x, y) && (x < i || (x == i && y < j)) ==> #[trigger] m.at(x, y) == f(x, y),
            decreases 3 - j,
        {
            let own = apply_two(times, s, one.get(i, j));
            let along = apply_two(times, rest, apply_two(times, axis[i], axis[j]));
            let across = apply_two(times, c, k.get(i, j));
            let e = apply_two(plus, apply_two(plus, own, along), across);
            m.set(i, j, e);
            j += 1;
        }
        i += 1;
    }
    m
}

/// The matrix changes its sign when it is transposed.
pub proof fn law_skew_is_antisymmetric(v: Seq<Double>, i: int, j: int)
    requires
        v.len() == 3,
        0 <= i < 3,
        0 <= j < 3,
        i != j,
    ensures
        skew_entry(v, j, i) == skew_entry(v, i, j).spec_neg(),
{
}

} // verus!
