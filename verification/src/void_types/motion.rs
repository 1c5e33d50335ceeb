//! Motion under constant rates: vectors of three, and what a step does to a state.

use vstd::prelude::*;

use crate::algebra::{Ring, HALF_BITS, ring};
use crate::arith::{apply_two, binary};
use crate::double::Double;

verus! {

/// The sum of two vectors.
pub open spec fn sum3(a: Seq<Double>, b: Seq<Double>, op: Ring) -> Seq<Double> {
    Seq::new(3, |i: int| (op.plus)(a[i], b[i]))
}

/// The difference of two vectors.
pub open spec fn difference3(a: Seq<Double>, b: Seq<Double>, op: Ring) -> Seq<Double> {
    Seq::new(3, |i: int| (op.plus)(a[i], b[i].spec_neg()))
}

/// A vector times a number.
pub open spec fn scaled3(a: Seq<Double>, k: Double, op: Ring) -> Seq<Double> {
    Seq::new(3, |i: int| (op.times)(a[i], k))
}

/// Half of a vector.
pub open spec fn half3(a: Seq<Double>, op: Ring) -> Seq<Double> {
    Seq::new(3, |i: int| (op.times)(Double { bits: HALF_BITS }, a[i]))
}

/// A rotation, row by row, applied to a vector.
pub open spec fn rotated3(rot: Seq<Double>, v: Seq<Double>, op: Ring) -> Seq<Double> {
    Seq::new(
        3,
        |i: int|
            (op.plus)(
                (op.plus)((op.times)(rot[3 * i], v[0]), (op.times)(rot[3 * i + 1], v[1])),
                (op.times)(rot[3 * i + 2], v[2]),
            ),
    )
}

/// A vector that is turned and then moved; of an acceleration and gravity, the
/// acceleration in the world.
pub open spec fn placed(rot: Seq<Double>, v: Seq<Double>, by: Seq<Double>, op: Ring) -> Seq<Double> {
    sum3(rotated3(rot, v, op), by, op)
}

/// Half the acceleration times the square of the time.
pub open spec fn half_square(acc: Seq<Double>, dt: Double, op: Ring) -> Seq<Double> {
    scaled3(scaled3(half3(acc, op), dt, op), dt, op)
}

/// The way of a step: the velocity times the time, and what the acceleration adds.
pub open spec fn way(vel: Seq<Double>, acc: Seq<Double>, dt: Double, op: Ring) -> Seq<Double> {
    sum3(scaled3(vel, dt, op), half_square(acc, dt, op), op)
}

/// Adds two vectors.
pub fn plus3<P: Fn(Double, Double) -> Double, T: Fn(Double, Double) -> Double>(
    a: &[Double; 3],
    b: &[Double; 3],
    plus: &P,
    times: &T,
) -> (r: [Double; 3])
    requires
        binary(*plus),
    ensures
        r@ == sum3(a@, b@, ring(*plus, *times)),
{
    let r = [apply_two(plus, a[0], b[0]), apply_two(plus, a[1], b[1]), apply_two(plus, a[2], b[2])];
    assert(r@ =~= sum3(a@, b@, ring(*plus, *times)));
    r
}

/// Subtracts a vector.
pub fn minus3<P: Fn(Double, Double) -> Double, T: Fn(Double, Double) -> Double>(
    a: &[Double; 3],
    b: &[Double; 3],
    plus: &P,
    times: &T,
) -> (r: [Double; 3])
    requires
        binary(*plus),
    ensures
        r@ == difference3(a@, b@, ring(*plus, *times)),
{
    let r = [
        apply_two(plus, a[0], b[0].neg()),
        apply_two(plus, a[1], b[1].neg()),
        apply_two(plus, a[2], b[2].neg()),
    ];
    assert(r@ =~= difference3(a@, b@, ring(*plus, *times)));
    r
}

/// Multiplies a vector by a number.
pub fn times3<P: Fn(Double, Double) -> Double, T: Fn(Double, Double) -> Double>(
    a: &[Double; 3],
    k: Double,
    plus: &P,
    times: &T,
) -> (r: [Double; 3])
    requires
        binary(*times),
    ensures
        r@ == scaled3(a@, k, ring(*plus, *times)),
{
    let r = [apply_two(times, a[0], k), apply_two(times, a[1], k), apply_two(times, a[2], k)];
    assert(r@ =~= scaled3(a@, k, ring(*plus, *times)));
    r
}

/// Half the acceleration times the square of the time.
pub fn fall<P: Fn(Double, Double) -> Double, T: Fn(Double, Double) -> Double>(
    acc: &[Double; 3],
    dt: Double,
    plus: &P,
    times: &T,
) -> (r: [Double; 3])
    requires
        binary(*times),
    ensures
        r@ == half_square(acc@, dt, ring(*plus, *times)),
{
    let h = Double { bits: HALF_BITS };
    let half = [apply_two(times, h, acc[0]), apply_two(times, h, acc[1]), apply_two(times, h, acc[2])];
    assert(half@ =~= half3(acc@, ring(*plus, *times)));
    let once = times3(&half, dt, plus, times);
    times3(&once, dt, plus, times)
}

/// One row of a rotation times a vector.
fn row3<P: Fn(Double, Double) -> Double, T: Fn(Double, Double) -> Double>(
    a: Double,
    b: Double,
    c: Double,
    v: &[Double; 3],
    plus: &P,
    times: &T,
) -> (r: Double)
    requires
        binary(*plus),
        binary(*times),
    ensures
        ({
            let op = ring(*plus, *times);
            r == (op.plus)(
                (op.plus)((op.times)(a, v@[0]), (op.times)(b, v@[1])),
                (op.times)(c, v@[2]),
            )
        }),
{
    let x = apply_two(times, a, v[0]);
    let y = apply_two(times, b, v[1]);
    let z = apply_two(times, c, v[2]);
    apply_two(plus, apply_two(plus, x, y), z)
}

/// Turns a vector.
pub fn rotate3<P: Fn(Double, Double) -> Double, T: Fn(Double, Double) -> Double>(
    rot: &[Double; 9],
    v: &[Double; 3],
    plus: &P,
    times: &T,
) -> (r: [Double; 3])
    requires
        binary(*plus),
        binary(*times),
    ensures
        r@ == rotated3(rot@, v@, ring(*plus, *times)),
{
    let turned = [
        row3(rot[0], rot[1], rot[2], v, plus, times),
        row3(rot[3], rot[4], rot[5], v, plus, times),
        row3(rot[6], rot[7], rot[8], v, plus, times),
    ];
    assert(turned@ =~= rotated3(rot@, v@, ring(*plus, *times)));
    turned
}

/// Turns a vector and then moves it.
pub fn place_point<P: Fn(Double, Double) -> Double, T: Fn(Double, Double) -> Double>(
    rot: &[Double; 9],
    v: &[Double; 3],
    by: &[Double; 3],
    plus: &P,
    times: &T,
) -> (r: [Double; 3])
    requires
        binary(*plus),
        binary(*times),
    ensures
        r@ == placed(rot@, v@, by@, ring(*plus, *times)),
{
    let turned = rotate3(rot, v, plus, times);
    plus3(&turned, by, plus, times)
}

/// The way of a step.
pub fn advance<P: Fn(Double, Double) -> Double, T: Fn(Double, Double) -> Double>(
    vel: &[Double; 3],
    acc: &[Double; 3],
    dt: Double,
    plus: &P,
    times: &T,
) -> (r: [Double; 3])
    requires
        binary(*plus),
        binary(*times),
    ensures
        r@ == way(vel@, acc@, dt, ring(*plus, *times)),
{
    let a = times3(vel, dt, plus, times);
    let b = fall(acc, dt, plus, times);
    plus3(&a, &b, plus, times)
}

} // verus!
