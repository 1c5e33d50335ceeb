//! How uncertain a depth point is: along its ray by the disparity and by holes in
//! the depth image, across it by the size of a pixel.

use vstd::prelude::*;

use crate::algebra::{dot, is, list_of, ring, Ring, HALF_BITS};
use crate::arith::{
    apply_length, apply_one, apply_two, binary, length_of, lengths, of_one, of_two, unary,
};
use crate::double::{Double, ONE_BITS};
use crate::matrix::Matrix;
use crate::void_measure::options::DepthOptions;
use crate::void_types::so3::{divide3, divided, skew_entry};

verus! {

/// The share of a distance that holes make uncertain: 0.02.
pub const HOLE_COEFF: u64 = 0x3F94_7AE1_47AE_147B;

/// A depth component below which a ray counts as level: a millionth.
pub const LEVEL_RAY: u64 = 0x3EB0_C6F7_A0B5_ED8D;

/// The noise of depth points.
#[derive(Clone, Copy, Debug, PartialEq, Eq, Structural)]
pub struct DepthNoise {
    /// The deviation of a distance over its square.
    pub depth_sigma_coeff: Double,
    /// The deviation of a distance over the distance.
    pub hole_coeff: Double,
    /// The deviation of a direction (rad).
    pub angle_sigma: Double,
}

/// The deviation of a distance.
pub open spec fn range_deviation<R: Fn(Double) -> Double>(n: DepthNoise, z: Double, root: R, op: Ring) -> Double {
    let disp = (op.times)((op.times)(n.depth_sigma_coeff, z), z);
    let hole = (op.times)(n.hole_coeff, z);
    of_one(root, (op.plus)((op.times)(disp, disp), (op.times)(hole, hole)))
}

/// The cross product of two vectors.
pub open spec fn crossed(a: Seq<Double>, b: Seq<Double>, op: Ring) -> Seq<Double> {
    seq![
        (op.plus)((op.times)(a[1], b[2]), (op.times)(a[2], b[1]).spec_neg()),
        (op.plus)((op.times)(a[2], b[0]), (op.times)(a[0], b[2]).spec_neg()),
        (op.plus)((op.times)(a[0], b[1]), (op.times)(a[1], b[0]).spec_neg()),
    ]
}

/// A vector at length one.
pub open spec fn at_length_one<L: Fn([Double; 3]) -> Double, V: Fn(Double, Double) -> Double>(
    v: Seq<Double>,
    length: L,
    divide: V,
) -> Seq<Double> {
    divided(v, length_of(length, v), divide)
}

/// A direction across a ray.
pub open spec fn first_across<L: Fn([Double; 3]) -> Double, V: Fn(Double, Double) -> Double>(
    dir: Seq<Double>,
    length: L,
    divide: V,
    op: Ring,
) -> Seq<Double> {
    let one = Double { bits: ONE_BITS };
    if (Double { bits: LEVEL_RAY }).spec_lt(dir[2].spec_abs()) {
        at_length_one(
            seq![one, one, of_two(divide, (op.plus)(dir[0], dir[1]).spec_neg(), dir[2])],
            length,
            divide,
        )
    } else {
        seq![one, Double { bits: 0 }, Double { bits: 0 }]
    }
}

/// How a point moves with a turn of its ray about a direction across it.
pub open spec fn sweep(r: Double, dir: Seq<Double>, across: Seq<Double>, op: Ring) -> Seq<Double> {
    Seq::new(
        3,
        |i: int|
            dot(|k: int| (op.times)(r, skew_entry(dir, i, k)), list_of(across), op, 3),
    )
}

/// The covariance of a point: along its ray, and across it in two directions.
pub open spec fn point_spread(
    dir: Seq<Double>,
    along: Double,
    a: Seq<Double>,
    b: Seq<Double>,
    across: Double,
    op: Ring,
) -> spec_fn(int, int) -> Double {
    |i: int, j: int|
        (op.plus)(
            (op.times)((op.times)(dir[i], along), dir[j]),
            (op.plus)(
                (op.times)((op.times)(a[i], across), a[j]),
                (op.times)((op.times)(b[i], across), b[j]),
            ),
        )
}

impl DepthNoise {
    /// The noise for a deviation of directions.
    pub fn new(opts: &DepthOptions, angle_sigma: Double) -> (n: DepthNoise)
        ensures
            n == (DepthNoise {
                depth_sigma_coeff: opts.depth_sigma_coeff,
                hole_coeff: Double { bits: HOLE_COEFF },
                angle_sigma,
            }),
    {
        DepthNoise {
            depth_sigma_coeff: opts.depth_sigma_coeff,
            hole_coeff: Double { bits: HOLE_COEFF },
            angle_sigma,
        }
    }

    /// The noise for the focal lengths of a camera: directions deviate by the angle
    /// of half a pixel.
    pub fn from_intrinsics<
        A: Fn(Double) -> Double,
        P: Fn(Double, Double) -> Double,
        T: Fn(Double, Double) -> Double,
        V: Fn(Double, Double) -> Double,
    >(
        opts: &DepthOptions,
        fx: Double,
        fy: Double,
        arctan: &A,
        plus: &P,
        times: &T,
        divide: &V,
    ) -> (n: DepthNoise)
        requires
            unary(*arctan),
            binary(*plus),
            binary(*times),
            binary(*divide),
        ensures
            ({
                let half = Double { bits: HALF_BITS };
                let ang = of_two(
                    *plus,
                    of_one(*arctan, of_two(*divide, half, fx)),
                    of_one(*arctan, of_two(*divide, half, fy)),
                );
                n == (DepthNoise {
                    depth_sigma_coeff: opts.depth_sigma_coeff,
                    hole_coeff: Double { bits: HOLE_COEFF },
                    angle_sigma: of_two(*times, half, ang),
                })
            }),
    {
        let half = Double { bits: HALF_BITS };
        let x = apply_one(arctan, apply_two(divide, half, fx));
        let y = apply_one(arctan, apply_two(divide, half, fy));
        DepthNoise::new(opts, apply_two(times, half, apply_two(plus, x, y)))
    }

    /// The deviation of a distance.
    pub fn range_sigma<
        P: Fn(Double, Double) -> Double,
        T: Fn(Double, Double) -> Double,
        R: Fn(Double) -> Double,
    >(&self, z: Double, plus: &P, times: &T, root: &R) -> (s: Double)
        requires
            binary(*plus),
            binary(*times),
            unary(*root),
        ensures
            s == range_deviation(*self, z, *root, ring(*plus, *times)),
    {
        let disp = apply_two(times, apply_two(times, self.depth_sigma_coeff, z), z);
        let hole = apply_two(times, self.hole_coeff, z);
        let sum = apply_two(plus, apply_two(times, disp, disp), apply_two(times, hole, hole));
        apply_one(root, sum)
    }

    /// The covariance of a point in the camera's frame.
    pub fn point_covariance<
        L: Fn([Double; 3]) -> Double,
        P: Fn(Double, Double) -> Double,
        T: Fn(Double, Double) -> Double,
        V: Fn(Double, Double) -> Double,
        R: Fn(Double) -> Double,
    >(&self, p_cam: &[Double; 3], length: &L, plus: &P, times: &T, divide: &V, root: &R) -> (m:
        Matrix)
        requires
            lengths(*length),
            binary(*plus),
            binary(*times),
            binary(*divide),
            unary(*root),
        ensures
            ({
                let op = ring(*plus, *times);
                let r = length_of(*length, p_cam@);
                let dir = divided(p_cam@, r, *divide);
                let deviation = range_deviation(*self, r, *root, op);
                let first = first_across(dir, *length, *divide, op);
                let second = at_length_one(crossed(first, dir, op), *length, *divide);
                is(
                    &m,
                    3,
                    3,
                    point_spread(
                        dir,
                        (op.times)(deviation, deviation),
                        sweep(r, dir, first, op),
                        sweep(r, dir, second, op),
                        (op.times)(self.angle_sigma, self.angle_sigma),
                        op,
                    ),
                )
            }),
    {
        let ghost op = ring(*plus, *times);
        let r = apply_length(length, *p_cam);
        let dir = divide3(p_cam, r, divide);
        let deviation = self.range_sigma(r, plus, times, root);
        let along = apply_two(times, deviation, deviation);
        let across = apply_two(times, self.angle_sigma, self.angle_sigma);
        let first = across_ray(&dir, length, plus, times, divide);
        let normal = cross_product(&first, &dir, plus, times);
        let second = divide3(&normal, apply_length(length, normal), divide);
        let a = swept(r, &dir, &first, plus, times);
        let b = swept(r, &dir, &second, plus, times);
        let ghost f = point_spread(dir@, along, a@, b@, across, op);
        let mut m = Matrix::filled(3, 3, Double::zero());
        let mut i: usize = 0;
        while i < 3
            invariant
                i <= 3,
                binary(*plus),
                binary(*times),
                op == ring(*plus, *times),
                f == point_spread(dir@, along, a@, b@, across, op),
                m.shaped(3, 3),
                forall|x: int, y: int| m.has(x, y) && x < i ==> #[trigger] m.at(x, y) == f(x, y),
            decreases 3 - i,
        {
            let mut j: usize = 0;
            while j < 3
                invariant
                    i < 3,
                    j <= 3,
                    binary(*plus),
                    binary(*times),
                    op == ring(*plus, *times),
                    f == point_spread(dir@, along, a@, b@, across, op),
                    m.shaped(3, 3),
                    forall|x: int, y: int|
                        m.has(x, y) && (x < i || (x == i && y < j)) ==> #[trigger] m.at(x, y) == f(
                            x,
                            y,
                        ),
                decreases 3 - j,
            {
                let own = apply_two(times, apply_two(times, dir[i], along), dir[j]);
                let by_a = apply_two(times, apply_two(times, a[i], across), a[j]);
                let by_b = apply_two(times, apply_two(times, b[i], across), b[j]);
                m.set(i, j, apply_two(plus, own, apply_two(plus, by_a, by_b)));
                j += 1;
            }
            i += 1;
        }
        m
    }
}

/// A direction across a ray.
fn across_ray<
    L: Fn([Double; 3]) -> Double,
    P: Fn(Double, Double) -> Double,
    T: Fn(Double, Double) -> Double,
    V: Fn(Double, Double) -> Double,
>(dir: &[Double; 3], length: &L, plus: &P, times: &T, divide: &V) -> (v: [Double; 3])
    requires
        lengths(*length),
        binary(*plus),
        binary(*divide),
    ensures
        v@ == first_across(dir@, *length, *divide, ring(*plus, *times)),
{
    let one = Double::one();
    let v = if (Double { bits: LEVEL_RAY }).lt(dir[2].abs()) {
        let sum = apply_two(plus, dir[0], dir[1]);
        let w = [one, one, apply_two(divide, sum.neg(), dir[2])];
        assert(w@ =~= seq![one, one, of_two(*divide, sum.spec_neg(), dir@[2])]);
        divide3(&w, apply_length(length, w), divide)
    } else {
        [one, Double::zero(), Double::zero()]
    };
    assert(v@ =~= first_across(dir@, *length, *divide, ring(*plus, *times)));
    v
}

/// The cross product of two vectors.
fn cross_product<P: Fn(Double, Double) -> Double, T: Fn(Double, Double) -> Double>(
    a: &[Double; 3],
    b: &[Double; 3],
    plus: &P,
    times: &T,
) -> (c: [Double; 3])
    requires
        binary(*plus),
        binary(*times),
    ensures
        c@ == crossed(a@, b@, ring(*plus, *times)),
{
    let c = [
        apply_two(plus, apply_two(times, a[1], b[2]), apply_two(times, a[2], b[1]).neg()),
        apply_two(plus, apply_two(times, a[2], b[0]), apply_two(times, a[0], b[2]).neg()),
        apply_two(plus, apply_two(times, a[0], b[1]), apply_two(times, a[1], b[0]).neg()),
    ];
    assert(c@ =~= crossed(a@, b@, ring(*plus, *times)));
    c
}

/// How a point moves with a turn of its ray about a direction across it.
fn swept<P: Fn(Double, Double) -> Double, T: Fn(Double, Double) -> Double>(
    r: Double,
    dir: &[Double; 3],
    across: &[Double; 3],
    plus: &P,
    times: &T,
) -> (a: [Double; 3])
    requires
        binary(*plus),
        binary(*times),
    ensures
        a@ == sweep(r, dir@, across@, ring(*plus, *times)),
{
    let ghost op = ring(*plus, *times);
    let zero = Double::zero();
    let x = apply_two(times, r, dir[0]);
    let y = apply_two(times, r, dir[1]);
    let z = apply_two(times, r, dir[2]);
    let nx = apply_two(times, r, dir[0].neg());
    let ny = apply_two(times, r, dir[1].neg());
    let nz = apply_two(times, r, dir[2].neg());
    let none = apply_two(times, r, zero);
    let a = [
        row_sum(none, nz, y, across, plus, times),
        row_sum(z, none, nx, across, plus, times),
        row_sum(ny, x, none, across, plus, times),
    ];
    assert forall|i: int| 0 <= i < 3 implies #[trigger] a@[i] == sweep(r, dir@, across@, op)[i] by {
        reveal_with_fuel(dot, 4);
    }
    assert(a@ =~= sweep(r, dir@, across@, op));
    a
}

/// Three numbers times a vector.
fn row_sum<P: Fn(Double, Double) -> Double, T: Fn(Double, Double) -> Double>(
    a: Double,
    b: Double,
    c: Double,
    v: &[Double; 3],
    plus: &P,
    times: &T,
) -> (s: Double)
    requires
        binary(*plus),
        binary(*times),
    ensures
        ({
            let op = ring(*plus, *times);
            s == (op.plus)(
                (op.plus)(
                    (op.plus)(Double { bits: 0 }, (op.times)(a, v@[0])),
                    (op.times)(b, v@[1]),
                ),
                (op.times)(c, v@[2]),
            )
        }),
{
    let x = apply_two(times, a, v[0]);
    let y = apply_two(times, b, v[1]);
    let z = apply_two(times, c, v[2]);
    apply_two(plus, apply_two(plus, apply_two(plus, Double::zero(), x), y), z)
}

} // verus!
