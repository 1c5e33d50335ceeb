//! The plane through points: their mean, the eigenvectors of their covariance,
//! and how uncertain the result is.

use vstd::prelude::*;

use crate::algebra::{
    add_matrices, dot, flipped, is, lemma_product, multiply, nothing, product, ring, square_of,
    sum_of, summed, three_by_three, Ring,
};
use crate::arith::{
    apply_count, apply_one, apply_two, binary, counted, counts, lengths, of_one, of_two, unary,
};
use crate::double::{Double, ONE_BITS};
use crate::matrix::Matrix;
use crate::void_map::octree::MapPoint;
use crate::void_map::options::{PlaneOptions, MAX_POINTS_PER_PLANE};
use crate::void_map::plane::{
    align_normal_to_camera, faced, flat, judge_plane, largest, least, middle, order_eigenvalues,
    PlaneFit, Six, VoxelPlane,
};

verus! {

/// Eigenvalues and eigenvectors of a symmetric matrix, three by three.
#[derive(Clone, Copy, Debug)]
pub struct Eigen {
    /// The eigenvalues.
    pub values: [Double; 3],
    /// The eigenvectors, one in each column; row by row.
    pub vectors: [Double; 9],
}

/// Whether a matrix, given row by row, can be decomposed, always in the same way.
pub open spec fn decomposes<E: Fn([Double; 9]) -> Eigen>(decompose: E) -> bool {
    &&& forall|m: [Double; 9]| #[trigger] call_requires(decompose, (m,))
    &&& forall|m: [Double; 9], a: Eigen, b: Eigen| #[trigger]
        call_ensures(decompose, (m,), a) && #[trigger] call_ensures(decompose, (m,), b) ==> a == b
}

/// Whether a matrix, given row by row, has a decomposition.
pub open spec fn has_eigen<E: Fn([Double; 9]) -> Eigen>(decompose: E, m: Seq<Double>, r: Eigen) -> bool {
    exists|a: [Double; 9]| a@ == m && #[trigger] call_ensures(decompose, (a,), r)
}

/// The decomposition of a matrix, given row by row.
pub open spec fn decomposed<E: Fn([Double; 9]) -> Eigen>(decompose: E, m: Seq<Double>) -> Eigen {
    choose|r: Eigen| has_eigen(decompose, m, r)
}

/// A coordinate of points.
pub open spec fn coordinate(points: Seq<MapPoint>, a: int) -> spec_fn(int) -> Double {
    |k: int| points[k].position@[a]
}

/// The arithmetic of a fit.
pub struct FitOps {
    /// Addition and multiplication.
    pub op: Ring,
    /// Division.
    pub divide: spec_fn(Double, Double) -> Double,
    /// How many points there are.
    pub count: Double,
}

/// The mean of points.
pub open spec fn mean_of(points: Seq<MapPoint>, ops: FitOps) -> spec_fn(int) -> Double {
    |a: int|
        (ops.divide)(summed(coordinate(points, a), ops.op, points.len() as int), ops.count)
}

/// The covariance of points: the mean of the products less the product of the means.
pub open spec fn spread_of(points: Seq<MapPoint>, ops: FitOps) -> spec_fn(int, int) -> Double {
    |a: int, b: int|
        (ops.op.plus)(
            (ops.divide)(
                dot(coordinate(points, a), coordinate(points, b), ops.op, points.len() as int),
                ops.count,
            ),
            (ops.op.times)(mean_of(points, ops)(a), mean_of(points, ops)(b)).spec_neg(),
        )
}

/// Nine entries, row by row.
pub open spec fn nine(f: spec_fn(int, int) -> Double) -> Seq<Double> {
    Seq::new(9, |k: int| f(k / 3, k % 3))
}

/// What a plane is fitted with.
pub struct Basis {
    /// The arithmetic.
    pub ops: FitOps,
    /// The mean of the points.
    pub center: spec_fn(int) -> Double,
    /// The eigenvalues.
    pub values: Seq<Double>,
    /// The eigenvectors, one in each column.
    pub vectors: spec_fn(int, int) -> Double,
    /// The place of the least eigenvalue.
    pub low: int,
}

/// A point's offset from the center, divided by the gap between eigenvalue `m`
/// and the least one.
pub open spec fn pull(b: Basis, p: Seq<Double>, m: int) -> spec_fn(int) -> Double {
    |k: int|
        (b.ops.divide)(
            (b.ops.op.plus)(p[k], (b.center)(k).spec_neg()),
            (b.ops.op.times)(
                b.ops.count,
                (b.ops.op.plus)(b.values[b.low], b.values[m].spec_neg()),
            ),
        )
}

/// Column `c` of the symmetric product of eigenvector `m` and the normal.
pub open spec fn cross_column(b: Basis, m: int, c: int) -> spec_fn(int) -> Double {
    |k: int|
        (b.ops.op.plus)(
            (b.ops.op.times)((b.vectors)(k, m), (b.vectors)(c, b.low)),
            (b.ops.op.times)((b.vectors)(k, b.low), (b.vectors)(c, m)),
        )
}

/// How a point moves the normal, in the frame of the eigenvectors.
pub open spec fn tilt(b: Basis, p: Seq<Double>) -> spec_fn(int, int) -> Double {
    |m: int, c: int|
        if m == b.low {
            Double { bits: 0 }
        } else {
            dot(pull(b, p, m), cross_column(b, m, c), b.ops.op, 3)
        }
}

/// How a point moves normal and center.
pub open spec fn lever(b: Basis, p: Seq<Double>) -> spec_fn(int, int) -> Double {
    |i: int, j: int|
        if i < 3 {
            product(b.vectors, tilt(b, p), b.ops.op, 3)(i, j)
        } else if j == i - 3 {
            (b.ops.divide)(Double { bits: ONE_BITS }, b.ops.count)
        } else {
            Double { bits: 0 }
        }
}

/// What a point adds to the covariance of normal and center.
pub open spec fn share(b: Basis, p: MapPoint) -> spec_fn(int, int) -> Double {
    product(
        product(lever(b, p.position@), three_by_three(p.covariance@), b.ops.op, 3),
        flipped(lever(b, p.position@)),
        b.ops.op,
        3,
    )
}

/// What the first `n` points add to the covariance of normal and center.
pub open spec fn shares(b: Basis, points: Seq<MapPoint>, n: int) -> spec_fn(int, int) -> Double
    decreases n,
{
    if n <= 0 {
        nothing()
    } else {
        sum_of(shares(b, points, n - 1), share(b, points[n - 1]), b.ops.op)
    }
}

/// The arithmetic that a caller handed in.
pub open spec fn fit_ops<
    P: Fn(Double, Double) -> Double,
    T: Fn(Double, Double) -> Double,
    V: Fn(Double, Double) -> Double,
>(count: Double, plus: P, times: T, divide: V) -> FitOps {
    FitOps { op: ring(plus, times), divide: |a: Double, b: Double| of_two(divide, a, b), count }
}

/// The decomposition of the covariance of points.
pub open spec fn eigen_of<E: Fn([Double; 9]) -> Eigen>(
    points: Seq<MapPoint>,
    ops: FitOps,
    decompose: E,
) -> Eigen {
    decomposed(decompose, nine(spread_of(points, ops)))
}

/// What the plane of points is fitted with.
pub open spec fn basis_of<E: Fn([Double; 9]) -> Eigen>(
    points: Seq<MapPoint>,
    ops: FitOps,
    decompose: E,
) -> Basis {
    let eigen = eigen_of(points, ops, decompose);
    Basis {
        ops,
        center: mean_of(points, ops),
        values: eigen.values@,
        vectors: three_by_three(eigen.vectors@),
        low: least(eigen.values@, 3),
    }
}

/// Adds up a coordinate of points.
fn sum_along<P: Fn(Double, Double) -> Double, T: Fn(Double, Double) -> Double>(
    points: &Vec<MapPoint>,
    a: usize,
    plus: &P,
    times: &T,
) -> (s: Double)
    requires
        a < 3,
        binary(*plus),
    ensures
        s == summed(coordinate(points@, a as int), ring(*plus, *times), points@.len() as int),
{
    let ghost op = ring(*plus, *times);
    let mut s = Double::zero();
    let mut k: usize = 0;
    while k < points.len()
        invariant
            k <= points@.len(),
            a < 3,
            binary(*plus),
            op == ring(*plus, *times),
            s == summed(coordinate(points@, a as int), op, k as int),
        decreases points@.len() - k,
    {
        s = apply_two(plus, s, points[k].position[a]);
        k += 1;
    }
    s
}

/// Adds up the products of two coordinates of points.
fn products_along<P: Fn(Double, Double) -> Double, T: Fn(Double, Double) -> Double>(
    points: &Vec<MapPoint>,
    a: usize,
    b: usize,
    plus: &P,
    times: &T,
) -> (s: Double)
    requires
        a < 3,
        b < 3,
        binary(*plus),
        binary(*times),
    ensures
        s == dot(
            coordinate(points@, a as int),
            coordinate(points@, b as int),
            ring(*plus, *times),
            points@.len() as int,
        ),
{
    let ghost op = ring(*plus, *times);
    let mut s = Double::zero();
    let mut k: usize = 0;
    while k < points.len()
        invariant
            k <= points@.len(),
            a < 3,
            b < 3,
            binary(*plus),
            binary(*times),
            op == ring(*plus, *times),
            s == dot(
                coordinate(points@, a as int),
                coordinate(points@, b as int),
                op,
                k as int,
            ),
        decreases points@.len() - k,
    {
        let t = apply_two(times, points[k].position[a], points[k].position[b]);
        s = apply_two(plus, s, t);
        k += 1;
    }
    s
}

/// What the numbers of a fit are computed with.
struct Tools<'a, P, T, V> {
    plus: &'a P,
    times: &'a T,
    divide: &'a V,
    count: Double,
}

impl<
    'a,
    P: Fn(Double, Double) -> Double,
    T: Fn(Double, Double) -> Double,
    V: Fn(Double, Double) -> Double,
> Tools<'a, P, T, V> {
    /// Whether the operations always have one result.
    spec fn wf(&self) -> bool {
        binary(*self.plus) && binary(*self.times) && binary(*self.divide)
    }

    /// The arithmetic.
    spec fn ops(&self) -> FitOps {
        fit_ops(self.count, *self.plus, *self.times, *self.divide)
    }

    /// The mean of points.
    fn mean(&self, points: &Vec<MapPoint>) -> (c: [Double; 3])
        requires
            self.wf(),
        ensures
            forall|a: int| 0 <= a < 3 ==> #[trigger] c@[a] == mean_of(points@, self.ops())(a),
    {
        let x = sum_along(points, 0, self.plus, self.times);
        let y = sum_along(points, 1, self.plus, self.times);
        let z = sum_along(points, 2, self.plus, self.times);
        [
            apply_two(self.divide, x, self.count),
            apply_two(self.divide, y, self.count),
            apply_two(self.divide, z, self.count),
        ]
    }

    /// An entry of the covariance of points.
    fn spread_entry(&self, points: &Vec<MapPoint>, center: &[Double; 3], a: usize, b: usize) -> (s:
        Double)
        requires
            self.wf(),
            a < 3,
            b < 3,
            forall|k: int| 0 <= k < 3 ==> #[trigger] center@[k] == mean_of(points@, self.ops())(k),
        ensures
            s == spread_of(points@, self.ops())(a as int, b as int),
    {
        let sum = products_along(points, a, b, self.plus, self.times);
        let mean = apply_two(self.divide, sum, self.count);
        let own = apply_two(self.times, center[a], center[b]);
        apply_two(self.plus, mean, own.neg())
    }

    /// The covariance of points, row by row.
    fn spread(&self, points: &Vec<MapPoint>, center: &[Double; 3]) -> (m: [Double; 9])
        requires
            self.wf(),
            forall|k: int| 0 <= k < 3 ==> #[trigger] center@[k] == mean_of(points@, self.ops())(k),
        ensures
            m@ == nine(spread_of(points@, self.ops())),
    {
        let z = Double::zero();
        let mut m: [Double; 9] = [z, z, z, z, z, z, z, z, z];
        let mut k: usize = 0;
        while k < 9
            invariant
                k <= 9,
                self.wf(),
                forall|q: int|
                    0 <= q < 3 ==> #[trigger] center@[q] == mean_of(points@, self.ops())(q),
                forall|q: int|
                    0 <= q < k ==> #[trigger] m@[q] == spread_of(points@, self.ops())(q / 3, q % 3),
            decreases 9 - k,
        {
            let e = self.spread_entry(points, center, k / 3, k % 3);
            m[k] = e;
            k += 1;
        }
        assert(m@ =~= nine(spread_of(points@, self.ops())));
        m
    }

    /// How a point moves the normal, in the frame of the eigenvectors.
    fn tilt(&self, p: &[Double; 3], center: &[Double; 3], eigen: &Eigen, low: usize, Ghost(b): Ghost<Basis>) -> (m:
        Matrix)
        requires
            self.wf(),
            low < 3,
            b.ops == self.ops(),
            forall|k: int| 0 <= k < 3 ==> #[trigger] center@[k] == (b.center)(k),
            b.values == eigen.values@,
            b.vectors == three_by_three(eigen.vectors@),
            b.low == low,
        ensures
            is(&m, 3, 3, tilt(b, p@)),
    {
        let mut m = Matrix::filled(3, 3, Double::zero());
        let mut i: usize = 0;
        while i < 3
            invariant
                i <= 3,
                self.wf(),
                low < 3,
                b.ops == self.ops(),
                forall|k: int| 0 <= k < 3 ==> #[trigger] center@[k] == (b.center)(k),
                b.values == eigen.values@,
                b.vectors == three_by_three(eigen.vectors@),
                b.low == low,
                m.shaped(3, 3),
                forall|x: int, y: int|
                    m.has(x, y) && x < i ==> #[trigger] m.at(x, y) == tilt(b, p@)(x, y),
                forall|x: int, y: int|
                    m.has(x, y) && x >= i ==> #[trigger] m.at(x, y) == (Double { bits: 0 }),
            decreases 3 - i,
        {
            if i != low {
                let gap = apply_two(self.plus, eigen.values[low], eigen.values[i].neg());
                let denom = apply_two(self.times, self.count, gap);
                let mut j: usize = 0;
                while j < 3
                    invariant
                        i < 3,
                        i != low,
                        j <= 3,
                        self.wf(),
                        low < 3,
                        b.ops == self.ops(),
                        forall|k: int| 0 <= k < 3 ==> #[trigger] center@[k] == (b.center)(k),
                        b.values == eigen.values@,
                        b.vectors == three_by_three(eigen.vectors@),
                        b.low == low,
                        denom == (b.ops.op.times)(
                            b.ops.count,
                            (b.ops.op.plus)(b.values[b.low], b.values[i as int].spec_neg()),
                        ),
                        m.shaped(3, 3),
                        forall|x: int, y: int|
                            m.has(x, y) && (x < i || (x == i && y < j)) ==> #[trigger] m.at(x, y)
                                == tilt(b, p@)(x, y),
                        forall|x: int, y: int|
                            m.has(x, y) && x > i ==> #[trigger] m.at(x, y) == (Double { bits: 0 }),
                    decreases 3 - j,
                {
                    let e = self.tilt_entry(p, center, eigen, low, denom, i, j, Ghost(b));
                    m.set(i, j, e);
                    j += 1;
                }
            }
            i += 1;
        }
        m
    }

    /// An entry of how a point moves the normal.
    fn tilt_entry(
        &self,
        p: &[Double; 3],
        center: &[Double; 3],
        eigen: &Eigen,
        low: usize,
        denom: Double,
        m: usize,
        c: usize,
        Ghost(b): Ghost<Basis>,
    ) -> (e: Double)
        requires
            self.wf(),
            low < 3,
            m < 3,
            c < 3,
            b.ops == self.ops(),
            forall|k: int| 0 <= k < 3 ==> #[trigger] center@[k] == (b.center)(k),
            b.values == eigen.values@,
            b.vectors == three_by_three(eigen.vectors@),
            b.low == low,
            denom == (b.ops.op.times)(
                b.ops.count,
                (b.ops.op.plus)(b.values[b.low], b.values[m as int].spec_neg()),
            ),
        ensures
            e == dot(pull(b, p@, m as int), cross_column(b, m as int, c as int), b.ops.op, 3),
    {
        let mut e = Double::zero();
        let mut k: usize = 0;
        while k < 3
            invariant
                k <= 3,
                self.wf(),
                low < 3,
                m < 3,
                c < 3,
                b.ops == self.ops(),
                forall|k: int| 0 <= k < 3 ==> #[trigger] center@[k] == (b.center)(k),
                b.values == eigen.values@,
                b.vectors == three_by_three(eigen.vectors@),
                b.low == low,
                denom == (b.ops.op.times)(
                    b.ops.count,
                    (b.ops.op.plus)(b.values[b.low], b.values[m as int].spec_neg()),
                ),
                e == dot(
                    pull(b, p@, m as int),
                    cross_column(b, m as int, c as int),
                    b.ops.op,
                    k as int,
                ),
            decreases 3 - k,
        {
            let off = apply_two(self.plus, p[k], center[k].neg());
            let pulled = apply_two(self.divide, off, denom);
            let one = apply_two(self.times, eigen.vectors[3 * k + m], eigen.vectors[3 * c + low]);
            let other = apply_two(self.times, eigen.vectors[3 * k + low], eigen.vectors[3 * c + m]);
            let crossed = apply_two(self.plus, one, other);
            let t = apply_two(self.times, pulled, crossed);
            e = apply_two(self.plus, e, t);
            k += 1;
        }
        e
    }

    /// What a point adds to the covariance of normal and center.
    fn share(
        &self,
        p: &MapPoint,
        center: &[Double; 3],
        eigen: &Eigen,
        low: usize,
        Ghost(b): Ghost<Basis>,
    ) -> (m: Matrix)
        requires
            self.wf(),
            low < 3,
            b.ops == self.ops(),
            forall|k: int| 0 <= k < 3 ==> #[trigger] center@[k] == (b.center)(k),
            b.values == eigen.values@,
            b.vectors == three_by_three(eigen.vectors@),
            b.low == low,
        ensures
            is(&m, 6, 6, share(b, *p)),
    {
        let ghost op = b.ops.op;
        let turned = self.tilt(&p.position, center, eigen, low, Ghost(b));
        let vectors = square_of(&eigen.vectors);
        let top = multiply(&vectors, &turned, self.plus, self.times);
        proof {
            lemma_product(&top, &vectors, &turned, b.vectors, tilt(b, p.position@), op);
        }
        let own = apply_two(self.divide, Double::one(), self.count);
        let mut j = Matrix::filled(6, 3, Double::zero());
        j.set_block(0, 0, &top);
        j.set(3, 0, own);
        j.set(4, 1, own);
        j.set(5, 2, own);
        let ghost lv = lever(b, p.position@);
        assert(is(&j, 6, 3, lv));
        let var = square_of(&p.covariance);
        let left = multiply(&j, &var, self.plus, self.times);
        proof {
            lemma_product(&left, &j, &var, lv, three_by_three(p.covariance@), op);
        }
        let back = j.transpose();
        assert(is(&back, 3, 6, flipped(lv)));
        let m = multiply(&left, &back, self.plus, self.times);
        proof {
            lemma_product(
                &m,
                &left,
                &back,
                product(lv, three_by_three(p.covariance@), op, 3),
                flipped(lv),
                op,
            );
        }
        m
    }
}

/// Whether a plane is that of points: there is one if the least eigenvalue of their
/// covariance is below the threshold, and it goes through their mean, along the
/// eigenvector of that eigenvalue.
pub open spec fn fitted<
    E: Fn([Double; 9]) -> Eigen,
    N: Fn(usize) -> Double,
    P: Fn(Double, Double) -> Double,
    T: Fn(Double, Double) -> Double,
    V: Fn(Double, Double) -> Double,
    R: Fn(Double) -> Double,
>(
    plane: Option<VoxelPlane>,
    points: Seq<MapPoint>,
    opts: PlaneOptions,
    decompose: E,
    number: N,
    plus: P,
    times: T,
    divide: V,
    root: R,
) -> bool {
    let ops = fit_ops(counted(number, points.len() as usize), plus, times, divide);
    let b = basis_of(points, ops, decompose);
    let high = largest(b.values, 3);
    &&& plane is Some <==> flat(b.values, opts.planer_threshold)
    &&& plane matches Some(p) ==> {
        &&& forall|a: int| 0 <= a < 3 ==> #[trigger] p.center@[a] == (b.center)(a)
        &&& forall|a: int| 0 <= a < 3 ==> #[trigger] p.normal@[a] == (b.vectors)(a, b.low)
        &&& p.d == dot(
            |a: int| (b.vectors)(a, b.low),
            b.center,
            ops.op,
            3,
        ).spec_neg()
        &&& p.plane_var.holds(shares(b, points, points.len() as int))
        &&& forall|i: int, j: int|
            0 <= i < 3 && 0 <= j < 3 ==> #[trigger] three_by_three(p.covariance@)(i, j) == spread_of(
                points,
                ops,
            )(i, j)
        &&& p.radius == of_one(root, b.values[high])
        &&& p.eigen_min == b.values[b.low]
        &&& p.eigen_mid == b.values[middle(b.low, high)]
        &&& p.eigen_max == b.values[high]
        &&& p.points_count == points.len()
        &&& p.is_plane
        &&& p.is_mature == (points.len() >= MAX_POINTS_PER_PLANE)
    }
}

/// The plane through points, if they make one: through their mean, along the
/// eigenvector of the least eigenvalue of their covariance, with the uncertainty
/// that the points hand on. It is mature once fifty points were fitted.
pub fn fit_plane<
    E: Fn([Double; 9]) -> Eigen,
    N: Fn(usize) -> Double,
    P: Fn(Double, Double) -> Double,
    T: Fn(Double, Double) -> Double,
    V: Fn(Double, Double) -> Double,
    R: Fn(Double) -> Double,
>(
    points: &Vec<MapPoint>,
    opts: &PlaneOptions,
    decompose: &E,
    number: &N,
    plus: &P,
    times: &T,
    divide: &V,
    root: &R,
) -> (plane: Option<VoxelPlane>)
    requires
        points.len() >= 3,
        decomposes(*decompose),
        counts(*number),
        binary(*plus),
        binary(*times),
        binary(*divide),
        unary(*root),
    ensures
        fitted(
            plane,
            points@,
            *opts,
            *decompose,
            *number,
            *plus,
            *times,
            *divide,
            *root,
        ),
{
    let n: usize = points.len();
    let count = apply_count(number, n);
    let tools = Tools { plus, times, divide, count };
    let ghost ops = fit_ops(counted(*number, n), *plus, *times, *divide);
    let ghost b = basis_of(points@, ops, *decompose);
    let center = tools.mean(points);
    let spread = tools.spread(points, &center);
    let eigen = decompose(spread);
    assert(call_ensures(*decompose, (spread,), eigen));
    assert(eigen == decomposed(*decompose, spread@)) by {
        let r = decomposed(*decompose, spread@);
        assert(has_eigen(*decompose, spread@, eigen));
        assert(has_eigen(*decompose, spread@, r));
        let a = choose|a: [Double; 9]|
            a@ == spread@ && #[trigger] call_ensures(*decompose, (a,), r);
        assert(a@ == spread@ && call_ensures(*decompose, (a,), r));
        assert(a =~= spread);
    }
    let (low, _mid, high) = order_eigenvalues(&eigen.values);
    let mut var = Matrix::filled(6, 6, Double::zero());
    let mut k: usize = 0;
    while k < n
        invariant
            k <= n,
            n == points@.len(),
            tools.wf(),
            low < 3,
            b.ops == tools.ops(),
            forall|q: int| 0 <= q < 3 ==> #[trigger] center@[q] == (b.center)(q),
            b.values == eigen.values@,
            b.vectors == three_by_three(eigen.vectors@),
            b.low == low,
            is(&var, 6, 6, shares(b, points@, k as int)),
        decreases n - k,
    {
        let own = tools.share(&points[k], &center, &eigen, low, Ghost(b));
        let next = add_matrices(&var, &own, tools.plus);
        assert(is(&next, 6, 6, shares(b, points@, k + 1))) by {
            assert forall|i: int, j: int| next.has(i, j) implies #[trigger] next.at(i, j) == shares(
                b,
                points@,
                k + 1,
            )(i, j) by {
                assert(var.has(i, j) && own.has(i, j));
                assert(var.at(i, j) == shares(b, points@, k as int)(i, j));
                assert(own.at(i, j) == share(b, points@[k as int])(i, j));
            }
        }
        var = next;
        k += 1;
    }
    let normal = [eigen.vectors[low], eigen.vectors[3 + low], eigen.vectors[6 + low]];
    let x = apply_two(times, normal[0], center[0]);
    let y = apply_two(times, normal[1], center[1]);
    let z = apply_two(times, normal[2], center[2]);
    let sum = apply_two(plus, apply_two(plus, apply_two(plus, Double::zero(), x), y), z);
    proof {
        reveal_with_fuel(dot, 4);
    }
    let fit = PlaneFit {
        center,
        normal,
        d: sum.neg(),
        plane_var: Six::of(&var),
        covariance: spread,
        radius: apply_one(root, eigen.values[high]),
        eigenvalues: eigen.values,
    };
    assert forall|i: int, j: int| 0 <= i < 3 && 0 <= j < 3 implies #[trigger] three_by_three(spread@)(
        i,
        j,
    ) == spread_of(points@, ops)(i, j) by {
        assert((3 * i + j) / 3 == i && (3 * i + j) % 3 == j);
    }
    assert(fit.plane_var.holds(shares(b, points@, n as int))) by {
        assert forall|i: int, j: int| 0 <= i < 6 && 0 <= j < 6 implies #[trigger] fit.plane_var.at(i, j)
            == shares(b, points@, n as int)(i, j) by {
            assert(var.has(i, j));
            assert(var.at(i, j) == shares(b, points@, n as int)(i, j));
        }
    }
    judge_plane(fit, n, opts)
}

/// Whether a plane was turned towards the camera; none stays none.
pub open spec fn turned_to<L: Fn([Double; 3]) -> Double>(
    fit: Option<VoxelPlane>,
    plane: Option<VoxelPlane>,
    camera: Seq<Double>,
    length: L,
    op: Ring,
) -> bool {
    match (fit, plane) {
        (Some(a), Some(b)) => faced(&a, &b, camera, length, op),
        (None, None) => true,
        _ => false,
    }
}

/// Whether a plane is that of points, turned towards the camera.
pub open spec fn faces<
    E: Fn([Double; 9]) -> Eigen,
    N: Fn(usize) -> Double,
    L: Fn([Double; 3]) -> Double,
    P: Fn(Double, Double) -> Double,
    T: Fn(Double, Double) -> Double,
    V: Fn(Double, Double) -> Double,
    R: Fn(Double) -> Double,
>(
    plane: Option<VoxelPlane>,
    points: Seq<MapPoint>,
    opts: PlaneOptions,
    camera: Seq<Double>,
    decompose: E,
    number: N,
    length: L,
    plus: P,
    times: T,
    divide: V,
    root: R,
) -> bool {
    exists|fit: Option<VoxelPlane>| #[trigger]
        fitted(fit, points, opts, decompose, number, plus, times, divide, root) && turned_to(
            fit,
            plane,
            camera,
            length,
            ring(plus, times),
        )
}

/// The plane through points, turned towards the camera, if they make one.
pub fn fit_facing_plane<
    E: Fn([Double; 9]) -> Eigen,
    N: Fn(usize) -> Double,
    L: Fn([Double; 3]) -> Double,
    P: Fn(Double, Double) -> Double,
    T: Fn(Double, Double) -> Double,
    V: Fn(Double, Double) -> Double,
    R: Fn(Double) -> Double,
>(
    points: &Vec<MapPoint>,
    opts: &PlaneOptions,
    camera_pos: &[Double; 3],
    decompose: &E,
    number: &N,
    length: &L,
    plus: &P,
    times: &T,
    divide: &V,
    root: &R,
) -> (plane: Option<VoxelPlane>)
    requires
        points.len() >= 3,
        decomposes(*decompose),
        counts(*number),
        lengths(*length),
        binary(*plus),
        binary(*times),
        binary(*divide),
        unary(*root),
    ensures
        faces(
            plane,
            points@,
            *opts,
            camera_pos@,
            *decompose,
            *number,
            *length,
            *plus,
            *times,
            *divide,
            *root,
        ),
{
    let fit = fit_plane(points, opts, decompose, number, plus, times, divide, root);
    let ghost first = fit;
    assert(fitted(
        first,
        points@,
        *opts,
        *decompose,
        *number,
        *plus,
        *times,
        *divide,
        *root,
    ));
    match fit {
        None => None,
        Some(p) => {
            let mut plane = p;
            align_normal_to_camera(&mut plane, camera_pos, length, plus, times);
            Some(plane)
        },
    }
}

} // verus!
