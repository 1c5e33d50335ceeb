//! What fits and scores come to: a plane goes through the mean of its points, their spread
//! is taken about the mean, and alike patches score alike.

use vstd::prelude::*;

use crate::algebra::{dot, list_of, ring, summed, Ring};
use crate::arith::{counted, of_one, of_two};
use crate::double::{Double, ONE_BITS};
use crate::void_esikf::steps::{is_zero, knows_zero};
use crate::void_map::image_patch::{less_mean, likeness, sample_position};
use crate::void_map::normal_refine::plane_vector;
use crate::void_map::octree::MapPoint;
use crate::void_map::options::PlaneOptions;
use crate::void_map::plane::{VoxelPlane, TINY};
use crate::void_map::visual_point::{agreement, score_of, PatchObservation};
use crate::void_map::plane_fit::{
    basis_of, coordinate, fit_ops, fitted, mean_of, pull, spread_of, tilt, Basis, Eigen, FitOps,
};
use crate::whole::{
    exact, lemma_dot, lemma_long_dot, lemma_neg, lemma_plus, lemma_sum_same, lemma_times,
    lemma_zero, scalar, sum_to, value, values, whole, EXACT,
};

verus! {

/// A sum of `n` whole numbers.
pub proof fn lemma_summed(f: spec_fn(int) -> Double, op: Ring, n: int, m: int)
    requires
        exact(op),
        0 <= n,
        0 <= m,
        forall|k: int| 0 <= k < n ==> whole(#[trigger] f(k), m),
        n * m <= EXACT,
    ensures
        whole(summed(f, op, n), n * m),
        value(summed(f, op, n)) == sum_to(|k: int| value(f(k)), n),
    decreases n,
{
    if n == 0 {
        lemma_zero();
        assert(n * m == 0) by (nonlinear_arith)
            requires
                n == 0,
        ;
    } else {
        assert(n * m == (n - 1) * m + m && 0 <= (n - 1) * m) by (nonlinear_arith)
            requires
                n >= 1,
                m >= 0,
        ;
        lemma_summed(f, op, n - 1, m);
        lemma_plus(op, summed(f, op, n - 1), f(n - 1), (n - 1) * m, m);
    }
}

/// Whether points, their mean and the means of their products along two axes are whole
/// numbers, and dividing by their number is exact there.
pub open spec fn divides_evenly(points: Seq<MapPoint>, ops: FitOps, a: int, b: int, m: int) -> bool {
    let n = points.len() as int;
    let products = dot(coordinate(points, a), coordinate(points, b), ops.op, n);
    &&& value(ops.count) == n
    &&& 1 <= m
    &&& n * (m * m) + m * m <= EXACT
    &&& forall|k: int|
        0 <= k < n ==> whole((#[trigger] points[k]).position@[a], m) && whole(points[k].position@[b], m)
    &&& whole(mean_of(points, ops)(a), m)
    &&& whole(mean_of(points, ops)(b), m)
    &&& value(mean_of(points, ops)(a)) * n == value(
        summed(coordinate(points, a), ops.op, n),
    )
    &&& value(mean_of(points, ops)(b)) * n == value(
        summed(coordinate(points, b), ops.op, n),
    )
    &&& whole((ops.divide)(products, ops.count), n * (m * m))
    &&& value((ops.divide)(products, ops.count)) * n == value(products)
}

/// How far point `k` lies from the mean of all along an axis.
pub open spec fn off_mean(points: Seq<MapPoint>, ops: FitOps, a: int) -> spec_fn(int) -> int {
    |k: int| value(points[k].position@[a]) - value(mean_of(points, ops)(a))
}

/// Points balance about their mean, and their covariance is the mean of the products of
/// what they are off it, along every two axes.
pub proof fn law_spread_is_about_the_mean(points: Seq<MapPoint>, ops: FitOps, a: int, b: int, m: int)
    requires
        exact(ops.op),
        divides_evenly(points, ops, a, b, m),
    ensures
        sum_to(off_mean(points, ops, a), points.len() as int) == 0,
        value(spread_of(points, ops)(a, b)) * points.len() == sum_to(
            |k: int| off_mean(points, ops, a)(k) * off_mean(points, ops, b)(k),
            points.len() as int,
        ),
{
    let n = points.len() as int;
    let f = coordinate(points, a);
    let g = coordinate(points, b);
    let x = |k: int| value(f(k));
    let y = |k: int| value(g(k));
    let u = value(mean_of(points, ops)(a));
    let v = value(mean_of(points, ops)(b));
    assert(m <= m * m) by (nonlinear_arith)
        requires
            1 <= m,
    ;
    assert(n * m <= n * (m * m)) by (nonlinear_arith)
        requires
            0 <= n,
            m <= m * m,
    ;
    assert(0 <= n * (m * m)) by (nonlinear_arith)
        requires
            0 <= n,
    ;
    assert forall|k: int| 0 <= k < n implies whole(#[trigger] f(k), m) by {
        assert(whole(points[k].position@[a], m));
    }
    assert forall|k: int| 0 <= k < n implies whole(#[trigger] g(k), m) by {
        assert(whole(points[k].position@[b], m));
    }
    lemma_summed(f, ops.op, n, m);
    lemma_summed(g, ops.op, n, m);
    lemma_long_dot(f, g, ops.op, n, m, m);
    let xy = |k: int| value(f(k)) * value(g(k));
    let sx = sum_to(x, n);
    let sy = sum_to(y, n);
    let sxy = sum_to(xy, n);
    assert(sx == u * n && sy == v * n);
    let da = off_mean(points, ops, a);
    let db = off_mean(points, ops, b);
    lemma_sum_less(x, u, n);
    lemma_sum_same(da, |k: int| x(k) - u, n);
    lemma_sum_of_products(x, y, u, v, n);
    let left = |k: int| da(k) * db(k);
    lemma_sum_same(left, |k: int| (x(k) - u) * (y(k) - v), n);
    lemma_sum_same(xy, |k: int| x(k) * y(k), n);
    lemma_sum_same(|k: int| off_mean(points, ops, a)(k) * off_mean(points, ops, b)(k), left, n);
    let p = (ops.divide)(dot(f, g, ops.op, n), ops.count);
    let q = (ops.op.times)(mean_of(points, ops)(a), mean_of(points, ops)(b));
    lemma_times(ops.op, mean_of(points, ops)(a), mean_of(points, ops)(b), m, m);
    lemma_neg(q, m * m);
    lemma_plus(ops.op, p, q.spec_neg(), n * (m * m), m * m);
    let w = value(p);
    assert((w - u * v) * n == w * n - (u * v) * n) by (nonlinear_arith);
    assert(v * (u * n) == (u * v) * n && u * (v * n) == (u * v) * n) by (nonlinear_arith);
    assert(n * (u * v) == (u * v) * n) by (nonlinear_arith);
}

/// A sum of numbers less another.
proof fn lemma_sum_less(x: spec_fn(int) -> int, u: int, n: int)
    requires
        0 <= n,
    ensures
        sum_to(|k: int| x(k) - u, n) == sum_to(x, n) - u * n,
    decreases n,
{
    if n > 0 {
        lemma_sum_less(x, u, n - 1);
        assert(u * n == u * (n - 1) + u) by (nonlinear_arith);
    } else {
        assert(u * n == 0) by (nonlinear_arith)
            requires
                n == 0,
        ;
    }
}

/// A sum of products of differences.
proof fn lemma_sum_of_products(
    x: spec_fn(int) -> int,
    y: spec_fn(int) -> int,
    u: int,
    v: int,
    n: int,
)
    requires
        0 <= n,
    ensures
        sum_to(|k: int| (x(k) - u) * (y(k) - v), n) == sum_to(|k: int| x(k) * y(k), n) - v * sum_to(x, n)
            - u * sum_to(y, n) + n * (u * v),
    decreases n,
{
    if n > 0 {
        lemma_sum_of_products(x, y, u, v, n - 1);
        let (a, b) = (x(n - 1), y(n - 1));
        let (s, t) = (sum_to(x, n - 1), sum_to(y, n - 1));
        let c = u * v;
        assert((a - u) * (b - v) == a * b - v * a - u * b + u * v) by (nonlinear_arith);
        assert(v * (s + a) == v * s + v * a) by (nonlinear_arith);
        assert(u * (t + b) == u * t + u * b) by (nonlinear_arith);
        assert(n * c == (n - 1) * c + c) by (nonlinear_arith);
    } else {
        let c = u * v;
        assert(n * c == 0) by (nonlinear_arith)
            requires
                n == 0,
        ;
        assert(v * 0 == 0 && u * 0 == 0);
    }
}

/// A fitted plane goes through its center, the mean of its points.
pub proof fn law_fitted_planes_go_through_the_mean<
    E: Fn([Double; 9]) -> Eigen,
    N: Fn(usize) -> Double,
    P: Fn(Double, Double) -> Double,
    T: Fn(Double, Double) -> Double,
    V: Fn(Double, Double) -> Double,
    R: Fn(Double) -> Double,
>(
    plane: VoxelPlane,
    points: Seq<MapPoint>,
    opts: PlaneOptions,
    decompose: E,
    number: N,
    plus: P,
    times: T,
    divide: V,
    root: R,
    m: int,
)
    requires
        fitted(Some(plane), points, opts, decompose, number, plus, times, divide, root),
        exact(ring(plus, times)),
        forall|a: int| 0 <= a < 3 ==> whole(#[trigger] plane.center@[a], m),
        forall|a: int| 0 <= a < 3 ==> whole(#[trigger] plane.normal@[a], m),
        0 <= m <= EXACT,
        3 * (m * m) <= EXACT,
    ensures
        scalar(values(plane.normal@), values(plane.center@)) + value(plane.d) == 0,
        forall|a: int|
            0 <= a < 3 ==> #[trigger] plane.center@[a] == mean_of(
                points,
                fit_ops(counted(number, points.len() as usize), plus, times, divide),
            )(a),
{
    let ops = fit_ops(counted(number, points.len() as usize), plus, times, divide);
    let b = basis_of(points, ops, decompose);
    let f = |a: int| (b.vectors)(a, b.low);
    assert forall|a: int| 0 <= a < 3 implies whole(#[trigger] f(a), m) by {
        assert(whole(plane.normal@[a], m));
    }
    assert forall|a: int| 0 <= a < 3 implies whole(#[trigger] (b.center)(a), m) by {
        assert(whole(plane.center@[a], m));
        assert(plane.center@[a] == (b.center)(a));
    }
    lemma_dot(f, b.center, ops.op, m, m);
    lemma_neg(dot(f, b.center, ops.op, 3), 3 * (m * m));
    assert(plane.normal@[0] == f(0) && plane.normal@[1] == f(1) && plane.normal@[2] == f(2));
    assert(plane.center@[0] == (b.center)(0) && plane.center@[1] == (b.center)(1) && plane.center@[2]
        == (b.center)(2));
}

/// A point at the center does not tilt the plane, wherever the gaps between the
/// eigenvalues divide zero to zero.
pub proof fn law_center_does_not_tilt(b: Basis, p: Seq<Double>, m: int, c: int)
    requires
        knows_zero(b.ops.op),
        0 <= m < 3,
        0 <= c < 3,
        p.len() == 3,
        forall|k: int| 0 <= k < 3 ==> #[trigger] p[k] == (b.center)(k) && p[k].spec_is_finite(),
        forall|x: Double, y: Double| is_zero(x) ==> is_zero(#[trigger] (b.ops.divide)(x, y)),
        forall|k: int|
            0 <= k < 3 ==> (#[trigger] crate::void_map::plane_fit::cross_column(b, m, c)(k)).spec_is_finite(),
    ensures
        is_zero(tilt(b, p)(m, c)),
        m == b.low ==> forall|q: Seq<Double>| #[trigger] tilt(b, q)(m, c) == (Double { bits: 0 }),
{
    if m != b.low {
        let f = pull(b, p, m);
        let g = crate::void_map::plane_fit::cross_column(b, m, c);
        let op = b.ops.op;
        assert forall|k: int| 0 <= k < 3 implies is_zero(#[trigger] f(k)) by {
            assert(p[k] == (b.center)(k));
            assert(is_zero((op.plus)(p[k], p[k].spec_neg())));
        }
        reveal_with_fuel(dot, 4);
        assert(is_zero(f(0)) && is_zero(f(1)) && is_zero(f(2)));
        assert(g(0).spec_is_finite() && g(1).spec_is_finite() && g(2).spec_is_finite());
        assert(is_zero((op.times)(f(0), g(0))));
        assert(is_zero((op.times)(f(1), g(1))));
        assert(is_zero((op.times)(f(2), g(2))));
        let z = Double { bits: 0 };
        assert(z.spec_is_finite());
        let s = (op.plus)(z, (op.times)(f(0), g(0)));
        assert(is_zero(s) && s.spec_is_finite());
        let t = (op.plus)(s, (op.times)(f(1), g(1)));
        assert(is_zero(t) && t.spec_is_finite());
    }
}

/// Whether sums and products do not depend on which number comes first.
pub open spec fn commutes<P: Fn(Double, Double) -> Double>(f: P) -> bool {
    forall|a: Double, b: Double| #[trigger] of_two(f, a, b) == of_two(f, b, a)
}

/// Sums of products of the same lists, either way.
proof fn lemma_dot_commutes(f: spec_fn(int) -> Double, g: spec_fn(int) -> Double, op: Ring, n: int)
    requires
        forall|a: Double, b: Double| #[trigger] (op.times)(a, b) == (op.times)(b, a),
    ensures
        dot(f, g, op, n) == dot(g, f, op, n),
    decreases n,
{
    if n > 0 {
        lemma_dot_commutes(f, g, op, n - 1);
    }
}

/// Two patches are as like each other either way round.
pub proof fn law_likeness_is_mutual<
    N: Fn(usize) -> Double,
    P: Fn(Double, Double) -> Double,
    T: Fn(Double, Double) -> Double,
    V: Fn(Double, Double) -> Double,
    R: Fn(Double) -> Double,
>(a: Seq<Double>, b: Seq<Double>, number: N, plus: P, times: T, divide: V, root: R)
    requires
        commutes(times),
    ensures
        likeness(a, b, number, plus, times, divide, root) == likeness(
            b,
            a,
            number,
            plus,
            times,
            divide,
            root,
        ),
{
    let n = if a.len() < b.len() {
        a.len() as int
    } else {
        b.len() as int
    };
    let op = ring(plus, times);
    let da = list_of(less_mean(a, n, number, plus, times, divide));
    let db = list_of(less_mean(b, n, number, plus, times, divide));
    lemma_dot_commutes(da, db, op, n);
    let (x, y) = (dot(da, da, op, n), dot(db, db, op, n));
    assert(of_two(times, x, y) == of_two(times, y, x));
}

/// A patch that is not flat is fully like itself, where the root of a square is the
/// number and a number divided by itself is one.
pub proof fn law_patches_are_like_themselves<
    N: Fn(usize) -> Double,
    P: Fn(Double, Double) -> Double,
    T: Fn(Double, Double) -> Double,
    V: Fn(Double, Double) -> Double,
    R: Fn(Double) -> Double,
>(a: Seq<Double>, number: N, plus: P, times: T, divide: V, root: R)
    requires
        a.len() > 0,
        ({
            let n = a.len() as int;
            let d = list_of(less_mean(a, n, number, plus, times, divide));
            let s = dot(d, d, ring(plus, times), n);
            &&& of_one(root, of_two(times, s, s)) == s
            &&& !s.spec_lt(Double { bits: TINY })
            &&& of_two(divide, s, s) == (Double { bits: ONE_BITS })
        }),
    ensures
        likeness(a, a, number, plus, times, divide, root) == (Double { bits: ONE_BITS }),
{
}

/// A patch lies about its place: the sample in its middle is at the multiple of the step
/// at or below the coordinate, and neighbouring samples are a step apart.
pub proof fn law_patches_lie_about_their_place(coordinate: Double, step: int, size: int, k: int)
    requires
        1 <= step,
        0 <= size,
    ensures
        sample_position(coordinate, step, size, size / 2) <= coordinate.floor_clamped(),
        coordinate.floor_clamped() < sample_position(coordinate, step, size, size / 2) + step,
        sample_position(coordinate, step, size, k + 1) == sample_position(coordinate, step, size, k)
            + step,
        sample_position(coordinate, step, size, k) % step == 0,
{
    let c = coordinate.floor_clamped();
    let q = c / step;
    let h = size / 2;
    assert(q * step <= c < q * step + step) by (nonlinear_arith)
        requires
            1 <= step,
            q == c / step,
    ;
    assert((k + 1) * step == k * step + step) by (nonlinear_arith);
    let r = q - h + k;
    assert(q * step - h * step + k * step == r * step) by (nonlinear_arith)
        requires
            r == q - h + k,
    ;
    assert((r * step) % step == 0) by (nonlinear_arith)
        requires
            1 <= step,
    ;
}

/// The vector of a plane has the product one with the plane's point, at depths whose
/// inverse is exact.
pub proof fn law_plane_vector_meets_its_point<V: Fn(Double) -> Double>(
    v: Seq<Double>,
    p: Seq<Double>,
    inverse: V,
    op: Ring,
    m: int,
)
    requires
        exact(op),
        v.len() == 2,
        p.len() == 3,
        whole(v[0], m),
        whole(v[1], m),
        whole(p[0], m),
        whole(p[1], m),
        whole(p[2], m),
        whole(of_one(inverse, p[2]), m),
        value(of_one(inverse, p[2])) * value(p[2]) == 1,
        1 <= m,
        3 * (m * m * m) <= EXACT,
    ensures
        scalar(values(plane_vector(v, p, inverse, op)), values(p)) == 1,
{
    let inv = of_one(inverse, p[2]);
    assert(m <= m * m <= m * m * m) by (nonlinear_arith)
        requires
            1 <= m,
    ;
    lemma_times(op, p[0], inv, m, m);
    lemma_times(op, p[1], inv, m, m);
    lemma_times(op, (op.times)(p[0], inv), v[0], m * m, m);
    lemma_times(op, (op.times)(p[1], inv), v[1], m * m, m);
    let n = m * m * m;
    let bx = (op.times)((op.times)(p[0], inv), v[0]);
    let by = (op.times)((op.times)(p[1], inv), v[1]);
    lemma_neg(bx, n);
    lemma_neg(by, n);
    crate::whole::lemma_widened(inv, m, n);
    lemma_plus(op, inv, bx.spec_neg(), n, n);
    lemma_plus(op, (op.plus)(inv, bx.spec_neg()), by.spec_neg(), 2 * n, n);
    let (a, b, i) = (value(v[0]), value(v[1]), value(inv));
    let (x, y, z) = (value(p[0]), value(p[1]), value(p[2]));
    let w = i - (x * i) * a - (y * i) * b;
    assert(w * z == i * z - ((x * i) * a) * z - ((y * i) * b) * z) by (nonlinear_arith)
        requires
            w == i - (x * i) * a - (y * i) * b,
    ;
    assert(((x * i) * a) * z == (x * a) * (i * z)) by (nonlinear_arith);
    assert(((y * i) * b) * z == (y * b) * (i * z)) by (nonlinear_arith);
    let t = i * z;
    assert((x * a) * t == a * x && (y * b) * t == b * y) by (nonlinear_arith)
        requires
            t == 1,
    ;
}

/// The weight says how much of a patch's score is its agreement with the others and how
/// much its view: with no weight on the view the score is the mean agreement, and with
/// all of it on the view it is the cosine, where one times a number is the number.
pub proof fn law_weight_parts_the_score<
    C: Fn(usize) -> Double,
    N: Fn(usize) -> Double,
    P: Fn(Double, Double) -> Double,
    T: Fn(Double, Double) -> Double,
    V: Fn(Double, Double) -> Double,
    R: Fn(Double) -> Double,
>(
    obs: Seq<PatchObservation>,
    i: int,
    weight: Double,
    cosine: C,
    number: N,
    plus: P,
    times: T,
    divide: V,
    root: R,
)
    requires
        knows_zero(ring(plus, times)),
        obs.len() > 1,
        counted(cosine, i as usize).spec_is_finite(),
        of_two(
            divide,
            agreement(obs, i, obs.len() as int, number, plus, times, divide, root),
            counted(number, (obs.len() - 1) as usize),
        ).spec_is_finite(),
        forall|x: Double| #[trigger] of_two(times, Double { bits: ONE_BITS }, x) == x,
        forall|z: Double|
            is_zero(z) ==> #[trigger] of_two(plus, Double { bits: ONE_BITS }, z) == (Double {
                bits: ONE_BITS,
            }),
        forall|x: Double, z: Double|
            x.spec_is_finite() && is_zero(z) ==> (#[trigger] of_two(plus, z, x)).signed() == x.signed(),
    ensures
        is_zero(weight) ==> score_of(obs, i, weight, cosine, number, plus, times, divide, root).signed()
            == of_two(
            divide,
            agreement(obs, i, obs.len() as int, number, plus, times, divide, root),
            counted(number, (obs.len() - 1) as usize),
        ).signed(),
        weight == (Double { bits: ONE_BITS }) ==> score_of(
            obs,
            i,
            weight,
            cosine,
            number,
            plus,
            times,
            divide,
            root,
        ).signed() == counted(cosine, i as usize).signed(),
{
    let op = ring(plus, times);
    let one = Double { bits: ONE_BITS };
    let mean = of_two(
        divide,
        agreement(obs, i, obs.len() as int, number, plus, times, divide, root),
        counted(number, (obs.len() - 1) as usize),
    );
    let c = counted(cosine, i as usize);
    assert(one.spec_is_finite());
    if is_zero(weight) {
        assert(is_zero(weight.spec_neg()));
        assert(of_two(plus, one, weight.spec_neg()) == one);
        assert(of_two(times, one, mean) == mean);
        assert(is_zero((op.times)(weight, c)));
        assert((op.plus)(mean, (op.times)(weight, c)).signed() == mean.signed());
    }
    if weight == one {
        let z = (op.plus)(one, one.spec_neg());
        assert(is_zero(z));
        assert(is_zero((op.times)(z, mean)));
        assert(of_two(times, one, c) == c);
    }
}

/// A patch agrees with the others and not with itself: what itself looks like does not
/// count among the patches that it is compared with.
pub proof fn law_agreement_leaves_itself_out<
    N: Fn(usize) -> Double,
    P: Fn(Double, Double) -> Double,
    T: Fn(Double, Double) -> Double,
    V: Fn(Double, Double) -> Double,
    R: Fn(Double) -> Double,
>(
    obs: Seq<PatchObservation>,
    i: int,
    number: N,
    plus: P,
    times: T,
    divide: V,
    root: R,
)
    requires
        0 <= i < obs.len(),
    ensures
        agreement(obs, i, i + 1, number, plus, times, divide, root) == agreement(
            obs,
            i,
            i,
            number,
            plus,
            times,
            divide,
            root,
        ),
{
}

} // verus!
