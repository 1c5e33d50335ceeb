//! Which plane a point is measured against.

use vstd::prelude::*;

use crate::algebra::{dot, dot_lists, list_of, ring, Ring};
use crate::arith::{apply_one, apply_two, binary, of_one, of_two, unary};
use crate::double::{Double, NEG_INFINITY_BITS};
use crate::void_map::plane::VoxelPlane;
use crate::void_measure::outlier::{gate, judge_size, GateVerdict};
use crate::void_types::motion::difference3;

verus! {

/// How a point lies to a plane.
#[derive(Clone, Copy, Debug, PartialEq, Eq, Structural)]
pub struct PlaneJudgement {
    /// The distance of the point from the center, along the plane.
    pub range: Double,
    /// The largest such distance that is allowed.
    pub range_limit: Double,
    /// The point's distance from the plane.
    pub distance: Double,
    /// The size of that distance.
    pub abs_distance: Double,
    /// The variance of that distance.
    pub variance: Double,
    /// The largest size that the variance allows.
    pub bound: Double,
    /// The likelihood of the distance.
    pub probability: Double,
}

/// A variance that every distance has: 0.001.
pub const FLOOR_VARIANCE: u64 = 0x3F50_624D_D2F1_A9FC;

/// Minus one half.
pub const MINUS_HALF_BITS: u64 = 0xBFE0_0000_0000_0000;

/// The distance of a point from a plane.
pub open spec fn off_plane(normal: Seq<Double>, p: Seq<Double>, center: Seq<Double>, op: Ring) -> Double {
    dot(list_of(normal), list_of(difference3(p, center, op)), op, 3)
}

/// How the distance of a point changes with the plane's normal and center.
pub open spec fn plane_row(plane: VoxelPlane, p: Seq<Double>, op: Ring) -> Seq<Double> {
    Seq::new(
        6,
        |k: int|
            if k < 3 {
                difference3(p, plane.center@, op)[k]
            } else {
                plane.normal@[k - 3].spec_neg()
            },
    )
}

/// That row times the plane's covariance, enlarged by a factor.
pub open spec fn weighed_row(plane: VoxelPlane, p: Seq<Double>, scale: Double, op: Ring) -> Seq<Double> {
    Seq::new(
        6,
        |c: int|
            dot(
                list_of(plane_row(plane, p, op)),
                |r: int| (op.times)(plane.plane_var.at(r, c), scale),
                op,
                6,
            ),
    )
}

/// A covariance, given row by row, times a vector.
pub open spec fn spread_along(cov: Seq<Double>, v: Seq<Double>, op: Ring) -> Seq<Double> {
    Seq::new(3, |a: int| dot(|b: int| cov[3 * a + b], list_of(v), op, 3))
}

/// The variance of a point's distance from a plane: what plane and point are
/// uncertain by, and a floor.
pub open spec fn distance_variance(
    plane: VoxelPlane,
    p: Seq<Double>,
    cov: Seq<Double>,
    scale: Double,
    op: Ring,
) -> Double {
    let by_plane = dot(
        list_of(weighed_row(plane, p, scale, op)),
        list_of(plane_row(plane, p, op)),
        op,
        6,
    );
    let by_point = dot(
        list_of(plane.normal@),
        list_of(spread_along(cov, plane.normal@, op)),
        op,
        3,
    );
    (op.plus)((op.plus)(by_plane, by_point), Double { bits: FLOOR_VARIANCE })
}

/// What came of looking for a plane.
#[derive(Clone, Copy, Debug)]
pub enum PlaneQuery {
    /// The plane's normal, the point's distance and its variance.
    Matched([Double; 3], Double, Double),
    /// No plane is near enough.
    NoPlane,
    /// Planes are near, but the point is too far from each in deviations.
    Chi2Rejected,
}

/// The planes behind references.
pub open spec fn plane_list(planes: Seq<&VoxelPlane>) -> Seq<VoxelPlane> {
    Seq::new(planes.len(), |i: int| *planes[i])
}

/// The way from one point to another.
fn way_between<P: Fn(Double, Double) -> Double, T: Fn(Double, Double) -> Double>(
    to: &[Double; 3],
    from: &[Double; 3],
    plus: &P,
    times: &T,
) -> (w: Vec<Double>)
    requires
        binary(*plus),
    ensures
        w@ == difference3(to@, from@, ring(*plus, *times)),
{
    let mut w: Vec<Double> = Vec::new();
    w.push(apply_two(plus, to[0], from[0].neg()));
    w.push(apply_two(plus, to[1], from[1].neg()));
    w.push(apply_two(plus, to[2], from[2].neg()));
    assert(w@ =~= difference3(to@, from@, ring(*plus, *times)));
    w
}

/// Three numbers as a list.
fn listed(v: &[Double; 3]) -> (w: Vec<Double>)
    ensures
        w@ == v@,
{
    let mut w: Vec<Double> = Vec::new();
    w.push(v[0]);
    w.push(v[1]);
    w.push(v[2]);
    assert(w@ =~= v@);
    w
}

/// The distance of a point from the plane with a normal through a center.
pub fn point_plane_residual<P: Fn(Double, Double) -> Double, T: Fn(Double, Double) -> Double>(
    normal: &[Double; 3],
    p_world: &[Double; 3],
    center: &[Double; 3],
    plus: &P,
    times: &T,
) -> (dis: Double)
    requires
        binary(*plus),
        binary(*times),
    ensures
        dis == off_plane(normal@, p_world@, center@, ring(*plus, *times)),
{
    let off = way_between(p_world, center, plus, times);
    dot_lists(&listed(normal), &off, plus, times)
}

/// A row of six times a plane's covariance, enlarged by a factor.
fn weigh_row<P: Fn(Double, Double) -> Double, T: Fn(Double, Double) -> Double>(
    plane: &VoxelPlane,
    p: &[Double; 3],
    row: &Vec<Double>,
    scale: Double,
    plus: &P,
    times: &T,
) -> (w: Vec<Double>)
    requires
        row@ == plane_row(*plane, p@, ring(*plus, *times)),
        binary(*plus),
        binary(*times),
    ensures
        w@ == weighed_row(*plane, p@, scale, ring(*plus, *times)),
{
    let ghost op = ring(*plus, *times);
    let mut w: Vec<Double> = Vec::new();
    let mut c: usize = 0;
    while c < 6
        invariant
            c <= 6,
            w@.len() == c,
                row@ == plane_row(*plane, p@, op),
            op == ring(*plus, *times),
            binary(*plus),
            binary(*times),
            forall|k: int| 0 <= k < c ==> #[trigger] w@[k] == weighed_row(*plane, p@, scale, op)[k],
        decreases 6 - c,
    {
        let ghost column = |r: int| (op.times)(plane.plane_var.at(r, c as int), scale);
        let mut s = Double::zero();
        let mut r: usize = 0;
        while r < 6
            invariant
                c < 6,
                r <= 6,
                        row@ == plane_row(*plane, p@, op),
                op == ring(*plus, *times),
                binary(*plus),
                binary(*times),
                column == (|r: int| (op.times)(plane.plane_var.at(r, c as int), scale)),
                s == dot(list_of(row@), column, op, r as int),
            decreases 6 - r,
        {
            let e = apply_two(times, plane.plane_var.get(r, c), scale);
            let t = apply_two(times, row[r], e);
            s = apply_two(plus, s, t);
            r += 1;
        }
        w.push(s);
        c += 1;
    }
    assert(w@ =~= weighed_row(*plane, p@, scale, op));
    w
}

/// A covariance, given row by row, times a vector.
fn spread_times<P: Fn(Double, Double) -> Double, T: Fn(Double, Double) -> Double>(
    cov: &[Double; 9],
    v: &[Double; 3],
    plus: &P,
    times: &T,
) -> (w: Vec<Double>)
    requires
        binary(*plus),
        binary(*times),
    ensures
        w@ == spread_along(cov@, v@, ring(*plus, *times)),
{
    let ghost op = ring(*plus, *times);
    let mut w: Vec<Double> = Vec::new();
    let mut a: usize = 0;
    while a < 3
        invariant
            a <= 3,
            w@.len() == a,
            op == ring(*plus, *times),
            binary(*plus),
            binary(*times),
            forall|k: int| 0 <= k < a ==> #[trigger] w@[k] == spread_along(cov@, v@, op)[k],
        decreases 3 - a,
    {
        let ghost row = |b: int| cov@[3 * a as int + b];
        let x = apply_two(times, cov[3 * a], v[0]);
        let y = apply_two(times, cov[3 * a + 1], v[1]);
        let z = apply_two(times, cov[3 * a + 2], v[2]);
        let s = apply_two(plus, apply_two(plus, apply_two(plus, Double::zero(), x), y), z);
        assert(s == dot(row, list_of(v@), op, 3)) by {
            reveal_with_fuel(dot, 4);
        }
        w.push(s);
        a += 1;
    }
    assert(w@ =~= spread_along(cov@, v@, op));
    w
}

/// How a point with a covariance lies to a plane: how far from its center along it,
/// how far off it and with what variance, and how likely it belongs to it.
pub open spec fn point_judgement<
    V: Fn(Double, Double) -> Double,
    R: Fn(Double) -> Double,
    X: Fn(Double) -> Double,
>(
    plane: VoxelPlane,
    p: Seq<Double>,
    cov: Seq<Double>,
    radius_k: Double,
    sigma_num: Double,
    var_scale: Double,
    divide: V,
    root: R,
    exp: X,
    op: Ring,
) -> PlaneJudgement {
    let dis = off_plane(plane.normal@, p, plane.center@, op);
    let to_center = list_of(difference3(plane.center@, p, op));
    let along = (op.plus)(dot(to_center, to_center, op, 3), (op.times)(dis, dis).spec_neg());
    let var = distance_variance(plane, p, cov, var_scale, op);
    let dev = of_one(root, var);
    let size = (op.times)((op.times)(Double { bits: MINUS_HALF_BITS }, dis), dis);
    PlaneJudgement {
        range: of_one(root, along.greater(Double { bits: 0 })),
        range_limit: (op.times)(radius_k, plane.radius),
        distance: dis,
        abs_distance: dis.spec_abs(),
        variance: var,
        bound: (op.times)(sigma_num, dev),
        probability: of_two(divide, of_one(exp, of_two(divide, size, var)), dev),
    }
}

/// How a point with a covariance lies to a plane, whose own covariance is enlarged
/// by `var_scale`. The point may be `radius_k` radii from the center and
/// `sigma_num` deviations from the plane.
pub fn judge_point<
    P: Fn(Double, Double) -> Double,
    T: Fn(Double, Double) -> Double,
    V: Fn(Double, Double) -> Double,
    R: Fn(Double) -> Double,
    X: Fn(Double) -> Double,
>(
    plane: &VoxelPlane,
    p_world: &[Double; 3],
    cov_w: &[Double; 9],
    radius_k: Double,
    sigma_num: Double,
    var_scale: Double,
    plus: &P,
    times: &T,
    divide: &V,
    root: &R,
    exp: &X,
) -> (j: PlaneJudgement)
    requires
        binary(*plus),
        binary(*times),
        binary(*divide),
        unary(*root),
        unary(*exp),
    ensures
        j == point_judgement(
            *plane,
            p_world@,
            cov_w@,
            radius_k,
            sigma_num,
            var_scale,
            *divide,
            *root,
            *exp,
            ring(*plus, *times),
        ),
{
    let ghost op = ring(*plus, *times);
    let dis = point_plane_residual(&plane.normal, p_world, &plane.center, plus, times);
    let to_center = way_between(&plane.center, p_world, plus, times);
    let far = dot_lists(&to_center, &to_center, plus, times);
    let along = apply_two(plus, far, apply_two(times, dis, dis).neg());
    let range = apply_one(root, along.max(Double::zero()));
    let mut row = way_between(p_world, &plane.center, plus, times);
    row.push(plane.normal[0].neg());
    row.push(plane.normal[1].neg());
    row.push(plane.normal[2].neg());
    assert(row@ =~= plane_row(*plane, p_world@, op));
    let weighed = weigh_row(plane, p_world, &row, var_scale, plus, times);
    let by_plane = dot_lists(&weighed, &row, plus, times);
    let spread = spread_times(cov_w, &plane.normal, plus, times);
    let by_point = dot_lists(&listed(&plane.normal), &spread, plus, times);
    let var = apply_two(
        plus,
        apply_two(plus, by_plane, by_point),
        Double { bits: FLOOR_VARIANCE },
    );
    let dev = apply_one(root, var);
    let size = apply_two(times, apply_two(times, Double { bits: MINUS_HALF_BITS }, dis), dis);
    PlaneJudgement {
        range,
        range_limit: apply_two(times, radius_k, plane.radius),
        distance: dis,
        abs_distance: dis.abs(),
        variance: var,
        bound: apply_two(times, sigma_num, dev),
        probability: apply_two(divide, apply_one(exp, apply_two(divide, size, var)), dev),
    }
}

/// Whether a plane with a judgement is near enough.
pub open spec fn near_by(plane: VoxelPlane, j: PlaneJudgement) -> bool {
    plane.is_plane && !j.range_limit.spec_lt(j.range)
}

/// Whether a plane with a judgement can be used.
pub open spec fn usable_by(plane: VoxelPlane, j: PlaneJudgement) -> bool {
    near_by(plane, j) && gate(j.abs_distance, j.variance, j.bound) is Inlier
}

/// The most likely of the first `n` planes that can be used by their judgements, and
/// how likely it is; the first of equally likely ones.
pub open spec fn likeliest(planes: Seq<VoxelPlane>, js: Seq<PlaneJudgement>, n: int) -> (
    Option<int>,
    Double,
)
    decreases n,
{
    if n <= 0 {
        (None, Double { bits: NEG_INFINITY_BITS })
    } else {
        let rest = likeliest(planes, js, n - 1);
        if usable_by(planes[n - 1], js[n - 1]) && rest.1.spec_lt(js[n - 1].probability) {
            (Some(n - 1), js[n - 1].probability)
        } else {
            rest
        }
    }
}

/// What comes of looking for a plane by judgements.
pub open spec fn query_by(planes: Seq<VoxelPlane>, js: Seq<PlaneJudgement>) -> PlaneQuery {
    match likeliest(planes, js, planes.len() as int).0 {
        Some(k) => PlaneQuery::Matched(planes[k].normal, js[k].distance, js[k].variance),
        None => if exists|i: int| 0 <= i < planes.len() && near_by(#[trigger] planes[i], js[i]) {
            PlaneQuery::Chi2Rejected
        } else {
            PlaneQuery::NoPlane
        },
    }
}

/// The judgements of a point against planes.
pub open spec fn judgements<
    V: Fn(Double, Double) -> Double,
    R: Fn(Double) -> Double,
    X: Fn(Double) -> Double,
>(
    planes: Seq<VoxelPlane>,
    p: Seq<Double>,
    cov: Seq<Double>,
    radius_k: Double,
    sigma_num: Double,
    var_scale: Double,
    divide: V,
    root: R,
    exp: X,
    op: Ring,
) -> Seq<PlaneJudgement> {
    Seq::new(
        planes.len(),
        |i: int|
            point_judgement(
                planes[i],
                p,
                cov,
                radius_k,
                sigma_num,
                var_scale,
                divide,
                root,
                exp,
                op,
            ),
    )
}

/// Looks for the plane of a point with a covariance: the most likely of those that
/// are near enough and not too far in deviations.
pub fn match_plane<
    P: Fn(Double, Double) -> Double,
    T: Fn(Double, Double) -> Double,
    V: Fn(Double, Double) -> Double,
    R: Fn(Double) -> Double,
    X: Fn(Double) -> Double,
>(
    planes: &Vec<&VoxelPlane>,
    p_world: &[Double; 3],
    cov_w: &[Double; 9],
    radius_k: Double,
    sigma_num: Double,
    var_scale: Double,
    plus: &P,
    times: &T,
    divide: &V,
    root: &R,
    exp: &X,
) -> (query: PlaneQuery)
    requires
        binary(*plus),
        binary(*times),
        binary(*divide),
        unary(*root),
        unary(*exp),
    ensures
        query == query_by(
            plane_list(planes@),
            judgements(
                plane_list(planes@),
                p_world@,
                cov_w@,
                radius_k,
                sigma_num,
                var_scale,
                *divide,
                *root,
                *exp,
                ring(*plus, *times),
            ),
        ),
{
    let ghost list = plane_list(planes@);
    let ghost js = judgements(
        list,
        p_world@,
        cov_w@,
        radius_k,
        sigma_num,
        var_scale,
        *divide,
        *root,
        *exp,
        ring(*plus, *times),
    );
    let mut best: Option<([Double; 3], Double, Double)> = None;
    let ghost mut place: Option<int> = None;
    let mut best_prob = Double { bits: NEG_INFINITY_BITS };
    let mut found = false;
    let mut i: usize = 0;
    while i < planes.len()
        invariant
            i <= planes@.len(),
            binary(*plus),
            binary(*times),
            binary(*divide),
            unary(*root),
            unary(*exp),
            list == plane_list(planes@),
            js == judgements(
                list,
                p_world@,
                cov_w@,
                radius_k,
                sigma_num,
                var_scale,
                *divide,
                *root,
                *exp,
                ring(*plus, *times),
            ),
            likeliest(list, js, i as int) == (place, best_prob),
            place is Some == best is Some,
            place matches Some(k) ==> 0 <= k < i && best == Some(
                (list[k].normal, js[k].distance, js[k].variance),
            ),
            found == (exists|k: int| 0 <= k < i && near_by(#[trigger] list[k], js[k])),
        decreases planes@.len() - i,
    {
        let plane: &VoxelPlane = planes[i];
        assert(*plane == list[i as int]);
        if plane.is_plane {
            let j = judge_point(
                plane,
                p_world,
                cov_w,
                radius_k,
                sigma_num,
                var_scale,
                plus,
                times,
                divide,
                root,
                exp,
            );
            assert(j == js[i as int]);
            if !j.range_limit.lt(j.range) {
                assert(near_by(list[i as int], js[i as int]));
                found = true;
                if judge_size(j.abs_distance, j.variance, j.bound) == GateVerdict::Inlier {
                    if best_prob.lt(j.probability) {
                        best_prob = j.probability;
                        best = Some((plane.normal, j.distance, j.variance));
                        proof {
                            place = Some(i as int);
                        }
                    }
                }
            }
        }
        i += 1;
    }
    match best {
        Some((normal, distance, variance)) => PlaneQuery::Matched(normal, distance, variance),
        None => if found {
            PlaneQuery::Chi2Rejected
        } else {
            PlaneQuery::NoPlane
        },
    }
}

/// A match passes both tests, and no usable plane is more likely.
pub proof fn law_match_is_most_likely(planes: Seq<VoxelPlane>, js: Seq<PlaneJudgement>, k: int)
    requires
        js.len() == planes.len(),
        0 <= k < planes.len(),
        query_by(planes, js) is Matched,
    ensures
        ({
            let best = likeliest(planes, js, planes.len() as int).0->0;
            &&& 0 <= best < planes.len()
            &&& usable_by(planes[best], js[best])
            &&& usable_by(planes[k], js[k]) ==> !js[best].probability.spec_lt(js[k].probability)
        }),
{
    lemma_likeliest(planes, js, planes.len() as int);
    assert(planes[k] == planes[k]);
}

/// Nothing usable is more likely than the most likely.
proof fn lemma_likeliest(planes: Seq<VoxelPlane>, js: Seq<PlaneJudgement>, n: int)
    requires
        0 <= n <= planes.len(),
        js.len() == planes.len(),
    ensures
        ({
            let best = likeliest(planes, js, n);
            &&& !best.1.spec_is_nan()
            &&& best.0 matches Some(b) ==> 0 <= b < n && usable_by(planes[b], js[b]) && best.1
                == js[b].probability
            &&& forall|k: int|
                0 <= k < n && usable_by(#[trigger] planes[k], js[k]) ==> !best.1.spec_lt(
                    js[k].probability,
                )
        }),
    decreases n,
{
    if n > 0 {
        lemma_likeliest(planes, js, n - 1);
    }
}

} // verus!
