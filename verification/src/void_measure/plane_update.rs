//! Residuals of depth points against the planes of the map.

use vstd::prelude::*;

use crate::algebra::{
    dot, flipped, is, lemma_dot_same, lemma_product, list_of, multiply, product, ring, square_of,
    three_by_three, Ring,
};
use crate::arith::{apply_two, binary, counts, unary};
use crate::double::{Double, ONE_BITS};
use crate::matrix::Matrix;
use crate::void_map::octree::planes_of;
use crate::void_map::plane::VoxelPlane;
use crate::void_map::voxel::{voxel_of, VoxelKey, VoxelMap};
use crate::void_measure::options::DepthOptions;
use crate::void_measure::planar::{judgements, match_plane, plane_list, query_by, PlaneQuery};
use crate::void_types::motion::{place_point, placed};
use crate::void_types::so3::{skew, skew_entry};
use crate::void_types::state::{lemma_triple, triple, State, DIM_STATE};

verus! {

/// The variance of a row that says nothing: 1e12.
pub const ZERO_INFO: u64 = 0x426D_1A94_A200_0000;

/// The variance from which on a row does not count: 1e6.
pub const EFFECTIVE_LIMIT: u64 = 0x412E_8480_0000_0000;

/// What became of the points of a frame.
#[derive(Clone, Copy, Debug, PartialEq, Eq, Structural)]
pub struct DepthDiag {
    /// The points of the frame.
    pub total: usize,
    /// Points without a plane near enough.
    pub no_plane: usize,
    /// Points whose planes were all too far in standard deviations.
    pub chi2_rejected: usize,
    /// Points that gave a residual.
    pub kept: usize,
}

impl Default for DepthDiag {
    fn default() -> (d: Self)
        ensures
            d == (DepthDiag { total: 0, no_plane: 0, chi2_rejected: 0, kept: 0 }),
    {
        DepthDiag { total: 0, no_plane: 0, chi2_rejected: 0, kept: 0 }
    }
}

/// The residual of a point against its plane.
#[derive(Clone, Copy, Debug)]
pub struct PlaneResidual {
    /// The derivative by the orientation.
    pub rotation: [Double; 3],
    /// The plane's normal, which is the derivative by the position.
    pub normal: [Double; 3],
    /// The distance from the plane.
    pub distance: Double,
    /// The variance of the distance.
    pub variance: Double,
}

/// What came of a point.
#[derive(Clone, Copy, Debug)]
pub enum PointMatch {
    /// It has a residual.
    Residual(PlaneResidual),
    /// No plane is near enough.
    NoPlane,
    /// It is too far from each plane.
    Chi2Rejected,
}

/// A residual system: one row for each point.
#[derive(Debug)]
pub struct ResidualRows {
    /// The residuals.
    pub z: Vec<Double>,
    /// Their derivatives by the error state.
    pub h: Matrix,
    /// Their variances.
    pub r: Vec<Double>,
}

/// Entry `j` of the derivative of a point's residual.
pub open spec fn derivative(m: PointMatch, j: int) -> Double {
    match m {
        PointMatch::Residual(res) => if j < 3 {
            res.rotation@[j]
        } else if j < 6 {
            res.normal@[j - 3]
        } else {
            Double { bits: 0 }
        },
        _ => Double { bits: 0 },
    }
}

/// The residual of a point; zero without one.
pub open spec fn residual_of(m: PointMatch) -> Double {
    match m {
        PointMatch::Residual(res) => res.distance,
        _ => Double { bits: 0 },
    }
}

/// The variance of a point's residual; beyond use without one.
pub open spec fn variance_of(m: PointMatch) -> Double {
    match m {
        PointMatch::Residual(res) => res.variance,
        _ => Double { bits: ZERO_INFO },
    }
}

/// What became of the first `n` points.
pub open spec fn tally(matches: Seq<PointMatch>, n: int) -> (int, int, int)
    decreases n,
{
    if n <= 0 {
        (0, 0, 0)
    } else {
        let rest = tally(matches, n - 1);
        match matches[n - 1] {
            PointMatch::NoPlane => (rest.0 + 1, rest.1, rest.2),
            PointMatch::Chi2Rejected => (rest.0, rest.1 + 1, rest.2),
            PointMatch::Residual(_) => (rest.0, rest.1, rest.2 + 1),
        }
    }
}

/// Counts what became of the points.
pub fn count_matches(matches: &Vec<PointMatch>) -> (diag: DepthDiag)
    ensures
        counted(diag, matches@),
        diag.no_plane + diag.chi2_rejected + diag.kept == diag.total,
{
    let total: usize = matches.len();
    let mut diag = DepthDiag { total, no_plane: 0, chi2_rejected: 0, kept: 0 };
    let mut i: usize = 0;
    while i < matches.len()
        invariant
            i <= matches@.len(),
            total == matches@.len(),
            diag.total == total,
            (diag.no_plane as int, diag.chi2_rejected as int, diag.kept as int) == tally(
                matches@,
                i as int,
            ),
            diag.no_plane + diag.chi2_rejected + diag.kept == i,
        decreases matches@.len() - i,
    {
        match matches[i] {
            PointMatch::NoPlane => {
                diag.no_plane += 1;
            },
            PointMatch::Chi2Rejected => {
                diag.chi2_rejected += 1;
            },
            PointMatch::Residual(_) => {
                diag.kept += 1;
            },
        }
        i += 1;
    }
    diag
}

/// Whether each row is that of its point.
pub open spec fn rows_of_matches(rows: &ResidualRows, matches: Seq<PointMatch>) -> bool {
    &&& rows.z@.len() == matches.len()
    &&& rows.r@.len() == matches.len()
    &&& rows.h.shaped(matches.len() as int, DIM_STATE as int)
    &&& forall|i: int|
        0 <= i < matches.len() ==> #[trigger] rows.z@[i] == residual_of(matches[i])
    &&& forall|i: int|
        0 <= i < matches.len() ==> #[trigger] rows.r@[i] == variance_of(matches[i])
    &&& forall|i: int, j: int|
        rows.h.has(i, j) ==> #[trigger] rows.h.at(i, j) == derivative(matches[i], j)
}

/// The residual system of a frame, one row for each point; the row of a point
/// without a residual says nothing.
pub fn build_rows(matches: &Vec<PointMatch>) -> (rows: ResidualRows)
    requires
        matches@.len() * DIM_STATE <= usize::MAX,
    ensures
        rows_of_matches(&rows, matches@),
{
    let n: usize = matches.len();
    let mut z: Vec<Double> = Vec::new();
    let mut r: Vec<Double> = Vec::new();
    let mut h = Matrix::filled(n, DIM_STATE, Double::zero());
    let mut i: usize = 0;
    while i < n
        invariant
            i <= n,
            n == matches@.len(),
            z@.len() == i,
            r@.len() == i,
            h.shaped(n as int, DIM_STATE as int),
            forall|k: int| 0 <= k < i ==> #[trigger] z@[k] == residual_of(matches@[k]),
            forall|k: int| 0 <= k < i ==> #[trigger] r@[k] == variance_of(matches@[k]),
            forall|k: int, j: int|
                h.has(k, j) ==> #[trigger] h.at(k, j) == (if k < i {
                    derivative(matches@[k], j)
                } else {
                    Double { bits: 0 }
                }),
        decreases n - i,
    {
        match matches[i] {
            PointMatch::Residual(res) => {
                z.push(res.distance);
                r.push(res.variance);
                h.set(i, 0, res.rotation[0]);
                h.set(i, 1, res.rotation[1]);
                h.set(i, 2, res.rotation[2]);
                h.set(i, 3, res.normal[0]);
                h.set(i, 4, res.normal[1]);
                h.set(i, 5, res.normal[2]);
            },
            _ => {
                z.push(Double::zero());
                r.push(Double { bits: ZERO_INFO });
            },
        }
        i += 1;
    }
    ResidualRows { z, h, r }
}

/// How many of the first `n` rows count.
pub open spec fn effective(r: Seq<Double>, n: int) -> int
    decreases n,
{
    if n <= 0 {
        0
    } else {
        effective(r, n - 1) + (if r[n - 1].spec_lt(Double { bits: EFFECTIVE_LIMIT }) {
            1int
        } else {
            0
        })
    }
}

/// How many rows count: those with a variance below the limit.
pub fn effective_count(r: &Vec<Double>) -> (n: usize)
    ensures
        n == effective(r@, r@.len() as int),
{
    let mut n: usize = 0;
    let mut i: usize = 0;
    while i < r.len()
        invariant
            i <= r@.len(),
            n <= i,
            n == effective(r@, i as int),
        decreases r@.len() - i,
    {
        if r[i].lt(Double { bits: EFFECTIVE_LIMIT }) {
            n += 1;
        }
        i += 1;
    }
    n
}

/// Points without a residual never count.
pub proof fn law_rejected_points_do_not_count(m: PointMatch)
    requires
        !(m is Residual),
    ensures
        !variance_of(m).spec_lt(Double { bits: EFFECTIVE_LIMIT }),
        residual_of(m) == (Double { bits: 0 }),
        forall|j: int| derivative(m, j) == (Double { bits: 0 }),
{
}

/// A vector turned back by a rotation, given row by row.
pub open spec fn turned_back(rot: Seq<Double>, v: Seq<Double>, op: Ring) -> Seq<Double> {
    Seq::new(3, |k: int| dot(|a: int| rot[3 * a + k], list_of(v), op, 3))
}

/// The derivative of a point's distance by the orientation: the point in the body,
/// crossed with the normal as the body sees it.
pub open spec fn turning(p: Seq<Double>, rot: Seq<Double>, normal: Seq<Double>, op: Ring) -> Seq<Double> {
    Seq::new(
        3,
        |i: int|
            dot(|k: int| skew_entry(p, i, k), list_of(turned_back(rot, normal, op)), op, 3),
    )
}

/// The derivative of a point's distance by the orientation.
pub fn rotation_lever<P: Fn(Double, Double) -> Double, T: Fn(Double, Double) -> Double>(
    p_body: &[Double; 3],
    rot: &[Double; 9],
    normal: &[Double; 3],
    plus: &P,
    times: &T,
) -> (lever: [Double; 3])
    requires
        binary(*plus),
        binary(*times),
    ensures
        lever@ == turning(p_body@, rot@, normal@, ring(*plus, *times)),
{
    let ghost op = ring(*plus, *times);
    let back = [
        turn_back(rot, normal, 0, plus, times),
        turn_back(rot, normal, 1, plus, times),
        turn_back(rot, normal, 2, plus, times),
    ];
    assert(back@ =~= turned_back(rot@, normal@, op));
    let rows = skew(p_body);
    let lever = [
        cross_row(&rows, &back, 0, plus, times),
        cross_row(&rows, &back, 1, plus, times),
        cross_row(&rows, &back, 2, plus, times),
    ];
    assert forall|i: int| 0 <= i < 3 implies #[trigger] lever@[i] == turning(
        p_body@,
        rot@,
        normal@,
        op,
    )[i] by {
        lemma_dot_same(
            |k: int| rows.at(i, k),
            list_of(back@),
            |k: int| skew_entry(p_body@, i, k),
            list_of(back@),
            op,
            3,
        );
    }
    assert(lever@ =~= turning(p_body@, rot@, normal@, op));
    lever
}

/// An entry of a vector turned back.
fn turn_back<P: Fn(Double, Double) -> Double, T: Fn(Double, Double) -> Double>(
    rot: &[Double; 9],
    v: &[Double; 3],
    k: usize,
    plus: &P,
    times: &T,
) -> (s: Double)
    requires
        k < 3,
        binary(*plus),
        binary(*times),
    ensures
        s == dot(|a: int| rot@[3 * a + k], list_of(v@), ring(*plus, *times), 3),
{
    let x = apply_two(times, rot[k], v[0]);
    let y = apply_two(times, rot[3 + k], v[1]);
    let z = apply_two(times, rot[6 + k], v[2]);
    let s = apply_two(plus, apply_two(plus, apply_two(plus, Double::zero(), x), y), z);
    proof {
        reveal_with_fuel(dot, 4);
    }
    s
}

/// An entry of a matrix times a vector.
fn cross_row<P: Fn(Double, Double) -> Double, T: Fn(Double, Double) -> Double>(
    m: &Matrix,
    v: &[Double; 3],
    i: usize,
    plus: &P,
    times: &T,
) -> (s: Double)
    requires
        m.shaped(3, 3),
        i < 3,
        binary(*plus),
        binary(*times),
    ensures
        s == dot(|k: int| m.at(i as int, k), list_of(v@), ring(*plus, *times), 3),
{
    let x = apply_two(times, m.get(i, 0), v[0]);
    let y = apply_two(times, m.get(i, 1), v[1]);
    let z = apply_two(times, m.get(i, 2), v[2]);
    let s = apply_two(plus, apply_two(plus, apply_two(plus, Double::zero(), x), y), z);
    proof {
        reveal_with_fuel(dot, 4);
    }
    s
}

/// The points of a depth frame, with their covariances, and how the sensor sits in the
/// body.
#[derive(Clone, Debug)]
pub struct Scan {
    /// The points as the sensor sees them.
    pub points: Vec<[Double; 3]>,
    /// Their covariances, each row by row.
    pub covs: Vec<[Double; 9]>,
    /// The turn from the sensor to the body, row by row.
    pub rot: [Double; 9],
    /// Where the sensor is in the body.
    pub pos: [Double; 3],
}

/// How far a plane may be, and how uncertain planes are.
#[derive(Clone, Copy, Debug, PartialEq, Eq, Structural)]
pub struct MatchRule {
    /// How many extents a point may lie from a plane's center.
    pub radius_k: Double,
    /// The standard deviations within which a residual is used.
    pub sigma_num: Double,
    /// Factor on the covariance of the planes.
    pub var_scale: Double,
}

/// The functions that points are matched with.
pub struct PlaneTools<P, T, V, R, X, N> {
    /// Addition.
    pub plus: P,
    /// Multiplication.
    pub times: T,
    /// Division.
    pub divide: V,
    /// The square root.
    pub root: R,
    /// The exponential.
    pub exp: X,
    /// A count as a number.
    pub number: N,
}

impl<
    P: Fn(Double, Double) -> Double,
    T: Fn(Double, Double) -> Double,
    V: Fn(Double, Double) -> Double,
    R: Fn(Double) -> Double,
    X: Fn(Double) -> Double,
    N: Fn(usize) -> Double,
> PlaneTools<P, T, V, R, X, N> {
    /// Whether the functions always have one result.
    pub open spec fn wf(&self) -> bool {
        &&& binary(self.plus)
        &&& binary(self.times)
        &&& binary(self.divide)
        &&& unary(self.root)
        &&& unary(self.exp)
        &&& counts(self.number)
    }

    /// Addition and multiplication.
    pub open spec fn op(&self) -> Ring {
        ring(self.plus, self.times)
    }

    /// What comes of looking for the plane of a point among planes.
    pub open spec fn query(
        &self,
        planes: Seq<VoxelPlane>,
        p: Seq<Double>,
        cov: Seq<Double>,
        rule: MatchRule,
    ) -> PlaneQuery {
        query_by(
            planes,
            judgements(
                planes,
                p,
                cov,
                rule.radius_k,
                rule.sigma_num,
                rule.var_scale,
                self.divide,
                self.root,
                self.exp,
                self.op(),
            ),
        )
    }

    /// What comes of point `i` of a frame at a state, among planes.
    pub open spec fn point_match(
        &self,
        planes: Seq<VoxelPlane>,
        scan: &Scan,
        x: &State,
        i: int,
        rule: MatchRule,
    ) -> PointMatch {
        let op = self.op();
        matched(
            self.query(planes, scan.in_world(x, i, op), scan.spread(x, i, op), rule),
            scan.in_body(i, op),
            x.rot@,
            op,
        )
    }

    /// What comes of a point, among planes.
    pub(crate) fn match_placed(
        &self,
        planes: &Vec<&VoxelPlane>,
        at: &PlacedPoint,
        x: &State,
        rule: MatchRule,
    ) -> (m: PointMatch)
        requires
            self.wf(),
        ensures
            m == matched(
                self.query(plane_list(planes@), at.world@, at.cov@, rule),
                at.body@,
                x.rot@,
                self.op(),
            ),
    {
        let query = match_plane(
            planes,
            &at.world,
            &at.cov,
            rule.radius_k,
            rule.sigma_num,
            rule.var_scale,
            &self.plus,
            &self.times,
            &self.divide,
            &self.root,
            &self.exp,
        );
        match query {
            PlaneQuery::Matched(normal, distance, variance) => {
                let rotation = rotation_lever(&at.body, &x.rot, &normal, &self.plus, &self.times);
                proof {
                    lemma_triple(rotation);
                }
                PointMatch::Residual(PlaneResidual { rotation, normal, distance, variance })
            },
            PlaneQuery::NoPlane => PointMatch::NoPlane,
            PlaneQuery::Chi2Rejected => PointMatch::Chi2Rejected,
        }
    }
}

/// A point of a frame at a state.
pub(crate) struct PlacedPoint {
    /// In the body.
    pub body: [Double; 3],
    /// In the world.
    pub world: [Double; 3],
    /// Its covariance in the world, row by row.
    pub cov: [Double; 9],
}

impl Scan {
    /// Whether every point has its covariance.
    pub open spec fn wf(&self) -> bool {
        self.covs@.len() == self.points@.len()
    }

    /// Point `i` in the body.
    pub open spec fn in_body(&self, i: int, op: Ring) -> Seq<Double> {
        placed(self.rot@, self.points@[i]@, self.pos@, op)
    }

    /// Point `i` in the world, at a state.
    pub open spec fn in_world(&self, x: &State, i: int, op: Ring) -> Seq<Double> {
        placed(x.rot@, self.in_body(i, op), x.pos@, op)
    }

    /// The covariance of point `i` in the world, at a state, row by row.
    pub open spec fn spread(&self, x: &State, i: int, op: Ring) -> Seq<Double> {
        turned_spread(x.rot@, self.covs@[i]@, op)
    }

    /// Point `i` at a state.
    pub(crate) fn place<P: Fn(Double, Double) -> Double, T: Fn(Double, Double) -> Double>(
        &self,
        x: &State,
        i: usize,
        plus: &P,
        times: &T,
    ) -> (at: PlacedPoint)
        requires
            self.wf(),
            i < self.points@.len(),
            binary(*plus),
            binary(*times),
        ensures
            at.body@ == self.in_body(i as int, ring(*plus, *times)),
            at.world@ == self.in_world(x, i as int, ring(*plus, *times)),
            at.cov@ == self.spread(x, i as int, ring(*plus, *times)),
    {
        let body = place_point(&self.rot, &self.points[i], &self.pos, plus, times);
        let world = place_point(&x.rot, &body, &x.pos, plus, times);
        let cov = turn_spread(&x.rot, &self.covs[i], plus, times);
        PlacedPoint { body, world, cov }
    }
}

/// A covariance in a frame that is turned: the rotation, the covariance, and the
/// rotation turned back, multiplied; row by row.
pub open spec fn turned_spread(rot: Seq<Double>, cov: Seq<Double>, op: Ring) -> Seq<Double> {
    let r = three_by_three(rot);
    let m = product(product(r, three_by_three(cov), op, 3), flipped(r), op, 3);
    seq![m(0, 0), m(0, 1), m(0, 2), m(1, 0), m(1, 1), m(1, 2), m(2, 0), m(2, 1), m(2, 2)]
}

/// A covariance in a frame that is turned.
fn turn_spread<P: Fn(Double, Double) -> Double, T: Fn(Double, Double) -> Double>(
    rot: &[Double; 9],
    cov: &[Double; 9],
    plus: &P,
    times: &T,
) -> (m: [Double; 9])
    requires
        binary(*plus),
        binary(*times),
    ensures
        m@ == turned_spread(rot@, cov@, ring(*plus, *times)),
{
    let ghost op = ring(*plus, *times);
    let ghost f = three_by_three(rot@);
    let r = square_of(rot);
    let c = square_of(cov);
    let left = multiply(&r, &c, plus, times);
    let back = r.transpose();
    let whole = multiply(&left, &back, plus, times);
    proof {
        lemma_product(&left, &r, &c, f, three_by_three(cov@), op);
        assert(is(&back, 3, 3, flipped(f)));
        lemma_product(
            &whole,
            &left,
            &back,
            product(f, three_by_three(cov@), op, 3),
            flipped(f),
            op,
        );
    }
    let m = [
        whole.get(0, 0),
        whole.get(0, 1),
        whole.get(0, 2),
        whole.get(1, 0),
        whole.get(1, 1),
        whole.get(1, 2),
        whole.get(2, 0),
        whole.get(2, 1),
        whole.get(2, 2),
    ];
    assert(m@ =~= turned_spread(rot@, cov@, op));
    m
}

/// What came of a point in the body, from what came of looking for its plane.
pub open spec fn matched(query: PlaneQuery, p: Seq<Double>, rot: Seq<Double>, op: Ring) -> PointMatch {
    match query {
        PlaneQuery::Matched(normal, distance, variance) => PointMatch::Residual(
            PlaneResidual {
                rotation: triple(turning(p, rot, normal@, op)),
                normal,
                distance,
                variance,
            },
        ),
        PlaneQuery::NoPlane => PointMatch::NoPlane,
        PlaneQuery::Chi2Rejected => PointMatch::Chi2Rejected,
    }
}

/// The planes of the voxel at a key; none where there is no voxel.
pub open spec fn planes_at(map: &VoxelMap, key: VoxelKey) -> Seq<VoxelPlane> {
    if map.voxels().dom().contains(key) {
        planes_of(map.voxels()[key].octo)
    } else {
        Seq::empty()
    }
}

/// What comes of the points of a frame at a state: each is looked up in its root voxel.
pub open spec fn depth_matches<
    P: Fn(Double, Double) -> Double,
    T: Fn(Double, Double) -> Double,
    V: Fn(Double, Double) -> Double,
    R: Fn(Double) -> Double,
    X: Fn(Double) -> Double,
    N: Fn(usize) -> Double,
>(m: &DepthMeasurement, x: &State, tools: &PlaneTools<P, T, V, R, X, N>) -> Seq<PointMatch> {
    Seq::new(
        m.scan.points@.len(),
        |i: int|
            tools.point_match(
                planes_at(
                    m.map,
                    voxel_of(
                        m.scan.in_world(x, i, tools.op()),
                        m.map.settings().root_size,
                        tools.divide,
                    ),
                ),
                &m.scan,
                x,
                i,
                m.rule(),
            ),
    )
}

/// The measurement of a frame's points against the planes of the map.
#[derive(Debug)]
pub struct DepthMeasurement<'a> {
    /// The map.
    pub map: &'a VoxelMap,
    /// The points.
    pub scan: Scan,
    /// The options.
    pub opts: DepthOptions,
    /// What became of the points the last time.
    pub last_diag: DepthDiag,
}

impl<'a> DepthMeasurement<'a> {
    /// Whether the measurement is in order.
    pub open spec fn wf(&self) -> bool {
        &&& self.map.wf()
        &&& self.scan.wf()
        &&& self.scan.points@.len() * DIM_STATE <= usize::MAX
    }

    /// How points are matched: the map's planes are as uncertain as they say.
    pub open spec fn rule(&self) -> MatchRule {
        MatchRule {
            radius_k: self.opts.radius_k,
            sigma_num: self.opts.sigma_num,
            var_scale: Double { bits: ONE_BITS },
        }
    }

    /// A measurement of points against a map.
    pub fn new(map: &'a VoxelMap, scan: Scan, opts: DepthOptions) -> (m: DepthMeasurement<'a>)
        requires
            scan.wf(),
        ensures
            *m.map == *map,
            m.scan == scan,
            m.opts == opts,
            call_ensures(<DepthDiag as Default>::default, (), m.last_diag),
    {
        DepthMeasurement { map, scan, opts, last_diag: DepthDiag::default() }
    }

    /// The number of points.
    pub fn dim(&self) -> (n: usize)
        ensures
            n == self.scan.points@.len(),
    {
        self.scan.points.len()
    }

    /// What became of the points the last time.
    pub fn last_diag(&self) -> (d: DepthDiag)
        ensures
            d == self.last_diag,
    {
        self.last_diag
    }

    /// What comes of a point: it is looked up in its root voxel.
    fn plane_for_point<
        P: Fn(Double, Double) -> Double,
        T: Fn(Double, Double) -> Double,
        V: Fn(Double, Double) -> Double,
        R: Fn(Double) -> Double,
        X: Fn(Double) -> Double,
        N: Fn(usize) -> Double,
    >(&self, at: &PlacedPoint, x: &State, tools: &PlaneTools<P, T, V, R, X, N>) -> (m: PointMatch)
        requires
            self.map.wf(),
            tools.wf(),
        ensures
            m == matched(
                tools.query(
                    planes_at(
                        self.map,
                        voxel_of(at.world@, self.map.settings().root_size, tools.divide),
                    ),
                    at.world@,
                    at.cov@,
                    self.rule(),
                ),
                at.body@,
                x.rot@,
                tools.op(),
            ),
    {
        let key = VoxelKey::from_point(&at.world, self.map.options().root_size, &tools.divide);
        let mut planes: Vec<&VoxelPlane> = Vec::new();
        match self.map.root_at_key(&key) {
            None => {},
            Some(root) => {
                root.collect_planes(&mut planes);
            },
        }
        assert forall|i: int| 0 <= i < planes@.len() implies *(#[trigger] planes@[i]) == planes_at(
            self.map,
            key,
        )[i] by {
            assert(crate::void_map::octree::appended(planes@, 0, i) == planes@[i]);
        }
        assert(plane_list(planes@) =~= planes_at(self.map, key));
        let rule = MatchRule {
            radius_k: self.opts.radius_k,
            sigma_num: self.opts.sigma_num,
            var_scale: Double::one(),
        };
        tools.match_placed(&planes, at, x, rule)
    }

    /// The residual system of the points at a state, and what became of them.
    pub fn build<
        P: Fn(Double, Double) -> Double,
        T: Fn(Double, Double) -> Double,
        V: Fn(Double, Double) -> Double,
        R: Fn(Double) -> Double,
        X: Fn(Double) -> Double,
        N: Fn(usize) -> Double,
    >(&mut self, x: &State, tools: &PlaneTools<P, T, V, R, X, N>) -> (rows: ResidualRows)
        requires
            old(self).wf(),
            tools.wf(),
        ensures
            rows_of_matches(&rows, depth_matches(old(self), x, tools)),
            *final(self) == (DepthMeasurement { last_diag: final(self).last_diag, ..*old(self) }),
            counted(final(self).last_diag, depth_matches(old(self), x, tools)),
    {
        let ghost all = depth_matches(self, x, tools);
        let mut matches: Vec<PointMatch> = Vec::new();
        let mut i: usize = 0;
        while i < self.scan.points.len()
            invariant
                i <= self.scan.points@.len(),
                *self == *old(self),
                self.wf(),
                tools.wf(),
                all == depth_matches(self, x, tools),
                matches@ == all.take(i as int),
            decreases self.scan.points@.len() - i,
        {
            let at = self.scan.place(x, i, &tools.plus, &tools.times);
            let m = self.plane_for_point(&at, x, tools);
            matches.push(m);
            assert(matches@ =~= all.take(i + 1));
            i += 1;
        }
        assert(matches@ =~= all);
        self.last_diag = count_matches(&matches);
        build_rows(&matches)
    }

    /// How many points count.
    pub fn effective_count<
        P: Fn(Double, Double) -> Double,
        T: Fn(Double, Double) -> Double,
        V: Fn(Double, Double) -> Double,
        R: Fn(Double) -> Double,
        X: Fn(Double) -> Double,
        N: Fn(usize) -> Double,
    >(&mut self, x: &State, tools: &PlaneTools<P, T, V, R, X, N>) -> (n: usize)
        requires
            old(self).wf(),
            tools.wf(),
        ensures
            n == effective(
                variances(depth_matches(old(self), x, tools)),
                old(self).scan.points@.len() as int,
            ),
            *final(self) == (DepthMeasurement { last_diag: final(self).last_diag, ..*old(self) }),
            counted(final(self).last_diag, depth_matches(old(self), x, tools)),
    {
        let rows = self.build(x, tools);
        assert(rows.r@ =~= variances(depth_matches(old(self), x, tools)));
        effective_count(&rows.r)
    }
}

/// Whether a record counts what became of points.
pub open spec fn counted(d: DepthDiag, matches: Seq<PointMatch>) -> bool {
    &&& d.total == matches.len()
    &&& (d.no_plane as int, d.chi2_rejected as int, d.kept as int) == tally(
        matches,
        matches.len() as int,
    )
}

/// The variances of the points' residuals.
pub open spec fn variances(matches: Seq<PointMatch>) -> Seq<Double> {
    Seq::new(matches.len(), |i: int| variance_of(matches[i]))
}

} // verus!
