//! Residuals of depth points against planes that are known beforehand.

use vstd::prelude::*;

use crate::algebra::{list_of, summed, Ring};
use crate::arith::{apply_count, apply_two, counted, of_two};
use crate::double::Double;
use crate::void_map::options::ROOT_SIZE;
use crate::void_map::plane::VoxelPlane;
use crate::void_map::prior_map::{prior_voxel, PriorPlaneMap};
use crate::void_map::voxel::VoxelKey;
use crate::void_measure::options::PriorOptions;
use crate::void_measure::planar::plane_list;
use crate::void_measure::plane_update::{
    build_rows, count_matches, effective, effective_count, rows_of_matches, tally, variances,
    MatchRule, PlaneTools, PointMatch, ResidualRows, Scan,
};
use crate::void_types::state::{State, DIM_STATE};

verus! {

/// What became of the points of a frame, and how large their residuals are.
#[derive(Clone, Copy, Debug, PartialEq, Eq, Structural)]
pub struct PriorDiag {
    /// The points of the frame.
    pub total: usize,
    /// Points without a plane near enough.
    pub no_plane: usize,
    /// Points whose planes were all too far in standard deviations.
    pub chi2_rejected: usize,
    /// Points that gave a residual.
    pub kept: usize,
    /// The mean size of the residuals (m).
    pub residual_mean: Double,
    /// The mean variance of the residuals.
    pub sigma_mean: Double,
}

impl Default for PriorDiag {
    fn default() -> (d: Self)
        ensures
            d == (PriorDiag {
                total: 0,
                no_plane: 0,
                chi2_rejected: 0,
                kept: 0,
                residual_mean: Double { bits: 0 },
                sigma_mean: Double { bits: 0 },
            }),
    {
        PriorDiag {
            total: 0,
            no_plane: 0,
            chi2_rejected: 0,
            kept: 0,
            residual_mean: Double::zero(),
            sigma_mean: Double::zero(),
        }
    }
}

/// The planes that a point in the voxel at a key may lie on.
pub open spec fn prior_planes(map: &PriorPlaneMap, key: VoxelKey) -> Seq<VoxelPlane> {
    let places = map.everywhere() + map.local(key);
    Seq::new(places.len(), |i: int| map.all()[places[i] as int])
}

/// What comes of the points of a frame at a state: each is looked up among the planes
/// of its root voxel and the large ones.
pub open spec fn prior_matches<
    P: Fn(Double, Double) -> Double,
    T: Fn(Double, Double) -> Double,
    V: Fn(Double, Double) -> Double,
    R: Fn(Double) -> Double,
    X: Fn(Double) -> Double,
    N: Fn(usize) -> Double,
>(m: &PriorPlaneMeasurement, x: &State, tools: &PlaneTools<P, T, V, R, X, N>) -> Seq<PointMatch> {
    Seq::new(
        m.scan.points@.len(),
        |i: int|
            tools.point_match(
                prior_planes(
                    m.prior_map,
                    prior_voxel(m.scan.in_world(x, i, tools.op()), tools.divide),
                ),
                &m.scan,
                x,
                i,
                m.rule(),
            ),
    )
}

/// The mean of numbers: their sum over how many there are, or over one.
pub open spec fn mean_of<V: Fn(Double, Double) -> Double, N: Fn(usize) -> Double>(
    values: Seq<Double>,
    divide: V,
    number: N,
    op: Ring,
) -> Double {
    let n = values.len() as int;
    of_two(
        divide,
        summed(list_of(values), op, n),
        counted(
            number,
            if n == 0 {
                1
            } else {
                n as usize
            },
        ),
    )
}

/// The sizes of the distances of the first `n` points that have a residual.
pub open spec fn kept_distances(matches: Seq<PointMatch>, n: int) -> Seq<Double>
    decreases n,
{
    if n <= 0 {
        Seq::empty()
    } else {
        let rest = kept_distances(matches, n - 1);
        match matches[n - 1] {
            PointMatch::Residual(res) => rest.push(res.distance.spec_abs()),
            _ => rest,
        }
    }
}

/// The variances of the first `n` points that have a residual.
pub open spec fn kept_variances(matches: Seq<PointMatch>, n: int) -> Seq<Double>
    decreases n,
{
    if n <= 0 {
        Seq::empty()
    } else {
        let rest = kept_variances(matches, n - 1);
        match matches[n - 1] {
            PointMatch::Residual(res) => rest.push(res.variance),
            _ => rest,
        }
    }
}

/// Whether a record tells what became of points.
pub open spec fn told<V: Fn(Double, Double) -> Double, N: Fn(usize) -> Double>(
    d: PriorDiag,
    matches: Seq<PointMatch>,
    divide: V,
    number: N,
    op: Ring,
) -> bool {
    let n = matches.len() as int;
    &&& d.total == n
    &&& (d.no_plane as int, d.chi2_rejected as int, d.kept as int) == tally(matches, n)
    &&& d.residual_mean == mean_of(kept_distances(matches, n), divide, number, op)
    &&& d.sigma_mean == mean_of(kept_variances(matches, n), divide, number, op)
}

/// The mean of numbers.
fn average<
    P: Fn(Double, Double) -> Double,
    T: Fn(Double, Double) -> Double,
    V: Fn(Double, Double) -> Double,
    R: Fn(Double) -> Double,
    X: Fn(Double) -> Double,
    N: Fn(usize) -> Double,
>(values: &Vec<Double>, tools: &PlaneTools<P, T, V, R, X, N>) -> (r: Double)
    requires
        tools.wf(),
    ensures
        r == mean_of(values@, tools.divide, tools.number, tools.op()),
{
    let n: usize = values.len();
    let mut sum = Double::zero();
    let mut i: usize = 0;
    while i < n
        invariant
            i <= n,
            n == values@.len(),
            tools.wf(),
            sum == summed(list_of(values@), tools.op(), i as int),
        decreases n - i,
    {
        sum = apply_two(&tools.plus, sum, values[i]);
        i += 1;
    }
    let over: usize = if n == 0 {
        1
    } else {
        n
    };
    apply_two(&tools.divide, sum, apply_count(&tools.number, over))
}

/// Sizes of distances and variances of the points that have a residual.
fn kept_values(matches: &Vec<PointMatch>) -> (v: (Vec<Double>, Vec<Double>))
    ensures
        v.0@ == kept_distances(matches@, matches@.len() as int),
        v.1@ == kept_variances(matches@, matches@.len() as int),
{
    let mut distances: Vec<Double> = Vec::new();
    let mut sizes: Vec<Double> = Vec::new();
    let mut i: usize = 0;
    while i < matches.len()
        invariant
            i <= matches@.len(),
            distances@ == kept_distances(matches@, i as int),
            sizes@ == kept_variances(matches@, i as int),
        decreases matches@.len() - i,
    {
        match matches[i] {
            PointMatch::Residual(res) => {
                distances.push(res.distance.abs());
                sizes.push(res.variance);
            },
            _ => {},
        }
        i += 1;
    }
    (distances, sizes)
}

/// The measurement of a frame's points against planes that are known beforehand.
#[derive(Debug)]
pub struct PriorPlaneMeasurement<'a> {
    /// The planes.
    pub prior_map: &'a PriorPlaneMap,
    /// The points.
    pub scan: Scan,
    /// The options.
    pub opts: PriorOptions,
    /// What became of the points the last time.
    pub last_diag: PriorDiag,
}

impl<'a> PriorPlaneMeasurement<'a> {
    /// Whether the measurement is in order.
    pub open spec fn wf(&self) -> bool {
        &&& self.prior_map.wf()
        &&& self.scan.wf()
        &&& self.scan.points@.len() * DIM_STATE <= usize::MAX
    }

    /// How points are matched.
    pub open spec fn rule(&self) -> MatchRule {
        MatchRule {
            radius_k: self.opts.radius_k,
            sigma_num: self.opts.sigma_num,
            var_scale: self.opts.var_scale,
        }
    }

    /// A measurement of points against known planes.
    pub fn new(prior_map: &'a PriorPlaneMap, scan: Scan, opts: PriorOptions) -> (m:
        PriorPlaneMeasurement<'a>)
        requires
            scan.wf(),
        ensures
            *m.prior_map == *prior_map,
            m.scan == scan,
            m.opts == opts,
            call_ensures(<PriorDiag as Default>::default, (), m.last_diag),
    {
        PriorPlaneMeasurement { prior_map, scan, opts, last_diag: PriorDiag::default() }
    }

    /// The number of points.
    pub fn dim(&self) -> (n: usize)
        ensures
            n == self.scan.points@.len(),
    {
        self.scan.points.len()
    }

    /// What became of the points the last time.
    pub fn last_diag(&self) -> (d: PriorDiag)
        ensures
            d == self.last_diag,
    {
        self.last_diag
    }

    /// The residual system of the points at a state, and what became of them.
    pub fn build<
        P: Fn(Double, Double) -> Double,
        T: Fn(Double, Double) -> Double,
        V: Fn(Double, Double) -> Double,
        R: Fn(Double) -> Double,
        X: Fn(Double) -> Double,
        N: Fn(usize) -> Double,
    >(&mut self, x: &State, tools: &PlaneTools<P, T, V, R, X, N>) -> (rows: ResidualRows)
        requires
            old(self).wf(),
            tools.wf(),
        ensures
            rows_of_matches(&rows, prior_matches(old(self), x, tools)),
            *final(self) == (PriorPlaneMeasurement {
                last_diag: final(self).last_diag,
                ..*old(self)
            }),
            told(
                final(self).last_diag,
                prior_matches(old(self), x, tools),
                tools.divide,
                tools.number,
                tools.op(),
            ),
    {
        let ghost all = prior_matches(self, x, tools);
        let rule = MatchRule {
            radius_k: self.opts.radius_k,
            sigma_num: self.opts.sigma_num,
            var_scale: self.opts.var_scale,
        };
        let mut matches: Vec<PointMatch> = Vec::new();
        let mut i: usize = 0;
        while i < self.scan.points.len()
            invariant
                i <= self.scan.points@.len(),
                *self == *old(self),
                self.wf(),
                tools.wf(),
                rule == self.rule(),
                all == prior_matches(self, x, tools),
                matches@ == all.take(i as int),
            decreases self.scan.points@.len() - i,
        {
            let at = self.scan.place(x, i, &tools.plus, &tools.times);
            let key = VoxelKey::from_point(
                &at.world,
                Double { bits: ROOT_SIZE },
                &tools.divide,
            );
            let planes = self.prior_map.planes_in(&key);
            assert(plane_list(planes@) =~= prior_planes(self.prior_map, key));
            let m = tools.match_placed(&planes, &at, x, rule);
            matches.push(m);
            assert(matches@ =~= all.take(i + 1));
            i += 1;
        }
        assert(matches@ =~= all);
        let counts = count_matches(&matches);
        let (distances, sizes) = kept_values(&matches);
        self.last_diag = PriorDiag {
            total: counts.total,
            no_plane: counts.no_plane,
            chi2_rejected: counts.chi2_rejected,
            kept: counts.kept,
            residual_mean: average(&distances, tools),
            sigma_mean: average(&sizes, tools),
        };
        build_rows(&matches)
    }

    /// How many points count.
    pub fn effective_count<
        P: Fn(Double, Double) -> Double,
        T: Fn(Double, Double) -> Double,
        V: Fn(Double, Double) -> Double,
        R: Fn(Double) -> Double,
        X: Fn(Double) -> Double,
        N: Fn(usize) -> Double,
    >(&mut self, x: &State, tools: &PlaneTools<P, T, V, R, X, N>) -> (n: usize)
        requires
            old(self).wf(),
            tools.wf(),
        ensures
            n == effective(
                variances(prior_matches(old(self), x, tools)),
                old(self).scan.points@.len() as int,
            ),
            *final(self) == (PriorPlaneMeasurement {
                last_diag: final(self).last_diag,
                ..*old(self)
            }),
            told(
                final(self).last_diag,
                prior_matches(old(self), x, tools),
                tools.divide,
                tools.number,
                tools.op(),
            ),
    {
        let rows = self.build(x, tools);
        assert(rows.r@ =~= variances(prior_matches(old(self), x, tools)));
        effective_count(&rows.r)
    }
}

} // verus!
