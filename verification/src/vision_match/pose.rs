//! The decisions of a pose solution from matched landmarks.
//!
//! All pairs are tried first. A solution is published if it lies near the prior
//! pose, or if there is none. Otherwise the pairs that the prior explains are
//! tried on their own.

use vstd::prelude::*;

use crate::double::Double;
use crate::matrix::Matrix;

verus! {

/// The largest distance (m) between a solution and the prior: 3.
pub const PRIOR_MAX_TRANS: u64 = 0x4008_0000_0000_0000;

/// The largest angle between a solution and the prior: fifteen degrees.
pub const PRIOR_MAX_ROT: u64 = 0x3FD0_C152_382D_7365;

/// The largest distance (pixels) between a match and the prior's projection for
/// the match to be tried again: 64.
pub const PRIOR_SUBSET_PX: u64 = 0x4050_0000_0000_0000;

/// The fewest matches that are tried again.
pub const SUBSET_MIN_PAIRS: usize = 12;

/// The fewest matches that determine a pose.
pub const MIN_PAIRS: usize = 6;

/// The intrinsics of a pinhole camera.
#[derive(Clone, Copy, Debug, PartialEq, Eq, Structural)]
pub struct CameraIntrinsics {
    /// The focal length (pixels).
    pub focal: Double,
    /// The first coordinate of the principal point (pixels).
    pub cx: Double,
    /// The second coordinate of the principal point (pixels).
    pub cy: Double,
}

/// A pose that was found.
#[derive(Debug)]
pub struct VisualPose {
    /// The pose as a homogeneous matrix.
    pub t_global: Matrix,
    /// The matches that agree with it.
    pub num_inliers: usize,
    /// All matches.
    pub total: usize,
    /// The mean distance (pixels) of the agreeing matches to their projections.
    pub mean_reproj_px: Double,
}

/// Why there is no answer.
#[derive(Clone, Copy, Debug, PartialEq, Eq, Structural)]
pub enum PoseError {
    /// There are not as many pixels as landmarks.
    Mismatch(usize, usize),
    /// There are too few matches.
    TooFew(usize),
    /// The solver failed.
    Solver,
}

/// A solution that some matches agree on.
#[derive(Debug)]
pub struct Fit {
    /// The pose as a homogeneous matrix.
    pub t_global: Matrix,
    /// How many matches agree with it.
    pub num_inliers: usize,
    /// The mean distance (pixels) of the agreeing matches to their projections.
    pub mean_reproj_px: Double,
    /// Distance and angle to the prior, where there is one.
    pub to_prior: Option<(Double, Double)>,
}

/// What follows the try with all matches.
#[derive(Debug)]
pub enum FullStep {
    /// The solution is published.
    Publish(VisualPose),
    /// The matches that the prior explains are tried.
    TrySubset,
    /// Nothing is published.
    Reject,
}

/// Whether matches can be tried: as many pixels as landmarks, and at least six.
pub fn check_pairs(points_2d: usize, points_3d: usize) -> (res: Result<(), PoseError>)
    ensures
        res == (if points_2d != points_3d {
            Err(PoseError::Mismatch(points_2d, points_3d))
        } else if points_2d < MIN_PAIRS {
            Err(PoseError::TooFew(points_2d))
        } else {
            Ok(())
        }),
{
    if points_2d != points_3d {
        return Err(PoseError::Mismatch(points_2d, points_3d));
    }
    if points_2d < MIN_PAIRS {
        return Err(PoseError::TooFew(points_2d));
    }
    Ok(())
}

/// Whether a distance and an angle to the prior are within limits.
pub open spec fn near_prior(distance: Double, angle: Double) -> bool {
    distance.spec_le(Double { bits: PRIOR_MAX_TRANS }) && angle.spec_le(
        Double { bits: PRIOR_MAX_ROT },
    )
}

/// Whether a solution at a distance and an angle from the prior is believed.
pub fn passes_prior_gate(distance: Double, angle: Double) -> (pass: bool)
    ensures
        pass == near_prior(distance, angle),
{
    distance.le(Double { bits: PRIOR_MAX_TRANS }) && angle.le(Double { bits: PRIOR_MAX_ROT })
}

impl Fit {
    /// Whether the solution is believed: always without a prior.
    pub open spec fn believed(&self) -> bool {
        match self.to_prior {
            Some((distance, angle)) => near_prior(distance, angle),
            None => true,
        }
    }

    /// Whether a published pose is this solution.
    pub open spec fn published(&self, pose: &VisualPose, total: usize) -> bool {
        &&& pose.t_global == self.t_global
        &&& pose.num_inliers == self.num_inliers
        &&& pose.mean_reproj_px == self.mean_reproj_px
        &&& pose.total == total
    }
}

/// Judges the solution from all matches; there may be none.
pub fn judge_full(fit: Option<Fit>, has_prior: bool, total: usize) -> (step: FullStep)
    ensures
        match step {
            FullStep::Publish(pose) => fit is Some && fit->0.believed() && fit->0.published(
                &pose,
                total,
            ),
            FullStep::TrySubset => has_prior && !(fit is Some && fit->0.believed()),
            FullStep::Reject => !has_prior && !(fit is Some && fit->0.believed()),
        },
{
    if let Some(f) = fit {
        let ok = match f.to_prior {
            Some((distance, angle)) => passes_prior_gate(distance, angle),
            None => true,
        };
        if ok {
            return FullStep::Publish(
                VisualPose {
                    t_global: f.t_global,
                    num_inliers: f.num_inliers,
                    total,
                    mean_reproj_px: f.mean_reproj_px,
                },
            );
        }
    }
    if has_prior {
        FullStep::TrySubset
    } else {
        FullStep::Reject
    }
}

/// Whether the prior explains a match: its projection is there and near.
pub open spec fn explained(error: Option<Double>) -> bool {
    match error {
        Some(e) => e.spec_le(Double { bits: PRIOR_SUBSET_PX }),
        None => false,
    }
}

/// The first `n` matches that the prior explains.
pub open spec fn explained_pairs(errors: Seq<Option<Double>>, n: int) -> Seq<usize>
    decreases n,
{
    if n <= 0 {
        seq![]
    } else if explained(errors[n - 1]) {
        explained_pairs(errors, n - 1).push((n - 1) as usize)
    } else {
        explained_pairs(errors, n - 1)
    }
}

/// The matches that the prior explains, unless these are all of them or fewer
/// than twelve. `errors` are the distances to the prior's projections.
pub fn prior_subset(errors: &Vec<Option<Double>>) -> (subset: Option<Vec<usize>>)
    ensures
        ({
            let all = explained_pairs(errors@, errors@.len() as int);
            match subset {
                Some(s) => s@ == all && all.len() != errors@.len() && all.len() >= SUBSET_MIN_PAIRS,
                None => all.len() == errors@.len() || all.len() < SUBSET_MIN_PAIRS,
            }
        }),
{
    let mut list: Vec<usize> = Vec::new();
    let mut i: usize = 0;
    while i < errors.len()
        invariant
            i <= errors@.len(),
            list@ == explained_pairs(errors@, i as int),
        decreases errors@.len() - i,
    {
        let keep = match errors[i] {
            Some(e) => e.le(Double { bits: PRIOR_SUBSET_PX }),
            None => false,
        };
        if keep {
            list.push(i);
        }
        i += 1;
    }
    if list.len() == errors.len() || list.len() < SUBSET_MIN_PAIRS {
        return None;
    }
    Some(list)
}

/// Judges the solution from the matches that the prior explains; `total` counts
/// all matches.
pub fn solve_subset(fit: Option<Fit>, total: usize) -> (pose: Option<VisualPose>)
    ensures
        match pose {
            Some(p) => fit is Some && fit->0.believed() && fit->0.published(&p, total),
            None => !(fit is Some && fit->0.believed()),
        },
{
    match judge_full(fit, false, total) {
        FullStep::Publish(pose) => Some(pose),
        _ => None,
    }
}

/// Whether a try came to a solution: the solver says so, and some match agrees.
pub fn has_consensus(solved: bool, inliers: &Vec<i32>) -> (yes: bool)
    ensures
        yes == (solved && inliers@.len() > 0),
{
    solved && inliers.len() > 0
}

/// The listed places among the first `n` that are in range.
pub open spec fn places(inliers: Seq<i32>, total: int, n: int) -> Seq<usize>
    decreases n,
{
    if n <= 0 {
        seq![]
    } else if 0 <= inliers[n - 1] < total {
        places(inliers, total, n - 1).push(inliers[n - 1] as usize)
    } else {
        places(inliers, total, n - 1)
    }
}

/// The agreeing matches from which a solution is refined, if there are at least
/// six; places out of range do not count.
pub fn refine_with_inliers(inliers: &Vec<i32>, total: usize) -> (list: Option<Vec<usize>>)
    ensures
        ({
            let all = places(inliers@, total as int, inliers@.len() as int);
            match list {
                Some(l) => l@ == all && all.len() >= MIN_PAIRS,
                None => all.len() < MIN_PAIRS,
            }
        }),
{
    let list = inlier_places(inliers, total);
    if list.len() < MIN_PAIRS {
        None
    } else {
        Some(list)
    }
}

/// The agreeing matches that are in range.
pub fn inlier_places(inliers: &Vec<i32>, total: usize) -> (list: Vec<usize>)
    ensures
        list@ == places(inliers@, total as int, inliers@.len() as int),
{
    let mut list: Vec<usize> = Vec::new();
    let mut i: usize = 0;
    while i < inliers.len()
        invariant
            i <= inliers@.len(),
            list@ == places(inliers@, total as int, i as int),
        decreases inliers@.len() - i,
    {
        let k: i32 = inliers[i];
        if k >= 0 && (k as usize) < total {
            list.push(k as usize);
        }
        i += 1;
    }
    list
}

/// The bits of entry `(i, j)` of the flip between cameras that look along their
/// third axis and cameras that look against it.
pub open spec fn flip_bits(i: int, j: int) -> u64 {
    if i != j {
        0
    } else if i == 1 || i == 2 {
        crate::double::MINUS_ONE_BITS
    } else {
        crate::double::ONE_BITS
    }
}

/// The flip between cameras that look along their third axis and cameras that
/// look against it.
pub fn axis_flip() -> (m: Matrix)
    ensures
        m.shaped(4, 4),
        forall|i: int, j: int|
            m.has(i, j) ==> #[trigger] m.at(i, j) == (Double { bits: flip_bits(i, j) }),
{
    let mut m = Matrix::filled(4, 4, Double::zero());
    m.set(0, 0, Double::one());
    m.set(1, 1, Double::minus_one());
    m.set(2, 2, Double::minus_one());
    m.set(3, 3, Double::one());
    m
}

/// The camera matrix of the intrinsics.
pub fn camera_matrix(intrinsics: CameraIntrinsics) -> (m: Matrix)
    ensures
        m.shaped(3, 3),
        forall|i: int, j: int|
            m.has(i, j) ==> #[trigger] m.at(i, j) == (if i == j && i < 2 {
                intrinsics.focal
            } else if i == 0 && j == 2 {
                intrinsics.cx
            } else if i == 1 && j == 2 {
                intrinsics.cy
            } else if i == 2 && j == 2 {
                Double { bits: crate::double::ONE_BITS }
            } else {
                Double { bits: 0 }
            }),
{
    let mut m = Matrix::filled(3, 3, Double::zero());
    m.set(0, 0, intrinsics.focal);
    m.set(0, 2, intrinsics.cx);
    m.set(1, 1, intrinsics.focal);
    m.set(1, 2, intrinsics.cy);
    m.set(2, 2, Double::one());
    m
}

/// The covariance of a pose: diagonal, rotation before translation.
pub fn pose_covariance(rot_var: Double, pos_var: Double) -> (m: Matrix)
    ensures
        m.shaped(6, 6),
        forall|i: int, j: int|
            m.has(i, j) ==> #[trigger] m.at(i, j) == (if i != j {
                Double { bits: 0 }
            } else if i < 3 {
                rot_var
            } else {
                pos_var
            }),
{
    let mut m = Matrix::filled(6, 6, Double::zero());
    let mut k: usize = 0;
    while k < 6
        invariant
            k <= 6,
            m.shaped(6, 6),
            forall|i: int, j: int|
                m.has(i, j) ==> #[trigger] m.at(i, j) == (if i != j || i >= k {
                    Double { bits: 0 }
                } else if i < 3 {
                    rot_var
                } else {
                    pos_var
                }),
        decreases 6 - k,
    {
        m.set(
            k,
            k,
            if k < 3 {
                rot_var
            } else {
                pos_var
            },
        );
        k += 1;
    }
    m
}

/// What a try came to.
#[derive(Debug)]
pub enum Attempt {
    /// The solver failed.
    Failed,
    /// No solution has matches that agree.
    NoConsensus,
    /// A solution.
    Found(Fit),
}

/// What a solver found: whether it says so, the places of the matches that agree,
/// among those that it was given, and the solution.
#[derive(Debug)]
pub struct Consensus<X> {
    /// Whether the solver came to a solution.
    pub solved: bool,
    /// The matches that agree, by their places among those that were given.
    pub inliers: Vec<i32>,
    /// The solution.
    pub pose: X,
}

/// Whether listed matches can be solved, always with the same outcome; each match
/// agrees at most once. There is no outcome where the solver fails.
pub open spec fn solves<X, S: Fn(&Vec<usize>) -> Option<Consensus<X>>>(solve: S) -> bool {
    &&& forall|v: &Vec<usize>| #[trigger] call_requires(solve, (v,))
    &&& forall|v: &Vec<usize>, w: &Vec<usize>, a: Option<Consensus<X>>, b: Option<Consensus<X>>|
        #[trigger] call_ensures(solve, (v,), a) && #[trigger] call_ensures(solve, (w,), b) && v@
            == w@ ==> a == b
    &&& forall|v: &Vec<usize>, a: Option<Consensus<X>>| #[trigger]
        call_ensures(solve, (v,), a) ==> (a matches Some(c) ==> c.inliers@.len() <= v@.len())
}

/// Whether solving the listed matches has the outcome.
pub open spec fn solved_as<X, S: Fn(&Vec<usize>) -> Option<Consensus<X>>>(
    solve: S,
    places: Seq<usize>,
    a: Option<Consensus<X>>,
) -> bool {
    exists|v: &Vec<usize>| v@ == places && #[trigger] call_ensures(solve, (v,), a)
}

/// The outcome of solving the listed matches.
pub open spec fn solved<X, S: Fn(&Vec<usize>) -> Option<Consensus<X>>>(
    solve: S,
    places: Seq<usize>,
) -> Option<Consensus<X>> {
    choose|a: Option<Consensus<X>>| solved_as(solve, places, a)
}

/// The listed ones of some matches.
pub open spec fn picked(places: Seq<usize>, list: Seq<usize>) -> Seq<usize> {
    Seq::new(list.len(), |i: int| places[list[i] as int])
}

/// The solution that agreeing matches of some make of a consensus: none without
/// consensus, else what the agreeing matches refine it to, or itself where they are
/// too few or do not refine it.
pub open spec fn solution<X, F: Fn(&Vec<usize>) -> Option<X>>(
    c: Consensus<X>,
    given: Seq<usize>,
    refine: F,
) -> Option<X> {
    let list = places(c.inliers@, given.len() as int, c.inliers@.len() as int);
    if !c.solved || c.inliers@.len() == 0 {
        None
    } else if list.len() < MIN_PAIRS {
        Some(c.pose)
    } else {
        match refined(refine, picked(given, list)) {
            Some(x) => Some(x),
            None => Some(c.pose),
        }
    }
}

/// How a solution lies to the matches that agree with it and to the prior.
#[derive(Debug)]
pub struct Gauge {
    /// The pose as a homogeneous matrix.
    pub t_global: Matrix,
    /// The mean distance (pixels) of the agreeing matches to their projections.
    pub mean_reproj_px: Double,
    /// Distance and angle to the prior, where there is one.
    pub to_prior: Option<(Double, Double)>,
}

/// Whether solutions can be gauged, always in the same way, and to the prior where
/// there is one.
pub open spec fn gauges<X, G: Fn(X, &Vec<usize>) -> Gauge>(gauge: G, has_prior: bool) -> bool {
    &&& forall|x: X, v: &Vec<usize>| #[trigger] call_requires(gauge, (x, v))
    &&& forall|x: X, v: &Vec<usize>, w: &Vec<usize>, a: Gauge, b: Gauge| #[trigger]
        call_ensures(gauge, (x, v), a) && #[trigger] call_ensures(gauge, (x, w), b) && v@ == w@
            ==> a == b
    &&& forall|x: X, v: &Vec<usize>, a: Gauge| #[trigger]
        call_ensures(gauge, (x, v), a) ==> (a.to_prior is Some <==> has_prior)
}

/// Whether gauging a solution by the listed matches has the outcome.
pub open spec fn gauged_as<X, G: Fn(X, &Vec<usize>) -> Gauge>(
    gauge: G,
    x: X,
    list: Seq<usize>,
    a: Gauge,
) -> bool {
    exists|v: &Vec<usize>| v@ == list && #[trigger] call_ensures(gauge, (x, v), a)
}

/// A solution gauged by the listed matches.
pub open spec fn gauged<X, G: Fn(X, &Vec<usize>) -> Gauge>(gauge: G, x: X, list: Seq<usize>) -> Gauge {
    choose|a: Gauge| gauged_as(gauge, x, list, a)
}

/// What trying the listed matches comes to: the solver's consensus, refined and
/// gauged by the matches that agree.
pub open spec fn tried<
    X,
    S: Fn(&Vec<usize>) -> Option<Consensus<X>>,
    F: Fn(&Vec<usize>) -> Option<X>,
    G: Fn(X, &Vec<usize>) -> Gauge,
>(solve: S, refine: F, gauge: G, given: Seq<usize>) -> Attempt {
    match solved(solve, given) {
        None => Attempt::Failed,
        Some(c) => match solution(c, given, refine) {
            None => Attempt::NoConsensus,
            Some(x) => {
                let list = places(c.inliers@, given.len() as int, c.inliers@.len() as int);
                let g = gauged(gauge, x, picked(given, list));
                Attempt::Found(
                    Fit {
                        t_global: g.t_global,
                        num_inliers: c.inliers.len(),
                        mean_reproj_px: g.mean_reproj_px,
                        to_prior: g.to_prior,
                    },
                )
            },
        },
    }
}

/// Whether distances to the prior's projections can be told, always the same.
pub open spec fn projects<E: Fn(usize) -> Option<Double>>(error: E) -> bool {
    &&& forall|i: usize| #[trigger] call_requires(error, (i,))
    &&& forall|i: usize, a: Option<Double>, b: Option<Double>| #[trigger]
        call_ensures(error, (i,), a) && #[trigger] call_ensures(error, (i,), b) ==> a == b
}

/// The distance of a match to the prior's projection.
pub open spec fn prior_error<E: Fn(usize) -> Option<Double>>(error: E, i: usize) -> Option<Double> {
    choose|r: Option<Double>| call_ensures(error, (i,), r)
}

/// The distances of the first `n` matches to the prior's projections.
pub open spec fn prior_errors<E: Fn(usize) -> Option<Double>>(error: E, n: int) -> Seq<
    Option<Double>,
> {
    Seq::new(n as nat, |i: int| prior_error(error, i as usize))
}

/// All places of a list of `n` matches.
pub open spec fn all_places(n: int) -> Seq<usize> {
    Seq::new(n as nat, |i: int| i as usize)
}

/// Whether an answer publishes a try, if it found a solution that is believed,
/// and else is nothing; a solver that failed is an error.
pub open spec fn answers(
    res: Result<Option<VisualPose>, PoseError>,
    a: Attempt,
    total: usize,
) -> bool {
    match a {
        Attempt::Failed => res == Err::<Option<VisualPose>, PoseError>(PoseError::Solver),
        Attempt::Found(fit) => if fit.believed() {
            res matches Ok(Some(pose)) && fit.published(&pose, total)
        } else {
            res == Ok::<Option<VisualPose>, PoseError>(None)
        },
        Attempt::NoConsensus => res == Ok::<Option<VisualPose>, PoseError>(None),
    }
}

/// The places that are in range are places.
proof fn lemma_places(inliers: Seq<i32>, total: int, n: int)
    requires
        0 <= n <= inliers.len(),
    ensures
        forall|k: int|
            0 <= k < places(inliers, total, n).len() ==> #[trigger] places(inliers, total, n)[k]
                < total,
    decreases n,
{
    if n > 0 {
        lemma_places(inliers, total, n - 1);
        let less = places(inliers, total, n - 1);
        let all = places(inliers, total, n);
        assert forall|k: int| 0 <= k < all.len() implies #[trigger] all[k] < total by {
            if k < less.len() {
                assert(all[k] == less[k]);
            }
        }
    }
}

/// The listed ones of some matches.
fn pick(given: &Vec<usize>, list: &Vec<usize>) -> (out: Vec<usize>)
    requires
        forall|k: int| 0 <= k < list@.len() ==> #[trigger] list@[k] < given@.len(),
    ensures
        out@ == picked(given@, list@),
{
    let mut out: Vec<usize> = Vec::new();
    let mut i: usize = 0;
    while i < list.len()
        invariant
            i <= list@.len(),
            forall|k: int| 0 <= k < list@.len() ==> #[trigger] list@[k] < given@.len(),
            out@.len() == i,
            forall|k: int| 0 <= k < i ==> #[trigger] out@[k] == picked(given@, list@)[k],
        decreases list@.len() - i,
    {
        assert(list@[i as int] < given@.len());
        out.push(given[list[i]]);
        i += 1;
    }
    assert(out@ =~= picked(given@, list@));
    out
}

/// Tries the listed matches.
fn attempt<
    X: Copy,
    S: Fn(&Vec<usize>) -> Option<Consensus<X>>,
    F: Fn(&Vec<usize>) -> Option<X>,
    G: Fn(X, &Vec<usize>) -> Gauge,
>(solve: &S, refine: &F, gauge: &G, given: &Vec<usize>, has_prior: bool) -> (a: Attempt)
    requires
        solves(*solve),
        refines(*refine),
        gauges(*gauge, has_prior),
    ensures
        a == tried(*solve, *refine, *gauge, given@),
        a matches Attempt::Found(fit) ==> (fit.to_prior is Some <==> has_prior) && 1
            <= fit.num_inliers <= given@.len(),
{
    let found = solve(given);
    proof {
        assert(call_ensures(*solve, (given,), found));
        assert(solved_as(*solve, given@, found));
        assert(solved_as(*solve, given@, solved(*solve, given@)));
    }
    let c = match found {
        None => {
            return Attempt::Failed;
        },
        Some(c) => c,
    };
    let x = match ransac_pose(&c, given, refine) {
        None => {
            return Attempt::NoConsensus;
        },
        Some(x) => x,
    };
    let list = inlier_places(&c.inliers, given.len());
    proof {
        lemma_places(c.inliers@, given@.len() as int, c.inliers@.len() as int);
    }
    let near = pick(given, &list);
    let g = gauge(x, &near);
    proof {
        assert(call_ensures(*gauge, (x, &near), g));
        assert(gauged_as(*gauge, x, near@, g));
        assert(gauged_as(*gauge, x, near@, gauged(*gauge, x, near@)));
    }
    Attempt::Found(
        Fit {
            t_global: g.t_global,
            num_inliers: c.inliers.len(),
            mean_reproj_px: g.mean_reproj_px,
            to_prior: g.to_prior,
        },
    )
}

/// The pose of a camera from `points_2d` pixels and `points_3d` landmarks that
/// were matched. All matches are tried; if that gives nothing that is believed and
/// there is a prior, the matches that the prior explains are tried.
pub fn solve_visual_pose<
    X: Copy,
    S: Fn(&Vec<usize>) -> Option<Consensus<X>>,
    F: Fn(&Vec<usize>) -> Option<X>,
    G: Fn(X, &Vec<usize>) -> Gauge,
    E: Fn(usize) -> Option<Double>,
>(
    points_2d: usize,
    points_3d: usize,
    has_prior: bool,
    solve: &S,
    refine: &F,
    gauge: &G,
    error: &E,
) -> (res: Result<Option<VisualPose>, PoseError>)
    requires
        solves(*solve),
        refines(*refine),
        gauges(*gauge, has_prior),
        projects(*error),
    ensures
        res matches Ok(Some(v)) ==> v.total == points_2d && 1 <= v.num_inliers <= v.total,
        ({
            let n = points_2d as int;
            let full = tried(*solve, *refine, *gauge, all_places(n));
            let found = full is Found && full->Found_0.believed();
            let near = explained_pairs(prior_errors(*error, n), n);
            if points_2d != points_3d {
                res == Err::<Option<VisualPose>, PoseError>(
                    PoseError::Mismatch(points_2d, points_3d),
                )
            } else if points_2d < MIN_PAIRS {
                res == Err::<Option<VisualPose>, PoseError>(PoseError::TooFew(points_2d))
            } else if full is Failed || found || !has_prior {
                answers(res, full, points_2d)
            } else if near.len() == n || near.len() < SUBSET_MIN_PAIRS {
                res == Ok::<Option<VisualPose>, PoseError>(None)
            } else {
                answers(res, tried(*solve, *refine, *gauge, near), points_2d)
            }
        }),
{
    match check_pairs(points_2d, points_3d) {
        Err(e) => {
            return Err(e);
        },
        Ok(_) => {},
    }
    let n: usize = points_2d;
    let mut places: Vec<usize> = Vec::new();
    let mut errors: Vec<Option<Double>> = Vec::new();
    let mut i: usize = 0;
    while i < n
        invariant
            i <= n,
            projects(*error),
            places@ == all_places(i as int),
            errors@ == prior_errors(*error, i as int),
        decreases n - i,
    {
        let e = error(i);
        assert(call_ensures(*error, (i,), e));
        assert(call_ensures(*error, (i,), prior_error(*error, i)));
        places.push(i);
        errors.push(e);
        i += 1;
        assert(places@ =~= all_places(i as int));
        assert(errors@ =~= prior_errors(*error, i as int));
    }
    let fit = match attempt(solve, refine, gauge, &places, has_prior) {
        Attempt::Failed => {
            return Err(PoseError::Solver);
        },
        Attempt::NoConsensus => None,
        Attempt::Found(fit) => Some(fit),
    };
    match judge_full(fit, has_prior, n) {
        FullStep::Publish(pose) => {
            return Ok(Some(pose));
        },
        FullStep::Reject => {
            return Ok(None);
        },
        FullStep::TrySubset => {},
    }
    let subset = match prior_subset(&errors) {
        Some(s) => s,
        None => {
            return Ok(None);
        },
    };
    proof {
        law_subset_is_explained(errors@, errors@.len() as int);
    }
    let fit = match attempt(solve, refine, gauge, &subset, has_prior) {
        Attempt::Failed => {
            return Err(PoseError::Solver);
        },
        Attempt::NoConsensus => None,
        Attempt::Found(fit) => Some(fit),
    };
    Ok(solve_subset(fit, n))
}

/// Whether a solution can be refined, always in the same way.
pub open spec fn refines<X, F: Fn(&Vec<usize>) -> Option<X>>(refine: F) -> bool {
    &&& forall|v: &Vec<usize>| #[trigger] call_requires(refine, (v,))
    &&& forall|v: &Vec<usize>, w: &Vec<usize>, a: Option<X>, b: Option<X>| #[trigger]
        call_ensures(refine, (v,), a) && #[trigger] call_ensures(refine, (w,), b) && v@ == w@ ==> a
            == b
}

/// Whether refining from the listed matches gives the result.
pub open spec fn refined_as<X, F: Fn(&Vec<usize>) -> Option<X>>(
    refine: F,
    list: Seq<usize>,
    a: Option<X>,
) -> bool {
    exists|v: &Vec<usize>| v@ == list && #[trigger] call_ensures(refine, (v,), a)
}

/// The refinement from the listed matches, if there is one.
pub open spec fn refined<X, F: Fn(&Vec<usize>) -> Option<X>>(refine: F, list: Seq<usize>) -> Option<
    X,
> {
    choose|a: Option<X>| refined_as(refine, list, a)
}

/// The solution of a try: none without matches that agree, else what they refine
/// it to, or the solution itself where they are too few or do not refine it.
pub fn ransac_pose<X: Copy, F: Fn(&Vec<usize>) -> Option<X>>(
    c: &Consensus<X>,
    given: &Vec<usize>,
    refine: &F,
) -> (pose: Option<X>)
    requires
        refines(*refine),
    ensures
        pose == solution(*c, given@, *refine),
{
    if !has_consensus(c.solved, &c.inliers) {
        return None;
    }
    match refine_with_inliers(&c.inliers, given.len()) {
        None => Some(c.pose),
        Some(list) => {
            proof {
                lemma_places(c.inliers@, given@.len() as int, c.inliers@.len() as int);
            }
            let near = pick(given, &list);
            let better = refine(&near);
            proof {
                assert(call_ensures(*refine, (&near,), better));
                assert(refined_as(*refine, near@, better));
                assert(refined_as(*refine, near@, refined(*refine, near@)));
            }
            match better {
                Some(x) => Some(x),
                None => Some(c.pose),
            }
        },
    }
}

/// With a prior, nothing is published that is farther from it than three metres
/// or fifteen degrees.
pub proof fn law_published_poses_are_near_the_prior(fit: Fit, distance: Double, angle: Double)
    requires
        fit.to_prior == Some((distance, angle)),
        fit.believed(),
    ensures
        distance.spec_le(Double { bits: PRIOR_MAX_TRANS }),
        angle.spec_le(Double { bits: PRIOR_MAX_ROT }),
{
}

/// The matches of a second try are among all, and the prior explains each.
pub proof fn law_subset_is_explained(errors: Seq<Option<Double>>, n: int)
    requires
        0 <= n <= errors.len() <= usize::MAX,
    ensures
        explained_pairs(errors, n).len() <= n,
        forall|k: int|
            0 <= k < explained_pairs(errors, n).len() ==> #[trigger] explained_pairs(errors, n)[k]
                < n && explained(errors[explained_pairs(errors, n)[k] as int]),
    decreases n,
{
    if n > 0 {
        law_subset_is_explained(errors, n - 1);
        let rest = explained_pairs(errors, n - 1);
        let all = explained_pairs(errors, n);
        assert forall|k: int| 0 <= k < all.len() implies #[trigger] all[k] < n && explained(
            errors[all[k] as int],
        ) by {
            if k < rest.len() {
                assert(all[k] == rest[k]);
            }
        }
    }
}

} // verus!
