//! Visual map points: which patches a point keeps, and which one is its
//! reference.

use vstd::prelude::*;

use crate::arith::{
    apply_count, apply_two, binary, counted, counts, of_two, unary,
};
use crate::double::{Double, NEG_INFINITY_BITS, ONE_BITS};
use crate::matrix::Matrix;
use crate::void_map::image_patch::{likeness, PatchPyramid};
use crate::void_map::options::VoxelMapOptions;

verus! {

/// A patch of a point, and where it was seen from.
#[derive(Clone, Debug)]
pub struct PatchObservation {
    /// The frame's number.
    pub frame_id: u32,
    /// The pose of the camera: unit quaternion, real part last, and translation.
    pub pose: [Double; 7],
    /// The inverse exposure time.
    pub inv_expo_time: Double,
    /// The patch.
    pub patch: PatchPyramid,
    /// The pixel in the middle of the patch.
    pub px: [Double; 2],
    /// The score among the point's patches.
    pub score: Double,
    /// The mean grey value.
    pub mean: Double,
}

impl PatchObservation {
    /// A patch that was just taken; a mean that is not finite counts as zero.
    pub fn new(
        frame_id: u32,
        pose: [Double; 7],
        inv_expo_time: Double,
        px: [Double; 2],
        patch: PatchPyramid,
        mean: Double,
    ) -> (o: PatchObservation)
        ensures
            o == (PatchObservation {
                frame_id,
                pose,
                inv_expo_time,
                patch,
                px,
                score: Double { bits: 0 },
                mean: if mean.spec_is_finite() {
                    mean
                } else {
                    Double { bits: 0 }
                },
            }),
    {
        let mean = if mean.is_finite() {
            mean
        } else {
            Double::zero()
        };
        PatchObservation { frame_id, pose, inv_expo_time, patch, px, score: Double::zero(), mean }
    }
}

/// A visual map point.
#[derive(Clone, Debug)]
pub struct VisualPoint {
    /// The position (m).
    pub pos: [Double; 3],
    /// The normal of its plane.
    pub normal: [Double; 3],
    /// The information of the normal, three by three.
    pub normal_information: Matrix,
    /// The normal before the last update.
    pub previous_normal: [Double; 3],
    /// The covariance of the position, three by three.
    pub covariance: Matrix,
    /// The patches.
    pub obs: Vec<PatchObservation>,
    /// The place of the reference patch.
    pub ref_patch: Option<usize>,
    /// Whether there is a normal.
    pub normal_initialized: bool,
    /// Whether normal and reference are settled.
    pub converged: bool,
    /// Whether the plane was mature.
    pub from_mature_plane: bool,
}

/// The place of the lowest score among the first `n` patches; the first of equal ones.
pub open spec fn lowest(obs: Seq<PatchObservation>, n: int) -> int
    decreases n,
{
    if n <= 1 {
        0
    } else {
        let rest = lowest(obs, n - 1);
        if obs[n - 1].score.spec_lt(obs[rest].score) {
            n - 1
        } else {
            rest
        }
    }
}

/// The place of the highest among the first `n` scores, and the score: the first
/// of equal ones, and only one above minus infinity counts.
pub open spec fn highest(scores: Seq<Double>, n: int) -> (int, Double)
    decreases n,
{
    if n <= 0 {
        (0, Double { bits: NEG_INFINITY_BITS })
    } else {
        let rest = highest(scores, n - 1);
        if rest.1.spec_lt(scores[n - 1]) {
            (n - 1, scores[n - 1])
        } else {
            rest
        }
    }
}

/// A patch with a score.
pub open spec fn scored(o: PatchObservation, score: Double) -> PatchObservation {
    PatchObservation { score, ..o }
}

/// Whether `after` is `before` with its patches scored and the one with the
/// highest score as its reference.
pub open spec fn rescored(before: VisualPoint, after: VisualPoint, scores: Seq<Double>) -> bool {
    &&& after == (VisualPoint { obs: after.obs, ref_patch: after.ref_patch, ..before })
    &&& after.obs@.len() == before.obs@.len()
    &&& forall|i: int|
        0 <= i < scores.len() ==> #[trigger] after.obs@[i] == scored(before.obs@[i], scores[i])
    &&& after.ref_patch is Some
    &&& after.ref_patch->0 == highest(scores, scores.len() as int).0
}

/// How well patch `i` agrees with the first `n` others, added up.
pub open spec fn agreement<
    N: Fn(usize) -> Double,
    P: Fn(Double, Double) -> Double,
    T: Fn(Double, Double) -> Double,
    V: Fn(Double, Double) -> Double,
    R: Fn(Double) -> Double,
>(
    obs: Seq<PatchObservation>,
    i: int,
    n: int,
    number: N,
    plus: P,
    times: T,
    divide: V,
    root: R,
) -> Double
    decreases n,
{
    if n <= 0 {
        Double { bits: 0 }
    } else {
        let rest = agreement(obs, i, n - 1, number, plus, times, divide, root);
        if n - 1 == i {
            rest
        } else {
            of_two(
                plus,
                rest,
                likeness(
                    obs[i].patch.levels@[0]@,
                    obs[n - 1].patch.levels@[0]@,
                    number,
                    plus,
                    times,
                    divide,
                    root,
                ),
            )
        }
    }
}

/// The score of patch `i`: its mean agreement with the others and the cosine of
/// its view, weighed by `weight`.
pub open spec fn score_of<
    C: Fn(usize) -> Double,
    N: Fn(usize) -> Double,
    P: Fn(Double, Double) -> Double,
    T: Fn(Double, Double) -> Double,
    V: Fn(Double, Double) -> Double,
    R: Fn(Double) -> Double,
>(
    obs: Seq<PatchObservation>,
    i: int,
    weight: Double,
    cosine: C,
    number: N,
    plus: P,
    times: T,
    divide: V,
    root: R,
) -> Double {
    let n = obs.len() as int;
    let mean = if n > 1 {
        of_two(
            divide,
            agreement(obs, i, n, number, plus, times, divide, root),
            counted(number, (n - 1) as usize),
        )
    } else {
        Double { bits: 0 }
    };
    of_two(
        plus,
        of_two(
            times,
            of_two(plus, Double { bits: ONE_BITS }, weight.spec_neg()),
            mean,
        ),
        of_two(times, weight, counted(cosine, i as usize)),
    )
}

impl VisualPoint {
    /// Whether the reference is one of the patches.
    pub open spec fn wf(&self) -> bool {
        self.ref_patch matches Some(i) ==> i < self.obs@.len()
    }

    /// A point without patches. `unit_normal` is the normal at length one;
    /// without a `length` above 1e-12 the third axis takes its place.
    pub fn new(
        pos: [Double; 3],
        covariance: Matrix,
        unit_normal: [Double; 3],
        length: Double,
    ) -> (p: VisualPoint)
        ensures
            p.wf(),
            p.pos == pos,
            p.covariance == covariance,
            p.previous_normal == p.normal,
            (Double { bits: crate::void_map::plane::TINY }).spec_lt(length) ==> p.normal
                == unit_normal,
            !(Double { bits: crate::void_map::plane::TINY }).spec_lt(length) ==> p.normal@ == seq![
                Double { bits: 0 },
                Double { bits: 0 },
                Double { bits: ONE_BITS },
            ],
            p.normal_information.shaped(3, 3),
            forall|i: int, j: int|
                p.normal_information.has(i, j) ==> #[trigger] p.normal_information.at(i, j) == (
                if i == j {
                    Double { bits: ONE_BITS }
                } else {
                    Double { bits: 0 }
                }),
            p.obs@.len() == 0,
            p.ref_patch is None,
            p.normal_initialized,
            !p.converged,
            !p.from_mature_plane,
    {
        let normal = if (Double { bits: crate::void_map::plane::TINY }).lt(length) {
            unit_normal
        } else {
            [Double::zero(), Double::zero(), Double::one()]
        };
        let mut normal_information = Matrix::filled(3, 3, Double::zero());
        normal_information.set(0, 0, Double::one());
        normal_information.set(1, 1, Double::one());
        normal_information.set(2, 2, Double::one());
        VisualPoint {
            pos,
            normal,
            normal_information,
            previous_normal: normal,
            covariance,
            obs: Vec::new(),
            ref_patch: None,
            normal_initialized: true,
            converged: false,
            from_mature_plane: false,
        }
    }

    /// Adds a patch.
    pub fn add_observation(&mut self, obs: PatchObservation)
        ensures
            final(self).obs@ == old(self).obs@.push(obs),
            *final(self) == (VisualPoint { obs: final(self).obs, ..*old(self) }),
    {
        self.obs.push(obs);
    }

    /// Drops the patch with the lowest score, if there is one. The reference is
    /// chosen anew afterwards.
    pub fn drop_lowest_score(&mut self)
        ensures
            *final(self) == (VisualPoint { obs: final(self).obs, ..*old(self) }),
            final(self).obs@ == (if old(self).obs@.len() == 0 {
                old(self).obs@
            } else {
                old(self).obs@.remove(lowest(old(self).obs@, old(self).obs@.len() as int))
            }),
    {
        if self.obs.len() == 0 {
            return;
        }
        let mut min_idx: usize = 0;
        let mut i: usize = 1;
        while i < self.obs.len()
            invariant
                1 <= i <= self.obs@.len(),
                min_idx < i,
                min_idx == lowest(self.obs@, i as int),
            decreases self.obs@.len() - i,
        {
            if self.obs[i].score.lt(self.obs[min_idx].score) {
                min_idx = i;
            }
            i += 1;
        }
        let _gone = self.obs.remove(min_idx);
    }

    /// The scores of the patches. `cosine` gives the cosine of a patch's view.
    pub fn patch_scores<
        C: Fn(usize) -> Double,
        N: Fn(usize) -> Double,
        P: Fn(Double, Double) -> Double,
        T: Fn(Double, Double) -> Double,
        V: Fn(Double, Double) -> Double,
        R: Fn(Double) -> Double,
    >(
        &self,
        weight: Double,
        cosine: &C,
        number: &N,
        plus: &P,
        times: &T,
        divide: &V,
        root: &R,
    ) -> (scores: Vec<Double>)
        requires
            forall|k: int|
                0 <= k < self.obs@.len() ==> (#[trigger] self.obs@[k]).patch.levels@.len() > 0,
            counts(*cosine),
            counts(*number),
            binary(*plus),
            binary(*times),
            binary(*divide),
            unary(*root),
        ensures
            scores@ == Seq::new(
                self.obs@.len(),
                |i: int|
                    score_of(
                        self.obs@,
                        i,
                        weight,
                        *cosine,
                        *number,
                        *plus,
                        *times,
                        *divide,
                        *root,
                    ),
            ),
    {
        let n: usize = self.obs.len();
        let mut scores: Vec<Double> = Vec::new();
        let mut i: usize = 0;
        while i < n
            invariant
                i <= n,
                n == self.obs@.len(),
                scores@.len() == i,
                forall|k: int|
                    0 <= k < self.obs@.len() ==> (#[trigger] self.obs@[k]).patch.levels@.len() > 0,
                counts(*cosine),
                counts(*number),
                binary(*plus),
                binary(*times),
                binary(*divide),
                unary(*root),
                forall|k: int|
                    0 <= k < i ==> #[trigger] scores@[k] == score_of(
                        self.obs@,
                        k,
                        weight,
                        *cosine,
                        *number,
                        *plus,
                        *times,
                        *divide,
                        *root,
                    ),
            decreases n - i,
        {
            let mut sum = Double::zero();
            let mut j: usize = 0;
            while j < n
                invariant
                    i < n,
                    j <= n,
                    n == self.obs@.len(),
                    forall|k: int|
                        0 <= k < self.obs@.len() ==> (
                        #[trigger] self.obs@[k]).patch.levels@.len() > 0,
                    counts(*number),
                    binary(*plus),
                    binary(*times),
                    binary(*divide),
                    unary(*root),
                    sum == agreement(
                        self.obs@,
                        i as int,
                        j as int,
                        *number,
                        *plus,
                        *times,
                        *divide,
                        *root,
                    ),
                decreases n - j,
            {
                if j != i {
                    assert(self.obs@[i as int].patch.levels@.len() > 0);
                    assert(self.obs@[j as int].patch.levels@.len() > 0);
                    let own = &self.obs[i].patch;
                    let like = own.ncc_level0(&self.obs[j].patch, number, plus, times, divide, root);
                    sum = apply_two(plus, sum, like);
                }
                j += 1;
            }
            let mean = if n > 1 {
                apply_two(divide, sum, apply_count(number, n - 1))
            } else {
                Double::zero()
            };
            let rest = apply_two(plus, Double::one(), weight.neg());
            let by_likeness = apply_two(times, rest, mean);
            let by_view = apply_two(times, weight, apply_count(cosine, i));
            scores.push(apply_two(plus, by_likeness, by_view));
            i += 1;
        }
        assert(scores@ =~= Seq::new(
            self.obs@.len(),
            |i: int|
                score_of(
                    self.obs@,
                    i,
                    weight,
                    *cosine,
                    *number,
                    *plus,
                    *times,
                    *divide,
                    *root,
                ),
        ));
        scores
    }

    /// Gives the patches their scores and makes the one with the highest the
    /// reference, if there are enough patches.
    pub fn update_reference_patch(&mut self, scores: &Vec<Double>, opts: &VoxelMapOptions)
        requires
            scores@.len() == old(self).obs@.len(),
        ensures
            old(self).obs@.len() < opts.min_obs_for_score ==> *final(self) == *old(self),
            old(self).obs@.len() >= opts.min_obs_for_score ==> rescored(
                *old(self),
                *final(self),
                scores@,
            ),
            old(self).obs@.len() >= opts.min_obs_for_score && old(self).obs@.len() > 0 ==> final(
                self).wf(),
    {
        if self.obs.len() < opts.min_obs_for_score {
            return;
        }
        let n: usize = self.obs.len();
        let mut best_score = Double { bits: NEG_INFINITY_BITS };
        let mut best: usize = 0;
        let mut i: usize = 0;
        while i < n
            invariant
                i <= n,
                n == scores@.len(),
                n == self.obs@.len(),
                n == old(self).obs@.len(),
                best < n || n == 0,
                i == 0 ==> best == 0,
                (best as int, best_score) == highest(scores@, i as int),
                *self == (VisualPoint { obs: self.obs, ..*old(self) }),
                forall|k: int|
                    0 <= k < n ==> #[trigger] self.obs@[k] == (if k < i {
                        scored(old(self).obs@[k], scores@[k])
                    } else {
                        old(self).obs@[k]
                    }),
            decreases n - i,
        {
            let score = scores[i];
            self.obs[i].score = score;
            if best_score.lt(score) {
                best_score = score;
                best = i;
            }
            i += 1;
        }
        self.ref_patch = Some(best);
    }

    /// Keeps nothing but the reference, if there is one.
    pub fn finalize_converged(&mut self)
        requires
            old(self).wf(),
        ensures
            final(self).wf(),
            match old(self).ref_patch {
                Some(idx) => final(self).obs@ == seq![old(self).obs@[idx as int]] && *final(self) == (
                VisualPoint {
                    obs: final(self).obs,
                    ref_patch: Some(0),
                    converged: true,
                    ..*old(self)
                }),
                None => *final(self) == *old(self),
            },
    {
        if let Some(idx) = self.ref_patch {
            let keep = self.obs.swap_remove(idx);
            self.obs.clear();
            self.obs.push(keep);
            self.ref_patch = Some(0);
            self.converged = true;
            assert(self.obs@ =~= seq![old(self).obs@[idx as int]]);
        }
    }

    /// Whether a change of the normal is small.
    pub fn normal_converged(change: Double, thresh: Double) -> (yes: bool)
        ensures
            yes == change.spec_lt(thresh),
    {
        change.lt(thresh)
    }

    /// The number of patches.
    pub fn obs_count(&self) -> (n: usize)
        ensures
            n == self.obs@.len(),
    {
        self.obs.len()
    }

    /// Whether a patch taken in a frame is added to the point: after enough
    /// frames, or enough pixels (`distance`) from the last one. A point without
    /// patches always takes one.
    pub fn wants_patch(&self, frame_id: u32, distance: Double, opts: &VoxelMapOptions) -> (yes: bool)
        ensures
            yes == (self.obs@.len() == 0 || frame_id - self.obs@.last().frame_id
                > opts.patch_add_frame_gap || opts.patch_add_pixel_dist.spec_lt(distance)),
    {
        let n: usize = self.obs.len();
        if n == 0 {
            return true;
        }
        let last: u32 = self.obs[n - 1].frame_id;
        let gap: u32 = if frame_id > last {
            frame_id - last
        } else {
            0
        };
        gap > opts.patch_add_frame_gap || opts.patch_add_pixel_dist.lt(distance)
    }

    /// Adds a patch, in place of the one with the lowest score where the point
    /// has as many as it may.
    pub fn append_patch(&mut self, obs: PatchObservation, opts: &VoxelMapOptions)
        ensures
            *final(self) == (VisualPoint { obs: final(self).obs, ..*old(self) }),
            final(self).obs@ == (if old(self).obs@.len() >= opts.max_obs_per_point && old(
                self,
            ).obs@.len() > 0 {
                old(self).obs@.remove(lowest(old(self).obs@, old(self).obs@.len() as int))
            } else {
                old(self).obs@
            }).push(obs),
    {
        if self.obs.len() >= opts.max_obs_per_point {
            self.drop_lowest_score();
        }
        self.add_observation(obs);
    }

    /// Takes a refined normal, whose distance to the normal before the last
    /// update is `change`. The point is settled if that is small and there are
    /// enough patches.
    pub fn accept_normal(&mut self, normal: [Double; 3], change: Double, opts: &VoxelMapOptions)
        requires
            old(self).wf(),
        ensures
            final(self).wf(),
            final(self).normal == normal,
            final(self).previous_normal == old(self).normal,
            ({
                let settled = change.spec_lt(opts.normal_converge_thresh) && old(self).obs@.len()
                    >= opts.min_obs_for_converge;
                &&& *final(self) == (VisualPoint {
                    normal,
                    previous_normal: old(self).normal,
                    obs: final(self).obs,
                    ref_patch: final(self).ref_patch,
                    converged: old(self).converged || settled,
                    ..*old(self)
                })
                &&& settled && old(self).ref_patch is Some ==> final(self).obs@ == seq![
                    old(self).obs@[old(self).ref_patch->0 as int],
                ] && final(self).ref_patch == Some(0usize)
                &&& !(settled && old(self).ref_patch is Some) ==> final(self).obs == old(self).obs
                    && final(self).ref_patch == old(self).ref_patch
            }),
    {
        self.previous_normal = self.normal;
        self.normal = normal;
        if change.lt(opts.normal_converge_thresh) && self.obs.len() >= opts.min_obs_for_converge {
            self.converged = true;
            self.finalize_converged();
        }
    }
}

/// A point never has more patches than it may.
pub proof fn law_patches_are_bounded(
    before: Seq<PatchObservation>,
    after: Seq<PatchObservation>,
    obs: PatchObservation,
    opts: VoxelMapOptions,
)
    requires
        0 < opts.max_obs_per_point,
        before.len() <= opts.max_obs_per_point,
        after == (if before.len() >= opts.max_obs_per_point && before.len() > 0 {
            before.remove(lowest(before, before.len() as int))
        } else {
            before
        }).push(obs),
    ensures
        after.len() <= opts.max_obs_per_point,
{
    lemma_lowest(before, before.len() as int);
}

/// The lowest score is that of one of the patches.
proof fn lemma_lowest(obs: Seq<PatchObservation>, n: int)
    ensures
        0 <= lowest(obs, n),
        0 < n ==> lowest(obs, n) < n,
    decreases n,
{
    if n > 1 {
        lemma_lowest(obs, n - 1);
    }
}

/// The reference has the highest score: no patch scores more.
pub proof fn law_reference_scores_highest(scores: Seq<Double>, n: int, k: int)
    requires
        0 <= k < n <= scores.len(),
    ensures
        !highest(scores, n).1.spec_lt(scores[k]),
        0 <= highest(scores, n).0 < n,
        !highest(scores, n).1.spec_is_nan(),
    decreases n,
{
    let rest = highest(scores, n - 1);
    if n == 1 {
        reveal_with_fuel(highest, 2);
    }
    if k < n - 1 {
        law_reference_scores_highest(scores, n - 1, k);
    } else if n > 1 {
        law_reference_scores_highest(scores, n - 1, n - 2);
    }
}

} // verus!
