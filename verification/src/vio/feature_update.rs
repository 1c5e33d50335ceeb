//! Updates with features: their measurements are cleaned, the features located,
//! their systems gauged and stacked, and the filter updated with the stack.

use vstd::prelude::*;

use crate::algebra::{inverts, is, ring, Ring};
use crate::arith::binary;
use crate::double::Double;
use crate::matrix::Matrix;
use crate::vio::feature_init::sizes;
use crate::vio::feature_system::{feature_room, fits_feature, is_window_system, span, window_system};
use crate::vio::givens::{cancels, mixes, Rotation};
use crate::vio::estimates::Estimates;
use crate::vio::jacobian::{answers, is_feature_jacobian, Angles};
use crate::vio::kalman::UpdateFault;
use crate::vio::options::FeatRepresentation;
use crate::vio::state::State;
use crate::vio::state_helper::{column, in_rows, lemma_column_monotonic, same_window};
use crate::vio::updater::{
    kept, retain_flagged, rows_before, runs_used, stack_systems, stacked_order, stacks,
    tells_percentiles, update_representation, window_representation, FeatureSystem, StackedSystem,
    UpdaterMsckf,
};
use crate::vio::updater_helper::{
    clone_exists, compressed, find_clone, lemma_columns_bounded, lemma_distinct,
    lemma_measured_monotonic, measurable, measured, measurement_compress_inplace, CameraTrack,
    Feature, FeatureJacobian,
};
use crate::vio::values::{ekf_update, filter_updated, turns};

verus! {

/// Which times have a clone.
pub open spec fn present(st: &State, times: Seq<Double>) -> Seq<bool> {
    Seq::new(times.len(), |i: int| clone_exists(st, times[i]))
}

/// Whether a track was cleaned: the measurements at times of clones are left.
pub open spec fn track_cleaned(st: &State, before: CameraTrack, after: CameraTrack) -> bool {
    let keep = present(st, before.timestamps@);
    let n = before.timestamps@.len() as int;
    &&& after.cam_id == before.cam_id
    &&& after.timestamps@ == kept(before.timestamps@, keep, n)
    &&& after.uvs@ == kept(before.uvs@, keep, n)
}

/// Whether a feature was cleaned: the measurements at times of clones are left.
pub open spec fn cleaned(st: &State, before: Feature, after: Feature) -> bool {
    &&& after == (Feature { tracks: after.tracks, ..before })
    &&& after.tracks@.len() == before.tracks@.len()
    &&& forall|k: int|
        0 <= k < before.tracks@.len() ==> track_cleaned(
            st,
            before.tracks@[k],
            #[trigger] after.tracks@[k],
        )
}

/// As many are kept of two lists; each that is kept was to be kept.
pub proof fn lemma_kept<X, Y>(a: Seq<X>, b: Seq<Y>, keep: Seq<bool>, n: int)
    requires
        0 <= n <= keep.len(),
        a.len() == keep.len(),
        b.len() == keep.len(),
    ensures
        kept(a, keep, n).len() == kept(b, keep, n).len(),
        kept(a, keep, n).len() <= n,
        forall|i: int|
            0 <= i < kept(a, keep, n).len() ==> exists|j: int|
                0 <= j < n && keep[j] && #[trigger] a[j] == #[trigger] kept(a, keep, n)[i],
    decreases n,
{
    if n > 0 {
        lemma_kept(a, b, keep, n - 1);
        let less = kept(a, keep, n - 1);
        let more = kept(a, keep, n);
        assert forall|i: int| 0 <= i < more.len() implies exists|j: int|
            0 <= j < n && keep[j] && #[trigger] a[j] == #[trigger] more[i] by {
            if i < less.len() {
                assert(more[i] == less[i]);
                let j = choose|j: int| 0 <= j < n - 1 && keep[j] && #[trigger] a[j] == less[i];
                assert(a[j] == more[i]);
            } else {
                assert(a[n - 1] == more[i]);
            }
        }
    }
}

/// Keeps the measurements of a track that were made at times of clones.
fn clean_track(state: &State, track: &mut CameraTrack)
    requires
        old(track).uvs@.len() == old(track).timestamps@.len(),
    ensures
        track_cleaned(state, *old(track), *final(track)),
        final(track).uvs@.len() == final(track).timestamps@.len(),
        final(track).timestamps@.len() <= old(track).timestamps@.len(),
        forall|i: int|
            0 <= i < final(track).timestamps@.len() ==> clone_exists(
                state,
                #[trigger] final(track).timestamps@[i],
            ),
{
    let ghost times = track.timestamps@;
    let ghost uvs = track.uvs@;
    let mut keep: Vec<bool> = Vec::new();
    let mut i: usize = 0;
    while i < track.timestamps.len()
        invariant
            i <= times.len(),
            *track == *old(track),
            times == track.timestamps@,
            keep@.len() == i,
            forall|k: int| 0 <= k < i ==> #[trigger] keep@[k] == present(state, times)[k],
        decreases times.len() - i,
    {
        let found = match find_clone(state, track.timestamps[i]) {
            Some(_) => true,
            None => false,
        };
        keep.push(found);
        i += 1;
    }
    assert(keep@ =~= present(state, times));
    retain_flagged(&mut track.timestamps, &keep);
    retain_flagged(&mut track.uvs, &keep);
    proof {
        lemma_kept(times, uvs, keep@, keep@.len() as int);
        assert forall|k: int| 0 <= k < track.timestamps@.len() implies clone_exists(
            state,
            #[trigger] track.timestamps@[k],
        ) by {
            let j = choose|j: int|
                0 <= j < keep@.len() && keep@[j] && #[trigger] times[j] == track.timestamps@[k];
            assert(keep@[j] == present(state, times)[j]);
        }
    }
}

/// Fewer measurements in each track are fewer in all.
proof fn lemma_fewer(a: Seq<CameraTrack>, b: Seq<CameraTrack>, n: int)
    requires
        0 <= n <= a.len(),
        a.len() == b.len(),
        forall|k: int|
            0 <= k < a.len() ==> (#[trigger] a[k]).timestamps@.len() <= b[k].timestamps@.len(),
    ensures
        0 <= measured(a, n) <= measured(b, n),
    decreases n,
{
    if n > 0 {
        assert(a[n - 1].timestamps@.len() <= b[n - 1].timestamps@.len());
        lemma_fewer(a, b, n - 1);
    }
}

/// Whether all times of a feature are those of clones.
pub open spec fn at_clones(st: &State, f: Feature) -> bool {
    forall|k: int, m: int|
        0 <= k < f.tracks@.len() && 0 <= m < f.tracks@[k].timestamps@.len() ==> clone_exists(
            st,
            #[trigger] f.tracks@[k].timestamps@[m],
        )
}

/// Whether a feature was seen by cameras of the state, each measurement with its
/// pixel.
pub open spec fn well_seen(st: &State, f: Feature) -> bool {
    &&& f.has_pixels()
    &&& forall|k: int|
        0 <= k < f.tracks@.len() ==> (#[trigger] f.tracks@[k]).cam_id < st.calib_imu_to_cam@.len()
}

/// Drops the measurements of a feature that were not made at the time of a clone.
pub fn clean_old_measurements(state: &State, feature: &mut Feature)
    requires
        well_seen(state, *old(feature)),
    ensures
        cleaned(state, *old(feature), *final(feature)),
        well_seen(state, *final(feature)),
        at_clones(state, *final(feature)),
        0 <= span(*final(feature)) <= span(*old(feature)),
{
    let ghost before = *feature;
    let mut k: usize = 0;
    while k < feature.tracks.len()
        invariant
            k <= before.tracks@.len(),
            well_seen(state, before),
            *feature == (Feature { tracks: feature.tracks, ..before }),
            feature.tracks@.len() == before.tracks@.len(),
            forall|q: int|
                0 <= q < k ==> track_cleaned(
                    state,
                    before.tracks@[q],
                    #[trigger] feature.tracks@[q],
                ) && feature.tracks@[q].uvs@.len() == feature.tracks@[q].timestamps@.len()
                    && feature.tracks@[q].timestamps@.len() <= before.tracks@[q].timestamps@.len(),
            forall|q: int, m: int|
                0 <= q < k && 0 <= m < feature.tracks@[q].timestamps@.len() ==> clone_exists(
                    state,
                    #[trigger] feature.tracks@[q].timestamps@[m],
                ),
            forall|q: int|
                k <= q < before.tracks@.len() ==> #[trigger] feature.tracks@[q] == before.tracks@[q],
        decreases before.tracks@.len() - k,
    {
        assert(feature.tracks@[k as int] == before.tracks@[k as int]);
        assert(before.tracks@[k as int].uvs@.len() == before.tracks@[k as int].timestamps@.len());
        clean_track(state, &mut feature.tracks[k]);
        k += 1;
    }
    proof {
        assert forall|q: int| 0 <= q < feature.tracks@.len() implies (
        #[trigger] feature.tracks@[q]).cam_id < state.calib_imu_to_cam@.len() by {
            assert(before.tracks@[q].cam_id < state.calib_imu_to_cam@.len());
        }
        lemma_fewer(feature.tracks@, before.tracks@, before.tracks@.len() as int);
    }
}

/// Whether a list of features was cleaned.
pub open spec fn all_cleaned(st: &State, before: Seq<Feature>, after: Seq<Feature>) -> bool {
    &&& after.len() == before.len()
    &&& forall|i: int| 0 <= i < before.len() ==> cleaned(st, before[i], #[trigger] after[i])
}

/// How many variables the systems of the first `n` features may have.
pub open spec fn spans(features: Seq<Feature>, n: int) -> int
    decreases n,
{
    if n <= 0 {
        0
    } else {
        spans(features, n - 1) + span(features[n - 1])
    }
}

/// Whether there is room for the stack of the features' systems, in a state of `dim`
/// rows.
pub open spec fn room(dim: int, features: Seq<Feature>) -> bool {
    let e = 8 * spans(features, features.len() as int);
    &&& e * e <= usize::MAX
    &&& dim * e <= usize::MAX
}

/// A feature spans something.
pub proof fn lemma_span(f: Feature)
    ensures
        span(f) >= 3,
        0 <= f.spec_measurements() <= span(f),
{
    lemma_measured_monotonic(f.tracks@, 0, f.tracks@.len() as int);
}

/// Each feature spans no more than all.
pub proof fn lemma_spans(features: Seq<Feature>, i: int, n: int)
    requires
        0 <= i <= n <= features.len(),
    ensures
        0 <= spans(features, i) <= spans(features, n),
        i < n ==> span(features[i]) <= spans(features, n),
    decreases n,
{
    if n > 0 {
        lemma_span(features[n - 1]);
        if i < n {
            lemma_spans(features, i, n - 1);
            lemma_spans(features, 0, n - 1);
        } else {
            lemma_spans(features, n - 1, n - 1);
        }
    }
}

/// Features that span less span less together.
pub proof fn lemma_spans_less(a: Seq<Feature>, b: Seq<Feature>, n: int)
    requires
        0 <= n <= a.len(),
        a.len() == b.len(),
        forall|i: int| 0 <= i < a.len() ==> span(#[trigger] a[i]) <= span(b[i]),
    ensures
        spans(a, n) <= spans(b, n),
    decreases n,
{
    if n > 0 {
        assert(span(a[n - 1]) <= span(b[n - 1]));
        lemma_spans_less(a, b, n - 1);
    }
}

/// What is kept of features spans no more.
pub proof fn lemma_spans_kept(features: Seq<Feature>, keep: Seq<bool>, n: int)
    requires
        0 <= n <= features.len(),
        keep.len() == features.len(),
    ensures
        ({
            let left = kept(features, keep, n);
            0 <= spans(left, left.len() as int) <= spans(features, n)
        }),
    decreases n,
{
    if n > 0 {
        lemma_spans_kept(features, keep, n - 1);
        lemma_span(features[n - 1]);
        let less = kept(features, keep, n - 1);
        let left = kept(features, keep, n);
        if keep[n - 1] {
            lemma_spans_same(left, less, less.len() as int);
        }
    }
}

/// The span of the first features does not depend on the others.
proof fn lemma_spans_same(a: Seq<Feature>, b: Seq<Feature>, n: int)
    requires
        0 <= n <= a.len(),
        n <= b.len(),
        forall|i: int| 0 <= i < n ==> #[trigger] a[i] == b[i],
    ensures
        spans(a, n) == spans(b, n),
    decreases n,
{
    if n > 0 {
        assert(a[n - 1] == b[n - 1]);
        lemma_spans_same(a, b, n - 1);
    }
}

/// Where there is room for all there is room for each.
pub proof fn lemma_room_each(st: &State, features: Seq<Feature>, e: int, i: int)
    requires
        0 <= i < features.len(),
        8 * spans(features, features.len() as int) <= e,
        e * e <= usize::MAX,
        st.dim() * e <= usize::MAX,
        st.dim() >= 0,
    ensures
        feature_room(st, features[i]),
{
    lemma_spans(features, i, features.len() as int);
    lemma_span(features[i]);
    let x = 8 * span(features[i]);
    let d = st.dim();
    assert(x * x <= e * e) by (nonlinear_arith)
        requires
            0 <= x <= e,
    ;
    assert(d * x <= d * e) by (nonlinear_arith)
        requires
            0 <= x <= e,
            0 <= d,
    ;
}

/// Cleans a list of features.
pub fn clean_features(state: &State, features: &mut Vec<Feature>)
    requires
        forall|i: int|
            0 <= i < old(features)@.len() ==> well_seen(state, #[trigger] old(features)@[i]),
    ensures
        all_cleaned(state, old(features)@, final(features)@),
        forall|i: int|
            0 <= i < final(features)@.len() ==> well_seen(state, #[trigger] final(features)@[i])
                && at_clones(state, final(features)@[i]),
        spans(final(features)@, final(features)@.len() as int) <= spans(
            old(features)@,
            old(features)@.len() as int,
        ),
{
    let ghost before = features@;
    let mut i: usize = 0;
    while i < features.len()
        invariant
            i <= before.len(),
            features@.len() == before.len(),
            forall|k: int| 0 <= k < before.len() ==> well_seen(state, #[trigger] before[k]),
            forall|k: int|
                0 <= k < i ==> cleaned(state, before[k], #[trigger] features@[k]) && well_seen(
                    state,
                    features@[k],
                ) && at_clones(state, features@[k]) && span(features@[k]) <= span(before[k]),
            forall|k: int| i <= k < before.len() ==> #[trigger] features@[k] == before[k],
        decreases before.len() - i,
    {
        assert(features@[i as int] == before[i as int]);
        clean_old_measurements(state, &mut features[i]);
        i += 1;
    }
    proof {
        lemma_spans_less(features@, before, before.len() as int);
    }
}

/// Where a feature was found to be, and which clone and camera it is anchored to.
#[derive(Clone, Copy, Debug)]
pub struct Spot {
    /// The anchor camera.
    pub anchor_cam_id: i32,
    /// The time of the anchor clone.
    pub anchor_clone_timestamp: Double,
    /// The position in the anchor camera.
    pub p_fin_a: [Double; 3],
    /// The position in the world.
    pub p_fin_g: [Double; 3],
}

/// Whether features can be looked for, always with the same outcome.
pub open spec fn locates<F: Fn(&Feature) -> Option<Spot>>(locate: F) -> bool {
    &&& forall|f: &Feature| #[trigger] call_requires(locate, (f,))
    &&& forall|f: &Feature, a: Option<Spot>, b: Option<Spot>| #[trigger]
        call_ensures(locate, (f,), a) && #[trigger] call_ensures(locate, (f,), b) ==> a == b
}

/// Whether features are anchored to clones and cameras of the state.
pub open spec fn anchors_in<F: Fn(&Feature) -> Option<Spot>>(locate: F, st: &State) -> bool {
    forall|f: &Feature, s: Spot| #[trigger]
        call_ensures(locate, (f,), Some(s)) ==> 0 <= s.anchor_cam_id < st.calib_imu_to_cam@.len()
            && clone_exists(st, s.anchor_clone_timestamp)
}

/// Where a feature is, if it is found.
pub open spec fn located<F: Fn(&Feature) -> Option<Spot>>(locate: F, f: Feature) -> Option<Spot> {
    choose|r: Option<Spot>| call_ensures(locate, (&f,), r)
}

/// Where a feature is, if it has two measurements or more and is found.
pub open spec fn spot_of<F: Fn(&Feature) -> Option<Spot>>(locate: F, f: Feature) -> Option<Spot> {
    if f.spec_measurements() < 2 {
        None
    } else {
        located(locate, f)
    }
}

/// A feature at its spot.
pub open spec fn at_spot<F: Fn(&Feature) -> Option<Spot>>(locate: F, f: Feature) -> Feature {
    match spot_of(locate, f) {
        Some(s) => Feature {
            anchor_cam_id: s.anchor_cam_id,
            anchor_clone_timestamp: s.anchor_clone_timestamp,
            p_fin_a: s.p_fin_a,
            p_fin_g: s.p_fin_g,
            ..f
        },
        None => f,
    }
}

/// The features of a list that have two measurements or more and are found, each at
/// its spot.
pub open spec fn found_features<F: Fn(&Feature) -> Option<Spot>>(
    locate: F,
    features: Seq<Feature>,
) -> Seq<Feature> {
    kept(
        Seq::new(features.len(), |i: int| at_spot(locate, features[i])),
        Seq::new(features.len(), |i: int| spot_of(locate, features[i]) is Some),
        features.len() as int,
    )
}

/// Keeps the features that have two measurements or more and are found.
pub fn retain_found<F: Fn(&Feature) -> Option<Spot>>(
    state: &State,
    features: &mut Vec<Feature>,
    locate: &F,
    anchored: bool,
)
    requires
        locates(*locate),
        anchored ==> anchors_in(*locate, state),
        forall|i: int|
            0 <= i < old(features)@.len() ==> (#[trigger] old(features)@[i]).spec_measurements()
                <= usize::MAX && well_seen(state, old(features)@[i]) && at_clones(
                state,
                old(features)@[i],
            ),
    ensures
        final(features)@ == found_features(*locate, old(features)@),
        final(features)@.len() <= old(features)@.len(),
        forall|i: int|
            0 <= i < final(features)@.len() ==> {
                let f = #[trigger] final(features)@[i];
                &&& well_seen(state, f)
                &&& at_clones(state, f)
                &&& 2 <= f.spec_measurements()
                &&& anchored ==> 0 <= f.anchor_cam_id < state.calib_imu_to_cam@.len()
                    && clone_exists(state, f.anchor_clone_timestamp)
            },
        forall|i: int|
            0 <= i < final(features)@.len() ==> exists|j: int|
                0 <= j < old(features)@.len() && (#[trigger] old(features)@[j]).featid == (
                #[trigger] final(features)@[i]).featid,
        spans(final(features)@, final(features)@.len() as int) <= spans(
            old(features)@,
            old(features)@.len() as int,
        ),
{
    let ghost before = features@;
    let ghost all = Seq::new(before.len(), |i: int| at_spot(*locate, before[i]));
    let ghost flags = Seq::new(before.len(), |i: int| spot_of(*locate, before[i]) is Some);
    let mut keep: Vec<bool> = Vec::new();
    let mut i: usize = 0;
    while i < features.len()
        invariant
            i <= before.len(),
            features@.len() == before.len(),
            locates(*locate),
            anchored ==> anchors_in(*locate, state),
            all == Seq::new(before.len(), |i: int| at_spot(*locate, before[i])),
            flags == Seq::new(before.len(), |i: int| spot_of(*locate, before[i]) is Some),
            forall|k: int|
                0 <= k < before.len() ==> (#[trigger] before[k]).spec_measurements() <= usize::MAX,
            keep@.len() == i,
            forall|k: int| 0 <= k < i ==> #[trigger] keep@[k] == flags[k],
            forall|k: int| 0 <= k < i ==> #[trigger] features@[k] == all[k],
            forall|k: int| i <= k < before.len() ==> #[trigger] features@[k] == before[k],
            anchored ==> forall|k: int|
                0 <= k < i && flags[k] ==> 0 <= (#[trigger] all[k]).anchor_cam_id
                    < state.calib_imu_to_cam@.len() && clone_exists(
                    state,
                    all[k].anchor_clone_timestamp,
                ),
        decreases before.len() - i,
    {
        assert(features@[i as int] == before[i as int]);
        if features[i].measurements() < 2 {
            keep.push(false);
        } else {
            let spot = locate(&features[i]);
            proof {
                let f = before[i as int];
                assert(call_ensures(*locate, (&f,), spot));
                assert(call_ensures(*locate, (&f,), located(*locate, f)));
            }
            match spot {
                Some(s) => {
                    features[i].anchor_cam_id = s.anchor_cam_id;
                    features[i].anchor_clone_timestamp = s.anchor_clone_timestamp;
                    features[i].p_fin_a = s.p_fin_a;
                    features[i].p_fin_g = s.p_fin_g;
                    keep.push(true);
                },
                None => {
                    keep.push(false);
                },
            }
        }
        i += 1;
    }
    assert(keep@ =~= flags);
    assert(features@ =~= all);
    retain_flagged(features, &keep);
    proof {
        lemma_kept(all, before, flags, before.len() as int);
        assert forall|i: int| 0 <= i < features@.len() implies {
            let f = #[trigger] features@[i];
            &&& well_seen(state, f)
            &&& at_clones(state, f)
            &&& 2 <= f.spec_measurements()
            &&& anchored ==> 0 <= f.anchor_cam_id < state.calib_imu_to_cam@.len() && clone_exists(
                state,
                f.anchor_clone_timestamp,
            )
        } by {
            let j = choose|j: int|
                0 <= j < before.len() && flags[j] && #[trigger] all[j] == features@[i];
            assert(well_seen(state, before[j]) && at_clones(state, before[j]));
            assert(all[j].tracks == before[j].tracks);
        }
        assert forall|i: int| 0 <= i < features@.len() implies exists|j: int|
            0 <= j < before.len() && (#[trigger] before[j]).featid == (
            #[trigger] features@[i]).featid by {
            let j = choose|j: int|
                0 <= j < before.len() && flags[j] && #[trigger] all[j] == features@[i];
            assert(before[j].featid == features@[i].featid);
        }
        lemma_spans_kept(all, flags, before.len() as int);
        assert forall|k: int| 0 <= k < all.len() implies span(#[trigger] all[k]) <= span(before[k]) by {
            assert(all[k].tracks == before[k].tracks);
        }
        lemma_spans_less(all, before, before.len() as int);
    }
}

/// The stack of systems is not larger than their features span.
proof fn lemma_stack_size(systems: Seq<FeatureSystem>, st: &State, features: Seq<Feature>, n: int)
    requires
        0 <= n <= systems.len(),
        systems.len() == features.len(),
        forall|k: int| 0 <= k < n ==> fits_feature(#[trigger] systems[k], st, features[k]),
    ensures
        0 <= rows_before(systems, n) <= 8 * spans(features, n),
        runs_used(systems, n).len() <= spans(features, n),
        in_rows(runs_used(systems, n), st.dim()),
        forall|i: int|
            0 <= i < runs_used(systems, n).len() ==> (#[trigger] runs_used(systems, n)[i]).1 <= 8,
    decreases n,
{
    if n > 0 {
        lemma_stack_size(systems, st, features, n - 1);
        lemma_span(features[n - 1]);
        let s = systems[n - 1];
        assert(fits_feature(s, st, features[n - 1]));
        let before = runs_used(systems, n - 1);
        let all = runs_used(systems, n);
        if !s.rejected() {
            assert forall|i: int| 0 <= i < all.len() implies 0 <= (#[trigger] all[i]).0 && all[i].0
                + all[i].1 <= st.dim() && all[i].1 <= 8 by {
                if i < before.len() {
                    assert(all[i] == before[i]);
                } else {
                    assert(all[i] == s.x_order@[i - before.len()]);
                }
            }
        }
    }
}

/// The stack of systems fits the machine.
pub proof fn lemma_stackable(systems: Seq<FeatureSystem>, st: &State, features: Seq<Feature>, e: int)
    requires
        systems.len() == features.len(),
        forall|k: int| 0 <= k < systems.len() ==> fits_feature(#[trigger] systems[k], st, features[k]),
        8 * spans(features, features.len() as int) <= e,
        e * e <= usize::MAX,
        st.dim() * e <= usize::MAX,
        st.dim() >= 0,
    ensures
        ({
            let rows = rows_before(systems, systems.len() as int);
            let cols = column(stacked_order(systems), stacked_order(systems).len() as int);
            &&& 0 <= rows <= usize::MAX
            &&& 0 <= cols <= usize::MAX
            &&& rows * cols <= usize::MAX
            &&& cols * cols <= usize::MAX
            &&& rows * rows <= usize::MAX
            &&& st.dim() * rows <= usize::MAX
            &&& in_rows(stacked_order(systems), st.dim())
        }),
{
    let n = systems.len() as int;
    lemma_stack_size(systems, st, features, n);
    let all = runs_used(systems, n);
    let order = stacked_order(systems);
    lemma_distinct(all);
    assert forall|i: int| 0 <= i < order.len() implies (#[trigger] order[i]).1 <= 8 && 0 <= order[i].0
        && order[i].0 + order[i].1 <= st.dim() by {
        assert(order.contains(order[i]));
        assert(all.contains(order[i]));
    }
    lemma_columns_bounded(order, order.len() as int);
    lemma_column_monotonic(order, 0, order.len() as int);
    let rows = rows_before(systems, n);
    let cols = column(order, order.len() as int);
    let d = st.dim();
    assert(e <= e * e) by (nonlinear_arith)
        requires
            0 <= e,
    ;
    assert(rows * cols <= e * e) by (nonlinear_arith)
        requires
            0 <= rows <= e,
            0 <= cols <= e,
    ;
    assert(cols * cols <= e * e) by (nonlinear_arith)
        requires
            0 <= cols <= e,
    ;
    assert(rows * rows <= e * e) by (nonlinear_arith)
        requires
            0 <= rows <= e,
    ;
    assert(d * rows <= d * e) by (nonlinear_arith)
        requires
            0 <= rows <= e,
            0 <= d,
    ;
}

/// A number on the diagonal, zeros elsewhere.
pub open spec fn on_diagonal(v: Double) -> spec_fn(int, int) -> Double {
    |i: int, j: int|
        if i == j {
            v
        } else {
            Double { bits: 0 }
        }
}

/// The covariance of `n` pixels that are measured alike.
pub fn pixel_noise(n: usize, v: Double) -> (r: Matrix)
    requires
        n * n <= usize::MAX,
    ensures
        is(&r, n as int, n as int, on_diagonal(v)),
{
    let mut r = Matrix::filled(n, n, Double::zero());
    r.set_diagonal(0, n, v);
    r
}

/// Whether a filter became another by a stack of systems, which are compressed
/// first where that is asked for. A stack without rows changes nothing.
pub open spec fn stack_committed<
    E: Fn(Double, Double) -> Option<Rotation>,
    R: Fn(Rotation, Double, Double) -> (Double, Double),
    I: Fn(&Matrix) -> Option<Matrix>,
    U: Fn([Double; 9], [Double; 3]) -> [Double; 9],
    P: Fn(Double, Double) -> Double,
>(
    before: &State,
    after: &State,
    values: &Estimates,
    moved: &Estimates,
    stack: StackedSystem,
    h: Matrix,
    res: Seq<Double>,
    r: Matrix,
    noise: Double,
    compress: bool,
    cancel: E,
    rotate: R,
    solve: I,
    turn: U,
    plus: P,
    op: Ring,
    done: Result<Option<Vec<Double>>, UpdateFault>,
) -> bool {
    let n = res.len() as int;
    &&& if compress {
        compressed(&h, res, &stack.h, stack.res@, cancel, rotate)
    } else {
        h == stack.h && res == stack.res@
    }
    &&& if n == 0 {
        &&& done == Ok::<Option<Vec<Double>>, UpdateFault>(None)
        &&& *after == *before
        &&& *moved == *values
    } else {
        let commits = |d: Result<Vec<Double>, UpdateFault>|
            filter_updated(
                before,
                after,
                values,
                moved,
                stack.order@,
                &h,
                res,
                &r,
                solve,
                turn,
                plus,
                op,
                d,
            );
        &&& is(&r, n, n, on_diagonal(noise))
        &&& match done {
            Ok(Some(dx)) => commits(Ok(dx)),
            Ok(None) => false,
            Err(e) => commits(Err(e)),
        }
    }
}

/// Whether a filter became another by systems: those that are not rejected are
/// stacked, and the stack updates the filter.
pub open spec fn systems_committed<
    E: Fn(Double, Double) -> Option<Rotation>,
    R: Fn(Rotation, Double, Double) -> (Double, Double),
    I: Fn(&Matrix) -> Option<Matrix>,
    U: Fn([Double; 9], [Double; 3]) -> [Double; 9],
    P: Fn(Double, Double) -> Double,
>(
    before: &State,
    after: &State,
    values: &Estimates,
    moved: &Estimates,
    systems: Seq<FeatureSystem>,
    noise: Double,
    compress: bool,
    cancel: E,
    rotate: R,
    solve: I,
    turn: U,
    plus: P,
    op: Ring,
    done: Result<Option<Vec<Double>>, UpdateFault>,
) -> bool {
    if rows_before(systems, systems.len() as int) == 0 {
        &&& done == Ok::<Option<Vec<Double>>, UpdateFault>(None)
        &&& *after == *before
        &&& *moved == *values
    } else {
        exists|stack: StackedSystem, h: Matrix, res: Seq<Double>, r: Matrix|
            stacks(&stack, systems) && #[trigger] stack_committed(
                before,
                after,
                values,
                moved,
                stack,
                h,
                res,
                r,
                noise,
                compress,
                cancel,
                rotate,
                solve,
                turn,
                plus,
                op,
                done,
            )
    }
}

/// Updates the filter with a stack of systems.
pub(crate) fn commit_stack<
    E: Fn(Double, Double) -> Option<Rotation>,
    R: Fn(Rotation, Double, Double) -> (Double, Double),
    I: Fn(&Matrix) -> Option<Matrix>,
    U: Fn([Double; 9], [Double; 3]) -> [Double; 9],
    P: Fn(Double, Double) -> Double,
    T: Fn(Double, Double) -> Double,
>(
    state: &mut State,
    values: &mut Estimates,
    stack: StackedSystem,
    noise: Double,
    compress: bool,
    cancel: &E,
    rotate: &R,
    solve: &I,
    turn: &U,
    plus: &P,
    times: &T,
    Ghost(systems): Ghost<Seq<FeatureSystem>>,
) -> (done: Result<Option<Vec<Double>>, UpdateFault>)
    requires
        old(state).wf(),
        old(values).fits(old(state)),
        stacks(&stack, systems),
        rows_before(systems, systems.len() as int) > 0,
        ({
            let rows = rows_before(systems, systems.len() as int);
            let cols = column(stacked_order(systems), stacked_order(systems).len() as int);
            &&& 0 <= rows <= usize::MAX
            &&& 0 <= cols <= usize::MAX
            &&& rows * cols <= usize::MAX
            &&& cols * cols <= usize::MAX
            &&& rows * rows <= usize::MAX
            &&& old(state).dim() * rows <= usize::MAX
            &&& in_rows(stacked_order(systems), old(state).dim())
        }),
        cancels(*cancel),
        mixes(*rotate),
        inverts(*solve),
        turns(*turn),
        binary(*plus),
        binary(*times),
    ensures
        final(state).wf(),
        final(values).fits(final(state)),
        systems_committed(
            old(state),
            final(state),
            old(values),
            final(values),
            systems,
            noise,
            compress,
            *cancel,
            *rotate,
            *solve,
            *turn,
            *plus,
            ring(*plus, *times),
            done,
        ),
{
    let ghost op = ring(*plus, *times);
    let ghost before = *state;
    let ghost first = *values;
    let ghost whole = stack;
    let ghost rows = rows_before(systems, systems.len() as int);
    let ghost cols = column(stacked_order(systems), stacked_order(systems).len() as int);
    let StackedSystem { mut h, mut res, order } = stack;
    if compress {
        measurement_compress_inplace(&mut h, &mut res, cancel, rotate);
    }
    let n: usize = res.len();
    proof {
        assert(0 <= n <= rows);
        assert(n * n <= rows * rows) by (nonlinear_arith)
            requires
                0 <= n <= rows,
        ;
        let d = before.dim();
        assert(d >= 0);
        assert(d * n <= d * rows) by (nonlinear_arith)
            requires
                0 <= n <= rows,
                0 <= d,
        ;
    }
    let r = pixel_noise(n, noise);
    let done = if n == 0 {
        Ok(None)
    } else {
        match ekf_update(state, values, &order, &h, &res, &r, solve, turn, plus, times) {
            Ok(dx) => Ok(Some(dx)),
            Err(e) => Err(e),
        }
    };
    assert(stack_committed(
        &before,
        state,
        &first,
        values,
        whole,
        h,
        res@,
        r,
        noise,
        compress,
        *cancel,
        *rotate,
        *solve,
        *turn,
        *plus,
        op,
        done,
    ));
    done
}

/// Whether systems are those of features of the window, made of their jacobians.
pub open spec fn window_assessed<
    D: Fn(usize, [Double; 2]) -> [Double; 2],
    J: Fn(usize, [Double; 2]) -> [Double; 4],
    L: Fn([Double; 3]) -> Double,
    A: Fn(Double, Double) -> Double,
    C: Fn(Double) -> Double,
    S: Fn(Double) -> Double,
    K: Fn(Double) -> Double,
    E: Fn(Double, Double) -> Option<Rotation>,
    R: Fn(Rotation, Double, Double) -> (Double, Double),
    M: Fn(&Matrix, &Vec<Double>) -> Double,
    W: Fn(usize) -> Double,
    T: Fn(Double, Double) -> Double,
    V: Fn(Double, Double) -> Double,
>(
    left: Seq<Feature>,
    jacs: Seq<FeatureJacobian>,
    systems: Seq<FeatureSystem>,
    st: &State,
    values: &Estimates,
    rep: FeatRepresentation,
    multiplier: Double,
    distort: D,
    slope: J,
    angles: Angles<L, A, C, S, K>,
    cancel: E,
    rotate: R,
    distance: M,
    wide: W,
    times: T,
    divide: V,
    op: Ring,
) -> bool {
    &&& jacs.len() == left.len()
    &&& systems.len() == left.len()
    &&& forall|k: int|
        0 <= k < left.len() ==> is_feature_jacobian(
            &#[trigger] jacs[k],
            st,
            &left[k],
            rep,
            values,
            distort,
            slope,
            angles,
            divide,
            op,
        )
    &&& forall|k: int|
        0 <= k < left.len() ==> is_window_system(
            #[trigger] systems[k],
            jacs[k],
            st,
            multiplier,
            cancel,
            rotate,
            distance,
            wide,
            times,
            op,
        )
}

/// Marks the features whose systems are rejected.
pub open spec fn marked(left: Seq<Feature>, systems: Seq<FeatureSystem>) -> Seq<Feature> {
    Seq::new(
        left.len(),
        |k: int|
            if systems[k].rejected() {
                Feature { to_delete: true, ..left[k] }
            } else {
                left[k]
            },
    )
}

/// Whether a filter became another by features of the window: cleaned and found,
/// assessed, marked where rejected, and else stacked, compressed and committed.
pub open spec fn window_updated<
    F: Fn(&Feature) -> Option<Spot>,
    D: Fn(usize, [Double; 2]) -> [Double; 2],
    J: Fn(usize, [Double; 2]) -> [Double; 4],
    L: Fn([Double; 3]) -> Double,
    A: Fn(Double, Double) -> Double,
    C: Fn(Double) -> Double,
    S: Fn(Double) -> Double,
    K: Fn(Double) -> Double,
    E: Fn(Double, Double) -> Option<Rotation>,
    R: Fn(Rotation, Double, Double) -> (Double, Double),
    M: Fn(&Matrix, &Vec<Double>) -> Double,
    W: Fn(usize) -> Double,
    I: Fn(&Matrix) -> Option<Matrix>,
    U: Fn([Double; 9], [Double; 3]) -> [Double; 9],
    P: Fn(Double, Double) -> Double,
    T: Fn(Double, Double) -> Double,
    V: Fn(Double, Double) -> Double,
>(
    u: UpdaterMsckf,
    clean: Seq<Feature>,
    jacs: Seq<FeatureJacobian>,
    systems: Seq<FeatureSystem>,
    before: &State,
    after: &State,
    values: &Estimates,
    moved: &Estimates,
    features: Seq<Feature>,
    rest: Seq<Feature>,
    locate: F,
    distort: D,
    slope: J,
    angles: Angles<L, A, C, S, K>,
    cancel: E,
    rotate: R,
    distance: M,
    wide: W,
    solve: I,
    turn: U,
    plus: P,
    times: T,
    divide: V,
    done: Result<Option<Vec<Double>>, UpdateFault>,
) -> bool {
    let left = found_features(locate, clean);
    let op = ring(plus, times);
    &&& all_cleaned(before, features, clean)
    &&& window_assessed(
        left,
        jacs,
        systems,
        before,
        values,
        window_representation(u.rep_msckf),
        u.options.chi2_multipler,
        distort,
        slope,
        angles,
        cancel,
        rotate,
        distance,
        wide,
        times,
        divide,
        op,
    )
    &&& rest == marked(left, systems)
    &&& systems_committed(
        before,
        after,
        values,
        moved,
        systems,
        u.options.sigma_pix_sq,
        true,
        cancel,
        rotate,
        solve,
        turn,
        plus,
        op,
        done,
    )
}

impl UpdaterMsckf {
    /// Updates the filter with features of the window. Measurements at other times
    /// than those of clones are dropped, then features with fewer than two
    /// measurements and those that are not found. The position of each other is
    /// eliminated from its system; those with too large a residual are marked for
    /// deletion, the others stacked, compressed, and the filter updated with them.
    pub fn update<
            F: Fn(&Feature) -> Option<Spot>,
            D: Fn(usize, [Double; 2]) -> [Double; 2],
            J: Fn(usize, [Double; 2]) -> [Double; 4],
            L: Fn([Double; 3]) -> Double,
            A: Fn(Double, Double) -> Double,
            C: Fn(Double) -> Double,
            S: Fn(Double) -> Double,
            K: Fn(Double) -> Double,
            E: Fn(Double, Double) -> Option<Rotation>,
            R: Fn(Rotation, Double, Double) -> (Double, Double),
            M: Fn(&Matrix, &Vec<Double>) -> Double,
            W: Fn(usize) -> Double,
            I: Fn(&Matrix) -> Option<Matrix>,
            U: Fn([Double; 9], [Double; 3]) -> [Double; 9],
            P: Fn(Double, Double) -> Double,
            T: Fn(Double, Double) -> Double,
            V: Fn(Double, Double) -> Double,
    >(
        &self,
        state: &mut State,
        values: &mut Estimates,
        features: &mut Vec<Feature>,
        locate: &F,
        distort: &D,
        slope: &J,
        angles: &Angles<L, A, C, S, K>,
        cancel: &E,
        rotate: &R,
        distance: &M,
        wide: &W,
        solve: &I,
        turn: &U,
        plus: &P,
        times: &T,
        divide: &V,
    ) -> (done: Result<Option<Vec<Double>>, UpdateFault>)
        requires
            old(state).wf(),
            old(values).fits(old(state)),
            forall|i: int|
                0 <= i < old(features)@.len() ==> well_seen(
                    old(state),
                    #[trigger] old(features)@[i],
                ),
            room(old(state).dim(), old(features)@),
            locates(*locate),
            self.rep_msckf.spec_is_relative() ==> anchors_in(*locate, old(state)),
            answers(*distort),
            answers(*slope),
            angles.wf(),
            cancels(*cancel),
            mixes(*rotate),
            sizes(*distance),
            tells_percentiles(*wide),
            inverts(*solve),
            turns(*turn),
            binary(*plus),
            binary(*times),
            binary(*divide),
        ensures
            final(state).wf(),
            final(values).fits(final(state)),
            same_window(old(state), final(state)),
            final(state).features_slam@.len() == old(state).features_slam@.len(),
            exists|clean: Seq<Feature>, jacs: Seq<FeatureJacobian>, systems: Seq<FeatureSystem>|
                #[trigger]
                window_updated(
                    *self,
                    clean,
                    jacs,
                    systems,
                    old(state),
                    final(state),
                    old(values),
                    final(values),
                    old(features)@,
                    final(features)@,
                    *locate,
                    *distort,
                    *slope,
                    *angles,
                    *cancel,
                    *rotate,
                    *distance,
                    *wide,
                    *solve,
                    *turn,
                    *plus,
                    *times,
                    *divide,
                    done,
                ),
    {
        let ghost op = ring(*plus, *times);
        let ghost first = features@;
        let ghost e = 8 * spans(first, first.len() as int);
        let ghost st = *state;
        let ghost held = *values;
        clean_features(state, features);
        let ghost clean = features@;
        let rep = update_representation(self.rep_msckf);
        let anchored = rep.is_relative();
        proof {
            lemma_measurements_fit(clean, e);
        }
        retain_found(state, features, locate, anchored);
        let ghost left = features@;
        let ghost mut jacs: Seq<FeatureJacobian> = Seq::empty();
        let mut systems: Vec<FeatureSystem> = Vec::new();
        let mut i: usize = 0;
        while i < features.len()
            invariant
                i <= left.len(),
                features@ == left,
                *state == st,
                *values == held,
                st.wf(),
                held.fits(&st),
                op == ring(*plus, *times),
                rep == window_representation(self.rep_msckf),
                8 * spans(left, left.len() as int) <= e,
                e * e <= usize::MAX,
                st.dim() * e <= usize::MAX,
                forall|k: int|
                    0 <= k < left.len() ==> {
                        let f = #[trigger] left[k];
                        &&& well_seen(&st, f)
                        &&& at_clones(&st, f)
                        &&& 2 <= f.spec_measurements()
                        &&& rep.spec_is_relative() ==> 0 <= f.anchor_cam_id
                            < st.calib_imu_to_cam@.len() && clone_exists(
                            &st,
                            f.anchor_clone_timestamp,
                        )
                    },
                answers(*distort),
                answers(*slope),
                angles.wf(),
                cancels(*cancel),
                mixes(*rotate),
                sizes(*distance),
                tells_percentiles(*wide),
                binary(*plus),
                binary(*times),
                binary(*divide),
                jacs.len() == i,
                systems@.len() == i,
                forall|k: int|
                    0 <= k < i ==> fits_feature(#[trigger] systems@[k], &st, left[k]),
                window_assessed(
                    left.take(i as int),
                    jacs,
                    systems@,
                    &st,
                    &held,
                    rep,
                    self.options.chi2_multipler,
                    *distort,
                    *slope,
                    *angles,
                    *cancel,
                    *rotate,
                    *distance,
                    *wide,
                    *times,
                    *divide,
                    op,
                ),
            decreases left.len() - i,
        {
            proof {
                let f = left[i as int];
                assert(well_seen(&st, f) && at_clones(&st, f));
                assert(measurable(&st, &f, rep));
                lemma_room_each(&st, left, e, i as int);
            }
            let (system, jac) = window_system(
                state,
                values,
                &features[i],
                rep,
                self.options.chi2_multipler,
                distort,
                slope,
                angles,
                cancel,
                rotate,
                distance,
                wide,
                plus,
                times,
                divide,
            );
            let ghost before = systems@;
            let ghost known = jacs;
            systems.push(system);
            proof {
                jacs = jacs.push(jac@);
                let now = left.take(i + 1);
                let then = left.take(i as int);
                assert forall|k: int| 0 <= k < now.len() implies is_feature_jacobian(
                    &#[trigger] jacs[k],
                    &st,
                    &now[k],
                    rep,
                    &held,
                    *distort,
                    *slope,
                    *angles,
                    *divide,
                    op,
                ) by {
                    if k < i {
                        assert(jacs[k] == known[k]);
                        assert(now[k] == then[k]);
                    }
                }
                assert forall|k: int| 0 <= k < now.len() implies is_window_system(
                    #[trigger] systems@[k],
                    jacs[k],
                    &st,
                    self.options.chi2_multipler,
                    *cancel,
                    *rotate,
                    *distance,
                    *wide,
                    *times,
                    op,
                ) by {
                    if k < i {
                        assert(systems@[k] == before[k]);
                        assert(jacs[k] == known[k]);
                    }
                }
            }
            i += 1;
        }
        proof {
            assert(left.take(i as int) =~= left);
            lemma_stackable(systems@, &st, left, e);
        }
        let stack = stack_systems(features, &systems);
        assert(features@ =~= marked(left, systems@));
        let done = match stack {
            None => Ok(None),
            Some(s) => commit_stack(
                state,
                values,
                s,
                self.options.sigma_pix_sq,
                true,
                cancel,
                rotate,
                solve,
                turn,
                plus,
                times,
                Ghost(systems@),
            ),
        };
        assert(window_updated(
            *self,
            clean,
            jacs,
            systems@,
            &st,
            state,
            &held,
            values,
            first,
            features@,
            *locate,
            *distort,
            *slope,
            *angles,
            *cancel,
            *rotate,
            *distance,
            *wide,
            *solve,
            *turn,
            *plus,
            *times,
            *divide,
            done,
        ));
        done
    }
}

/// Where there is room for all, the measurements of each can be counted.
pub proof fn lemma_measurements_fit(features: Seq<Feature>, e: int)
    requires
        8 * spans(features, features.len() as int) <= e,
        e * e <= usize::MAX,
    ensures
        forall|i: int|
            0 <= i < features.len() ==> (#[trigger] features[i]).spec_measurements() <= usize::MAX,
{
    assert forall|i: int| 0 <= i < features.len() implies (
    #[trigger] features[i]).spec_measurements() <= usize::MAX by {
        lemma_spans(features, i, features.len() as int);
        lemma_span(features[i]);
        assert(e <= e * e) by (nonlinear_arith)
            requires
                0 <= e,
        ;
    }
}

} // verus!
