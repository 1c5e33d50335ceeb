//! The systems of residuals: which variables a measurement touches, in which
//! columns, and which rows of a system are kept.

use vstd::prelude::*;

use crate::double::Double;
use crate::matrix::Matrix;
use crate::vio::givens::{cancels, joined, mixes, triangular, triangularize, Rotation};
use crate::vio::options::FeatRepresentation;
use crate::vio::state::{Run, State, Variable};
use crate::vio::state_helper::{column, lemma_column_monotonic};

verus! {

/// The times at which one camera measured a feature.
#[derive(Clone, Debug)]
pub struct CameraTrack {
    /// The camera.
    pub cam_id: usize,
    /// The times, one for each measurement.
    pub timestamps: Vec<Double>,
    /// The pixels, one for each measurement.
    pub uvs: Vec<[Double; 2]>,
}

/// A tracked feature.
#[derive(Clone, Debug)]
pub struct Feature {
    /// The feature's number in the tracker.
    pub featid: usize,
    /// Whether the tracker should forget the feature.
    pub to_delete: bool,
    /// The measurements, by camera.
    pub tracks: Vec<CameraTrack>,
    /// The anchor camera; negative without one.
    pub anchor_cam_id: i32,
    /// The time of the anchor clone.
    pub anchor_clone_timestamp: Double,
    /// The position in the anchor camera.
    pub p_fin_a: [Double; 3],
    /// The position in the world.
    pub p_fin_g: [Double; 3],
}

/// The number of measurements in the first `k` tracks.
pub open spec fn measured(tracks: Seq<CameraTrack>, k: int) -> int
    decreases k,
{
    if k <= 0 {
        0
    } else {
        measured(tracks, k - 1) + tracks[k - 1].timestamps@.len()
    }
}

/// More tracks hold no fewer measurements.
pub proof fn lemma_measured_monotonic(tracks: Seq<CameraTrack>, i: int, j: int)
    requires
        0 <= i <= j <= tracks.len(),
    ensures
        0 <= measured(tracks, i) <= measured(tracks, j),
        i < j ==> measured(tracks, i) + tracks[i].timestamps@.len() <= measured(tracks, j),
    decreases j,
{
    if i < j {
        lemma_measured_monotonic(tracks, i, j - 1);
    } else if i > 0 {
        lemma_measured_monotonic(tracks, i - 1, i - 1);
    }
}

impl Feature {
    /// Whether each measurement has its pixel.
    pub open spec fn has_pixels(&self) -> bool {
        forall|k: int|
            0 <= k < self.tracks@.len() ==> (#[trigger] self.tracks@[k]).uvs@.len()
                == self.tracks@[k].timestamps@.len()
    }

    /// The number of measurements.
    pub open spec fn spec_measurements(&self) -> int {
        measured(self.tracks@, self.tracks@.len() as int)
    }

    /// The number of measurements.
    pub fn measurements(&self) -> (n: usize)
        requires
            self.spec_measurements() <= usize::MAX,
        ensures
            n == self.spec_measurements(),
    {
        let mut n: usize = 0;
        let mut i: usize = 0;
        while i < self.tracks.len()
            invariant
                i <= self.tracks@.len(),
                n == measured(self.tracks@, i as int),
                self.spec_measurements() <= usize::MAX,
            decreases self.tracks@.len() - i,
        {
            proof {
                lemma_measured_monotonic(self.tracks@, i + 1, self.tracks@.len() as int);
            }
            n += self.tracks[i].timestamps.len();
            i += 1;
        }
        n
    }
}

/// The runs of a list in the order of their first occurrence.
pub open spec fn distinct(runs: Seq<Run>) -> Seq<Run>
    decreases runs.len(),
{
    if runs.len() == 0 {
        seq![]
    } else {
        let d = distinct(runs.drop_last());
        if d.contains(runs.last()) {
            d
        } else {
            d.push(runs.last())
        }
    }
}

/// What is listed once has the same members, none of them twice.
pub proof fn lemma_distinct(runs: Seq<Run>)
    ensures
        distinct(runs).len() <= runs.len(),
        distinct(runs).no_duplicates(),
        forall|r: Run| #[trigger] distinct(runs).contains(r) <==> runs.contains(r),
    decreases runs.len(),
{
    if runs.len() > 0 {
        let init = runs.drop_last();
        let d = distinct(init);
        lemma_distinct(init);
        assert forall|r: Run| #[trigger] distinct(runs).contains(r) <==> runs.contains(r) by {
            if runs.contains(r) {
                let i = choose|i: int| 0 <= i < runs.len() && runs[i] == r;
                if i < init.len() {
                    assert(init[i] == r);
                    assert(d.contains(r));
                }
                if !d.contains(runs.last()) {
                    assert(d.push(runs.last())[d.len() as int] == runs.last());
                    if d.contains(r) {
                        let k = choose|k: int| 0 <= k < d.len() && d[k] == r;
                        assert(d.push(runs.last())[k] == r);
                    }
                }
            }
            if distinct(runs).contains(r) {
                if d.contains(r) {
                    assert(init.contains(r));
                    let i = choose|i: int| 0 <= i < init.len() && init[i] == r;
                    assert(runs[i] == r);
                } else {
                    assert(runs[runs.len() - 1] == runs.last());
                }
            }
        }
    }
}

/// The list after a run was added, unless it is there already.
pub open spec fn with_run(order: Seq<Run>, run: Run) -> Seq<Run> {
    if order.contains(run) {
        order
    } else {
        order.push(run)
    }
}

/// Listing one more run once is adding it to the list.
pub proof fn lemma_distinct_push(runs: Seq<Run>, run: Run)
    ensures
        distinct(runs.push(run)) == with_run(distinct(runs), run),
{
    assert(runs.push(run).drop_last() =~= runs);
}

/// Adds a run to a list, unless it is there already; returns its place.
pub fn register(order: &mut Vec<(i32, usize)>, run: (i32, usize)) -> (place: usize)
    ensures
        final(order)@ == with_run(old(order)@, run),
        place < final(order)@.len(),
        final(order)@[place as int] == run,
{
    let mut i: usize = 0;
    while i < order.len()
        invariant
            i <= order@.len(),
            order@ == old(order)@,
            forall|k: int| 0 <= k < i ==> #[trigger] order@[k] != run,
        decreases order@.len() - i,
    {
        if order[i].0 == run.0 && order[i].1 == run.1 {
            assert(order@[i as int] == run);
            return i;
        }
        i += 1;
    }
    assert(!order@.contains(run));
    order.push(run);
    i
}

/// The first clone at time `t` from place `i` on; the number of clones if there is none.
pub open spec fn clone_at(clones: Seq<(Double, Variable)>, t: Double, i: int) -> int
    decreases clones.len() - i,
{
    if i >= clones.len() {
        clones.len() as int
    } else if clones[i].0 == t {
        i
    } else {
        clone_at(clones, t, i + 1)
    }
}

/// The first clone at time `t`, if there is one.
pub fn find_clone(state: &State, t: Double) -> (place: Option<usize>)
    ensures
        match place {
            Some(i) => i < state.clones_imu@.len() && i == clone_at(state.clones_imu@, t, 0)
                && state.clones_imu@[i as int].0 == t,
            None => clone_at(state.clones_imu@, t, 0) == state.clones_imu@.len() && forall|k: int|
                0 <= k < state.clones_imu@.len() ==> (#[trigger] state.clones_imu@[k]).0 != t,
        },
{
    let mut i: usize = 0;
    while i < state.clones_imu.len()
        invariant
            i <= state.clones_imu@.len(),
            clone_at(state.clones_imu@, t, 0) == clone_at(state.clones_imu@, t, i as int),
            forall|k: int| 0 <= k < i ==> (#[trigger] state.clones_imu@[k]).0 != t,
        decreases state.clones_imu@.len() - i,
    {
        if state.clones_imu[i].0 == t {
            return Some(i);
        }
        i += 1;
    }
    None
}

/// The run of the first clone at time `t`.
pub open spec fn clone_run(st: &State, t: Double) -> Run {
    (st.clones_imu@[clone_at(st.clones_imu@, t, 0)].1.id, 6usize)
}

/// Whether a clone exists at time `t`.
pub open spec fn clone_exists(st: &State, t: Double) -> bool {
    clone_at(st.clones_imu@, t, 0) < st.clones_imu@.len()
}

/// The runs of a camera that a measurement touches: its pose and its
/// intrinsics, where they are calibrated.
pub open spec fn calibration_runs(st: &State, cam: int) -> Seq<Run> {
    let pose = if st.options.do_calib_camera_pose {
        seq![(st.calib_imu_to_cam@[cam].id, 6usize)]
    } else {
        seq![]
    };
    let intrinsics = if st.options.do_calib_camera_intrinsics {
        seq![(st.cam_intrinsics@[cam].id, 8usize)]
    } else {
        seq![]
    };
    pose + intrinsics
}

/// The runs of the first `m` clones that a track touches.
pub open spec fn time_runs(st: &State, times: Seq<Double>, m: int) -> Seq<Run> {
    Seq::new(m as nat, |i: int| clone_run(st, times[i]))
}

/// The runs that the first `k` tracks touch, in the order in which they come up.
pub open spec fn track_runs(st: &State, tracks: Seq<CameraTrack>, k: int) -> Seq<Run>
    decreases k,
{
    if k <= 0 {
        seq![]
    } else {
        let t = tracks[k - 1];
        track_runs(st, tracks, k - 1) + calibration_runs(st, t.cam_id as int) + time_runs(
            st,
            t.timestamps@,
            t.timestamps@.len() as int,
        )
    }
}

/// The runs of the anchor: its camera's pose, where calibrated, and its clone.
pub open spec fn anchor_runs(st: &State, feature: &Feature, rep: FeatRepresentation) -> Seq<Run> {
    if rep.spec_is_relative() {
        (if st.options.do_calib_camera_pose {
            seq![(st.calib_imu_to_cam@[feature.anchor_cam_id as int].id, 6usize)]
        } else {
            seq![]
        }).push(clone_run(st, feature.anchor_clone_timestamp))
    } else {
        seq![]
    }
}

/// All runs that a feature's measurements touch, in the order in which they come up.
pub open spec fn touched_runs(st: &State, feature: &Feature, rep: FeatRepresentation) -> Seq<Run> {
    anchor_runs(st, feature, rep) + track_runs(st, feature.tracks@, feature.tracks@.len() as int)
}

/// Whether the clones and cameras that a feature's measurements name exist.
pub open spec fn measurable(st: &State, feature: &Feature, rep: FeatRepresentation) -> bool {
    &&& st.calib_imu_to_cam@.len() == st.cam_intrinsics@.len()
    &&& rep.spec_is_relative() ==> clone_exists(st, feature.anchor_clone_timestamp)
        && 0 <= feature.anchor_cam_id < st.calib_imu_to_cam@.len()
    &&& forall|k: int|
        0 <= k < feature.tracks@.len() ==> (#[trigger] feature.tracks@[k]).cam_id
            < st.calib_imu_to_cam@.len()
    &&& forall|k: int, m: int|
        0 <= k < feature.tracks@.len() && 0 <= m < feature.tracks@[k].timestamps@.len()
            ==> clone_exists(st, #[trigger] feature.tracks@[k].timestamps@[m])
}

/// Whether the residual system of a feature fits the machine.
pub open spec fn system_fits(st: &State, feature: &Feature, rep: FeatRepresentation) -> bool {
    let cols = 8 * touched_runs(st, feature, rep).len();
    &&& cols <= usize::MAX
    &&& 6 * feature.spec_measurements() <= usize::MAX
    &&& 2 * feature.spec_measurements() * cols <= usize::MAX
}

/// Where one measurement goes: two rows, and the columns of what it touches.
#[derive(Clone, Copy, Debug)]
pub struct MeasurementPlan {
    /// The camera.
    pub cam_id: usize,
    /// The clone, by its place in the window.
    pub clone: usize,
    /// The first of the two rows.
    pub row: usize,
    /// The first column of the clone.
    pub clone_col: usize,
    /// The first column of the camera's pose, where it is calibrated.
    pub pose_col: Option<usize>,
}

/// Where the anchor of a feature goes.
#[derive(Clone, Copy, Debug)]
pub struct AnchorPlan {
    /// The clone, by its place in the window.
    pub clone: usize,
    /// The first column of the clone.
    pub clone_col: usize,
    /// The first column of the camera's pose, where it is calibrated.
    pub pose_col: Option<usize>,
}

/// The layout of a feature's residual system.
#[derive(Debug)]
pub struct JacobianPlan {
    /// The variables of the columns.
    pub x_order: Vec<(i32, usize)>,
    /// The number of columns for the state.
    pub hx_cols: usize,
    /// The number of columns for the feature.
    pub hf_cols: usize,
    /// The number of rows.
    pub rows: usize,
    /// The anchor, for a feature relative to one.
    pub anchor: Option<AnchorPlan>,
    /// One entry for each measurement.
    pub measurements: Vec<MeasurementPlan>,
}

/// The first column of a run in a list that holds it.
pub open spec fn column_of(order: Seq<Run>, run: Run) -> int {
    column(order, order.index_of(run))
}

/// A run's place in a list without repetitions is where it is found.
pub proof fn lemma_index_of(order: Seq<Run>, place: int)
    requires
        order.no_duplicates(),
        0 <= place < order.len(),
    ensures
        order.index_of(order[place]) == place,
{
    assert(order.contains(order[place]));
}

/// The entry for measurement `m` of track `k` in a list by tracks.
pub open spec fn plan_of(
    plans: Seq<MeasurementPlan>,
    tracks: Seq<CameraTrack>,
    k: int,
    m: int,
) -> MeasurementPlan {
    plans[measured(tracks, k) + m]
}

/// Whether the plan is that of measurement `m` of track `k`.
pub open spec fn planned(
    plan: MeasurementPlan,
    st: &State,
    feature: &Feature,
    order: Seq<Run>,
    k: int,
    m: int,
) -> bool {
    let track = feature.tracks@[k];
    let t = track.timestamps@[m];
    &&& plan.cam_id == track.cam_id
    &&& plan.clone == clone_at(st.clones_imu@, t, 0)
    &&& plan.row == 2 * (measured(feature.tracks@, k) + m)
    &&& plan.clone_col == column_of(order, clone_run(st, t))
    &&& plan.pose_col == pose_column(st, order, track.cam_id as int)
}

/// The first column of a camera's pose, where it is calibrated.
pub open spec fn pose_column(st: &State, order: Seq<Run>, cam: int) -> Option<usize> {
    if st.options.do_calib_camera_pose {
        Some(column_of(order, (st.calib_imu_to_cam@[cam].id, 6usize)) as usize)
    } else {
        None
    }
}

/// The runs that measurements touch have at most eight rows.
pub proof fn lemma_touched_sizes(st: &State, feature: &Feature, rep: FeatRepresentation)
    ensures
        forall|i: int|
            0 <= i < touched_runs(st, feature, rep).len() ==> (#[trigger] touched_runs(
                st,
                feature,
                rep,
            )[i]).1 <= 8,
{
    lemma_track_sizes(st, feature.tracks@, feature.tracks@.len() as int);
}

/// The runs that tracks touch have at most eight rows.
proof fn lemma_track_sizes(st: &State, tracks: Seq<CameraTrack>, k: int)
    requires
        0 <= k <= tracks.len(),
    ensures
        forall|i: int|
            0 <= i < track_runs(st, tracks, k).len() ==> (#[trigger] track_runs(st, tracks, k)[i]).1
                <= 8,
    decreases k,
{
    if k > 0 {
        lemma_track_sizes(st, tracks, k - 1);
        let head = track_runs(st, tracks, k - 1);
        let t = tracks[k - 1];
        let cal = calibration_runs(st, t.cam_id as int);
        let clones = time_runs(st, t.timestamps@, t.timestamps@.len() as int);
        assert forall|i: int| 0 <= i < track_runs(st, tracks, k).len() implies (
        #[trigger] track_runs(st, tracks, k)[i]).1 <= 8 by {
            if i < head.len() {
                assert(track_runs(st, tracks, k)[i] == head[i]);
            } else if i < head.len() + cal.len() {
                assert(track_runs(st, tracks, k)[i] == cal[i - head.len()]);
            } else {
                assert(track_runs(st, tracks, k)[i] == clones[i - head.len() - cal.len()]);
            }
        }
    }
}

/// Runs of at most eight rows take at most eight columns each.
pub proof fn lemma_columns_bounded(order: Seq<Run>, i: int)
    requires
        0 <= i <= order.len(),
        forall|k: int| 0 <= k < order.len() ==> (#[trigger] order[k]).1 <= 8,
    ensures
        column(order, i) <= 8 * i,
    decreases i,
{
    if i > 0 {
        lemma_columns_bounded(order, i - 1);
    }
}

/// The variables that a feature's measurements touch: the anchor first, then
/// for each camera its calibration and the clones of its measurements, each
/// variable where it first comes up.
pub fn feature_columns(state: &State, feature: &Feature, rep: FeatRepresentation) -> (order: Vec<
    (i32, usize),
>)
    requires
        measurable(state, feature, rep),
    ensures
        order@ == distinct(touched_runs(state, feature, rep)),
{
    let mut order: Vec<(i32, usize)> = Vec::new();
    let ghost mut seen: Seq<Run> = Seq::empty();
    assert(order@ =~= distinct(seen));
    if rep.is_relative() {
        if state.options.do_calib_camera_pose {
            let run = (state.calib_imu_to_cam[feature.anchor_cam_id as usize].id, 6usize);
            register(&mut order, run);
            proof {
                lemma_distinct_push(seen, run);
                seen = seen.push(run);
            }
        }
        if let Some(place) = find_clone(state, feature.anchor_clone_timestamp) {
            let run = (state.clones_imu[place].1.id, 6usize);
            register(&mut order, run);
            proof {
                lemma_distinct_push(seen, run);
                seen = seen.push(run);
            }
        }
    }
    let ghost anchor = anchor_runs(state, feature, rep);
    assert(seen =~= anchor + track_runs(state, feature.tracks@, 0));
    let mut k: usize = 0;
    while k < feature.tracks.len()
        invariant
            k <= feature.tracks@.len(),
            measurable(state, feature, rep),
            order@ == distinct(seen),
            seen == anchor + track_runs(state, feature.tracks@, k as int),
        decreases feature.tracks@.len() - k,
    {
        let track = &feature.tracks[k];
        let ghost start = seen;
        assert(feature.tracks@[k as int].cam_id < state.calib_imu_to_cam@.len());
        if state.options.do_calib_camera_pose {
            let run = (state.calib_imu_to_cam[track.cam_id].id, 6usize);
            register(&mut order, run);
            proof {
                lemma_distinct_push(seen, run);
                seen = seen.push(run);
            }
        }
        if state.options.do_calib_camera_intrinsics {
            let run = (state.cam_intrinsics[track.cam_id].id, 8usize);
            register(&mut order, run);
            proof {
                lemma_distinct_push(seen, run);
                seen = seen.push(run);
            }
        }
        let ghost base = seen;
        assert(base =~= start + calibration_runs(state, track.cam_id as int));
        assert(seen =~= base + time_runs(state, track.timestamps@, 0));
        let mut m: usize = 0;
        while m < track.timestamps.len()
            invariant
                k < feature.tracks@.len(),
                *track == feature.tracks@[k as int],
                m <= track.timestamps@.len(),
                measurable(state, feature, rep),
                order@ == distinct(seen),
                seen == base + time_runs(state, track.timestamps@, m as int),
            decreases track.timestamps@.len() - m,
        {
            let t = track.timestamps[m];
            assert(clone_exists(state, feature.tracks@[k as int].timestamps@[m as int]));
            if let Some(place) = find_clone(state, t) {
                let run = (state.clones_imu[place].1.id, 6usize);
                register(&mut order, run);
                proof {
                    lemma_distinct_push(seen, run);
                    seen = seen.push(run);
                    assert(seen =~= base + time_runs(state, track.timestamps@, m + 1));
                }
            }
            m += 1;
        }
        assert(seen =~= anchor + track_runs(state, feature.tracks@, k + 1));
        k += 1;
    }
    order
}

/// The place of a run in a list that holds it.
pub fn find_run(order: &Vec<(i32, usize)>, run: (i32, usize)) -> (place: usize)
    requires
        order@.contains(run),
    ensures
        place < order@.len(),
        order@[place as int] == run,
{
    let mut i: usize = 0;
    while i < order.len()
        invariant
            i <= order@.len(),
            order@.contains(run),
            forall|k: int| 0 <= k < i ==> #[trigger] order@[k] != run,
        decreases order@.len() - i,
    {
        if order[i].0 == run.0 && order[i].1 == run.1 {
            return i;
        }
        i += 1;
    }
    assert(false);
    0
}

/// The first column of a run in a list that holds it once.
pub fn run_column(order: &Vec<(i32, usize)>, run: (i32, usize)) -> (col: usize)
    requires
        order@.contains(run),
        order@.no_duplicates(),
        column(order@, order@.len() as int) <= usize::MAX,
    ensures
        col == column_of(order@, run),
{
    let place = find_run(order, run);
    proof {
        lemma_index_of(order@, place as int);
        lemma_column_monotonic(order@, place as int, order@.len() as int);
    }
    crate::vio::state_helper::hx_col(place, order)
}

/// Whether a plan lays out the residual system of a feature: the variables it
/// touches once each, two rows for each measurement, and for each the columns
/// of its clone and of its camera's pose.
pub open spec fn lays_out(
    plan: &JacobianPlan,
    st: &State,
    feature: &Feature,
    rep: FeatRepresentation,
) -> bool {
    let order = distinct(touched_runs(st, feature, rep));
    &&& plan.x_order@ == order
    &&& plan.hx_cols == column(order, order.len() as int)
    &&& plan.hf_cols == rep.dim()
    &&& plan.rows == 2 * feature.spec_measurements()
    &&& match plan.anchor {
        Some(a) => {
            &&& rep.spec_is_relative()
            &&& a.clone == clone_at(st.clones_imu@, feature.anchor_clone_timestamp, 0)
            &&& a.clone_col == column_of(order, clone_run(st, feature.anchor_clone_timestamp))
            &&& a.pose_col == pose_column(st, order, feature.anchor_cam_id as int)
        },
        None => !rep.spec_is_relative(),
    }
    &&& plan.measurements@.len() == feature.spec_measurements()
    &&& forall|k: int, m: int|
        0 <= k < feature.tracks@.len() && 0 <= m < feature.tracks@[k].timestamps@.len() ==> planned(
            #[trigger] plan_of(plan.measurements@, feature.tracks@, k, m),
            st,
            feature,
            order,
            k,
            m,
        )
}

/// Every run of a track is among those that the feature touches.
pub proof fn lemma_touched(st: &State, feature: &Feature, rep: FeatRepresentation, k: int)
    requires
        0 <= k < feature.tracks@.len(),
    ensures
        st.options.do_calib_camera_pose ==> distinct(touched_runs(st, feature, rep)).contains(
            (st.calib_imu_to_cam@[feature.tracks@[k].cam_id as int].id, 6usize),
        ),
        forall|m: int|
            0 <= m < feature.tracks@[k].timestamps@.len() ==> distinct(
                touched_runs(st, feature, rep),
            ).contains(clone_run(st, #[trigger] feature.tracks@[k].timestamps@[m])),
{
    let all = touched_runs(st, feature, rep);
    let tracks = feature.tracks@;
    let track = tracks[k];
    let n = tracks.len() as int;
    lemma_distinct(all);
    lemma_track_prefix(st, tracks, k + 1, n);
    let anchor = anchor_runs(st, feature, rep);
    let before = anchor.len() + track_runs(st, tracks, k).len();
    let cal = calibration_runs(st, track.cam_id as int);
    if st.options.do_calib_camera_pose {
        assert(track_runs(st, tracks, k + 1)[track_runs(st, tracks, k).len() as int] == cal[0]);
        assert(all[before as int] == cal[0]);
        assert(all.contains(cal[0]));
    }
    assert forall|m: int| 0 <= m < track.timestamps@.len() implies distinct(all).contains(
        clone_run(st, #[trigger] track.timestamps@[m]),
    ) by {
        let i = track_runs(st, tracks, k).len() + cal.len() + m;
        assert(track_runs(st, tracks, k + 1)[i as int] == clone_run(st, track.timestamps@[m]));
        assert(all[anchor.len() + i] == clone_run(st, track.timestamps@[m]));
        assert(all.contains(clone_run(st, track.timestamps@[m])));
    }
}

/// The runs of fewer tracks are the beginning of those of more.
proof fn lemma_track_prefix(st: &State, tracks: Seq<CameraTrack>, i: int, j: int)
    requires
        0 <= i <= j <= tracks.len(),
    ensures
        track_runs(st, tracks, i).len() <= track_runs(st, tracks, j).len(),
        forall|x: int|
            0 <= x < track_runs(st, tracks, i).len() ==> #[trigger] track_runs(st, tracks, j)[x]
                == track_runs(st, tracks, i)[x],
    decreases j,
{
    if i < j {
        lemma_track_prefix(st, tracks, i, j - 1);
    }
}

/// Lays out the residual system of a feature.
pub fn plan_feature_jacobian(state: &State, feature: &Feature, rep: FeatRepresentation) -> (plan:
    JacobianPlan)
    requires
        measurable(state, feature, rep),
        8 * touched_runs(state, feature, rep).len() <= usize::MAX,
        2 * feature.spec_measurements() <= usize::MAX,
    ensures
        lays_out(&plan, state, feature, rep),
{
    let x_order = feature_columns(state, feature, rep);
    let ghost all = touched_runs(state, feature, rep);
    let ghost order = x_order@;
    proof {
        lemma_distinct(all);
        lemma_touched_sizes(state, feature, rep);
        assert forall|i: int| 0 <= i < order.len() implies (#[trigger] order[i]).1 <= 8 by {
            assert(order.contains(order[i]));
            assert(all.contains(order[i]));
        }
        lemma_columns_bounded(order, order.len() as int);
    }
    let hx_cols = crate::vio::state_helper::hx_col(x_order.len(), &x_order);
    let total = feature.measurements();
    let mut anchor: Option<AnchorPlan> = None;
    if rep.is_relative() {
        if let Some(place) = find_clone(state, feature.anchor_clone_timestamp) {
            let run = (state.clones_imu[place].1.id, 6usize);
            proof {
                let a = anchor_runs(state, feature, rep);
                assert(all[a.len() - 1] == run);
                assert(all.contains(run));
            }
            let clone_col = run_column(&x_order, run);
            let mut pose_col: Option<usize> = None;
            if state.options.do_calib_camera_pose {
                let pose = (state.calib_imu_to_cam[feature.anchor_cam_id as usize].id, 6usize);
                proof {
                    assert(all[0] == pose);
                    assert(all.contains(pose));
                }
                pose_col = Some(run_column(&x_order, pose));
            }
            anchor = Some(AnchorPlan { clone: place, clone_col, pose_col });
        }
    }
    let mut measurements: Vec<MeasurementPlan> = Vec::new();
    let mut c: usize = 0;
    let mut k: usize = 0;
    while k < feature.tracks.len()
        invariant
            k <= feature.tracks@.len(),
            measurable(state, feature, rep),
            2 * feature.spec_measurements() <= usize::MAX,
            order == distinct(all),
            all == touched_runs(state, feature, rep),
            x_order@ == order,
            order.no_duplicates(),
            column(order, order.len() as int) <= usize::MAX,
            c == measured(feature.tracks@, k as int),
            measurements@.len() == c,
            forall|p: int, m: int|
                0 <= p < k && 0 <= m < feature.tracks@[p].timestamps@.len() ==> planned(
                    #[trigger] plan_of(measurements@, feature.tracks@, p, m),
                    state,
                    feature,
                    order,
                    p,
                    m,
                ),
        decreases feature.tracks@.len() - k,
    {
        let track = &feature.tracks[k];
        proof {
            lemma_touched(state, feature, rep, k as int);
            lemma_measured_monotonic(feature.tracks@, k + 1, feature.tracks@.len() as int);
        }
        assert(feature.tracks@[k as int].cam_id < state.calib_imu_to_cam@.len());
        let mut pose_col: Option<usize> = None;
        if state.options.do_calib_camera_pose {
            let pose = (state.calib_imu_to_cam[track.cam_id].id, 6usize);
            pose_col = Some(run_column(&x_order, pose));
        }
        let mut m: usize = 0;
        while m < track.timestamps.len()
            invariant
                k < feature.tracks@.len(),
                *track == feature.tracks@[k as int],
                m <= track.timestamps@.len(),
                measurable(state, feature, rep),
                measured(feature.tracks@, k as int) + track.timestamps@.len()
                    <= feature.spec_measurements(),
                2 * feature.spec_measurements() <= usize::MAX,
                order == distinct(all),
                all == touched_runs(state, feature, rep),
                x_order@ == order,
                order.no_duplicates(),
                column(order, order.len() as int) <= usize::MAX,
                pose_col == pose_column(state, order, track.cam_id as int),
                c == measured(feature.tracks@, k as int) + m,
                measurements@.len() == c,
                forall|x: int|
                    0 <= x < track.timestamps@.len() ==> order.contains(
                        clone_run(state, #[trigger] feature.tracks@[k as int].timestamps@[x]),
                    ),
                forall|p: int, x: int|
                    0 <= p < k && 0 <= x < feature.tracks@[p].timestamps@.len() ==> planned(
                        #[trigger] plan_of(measurements@, feature.tracks@, p, x),
                        state,
                        feature,
                        order,
                        p,
                        x,
                    ),
                forall|x: int|
                    0 <= x < m ==> planned(
                        #[trigger] plan_of(measurements@, feature.tracks@, k as int, x),
                        state,
                        feature,
                        order,
                        k as int,
                        x,
                    ),
            decreases track.timestamps@.len() - m,
        {
            let t = track.timestamps[m];
            assert(clone_exists(state, feature.tracks@[k as int].timestamps@[m as int]));
            assert(order.contains(
                clone_run(state, feature.tracks@[k as int].timestamps@[m as int]),
            ));
            if let Some(place) = find_clone(state, t) {
                let run = (state.clones_imu[place].1.id, 6usize);
                let clone_col = run_column(&x_order, run);
                let ghost before = measurements@;
                measurements.push(
                    MeasurementPlan {
                        cam_id: track.cam_id,
                        clone: place,
                        row: 2 * c,
                        clone_col,
                        pose_col,
                    },
                );
                proof {
                    assert forall|x: int| 0 <= x < m + 1 implies planned(
                        #[trigger] plan_of(measurements@, feature.tracks@, k as int, x),
                        state,
                        feature,
                        order,
                        k as int,
                        x,
                    ) by {
                        if x < m {
                            assert(planned(
                                plan_of(before, feature.tracks@, k as int, x),
                                state,
                                feature,
                                order,
                                k as int,
                                x,
                            ));
                            lemma_measured_monotonic(feature.tracks@, 0, k as int);
                        }
                    }
                    assert forall|p: int, x: int|
                        0 <= p < k && 0 <= x < feature.tracks@[p].timestamps@.len() implies planned(
                        #[trigger] plan_of(measurements@, feature.tracks@, p, x),
                        state,
                        feature,
                        order,
                        p,
                        x,
                    ) by {
                        lemma_measured_monotonic(feature.tracks@, p, k as int);
                        lemma_measured_monotonic(feature.tracks@, 0, p);
                        assert(planned(
                            plan_of(before, feature.tracks@, p, x),
                            state,
                            feature,
                            order,
                            p,
                            x,
                        ));
                    }
                }
            }
            c += 1;
            m += 1;
        }
        k += 1;
    }
    let hf_cols: usize = if rep == FeatRepresentation::AnchoredInverseDepthSingle {
        1
    } else {
        3
    };
    JacobianPlan { x_order, hx_cols, hf_cols, rows: 2 * total, anchor, measurements }
}

/// What was computed for one measurement.
#[derive(Debug)]
pub struct MeasurementEntry {
    /// The residual.
    pub res: [Double; 2],
    /// The derivative by the feature, two rows.
    pub h_f: Matrix,
    /// The derivatives by variables, two rows each, by their places in the list.
    pub blocks: Vec<(usize, Matrix)>,
}

/// A feature's residual system.
#[derive(Debug)]
pub struct FeatureJacobian {
    /// The derivative by the feature.
    pub h_f: Matrix,
    /// The derivative by the state, its columns laid out by `x_order`.
    pub h_x: Matrix,
    /// The residual.
    pub res: Vec<Double>,
    /// The variables of the columns.
    pub x_order: Vec<(i32, usize)>,
}

/// Whether an entry fits a list of variables: its blocks name variables of the
/// list, none twice, and have their size.
pub open spec fn entry_fits(entry: &MeasurementEntry, order: Seq<Run>, hf_cols: int) -> bool {
    &&& entry.h_f.shaped(2, hf_cols)
    &&& forall|b: int|
        0 <= b < entry.blocks@.len() ==> (#[trigger] entry.blocks@[b]).0 < order.len()
            && entry.blocks@[b].1.shaped(2, order[entry.blocks@[b].0 as int].1 as int)
    &&& forall|a: int, b: int|
        0 <= a < b < entry.blocks@.len() ==> (#[trigger] entry.blocks@[a]).0 != (
        #[trigger] entry.blocks@[b]).0
}

/// The entry in row `i` (of two) and column `j` of variable `p`: from the
/// variable's block, zero without one.
pub open spec fn entry_value(entry: &MeasurementEntry, n: int, p: int, i: int, j: int) -> Double
    decreases n,
{
    if n <= 0 {
        Double { bits: 0 }
    } else if entry.blocks@[n - 1].0 == p {
        entry.blocks@[n - 1].1.at(i, j)
    } else {
        entry_value(entry, n - 1, p, i, j)
    }
}

/// The entry of a system for row `i` of measurement `c` and column `j` of variable `p`.
pub open spec fn system_at(m: &Matrix, order: Seq<Run>, c: int, i: int, p: int, j: int) -> Double {
    m.at(2 * c + i, column(order, p) + j)
}

/// The two numbers of a residual that belong to measurement `c`.
pub open spec fn residual_at(res: Seq<Double>, c: int) -> (Double, Double) {
    (res[2 * c], res[2 * c + 1])
}

/// The entry of a feature derivative for row `i` of measurement `c`.
pub open spec fn feature_at(m: &Matrix, c: int, i: int, j: int) -> Double {
    m.at(2 * c + i, j)
}

/// Whether a system holds measurement after measurement in two rows each, each
/// derivative in the columns of its variable.
pub open spec fn assembled(jac: &FeatureJacobian, entries: Seq<MeasurementEntry>, hf_cols: int) -> bool {
    let order = jac.x_order@;
    &&& jac.h_f.shaped(2 * entries.len() as int, hf_cols)
    &&& jac.h_x.shaped(2 * entries.len() as int, column(order, order.len() as int))
    &&& jac.res@.len() == 2 * entries.len()
    &&& forall|c: int|
        0 <= c < entries.len() ==> #[trigger] residual_at(jac.res@, c) == (
            entries[c].res@[0],
            entries[c].res@[1],
        )
    &&& forall|c: int, i: int, j: int|
        0 <= c < entries.len() && 0 <= i < 2 && 0 <= j < hf_cols ==> #[trigger] feature_at(
            &jac.h_f,
            c,
            i,
            j,
        ) == entries[c].h_f.at(i, j)
    &&& forall|c: int, i: int, p: int, j: int|
        0 <= c < entries.len() && 0 <= i < 2 && 0 <= p < order.len() && 0 <= j < order[p].1
            ==> #[trigger] system_at(&jac.h_x, order, c, i, p, j) == entry_value(
            &entries[c],
            entries[c].blocks@.len() as int,
            p,
            i,
            j,
        )
}

/// Puts the residual system of a feature together: measurement after
/// measurement in two rows, each derivative in the columns of its variable.
pub fn assemble(
    x_order: Vec<(i32, usize)>,
    hf_cols: usize,
    entries: &Vec<MeasurementEntry>,
) -> (jac: FeatureJacobian)
    requires
        forall|c: int|
            0 <= c < entries@.len() ==> #[trigger] entry_fits(
                &entries@[c],
                x_order@,
                hf_cols as int,
            ),
        2 * entries@.len() * column(x_order@, x_order@.len() as int) <= usize::MAX,
        column(x_order@, x_order@.len() as int) <= usize::MAX,
        2 * entries@.len() * hf_cols <= usize::MAX,
        2 * entries@.len() <= usize::MAX,
    ensures
        jac.x_order == x_order,
        assembled(&jac, entries@, hf_cols as int),
{
    let ghost order = x_order@;
    let n: usize = entries.len();
    let cols = crate::vio::state_helper::hx_col(x_order.len(), &x_order);
    let mut h_f = Matrix::filled(2 * n, hf_cols, Double::zero());
    let mut h_x = Matrix::filled(2 * n, cols, Double::zero());
    let mut res: Vec<Double> = Vec::new();
    assert forall|d: int, i: int, p: int, j: int|
        0 <= d < n && 0 <= i < 2 && 0 <= p < order.len() && 0 <= j
            < order[p].1 implies #[trigger] system_at(&h_x, order, d, i, p, j) == (Double {
        bits: 0,
    }) by {
        lemma_column_monotonic(order, p, order.len() as int);
        assert(h_x.has(2 * d + i, column(order, p) + j));
    }
    let mut c: usize = 0;
    while c < n
        invariant
            c <= n,
            n == entries@.len(),
            2 * n <= usize::MAX,
            order == x_order@,
            cols == column(order, order.len() as int),
            forall|d: int|
                0 <= d < n ==> #[trigger] entry_fits(&entries@[d], order, hf_cols as int),
            h_f.shaped(2 * n, hf_cols as int),
            h_x.shaped(2 * n, cols as int),
            res@.len() == 2 * c,
            forall|d: int|
                0 <= d < c ==> #[trigger] residual_at(res@, d) == (
                    entries@[d].res@[0],
                    entries@[d].res@[1],
                ),
            forall|d: int, i: int, j: int|
                0 <= d < c && 0 <= i < 2 && 0 <= j < hf_cols ==> #[trigger] feature_at(
                    &h_f,
                    d,
                    i,
                    j,
                ) == entries@[d].h_f.at(i, j),
            forall|d: int, i: int, p: int, j: int|
                0 <= d < n && 0 <= i < 2 && 0 <= p < order.len() && 0 <= j < order[p].1
                    ==> #[trigger] system_at(&h_x, order, d, i, p, j) == (if d < c {
                    entry_value(&entries@[d], entries@[d].blocks@.len() as int, p, i, j)
                } else {
                    Double { bits: 0 }
                }),
        decreases n - c,
    {
        let entry = &entries[c];
        assert(entry_fits(&entries@[c as int], order, hf_cols as int));
        let ghost old_res = res@;
        res.push(entry.res[0]);
        res.push(entry.res[1]);
        assert forall|d: int| 0 <= d < c + 1 implies #[trigger] residual_at(res@, d) == (
            entries@[d].res@[0],
            entries@[d].res@[1],
        ) by {
            if d < c {
                assert(residual_at(old_res, d) == (entries@[d].res@[0], entries@[d].res@[1]));
            }
        }
        let ghost old_f = h_f;
        h_f.set_block(2 * c, 0, &entry.h_f);
        assert forall|d: int, i: int, j: int|
            0 <= d < c + 1 && 0 <= i < 2 && 0 <= j < hf_cols implies #[trigger] feature_at(
            &h_f,
            d,
            i,
            j,
        ) == entries@[d].h_f.at(i, j) by {
            assert(old_f.has(2 * d + i, j));
            if d < c {
                assert(feature_at(&old_f, d, i, j) == entries@[d].h_f.at(i, j));
            }
        }
        let ghost start = h_x;
        let mut b: usize = 0;
        while b < entry.blocks.len()
            invariant
                c < n,
                b <= entry.blocks@.len(),
                *entry == entries@[c as int],
                n == entries@.len(),
                2 * n <= usize::MAX,
                order == x_order@,
                cols == column(order, order.len() as int),
                entry_fits(entry, order, hf_cols as int),
                start.shaped(2 * n, cols as int),
                h_x.shaped(2 * n, cols as int),
                forall|d: int, i: int, p: int, j: int|
                    0 <= d < n && 0 <= i < 2 && 0 <= p < order.len() && 0 <= j < order[p].1
                        ==> #[trigger] system_at(&h_x, order, d, i, p, j) == (if d == c {
                        entry_value(entry, b as int, p, i, j)
                    } else {
                        system_at(&start, order, d, i, p, j)
                    }),
            decreases entry.blocks@.len() - b,
        {
            let place: usize = entry.blocks[b].0;
            assert(entry.blocks@[b as int].1.shaped(2, order[place as int].1 as int));
            proof {
                lemma_column_monotonic(order, place as int, order.len() as int);
            }
            let col = crate::vio::state_helper::hx_col(place, &x_order);
            let ghost before = h_x;
            h_x.set_block(2 * c, col, &entry.blocks[b].1);
            assert forall|d: int, i: int, p: int, j: int|
                0 <= d < n && 0 <= i < 2 && 0 <= p < order.len() && 0 <= j
                    < order[p].1 implies #[trigger] system_at(&h_x, order, d, i, p, j) == (if d == c {
                entry_value(entry, b + 1, p, i, j)
            } else {
                system_at(&start, order, d, i, p, j)
            }) by {
                lemma_column_monotonic(order, p, order.len() as int);
                let row = 2 * d + i;
                let at = column(order, p) + j;
                assert(before.has(row, at));
                assert(system_at(&before, order, d, i, p, j) == (if d == c {
                    entry_value(entry, b as int, p, i, j)
                } else {
                    system_at(&start, order, d, i, p, j)
                }));
                if p < place {
                    lemma_column_monotonic(order, p, place as int);
                } else if place < p {
                    lemma_column_monotonic(order, place as int, p);
                }
                assert(entry.blocks@[b as int].1.has(row - 2 * c, at - col) <==> d == c && p
                    == place);
            }
            b += 1;
        }
        c += 1;
    }
    FeatureJacobian { h_f, h_x, res, x_order }
}

/// The rows from `from` on, `count` of them.
pub fn keep_rows(m: &Matrix, from: usize, count: usize) -> (kept: Matrix)
    requires
        m.wf(),
        from + count <= m.height(),
        count * m.width() <= usize::MAX,
    ensures
        kept.shaped(count as int, m.width()),
        forall|i: int, j: int| kept.has(i, j) ==> #[trigger] kept.at(i, j) == m.at(from + i, j),
{
    m.block(from, 0, count, m.ncols())
}

/// The numbers from `from` on, `count` of them.
pub fn keep_entries(v: &Vec<Double>, from: usize, count: usize) -> (kept: Vec<Double>)
    requires
        from + count <= v@.len(),
    ensures
        kept@ == v@.subrange(from as int, from + count),
{
    let mut kept: Vec<Double> = Vec::new();
    let mut i: usize = 0;
    while i < count
        invariant
            i <= count,
            from + count <= v.len(),
            kept@ == v@.subrange(from as int, from + i),
        decreases count - i,
    {
        kept.push(v[from + i]);
        assert(kept@ =~= v@.subrange(from as int, from + i + 1));
        i += 1;
    }
    kept
}

/// Whether a feature was eliminated from a system: its columns are made triangular
/// and their rows dropped.
pub open spec fn eliminated<
    C: Fn(Double, Double) -> Option<Rotation>,
    R: Fn(Rotation, Double, Double) -> (Double, Double),
>(
    h: &Matrix,
    r: Seq<Double>,
    h_f: &Matrix,
    h_x: &Matrix,
    res: Seq<Double>,
    cancel: C,
    rotate: R,
) -> bool {
    let rows = h_f.height();
    let feature = h_f.width();
    let rest = h_x.width();
    let turned = triangular(joined(h_f, h_x, res), cancel, rotate, rows, feature);
    &&& h.shaped(rows - feature, rest)
    &&& forall|i: int, j: int|
        h.has(i, j) ==> #[trigger] h.at(i, j) == turned(feature + i, feature + j)
    &&& r == Seq::new((rows - feature) as nat, |i: int| turned(feature + i, feature + rest))
}

/// A derivative with its residual as a last column.
pub open spec fn with_residual(h_x: &Matrix, res: Seq<Double>) -> spec_fn(int, int) -> Double {
    |i: int, j: int|
        if j < h_x.width() {
            h_x.at(i, j)
        } else {
            res[i]
        }
}

/// Whether a system was compressed: one with more rows than columns is made
/// triangular, and the rows below are dropped.
pub open spec fn compressed<
    C: Fn(Double, Double) -> Option<Rotation>,
    R: Fn(Rotation, Double, Double) -> (Double, Double),
>(h: &Matrix, r: Seq<Double>, h_x: &Matrix, res: Seq<Double>, cancel: C, rotate: R) -> bool {
    let rows = h_x.height();
    let cols = h_x.width();
    if rows <= cols {
        *h == *h_x && r == res
    } else {
        let turned = triangular(
            with_residual(h_x, res),
            cancel,
            rotate,
            rows,
            cols,
        );
        &&& h.shaped(cols, cols)
        &&& forall|i: int, j: int| h.has(i, j) ==> #[trigger] h.at(i, j) == turned(i, j)
        &&& r == Seq::new(cols as nat, |i: int| turned(i, cols))
    }
}

/// Rotates a feature's system until its columns for the feature are triangular,
/// and drops the first rows of the rest, as many as the feature has columns: what
/// is left no longer depends on the feature.
pub fn nullspace_project_inplace<
    C: Fn(Double, Double) -> Option<Rotation>,
    R: Fn(Rotation, Double, Double) -> (Double, Double),
>(h_f: &mut Matrix, h_x: &mut Matrix, res: &mut Vec<Double>, cancel: &C, rotate: &R)
    requires
        old(h_f).wf(),
        old(h_x).wf(),
        old(h_x).height() == old(h_f).height(),
        old(res)@.len() == old(h_f).height(),
        old(h_f).width() <= old(h_f).height(),
        old(h_x).height() * old(h_x).width() <= usize::MAX,
        cancels(*cancel),
        mixes(*rotate),
    ensures
        ({
            let rows = old(h_f).height();
            let feature = old(h_f).width();
            let rest = old(h_x).width();
            let turned = triangular(
                joined(old(h_f), old(h_x), old(res)@),
                *cancel,
                *rotate,
                rows,
                feature,
            );
            &&& final(h_f).shaped(rows, feature)
            &&& forall|i: int, j: int|
                final(h_f).has(i, j) ==> #[trigger] final(h_f).at(i, j) == turned(i, j)
            &&& final(h_x).shaped(rows - feature, rest)
            &&& forall|i: int, j: int|
                final(h_x).has(i, j) ==> #[trigger] final(h_x).at(i, j) == turned(
                    feature + i,
                    feature + j,
                )
            &&& final(res)@ == Seq::new(
                (rows - feature) as nat,
                |i: int| turned(feature + i, feature + rest),
            )
        }),
{
    triangularize(h_f, h_x, res, cancel, rotate);
    let rows: usize = h_x.nrows();
    let feature: usize = h_f.ncols();
    let keep: usize = rows - feature;
    proof {
        h_x.lemma_shape();
        let w = h_x.width();
        assert(keep * w <= rows * w) by (nonlinear_arith)
            requires
                keep <= rows,
                0 <= w,
        ;
    }
    let kept_rows = keep_rows(h_x, feature, keep);
    let kept_entries = keep_entries(res, feature, keep);
    *h_x = kept_rows;
    *res = kept_entries;
}

/// Rotates a system with more rows than columns until it is triangular and drops
/// the rows that are zero then: those beyond its columns. Another system stays as
/// it is.
pub fn measurement_compress_inplace<
    C: Fn(Double, Double) -> Option<Rotation>,
    R: Fn(Rotation, Double, Double) -> (Double, Double),
>(h_x: &mut Matrix, res: &mut Vec<Double>, cancel: &C, rotate: &R)
    requires
        old(h_x).wf(),
        old(res)@.len() == old(h_x).height(),
        old(h_x).height() * old(h_x).width() <= usize::MAX,
        cancels(*cancel),
        mixes(*rotate),
    ensures
        compressed(final(h_x), final(res)@, old(h_x), old(res)@, *cancel, *rotate),
{
    let rows: usize = h_x.nrows();
    let cols: usize = h_x.ncols();
    if rows <= cols {
        return ;
    }
    let mut none = Matrix::filled(rows, 0, Double::zero());
    let ghost entries = with_residual(h_x, res@);
    assert(joined(h_x, &none, res@) =~= entries);
    triangularize(h_x, &mut none, res, cancel, rotate);
    proof {
        assert(cols * cols <= rows * cols) by (nonlinear_arith)
            requires
                cols <= rows,
        ;
    }
    let kept_rows = keep_rows(h_x, 0, cols);
    let kept_entries = keep_entries(res, 0, cols);
    *h_x = kept_rows;
    *res = kept_entries;
    proof {
        let turned = triangular(entries, *cancel, *rotate, rows as int, cols as int);
        assert(res@ =~= Seq::new(cols as nat, |i: int| turned(i, cols as int)));
        assert(compressed(h_x, res@, old(h_x), old(res)@, *cancel, *rotate));
    }
}

} // verus!
