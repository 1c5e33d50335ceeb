//! The update with state features: which measurements are used, how features
//! enter the state, and when their anchors move.

use vstd::prelude::*;

use crate::double::Double;
use crate::matrix::Matrix;
use crate::vio::landmark::{parameters, Landmark, PointForms};
use crate::vio::options::{FeatRepresentation, UpdaterOptions};
use crate::vio::state::{Run, State};
use crate::vio::state_helper::{column, feature_known, hx_col, lemma_column_monotonic};
use crate::vio::updater::{
    kept, retain_flagged, rows_before, stack_systems, stacked_order, stacks, FeatureSystem,
    StackedSystem,
};
use crate::vio::updater_helper::{clone_exists, distinct, lemma_distinct_push, register, Feature};

verus! {

/// The place of a feature in the state; the number of features if it is not there.
pub open spec fn landmark_at(features: Seq<Landmark>, featid: usize, i: int) -> int
    decreases features.len() - i,
{
    if i >= features.len() {
        features.len() as int
    } else if features[i].featid == featid {
        i
    } else {
        landmark_at(features, featid, i + 1)
    }
}

/// The place of a feature in the state, if it is there.
pub fn find_landmark(state: &State, featid: usize) -> (place: Option<usize>)
    ensures
        match place {
            Some(i) => i < state.features_slam@.len() && i == landmark_at(
                state.features_slam@,
                featid,
                0,
            ) && state.features_slam@[i as int].featid == featid,
            None => landmark_at(state.features_slam@, featid, 0) == state.features_slam@.len()
                && !feature_known(state, featid),
        },
{
    let mut i: usize = 0;
    while i < state.features_slam.len()
        invariant
            i <= state.features_slam@.len(),
            landmark_at(state.features_slam@, featid, 0) == landmark_at(
                state.features_slam@,
                featid,
                i as int,
            ),
            forall|k: int| 0 <= k < i ==> (#[trigger] state.features_slam@[k]).featid != featid,
        decreases state.features_slam@.len() - i,
    {
        if state.features_slam[i].featid == featid {
            return Some(i);
        }
        i += 1;
    }
    None
}

/// How many measurements a feature needs: two where its state is a single
/// inverse depth, else one.
pub open spec fn required(st: &State, featid: usize) -> int {
    let i = landmark_at(st.features_slam@, featid, 0);
    if i < st.features_slam@.len() && st.features_slam@[i].representation
        is AnchoredInverseDepthSingle {
        2
    } else {
        1
    }
}

/// Which features have enough measurements for an update.
pub open spec fn updatable(st: &State, features: Seq<Feature>) -> Seq<bool> {
    Seq::new(
        features.len(),
        |i: int| features[i].spec_measurements() >= required(st, features[i].featid),
    )
}

/// Drops the features with too few measurements.
pub fn retain_updatable(state: &State, features: &mut Vec<Feature>)
    requires
        forall|i: int|
            0 <= i < old(features)@.len() ==> (#[trigger] old(features)@[i]).spec_measurements()
                <= usize::MAX,
    ensures
        final(features)@ == kept(
            old(features)@,
            updatable(state, old(features)@),
            old(features)@.len() as int,
        ),
{
    let mut keep: Vec<bool> = Vec::new();
    let mut i: usize = 0;
    while i < features.len()
        invariant
            i <= features@.len(),
            features@ == old(features)@,
            forall|k: int|
                0 <= k < features@.len() ==> (#[trigger] features@[k]).spec_measurements()
                    <= usize::MAX,
            keep@.len() == i,
            forall|k: int| 0 <= k < i ==> #[trigger] keep@[k] == updatable(state, features@)[k],
        decreases features@.len() - i,
    {
        let need: usize = match find_landmark(state, features[i].featid) {
            Some(l) => if state.features_slam[l].representation
                == FeatRepresentation::AnchoredInverseDepthSingle {
                2
            } else {
                1
            },
            None => 1,
        };
        keep.push(features[i].measurements() >= need);
        i += 1;
    }
    assert(keep@ =~= updatable(state, features@));
    retain_flagged(features, &keep);
}

/// The entry of a feature's derivative that joins the state's: all of it, or for
/// a single inverse depth its last column.
pub open spec fn joined_at(h_x: &Matrix, h_f: &Matrix, single: bool, i: int, j: int) -> Double {
    if j < h_x.width() {
        h_x.at(i, j)
    } else if single {
        h_f.at(i, h_f.width() - 1)
    } else {
        h_f.at(i, j - h_x.width())
    }
}

/// Whether the derivative by a feature is joined to that by the state: all of it,
/// or for a single inverse depth its last column, with the others beside it.
pub open spec fn joins(joined: (Matrix, Matrix), h_x: &Matrix, h_f: &Matrix, single: bool) -> bool {
    &&& joined.0.shaped(
        h_x.height(),
        h_x.width() + (if single {
            1
        } else {
            h_f.width()
        }),
    )
    &&& forall|i: int, j: int|
        joined.0.has(i, j) ==> #[trigger] joined.0.at(i, j) == joined_at(h_x, h_f, single, i, j)
    &&& joined.1.shaped(
        h_x.height(),
        if single {
            h_f.width() - 1
        } else {
            0
        },
    )
    &&& forall|i: int, j: int| joined.1.has(i, j) ==> #[trigger] joined.1.at(i, j) == h_f.at(i, j)
}

/// Appends the derivative by a feature to that by the state. With a single
/// inverse depth only the depth joins the state; the other columns are returned
/// beside it, to be eliminated.
pub fn join_feature(h_x: &Matrix, h_f: &Matrix, single: bool) -> (joined: (Matrix, Matrix))
    requires
        h_x.wf(),
        h_f.wf(),
        h_f.height() == h_x.height(),
        h_f.width() >= 1,
        h_x.width() + h_f.width() <= usize::MAX,
        h_x.height() * (h_x.width() + h_f.width()) <= usize::MAX,
    ensures
        joins(joined, h_x, h_f, single),
{
    let rows: usize = h_x.nrows();
    let cols: usize = h_x.ncols();
    let f: usize = h_f.ncols();
    let more: usize = if single {
        1
    } else {
        f
    };
    let bearing: usize = if single {
        f - 1
    } else {
        0
    };
    proof {
        assert(rows * (cols + more) <= rows * (cols + f)) by (nonlinear_arith)
            requires
                more <= f,
        ;
        assert(rows * more <= rows * (cols + f)) by (nonlinear_arith)
            requires
                more <= f,
        ;
        assert(rows * bearing <= rows * (cols + f)) by (nonlinear_arith)
            requires
                bearing <= f,
        ;
    }
    let mut joined = Matrix::filled(rows, cols + more, Double::zero());
    joined.set_block(0, 0, h_x);
    let tail = h_f.block(0, f - more, rows, more);
    joined.set_block(0, cols, &tail);
    assert forall|i: int, j: int| joined.has(i, j) implies #[trigger] joined.at(i, j) == joined_at(
        h_x,
        h_f,
        single,
        i,
        j,
    ) by {
        assert(tail.has(i, j - cols) <==> j >= cols);
        assert(h_x.has(i, j) <==> j < cols);
    }
    (joined, h_f.block(0, 0, rows, bearing))
}

/// How many of the first `n` features with the given number were rejected.
pub open spec fn rejections(
    features: Seq<Feature>,
    systems: Seq<FeatureSystem>,
    featid: usize,
    n: int,
) -> int
    decreases n,
{
    if n <= 0 {
        0
    } else {
        rejections(features, systems, featid, n - 1) + (if systems[n - 1].rejected()
            && features[n - 1].featid == featid {
            1int
        } else {
            0
        })
    }
}

/// The record of a state feature after `fails` failed updates: more than two
/// failures in all send it off.
pub open spec fn failed(l: Landmark, fails: int) -> Landmark {
    Landmark {
        update_fail_count: (l.update_fail_count + fails) as usize,
        should_marg: l.should_marg || (fails > 0 && l.update_fail_count + fails > 2),
        ..l
    }
}

/// Which systems are used.
pub open spec fn used(systems: Seq<FeatureSystem>) -> Seq<bool> {
    Seq::new(systems.len(), |i: int| !systems[i].rejected())
}

/// Rejections never count down.
proof fn lemma_rejections(
    features: Seq<Feature>,
    systems: Seq<FeatureSystem>,
    featid: usize,
    i: int,
    j: int,
)
    requires
        0 <= i <= j,
    ensures
        0 <= rejections(features, systems, featid, i) <= rejections(features, systems, featid, j),
    decreases j,
{
    if i < j {
        lemma_rejections(features, systems, featid, i, j - 1);
    } else if i > 0 {
        lemma_rejections(features, systems, featid, i - 1, i - 1);
    }
}

/// Counts the failed updates of the state's features.
fn count_failures(state: &mut State, features: &Vec<Feature>, systems: &Vec<FeatureSystem>)
    requires
        features@.len() == systems@.len(),
        old(state).features_unique(),
        forall|q: int|
            0 <= q < old(state).features_slam@.len() ==> (
            #[trigger] old(state).features_slam@[q]).update_fail_count + rejections(
                features@,
                systems@,
                old(state).features_slam@[q].featid,
                systems@.len() as int,
            ) <= usize::MAX,
    ensures
        *final(state) == (State { features_slam: final(state).features_slam, ..*old(state) }),
        final(state).features_slam@.len() == old(state).features_slam@.len(),
        forall|q: int|
            0 <= q < old(state).features_slam@.len() ==> #[trigger] final(state).features_slam@[q]
                == failed(
                old(state).features_slam@[q],
                rejections(
                    features@,
                    systems@,
                    old(state).features_slam@[q].featid,
                    systems@.len() as int,
                ),
            ),
{
    let n: usize = systems.len();
    let ghost first = *state;
    let mut k: usize = 0;
    while k < n
        invariant
            k <= n,
            n == systems@.len(),
            features@.len() == n,
            first == *old(state),
            first.features_unique(),
            forall|q: int|
                0 <= q < first.features_slam@.len() ==> (
                #[trigger] first.features_slam@[q]).update_fail_count + rejections(
                    features@,
                    systems@,
                    first.features_slam@[q].featid,
                    n as int,
                ) <= usize::MAX,
            *state == (State { features_slam: state.features_slam, ..first }),
            state.features_slam@.len() == first.features_slam@.len(),
            forall|q: int|
                0 <= q < first.features_slam@.len() ==> #[trigger] state.features_slam@[q] == failed(
                    first.features_slam@[q],
                    rejections(features@, systems@, first.features_slam@[q].featid, k as int),
                ),
        decreases n - k,
    {
        if systems[k].threshold.lt(systems[k].chi2) {
            let featid: usize = features[k].featid;
            let found = find_landmark(state, featid);
            if let Some(i) = found {
                proof {
                    assert(first.features_slam@[i as int].featid == featid);
                    lemma_rejections(features@, systems@, featid, k + 1, n as int);
                    lemma_rejections(features@, systems@, featid, 0, k as int);
                }
                let fails: usize = state.features_slam[i].update_fail_count + 1;
                state.features_slam[i].update_fail_count = fails;
                if fails > 2 {
                    state.features_slam[i].should_marg = true;
                }
            }
            assert forall|q: int| 0 <= q < first.features_slam@.len() implies (
            #[trigger] state.features_slam@[q]) == failed(
                first.features_slam@[q],
                rejections(features@, systems@, first.features_slam@[q].featid, k + 1),
            ) by {
                lemma_rejections(
                    features@,
                    systems@,
                    first.features_slam@[q].featid,
                    0,
                    k as int,
                );
                if first.features_slam@[q].featid == featid {
                    match found {
                        Some(i) => {
                            assert(first.features_slam@[i as int].featid == featid);
                            assert(q == i) by {
                                if q < i {
                                    assert(first.features_slam@[q].featid
                                        != first.features_slam@[i as int].featid);
                                }
                                if i < q {
                                    assert(first.features_slam@[i as int].featid
                                        != first.features_slam@[q].featid);
                                }
                            }
                        },
                        None => {},
                    }
                }
            }
        }
        k += 1;
    }
}

/// A feature that the tracker should forget.
pub open spec fn forgotten(f: Feature) -> Feature {
    Feature { to_delete: true, ..f }
}

/// Marks every feature of a list for deletion.
fn forget_all(features: &mut Vec<Feature>)
    ensures
        final(features)@.len() == old(features)@.len(),
        forall|i: int|
            0 <= i < old(features)@.len() ==> #[trigger] final(features)@[i] == forgotten(
                old(features)@[i],
            ),
{
    let mut i: usize = 0;
    while i < features.len()
        invariant
            i <= features@.len(),
            features@.len() == old(features)@.len(),
            forall|k: int|
                0 <= k < features@.len() ==> #[trigger] features@[k] == (if k < i {
                    forgotten(old(features)@[k])
                } else {
                    old(features)@[k]
                }),
        decreases features@.len() - i,
    {
        features[i].to_delete = true;
        i += 1;
    }
}

/// Stacks the residual systems of the state's features, rejecting those with too
/// large a residual. A rejected feature is dropped from the list and counts a
/// failure in the state; the others stay, marked for deletion in the tracker.
pub fn stack_slam(
    state: &mut State,
    features: &mut Vec<Feature>,
    systems: &Vec<FeatureSystem>,
) -> (stack: Option<StackedSystem>)
    requires
        old(state).features_unique(),
        old(features)@.len() == systems@.len(),
        forall|k: int| 0 <= k < systems@.len() ==> (#[trigger] systems@[k]).wf(),
        forall|k: int|
            0 <= k < old(features)@.len() ==> feature_known(
                old(state),
                (#[trigger] old(features)@[k]).featid,
            ),
        forall|q: int|
            0 <= q < old(state).features_slam@.len() ==> (
            #[trigger] old(state).features_slam@[q]).update_fail_count + rejections(
                old(features)@,
                systems@,
                old(state).features_slam@[q].featid,
                systems@.len() as int,
            ) <= usize::MAX,
        rows_before(systems@, systems@.len() as int) <= usize::MAX,
        column(stacked_order(systems@), stacked_order(systems@).len() as int) <= usize::MAX,
        rows_before(systems@, systems@.len() as int) * column(
            stacked_order(systems@),
            stacked_order(systems@).len() as int,
        ) <= usize::MAX,
    ensures
        *final(state) == (State { features_slam: final(state).features_slam, ..*old(state) }),
        final(state).features_slam@.len() == old(state).features_slam@.len(),
        forall|q: int|
            0 <= q < old(state).features_slam@.len() ==> #[trigger] final(state).features_slam@[q]
                == failed(
                old(state).features_slam@[q],
                rejections(
                    old(features)@,
                    systems@,
                    old(state).features_slam@[q].featid,
                    systems@.len() as int,
                ),
            ),
        final(features)@ == kept(
            old(features)@,
            used(systems@),
            systems@.len() as int,
        ).map_values(|f: Feature| forgotten(f)),
        match stack {
            Some(s) => rows_before(systems@, systems@.len() as int) > 0 && stacks(&s, systems@),
            None => rows_before(systems@, systems@.len() as int) == 0,
        },
{
    count_failures(state, features, systems);
    let ghost before = features@;
    let stack = stack_systems(features, systems);
    let ghost marked = features@;
    let mut keep: Vec<bool> = Vec::new();
    let mut k: usize = 0;
    while k < systems.len()
        invariant
            k <= systems@.len(),
            keep@.len() == k,
            forall|i: int| 0 <= i < k ==> #[trigger] keep@[i] == !systems@[i].rejected(),
        decreases systems@.len() - k,
    {
        keep.push(!systems[k].threshold.lt(systems[k].chi2));
        k += 1;
    }
    assert(keep@ =~= used(systems@));
    retain_flagged(features, &keep);
    proof {
        lemma_kept_same(before, marked, used(systems@), systems@.len() as int);
    }
    forget_all(features);
    assert(features@ =~= kept(before, used(systems@), systems@.len() as int).map_values(
        |f: Feature| forgotten(f),
    ));
    stack
}

/// Lists that agree on what is kept keep the same.
proof fn lemma_kept_same(a: Seq<Feature>, b: Seq<Feature>, keep: Seq<bool>, n: int)
    requires
        0 <= n <= keep.len(),
        a.len() == keep.len(),
        b.len() == keep.len(),
        forall|i: int| 0 <= i < keep.len() && #[trigger] keep[i] ==> a[i] == b[i],
    ensures
        kept(a, keep, n) == kept(b, keep, n),
    decreases n,
{
    if n > 0 {
        lemma_kept_same(a, b, keep, n - 1);
    }
}

/// Whether a feature of the state is new made of a tracked feature: anchored where
/// its representation asks for it, with the point as estimate and first estimate.
pub open spec fn newly_made(
    l: Landmark,
    feature: &Feature,
    rep: FeatRepresentation,
    in_anchor: PointForms,
    in_global: PointForms,
) -> bool {
    &&& l.wf()
    &&& l.featid == feature.featid
    &&& l.id == -1
    &&& l.unique_camera_id == feature.anchor_cam_id
    &&& l.anchor_cam_id == (if rep.spec_is_relative() {
        feature.anchor_cam_id as int
    } else {
        -1
    })
    &&& l.anchor_clone_timestamp == (if rep.spec_is_relative() {
        feature.anchor_clone_timestamp
    } else {
        Double { bits: crate::double::MINUS_ONE_BITS }
    })
    &&& !l.has_had_anchor_change
    &&& !l.should_marg
    &&& l.update_fail_count == 0
    &&& l.representation == rep
    &&& l.value@ == parameters(
        rep,
        if rep.spec_is_relative() {
            in_anchor
        } else {
            in_global
        },
    )
    &&& l.fej@ == l.value@
    &&& rep is AnchoredInverseDepthSingle ==> l.uv_norm_zero == in_anchor.bearing
        && l.uv_norm_zero_fej == in_anchor.bearing
}

/// A new state feature: anchored where its representation asks for it, with the
/// triangulated point as estimate and first estimate.
pub fn make_landmark(
    feature: &Feature,
    rep: FeatRepresentation,
    in_anchor: &PointForms,
    in_global: &PointForms,
) -> (l: Landmark)
    ensures
        newly_made(l, feature, rep, *in_anchor, *in_global),
{
    let mut l = Landmark::new(rep, feature.featid);
    l.unique_camera_id = feature.anchor_cam_id;
    if rep.is_relative() {
        l.anchor_cam_id = feature.anchor_cam_id;
        l.anchor_clone_timestamp = feature.anchor_clone_timestamp;
        l.set_from_xyz(in_anchor, false);
        l.set_from_xyz(in_anchor, true);
    } else {
        l.set_from_xyz(in_global, false);
        l.set_from_xyz(in_global, true);
    }
    l
}

/// Keeps the features that entered the state, marked for deletion in the
/// tracker, and drops the others.
pub fn retain_initialized(features: &mut Vec<Feature>, added: &Vec<bool>)
    requires
        added@.len() == old(features)@.len(),
    ensures
        final(features)@ == kept(old(features)@, added@, added@.len() as int).map_values(
            |f: Feature| forgotten(f),
        ),
{
    let ghost before = features@;
    retain_flagged(features, added);
    forget_all(features);
    assert(features@ =~= kept(before, added@, added@.len() as int).map_values(
        |f: Feature| forgotten(f),
    ));
}

/// Whether feature `i` has to be anchored anew: it is relative to the clone that
/// is about to leave, from which `near` says it is told apart by nothing.
pub open spec fn anchor_leaves(st: &State, near: Seq<bool>, i: int) -> bool {
    st.features_slam@[i].representation.spec_is_relative() && near[i]
}

/// The features among the first `n` that have to be anchored anew.
pub open spec fn leaving(st: &State, near: Seq<bool>, n: int) -> Seq<usize>
    decreases n,
{
    if n <= 0 {
        seq![]
    } else if anchor_leaves(st, near, n - 1) {
        leaving(st, near, n - 1).push((n - 1) as usize)
    } else {
        leaving(st, near, n - 1)
    }
}

/// The features that have to be anchored anew before the oldest clone leaves a
/// window that is too long. `near` tells of each feature whether its anchor's
/// time is that of the oldest clone; no anchor may be older.
pub fn leaving_anchors(state: &State, near: &Vec<bool>) -> (places: Vec<usize>)
    requires
        near@.len() == state.features_slam@.len(),
        state.clones_imu@.len() > state.options.max_clone_size ==> forall|i: int|
            0 <= i < state.features_slam@.len()
                && state.features_slam@[i].representation.spec_is_relative()
                ==> state.clones_imu@[0].0.spec_le(
                (#[trigger] state.features_slam@[i]).anchor_clone_timestamp,
            ),
    ensures
        places@ == (if state.clones_imu@.len() <= state.options.max_clone_size {
            seq![]
        } else {
            leaving(state, near@, near@.len() as int)
        }),
{
    let mut places: Vec<usize> = Vec::new();
    if state.clones_imu.len() <= state.options.max_clone_size {
        assert(places@ =~= seq![]);
        return places;
    }
    let mut i: usize = 0;
    while i < state.features_slam.len()
        invariant
            i <= state.features_slam@.len(),
            near@.len() == state.features_slam@.len(),
            places@ == leaving(state, near@, i as int),
        decreases state.features_slam@.len() - i,
    {
        let rep = state.features_slam[i].representation;
        if rep != FeatRepresentation::Global3D && rep != FeatRepresentation::GlobalFullInverseDepth
            && near[i] {
            places.push(i);
        }
        i += 1;
    }
    places
}

/// The run of the clone at time `t`, and of the pose of camera `cam` where it
/// is calibrated.
pub open spec fn anchor_blocks(st: &State, cam: int, t: Double) -> Seq<Run> {
    seq![crate::vio::updater_helper::clone_run(st, t)] + (if st.options.do_calib_camera_pose {
        seq![(st.calib_imu_to_cam@[cam].id, 6usize)]
    } else {
        seq![]
    })
}

/// The variables of an anchor.
pub fn h_x_old_blocks(state: &State, cam: usize, t: Double) -> (blocks: Vec<(i32, usize)>)
    requires
        clone_exists(state, t),
        cam < state.calib_imu_to_cam@.len(),
    ensures
        blocks@ == anchor_blocks(state, cam as int, t),
{
    let mut blocks: Vec<(i32, usize)> = Vec::new();
    if let Some(place) = crate::vio::updater_helper::find_clone(state, t) {
        blocks.push((state.clones_imu[place].1.id, 6));
    }
    if state.options.do_calib_camera_pose {
        blocks.push((state.calib_imu_to_cam[cam].id, 6));
    }
    assert(blocks@ =~= anchor_blocks(state, cam as int, t));
    blocks
}

/// The variables on which a feature depends under a new anchor: those of the old
/// anchor, those of the new one, each once, and the feature itself.
pub open spec fn phi_runs(st: &State, l: &Landmark, cam: int, t: Double) -> Seq<Run> {
    distinct(
        anchor_blocks(st, l.anchor_cam_id as int, l.anchor_clone_timestamp) + anchor_blocks(
            st,
            cam,
            t,
        ),
    ).push((l.id, l.value.len()))
}

/// The variables on which a feature depends when it is anchored anew, in the
/// order of the transition's columns, and the number of its rows.
pub fn anchor_change_order(
    state: &State,
    landmark: &Landmark,
    new_anchor_timestamp: Double,
    new_cam_id: usize,
) -> (order: (Vec<(i32, usize)>, usize))
    requires
        landmark.wf(),
        landmark.representation.spec_is_relative(),
        0 <= landmark.anchor_cam_id < state.calib_imu_to_cam@.len(),
        clone_exists(state, landmark.anchor_clone_timestamp),
        new_cam_id < state.calib_imu_to_cam@.len(),
        clone_exists(state, new_anchor_timestamp),
    ensures
        order.0@ == phi_runs(state, landmark, new_cam_id as int, new_anchor_timestamp),
        order.1 == landmark.representation.dim(),
{
    let old_blocks = h_x_old_blocks(
        state,
        landmark.anchor_cam_id as usize,
        landmark.anchor_clone_timestamp,
    );
    let new_blocks = h_x_old_blocks(state, new_cam_id, new_anchor_timestamp);
    let mut order: Vec<(i32, usize)> = Vec::new();
    let ghost mut seen: Seq<Run> = Seq::empty();
    assert(order@ =~= distinct(seen));
    let mut i: usize = 0;
    assert(seen =~= old_blocks@.take(0));
    while i < old_blocks.len()
        invariant
            i <= old_blocks@.len(),
            seen == old_blocks@.take(i as int),
            order@ == distinct(seen),
        decreases old_blocks@.len() - i,
    {
        let run = old_blocks[i];
        register(&mut order, run);
        proof {
            lemma_distinct_push(seen, run);
            seen = seen.push(run);
            assert(seen =~= old_blocks@.take(i + 1));
        }
        i += 1;
    }
    let mut k: usize = 0;
    assert(seen =~= old_blocks@ + new_blocks@.take(0));
    while k < new_blocks.len()
        invariant
            k <= new_blocks@.len(),
            seen == old_blocks@ + new_blocks@.take(k as int),
            order@ == distinct(seen),
        decreases new_blocks@.len() - k,
    {
        let run = new_blocks[k];
        register(&mut order, run);
        proof {
            lemma_distinct_push(seen, run);
            seen = seen.push(run);
            assert(seen =~= old_blocks@ + new_blocks@.take(k + 1));
        }
        k += 1;
    }
    assert(seen =~= old_blocks@ + new_blocks@);
    order.push((landmark.id, landmark.size()));
    let rows: usize = if landmark.representation == FeatRepresentation::AnchoredInverseDepthSingle {
        1
    } else {
        3
    };
    (order, rows)
}

/// Puts the blocks of a transition side by side, each in the columns of its variable.
pub fn join_blocks(order: &Vec<(i32, usize)>, blocks: &Vec<Matrix>, rows: usize) -> (m: Matrix)
    requires
        blocks@.len() == order@.len(),
        forall|p: int|
            0 <= p < order@.len() ==> (#[trigger] blocks@[p]).shaped(
                rows as int,
                order@[p].1 as int,
            ),
        column(order@, order@.len() as int) <= usize::MAX,
        rows * column(order@, order@.len() as int) <= usize::MAX,
    ensures
        m.shaped(rows as int, column(order@, order@.len() as int)),
        forall|p: int, r: int, c: int|
            0 <= p < order@.len() && 0 <= r < rows && 0 <= c < order@[p].1 ==> #[trigger] block_at(
                &m,
                order@,
                p,
                r,
                c,
            ) == blocks@[p].at(r, c),
{
    let cols = hx_col(order.len(), order);
    let ghost runs = order@;
    let mut m = Matrix::filled(rows, cols, Double::zero());
    let mut col: usize = 0;
    let mut p: usize = 0;
    while p < order.len()
        invariant
            p <= order@.len(),
            runs == order@,
            blocks@.len() == runs.len(),
            forall|q: int|
                0 <= q < runs.len() ==> (#[trigger] blocks@[q]).shaped(
                    rows as int,
                    runs[q].1 as int,
                ),
            cols == column(runs, runs.len() as int),
            col == column(runs, p as int),
            m.shaped(rows as int, cols as int),
            forall|q: int, r: int, c: int|
                0 <= q < p && 0 <= r < rows && 0 <= c < runs[q].1 ==> #[trigger] block_at(
                    &m,
                    runs,
                    q,
                    r,
                    c,
                ) == blocks@[q].at(r, c),
        decreases order@.len() - p,
    {
        proof {
            lemma_column_monotonic(runs, p as int, runs.len() as int);
            lemma_column_monotonic(runs, p + 1, runs.len() as int);
        }
        assert(blocks@[p as int].shaped(rows as int, runs[p as int].1 as int));
        let ghost before = m;
        m.set_block(0, col, &blocks[p]);
        assert forall|q: int, r: int, c: int|
            0 <= q < p + 1 && 0 <= r < rows && 0 <= c < runs[q].1 implies #[trigger] block_at(
            &m,
            runs,
            q,
            r,
            c,
        ) == blocks@[q].at(r, c) by {
            lemma_column_monotonic(runs, q, runs.len() as int);
            lemma_column_monotonic(runs, q, p as int);
            assert(before.has(r, column(runs, q) + c));
            if q < p {
                assert(block_at(&before, runs, q, r, c) == blocks@[q].at(r, c));
            }
        }
        col += order[p].1;
        p += 1;
    }
    m
}

/// The entry of side-by-side blocks for row `r` and column `c` of variable `p`.
pub open spec fn block_at(m: &Matrix, order: Seq<Run>, p: int, r: int, c: int) -> Double {
    m.at(r, column(order, p) + c)
}

/// Whether a feature became another by a new anchor, with its point and first
/// point in the new anchor's coordinates.
pub open spec fn reanchored(
    before: Landmark,
    after: Landmark,
    cam: i32,
    t: Double,
    point: PointForms,
    point_fej: PointForms,
) -> bool {
    let single = before.representation is AnchoredInverseDepthSingle;
    &&& after.wf()
    &&& after.value@ == parameters(before.representation, point)
    &&& after.fej@ == parameters(before.representation, point_fej)
    &&& after == (Landmark {
        anchor_cam_id: cam,
        anchor_clone_timestamp: t,
        has_had_anchor_change: true,
        value: after.value,
        fej: after.fej,
        uv_norm_zero: if single {
            point.bearing
        } else {
            before.uv_norm_zero
        },
        uv_norm_zero_fej: if single {
            point_fej.bearing
        } else {
            before.uv_norm_zero_fej
        },
        ..before
    })
}

/// Gives a feature its new anchor, with its point and first point in the new
/// anchor's coordinates.
pub fn set_anchor(
    landmark: &mut Landmark,
    new_anchor_timestamp: Double,
    new_cam_id: i32,
    point: &PointForms,
    point_fej: &PointForms,
)
    requires
        old(landmark).wf(),
        old(landmark).representation.spec_is_relative(),
        old(landmark).anchor_cam_id != -1,
    ensures
        reanchored(
            *old(landmark),
            *final(landmark),
            new_cam_id,
            new_anchor_timestamp,
            *point,
            *point_fej,
        ),
{
    landmark.anchor_cam_id = new_cam_id;
    landmark.anchor_clone_timestamp = new_anchor_timestamp;
    landmark.set_from_xyz(point, false);
    landmark.set_from_xyz(point_fej, true);
    landmark.has_had_anchor_change = true;
}

/// A feature that fails three updates in a row from a clean record leaves the state.
pub proof fn law_three_failures_send_off(l: Landmark)
    requires
        l.update_fail_count == 0,
        !l.should_marg,
    ensures
        failed(l, 3).should_marg,
        !failed(l, 2).should_marg,
        failed(failed(l, 1), 2) == failed(l, 3),
{
}

/// Every relative feature keeps an anchor in the window: those whose anchor is
/// about to leave get the time of a clone that stays, and the others have an
/// anchor that stays.
pub proof fn law_anchors_stay_in_window(
    before: &State,
    moved: &State,
    after: &State,
    near: Seq<bool>,
    t: Double,
)
    requires
        before.clones_imu@.len() > 0,
        near.len() == before.features_slam@.len(),
        forall|i: int|
            0 <= i < before.features_slam@.len()
                && before.features_slam@[i].representation.spec_is_relative() ==> clone_exists(
                before,
                (#[trigger] before.features_slam@[i]).anchor_clone_timestamp,
            ),
        forall|i: int|
            0 <= i < before.features_slam@.len() && (
            #[trigger] before.features_slam@[i]).anchor_clone_timestamp == before.clones_imu@[0].0
                ==> near[i],
        moved.clones_imu@ == before.clones_imu@,
        moved.features_slam@.len() == before.features_slam@.len(),
        forall|i: int|
            0 <= i < before.features_slam@.len() ==> (
            #[trigger] moved.features_slam@[i]).representation
                == before.features_slam@[i].representation
                && moved.features_slam@[i].anchor_clone_timestamp == (if anchor_leaves(
                before,
                near,
                i,
            ) {
                t
            } else {
                before.features_slam@[i].anchor_clone_timestamp
            }),
        exists|k: int| 1 <= k < before.clones_imu@.len() && (#[trigger] before.clones_imu@[k]).0 == t,
        crate::vio::state_helper::window_slid(moved, after),
    ensures
        forall|i: int|
            0 <= i < after.features_slam@.len()
                && after.features_slam@[i].representation.spec_is_relative() ==> clone_exists(
                after,
                (#[trigger] after.features_slam@[i]).anchor_clone_timestamp,
            ),
{
    assert forall|i: int|
        0 <= i < after.features_slam@.len()
            && after.features_slam@[i].representation.spec_is_relative() implies clone_exists(
        after,
        (#[trigger] after.features_slam@[i]).anchor_clone_timestamp,
    ) by {
        let a = after.features_slam@[i].anchor_clone_timestamp;
        assert(moved.features_slam@[i].anchor_clone_timestamp == a);
        let k = if anchor_leaves(before, near, i) {
            choose|k: int|
                1 <= k < before.clones_imu@.len() && (#[trigger] before.clones_imu@[k]).0 == t
        } else {
            assert(clone_exists(before, before.features_slam@[i].anchor_clone_timestamp));
            lemma_clone_at(before.clones_imu@, a, 0);
            crate::vio::updater_helper::clone_at(before.clones_imu@, a, 0)
        };
        assert(k >= 1);
        assert(after.clones_imu@[k - 1].0 == a);
        lemma_clone_found(after.clones_imu@, a, 0, k - 1);
    }
}

/// The place where a time is found holds that time.
proof fn lemma_clone_at(clones: Seq<(Double, crate::vio::state::Variable)>, t: Double, i: int)
    requires
        0 <= i <= clones.len(),
    ensures
        ({
            let k = crate::vio::updater_helper::clone_at(clones, t, i);
            i <= k <= clones.len() && (k < clones.len() ==> clones[k].0 == t)
        }),
    decreases clones.len() - i,
{
    if i < clones.len() && clones[i].0 != t {
        lemma_clone_at(clones, t, i + 1);
    }
}

/// A time that some clone has is found.
proof fn lemma_clone_found(
    clones: Seq<(Double, crate::vio::state::Variable)>,
    t: Double,
    i: int,
    k: int,
)
    requires
        0 <= i <= k < clones.len(),
        clones[k].0 == t,
    ensures
        crate::vio::updater_helper::clone_at(clones, t, i) < clones.len(),
    decreases clones.len() - i,
{
    if clones[i].0 != t {
        lemma_clone_found(clones, t, i + 1, k);
    }
}

/// What a feature needs to enter the state: its point, the size of its residual
/// with the largest that is allowed, and its covariances.
#[derive(Debug)]
pub struct Candidate {
    /// The new state feature.
    pub landmark: Landmark,
    /// The normalized size of the residual.
    pub chi2: Double,
    /// The largest size that is allowed.
    pub threshold: Double,
    /// The covariance with the state.
    pub cross: Matrix,
    /// The feature's own covariance.
    pub own: Matrix,
}

/// Whether a candidate's residual is small enough.
pub open spec fn admitted(c: Candidate) -> bool {
    !c.threshold.spec_lt(c.chi2)
}

/// The update with features of the state.
#[derive(Clone, Copy, Debug, PartialEq, Eq, Structural)]
pub struct UpdaterSlam {
    /// The options.
    pub options: UpdaterOptions,
    /// How new features are written down.
    pub rep_slam: FeatRepresentation,
}

impl UpdaterSlam {
    /// An updater; `sigma_pix_sq` is the square of the options' pixel deviation.
    pub fn new(options: UpdaterOptions, rep_slam: FeatRepresentation, sigma_pix_sq: Double) -> (u:
        UpdaterSlam)
        ensures
            u.options == (UpdaterOptions { sigma_pix_sq, ..options }),
            u.rep_slam == rep_slam,
    {
        UpdaterSlam { options: UpdaterOptions { sigma_pix_sq, ..options }, rep_slam }
    }
}

} // verus!
