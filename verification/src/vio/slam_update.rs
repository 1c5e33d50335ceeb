//! Updates with features of the state: those that are in it, those that enter it,
//! and those whose anchor is about to leave.

use vstd::prelude::*;

use crate::algebra::{inverts, is, ring, Ring};
use crate::arith::{apply_two, binary};
use crate::double::Double;
use crate::matrix::Matrix;
use crate::vio::feature_init::{
    depth_separated, feature_joined, initialize_feature, joined_state, separate_depth, sizes,
    FeatureFault, Joined,
};
use crate::vio::feature_system::{
    feature_room, fits_feature, is_slam_system, lemma_room, lemma_touched_rows, slam_system, span,
    SlamParts,
};
use crate::vio::feature_update::{
    all_cleaned, anchors_in, at_clones, clean_features, commit_stack, found_features,
    lemma_kept, lemma_measurements_fit, lemma_room_each, lemma_spans_kept, lemma_spans_less, lemma_stackable,
    locates, on_diagonal, pixel_noise, retain_found, room, spans, systems_committed, well_seen,
    Spot,
};
use crate::vio::givens::{cancels, mixes, Rotation};
use crate::vio::estimates::Estimates;
use crate::vio::jacobian::{
    answers, get_feature_jacobian_full, is_feature_jacobian, Angles,
};
use crate::vio::kalman::UpdateFault;
use crate::vio::landmark::{Landmark, PointForms};
use crate::vio::options::FeatRepresentation;
use crate::vio::reanchor::{
    anchored_anew, coordinates, coordinates_of, is_written, perform_anchor_change, write_point,
    AnchorFault,
};
use crate::vio::state::State;
use crate::vio::state_helper::{column, feature_known, same_window};
use crate::vio::updater::{
    kept, tells_percentiles, update_representation, window_representation, FeatureSystem,
};
use crate::vio::updater_helper::{clone_exists, measurable, Feature, FeatureJacobian};
use crate::vio::updater_slam::{
    failed, find_landmark, forgotten, landmark_at, leaving, leaving_anchors, make_landmark,
    newly_made, rejections, retain_initialized, retain_updatable, stack_slam, updatable, used,
    UpdaterSlam,
};
use crate::vio::values::{lemma_same_rows, turns};

verus! {

/// The state's feature with the number of a tracked one.
pub open spec fn landmark_of(st: &State, f: Feature) -> Landmark {
    st.features_slam@[landmark_at(st.features_slam@, f.featid, 0)]
}

/// Whether a tracked feature took its position from the state's, and its anchor
/// where it has one.
pub open spec fn taken_from<
    L: Fn([Double; 3]) -> Double,
    A: Fn(Double, Double) -> Double,
    C: Fn(Double) -> Double,
    S: Fn(Double) -> Double,
    K: Fn(Double) -> Double,
    V: Fn(Double, Double) -> Double,
>(
    l: Landmark,
    before: Feature,
    after: Feature,
    angles: Angles<L, A, C, S, K>,
    divide: V,
    op: Ring,
) -> bool {
    let now = coordinates(l.source(false), angles, divide, op);
    if window_representation(l.representation).spec_is_relative() {
        &&& after == (Feature {
            anchor_cam_id: l.anchor_cam_id,
            anchor_clone_timestamp: l.anchor_clone_timestamp,
            p_fin_a: after.p_fin_a,
            p_fin_g: after.p_fin_g,
            ..before
        })
        &&& after.p_fin_a@ == now
        &&& after.p_fin_g@ == coordinates(l.source(true), angles, divide, op)
    } else {
        after == (Feature { p_fin_g: after.p_fin_g, ..before }) && after.p_fin_g@ == now
    }
}

/// Takes the position of a feature from the state's at `place`, and its anchor where
/// it has one.
fn take_from<
    L: Fn([Double; 3]) -> Double,
    A: Fn(Double, Double) -> Double,
    C: Fn(Double) -> Double,
    S: Fn(Double) -> Double,
    K: Fn(Double) -> Double,
    P: Fn(Double, Double) -> Double,
    T: Fn(Double, Double) -> Double,
    V: Fn(Double, Double) -> Double,
>(
    state: &State,
    place: usize,
    feature: &mut Feature,
    angles: &Angles<L, A, C, S, K>,
    plus: &P,
    times: &T,
    divide: &V,
) -> (rep: FeatRepresentation)
    requires
        place < state.features_slam@.len(),
        state.features_slam@[place as int].wf(),
        angles.wf(),
        binary(*plus),
        binary(*times),
        binary(*divide),
    ensures
        rep == window_representation(state.features_slam@[place as int].representation),
        taken_from(
            state.features_slam@[place as int],
            *old(feature),
            *final(feature),
            *angles,
            *divide,
            ring(*plus, *times),
        ),
{
    let l = &state.features_slam[place];
    let rep = update_representation(l.representation);
    let now = coordinates_of(&l.get_xyz(false), angles, plus, times, divide);
    if rep.is_relative() {
        feature.anchor_cam_id = l.anchor_cam_id;
        feature.anchor_clone_timestamp = l.anchor_clone_timestamp;
        feature.p_fin_a = now;
        feature.p_fin_g = coordinates_of(&l.get_xyz(true), angles, plus, times, divide);
    } else {
        feature.p_fin_g = now;
    }
    rep
}

/// Whether systems are those of features of the state: each takes its position from
/// the state, and its system is made of its jacobian.
pub open spec fn slam_assessed<
    D: Fn(usize, [Double; 2]) -> [Double; 2],
    J: Fn(usize, [Double; 2]) -> [Double; 4],
    L: Fn([Double; 3]) -> Double,
    A: Fn(Double, Double) -> Double,
    C: Fn(Double) -> Double,
    S: Fn(Double) -> Double,
    K: Fn(Double) -> Double,
    E: Fn(Double, Double) -> Option<Rotation>,
    R: Fn(Rotation, Double, Double) -> (Double, Double),
    M: Fn(&Matrix, &Vec<Double>) -> Double,
    W: Fn(usize) -> Double,
    T: Fn(Double, Double) -> Double,
    V: Fn(Double, Double) -> Double,
>(
    u: UpdaterSlam,
    enough: Seq<Feature>,
    left: Seq<Feature>,
    parts: Seq<SlamParts>,
    systems: Seq<FeatureSystem>,
    st: &State,
    values: &Estimates,
    distort: D,
    slope: J,
    angles: Angles<L, A, C, S, K>,
    cancel: E,
    rotate: R,
    distance: M,
    wide: W,
    times: T,
    divide: V,
    op: Ring,
) -> bool {
    &&& left.len() == enough.len()
    &&& parts.len() == enough.len()
    &&& systems.len() == enough.len()
    &&& forall|k: int|
        0 <= k < enough.len() ==> taken_from(
            landmark_of(st, enough[k]),
            enough[k],
            #[trigger] left[k],
            angles,
            divide,
            op,
        )
    &&& forall|k: int|
        0 <= k < enough.len() ==> is_feature_jacobian(
            &(#[trigger] parts[k]).jac,
            st,
            &left[k],
            window_representation(landmark_of(st, enough[k]).representation),
            values,
            distort,
            slope,
            angles,
            divide,
            op,
        )
    &&& forall|k: int|
        0 <= k < enough.len() ==> is_slam_system(
            #[trigger] systems[k],
            parts[k].jac,
            parts[k].joined,
            st,
            landmark_of(st, enough[k]),
            u.options.chi2_multipler,
            u.options.sigma_pix_sq,
            cancel,
            rotate,
            distance,
            wide,
            times,
            op,
        )
}

/// Whether the failures of the state's features were counted.
pub open spec fn failures_counted(
    before: &State,
    after: &State,
    left: Seq<Feature>,
    systems: Seq<FeatureSystem>,
) -> bool {
    &&& *after == (State { features_slam: after.features_slam, ..*before })
    &&& after.features_slam@.len() == before.features_slam@.len()
    &&& forall|q: int|
        0 <= q < before.features_slam@.len() ==> #[trigger] after.features_slam@[q] == failed(
            before.features_slam@[q],
            rejections(
                left,
                systems,
                before.features_slam@[q].featid,
                systems.len() as int,
            ),
        )
}

/// Whether a filter became another by features of the state: cleaned, assessed,
/// counted as failures where rejected, and else stacked and committed.
pub open spec fn slam_updated<
    D: Fn(usize, [Double; 2]) -> [Double; 2],
    J: Fn(usize, [Double; 2]) -> [Double; 4],
    L: Fn([Double; 3]) -> Double,
    A: Fn(Double, Double) -> Double,
    C: Fn(Double) -> Double,
    S: Fn(Double) -> Double,
    K: Fn(Double) -> Double,
    E: Fn(Double, Double) -> Option<Rotation>,
    R: Fn(Rotation, Double, Double) -> (Double, Double),
    M: Fn(&Matrix, &Vec<Double>) -> Double,
    W: Fn(usize) -> Double,
    I: Fn(&Matrix) -> Option<Matrix>,
    U: Fn([Double; 9], [Double; 3]) -> [Double; 9],
    P: Fn(Double, Double) -> Double,
    T: Fn(Double, Double) -> Double,
    V: Fn(Double, Double) -> Double,
>(
    u: UpdaterSlam,
    clean: Seq<Feature>,
    left: Seq<Feature>,
    parts: Seq<SlamParts>,
    systems: Seq<FeatureSystem>,
    before: &State,
    counted: State,
    after: &State,
    values: &Estimates,
    moved: &Estimates,
    features: Seq<Feature>,
    rest: Seq<Feature>,
    distort: D,
    slope: J,
    angles: Angles<L, A, C, S, K>,
    cancel: E,
    rotate: R,
    distance: M,
    wide: W,
    solve: I,
    turn: U,
    plus: P,
    times: T,
    divide: V,
    done: Result<Option<Vec<Double>>, UpdateFault>,
) -> bool {
    let op = ring(plus, times);
    &&& all_cleaned(before, features, clean)
    &&& slam_assessed(
        u,
        kept(clean, updatable(before, clean), clean.len() as int),
        left,
        parts,
        systems,
        before,
        values,
        distort,
        slope,
        angles,
        cancel,
        rotate,
        distance,
        wide,
        times,
        divide,
        op,
    )
    &&& failures_counted(before, &counted, left, systems)
    &&& rest == kept(left, used(systems), systems.len() as int).map_values(
        |f: Feature| forgotten(f),
    )
    &&& systems_committed(
        &counted,
        after,
        values,
        moved,
        systems,
        u.options.sigma_pix_sq,
        false,
        cancel,
        rotate,
        solve,
        turn,
        plus,
        op,
        done,
    )
}

/// Whether every relative feature of the state is anchored to a clone and a camera
/// that are there.
pub open spec fn anchors_present(st: &State) -> bool {
    forall|i: int|
        0 <= i < st.features_slam@.len()
            && st.features_slam@[i].representation.spec_is_relative() ==> 0 <= (
        #[trigger] st.features_slam@[i]).anchor_cam_id < st.calib_imu_to_cam@.len() && clone_exists(
            st,
            st.features_slam@[i].anchor_clone_timestamp,
        )
}

/// A feature that is known is found.
proof fn lemma_found(features: Seq<Landmark>, featid: usize, i: int)
    requires
        0 <= i <= features.len(),
        exists|q: int| i <= q < features.len() && (#[trigger] features[q]).featid == featid,
    ensures
        i <= landmark_at(features, featid, i) < features.len(),
    decreases features.len() - i,
{
    if i < features.len() && features[i].featid != featid {
        let q = choose|q: int| i <= q < features.len() && (#[trigger] features[q]).featid == featid;
        assert(q != i);
        lemma_found(features, featid, i + 1);
    }
}

/// There are no more rejections than systems.
proof fn lemma_rejections_bounded(
    features: Seq<Feature>,
    systems: Seq<FeatureSystem>,
    featid: usize,
    n: int,
)
    requires
        0 <= n,
    ensures
        0 <= rejections(features, systems, featid, n) <= n,
    decreases n,
{
    if n > 0 {
        lemma_rejections_bounded(features, systems, featid, n - 1);
    }
}

impl UpdaterSlam {
    /// Updates the filter with features of the state. Measurements at other times
    /// than those of clones are dropped, then features with too few of them. Each
    /// other takes its position from the state; those with too large a residual are
    /// dropped and count a failure, the others stay, marked for deletion in the
    /// tracker, and the filter is updated with their stacked systems.
    pub fn update<
            D: Fn(usize, [Double; 2]) -> [Double; 2],
            J: Fn(usize, [Double; 2]) -> [Double; 4],
            L: Fn([Double; 3]) -> Double,
            A: Fn(Double, Double) -> Double,
            C: Fn(Double) -> Double,
            S: Fn(Double) -> Double,
            K: Fn(Double) -> Double,
            E: Fn(Double, Double) -> Option<Rotation>,
            R: Fn(Rotation, Double, Double) -> (Double, Double),
            M: Fn(&Matrix, &Vec<Double>) -> Double,
            W: Fn(usize) -> Double,
            I: Fn(&Matrix) -> Option<Matrix>,
            U: Fn([Double; 9], [Double; 3]) -> [Double; 9],
            P: Fn(Double, Double) -> Double,
            T: Fn(Double, Double) -> Double,
            V: Fn(Double, Double) -> Double,
    >(
        &self,
        state: &mut State,
        values: &mut Estimates,
        features: &mut Vec<Feature>,
        distort: &D,
        slope: &J,
        angles: &Angles<L, A, C, S, K>,
        cancel: &E,
        rotate: &R,
        distance: &M,
        wide: &W,
        solve: &I,
        turn: &U,
        plus: &P,
        times: &T,
        divide: &V,
    ) -> (done: Result<Option<Vec<Double>>, UpdateFault>)
        requires
            old(state).wf(),
            old(values).fits(old(state)),
            anchors_present(old(state)),
            forall|i: int|
                0 <= i < old(features)@.len() ==> well_seen(
                    old(state),
                    #[trigger] old(features)@[i],
                ) && feature_known(old(state), old(features)@[i].featid),
            room(old(state).dim(), old(features)@),
            forall|q: int|
                0 <= q < old(state).features_slam@.len() ==> (
                #[trigger] old(state).features_slam@[q]).update_fail_count + old(features)@.len()
                    <= usize::MAX,
            answers(*distort),
            answers(*slope),
            angles.wf(),
            cancels(*cancel),
            mixes(*rotate),
            sizes(*distance),
            tells_percentiles(*wide),
            inverts(*solve),
            turns(*turn),
            binary(*plus),
            binary(*times),
            binary(*divide),
        ensures
            final(state).wf(),
            final(values).fits(final(state)),
            same_window(old(state), final(state)),
            final(state).features_slam@.len() == old(state).features_slam@.len(),
            exists|
                clean: Seq<Feature>,
                left: Seq<Feature>,
                parts: Seq<SlamParts>,
                systems: Seq<FeatureSystem>,
                counted: State,
            | #[trigger]
                slam_updated(
                    *self,
                    clean,
                    left,
                    parts,
                    systems,
                    old(state),
                    counted,
                    final(state),
                    old(values),
                    final(values),
                    old(features)@,
                    final(features)@,
                    *distort,
                    *slope,
                    *angles,
                    *cancel,
                    *rotate,
                    *distance,
                    *wide,
                    *solve,
                    *turn,
                    *plus,
                    *times,
                    *divide,
                    done,
                ),
    {
        let ghost op = ring(*plus, *times);
        let ghost first = features@;
        let ghost e = 8 * spans(first, first.len() as int);
        let ghost st = *state;
        let ghost held = *values;
        clean_features(state, features);
        let ghost clean = features@;
        let ghost flags = updatable(&st, clean);
        proof {
            lemma_measurements_fit(clean, e);
        }
        retain_updatable(state, features);
        let ghost enough = features@;
        proof {
            lemma_kept(clean, clean, flags, clean.len() as int);
            lemma_spans_kept(clean, flags, clean.len() as int);
            assert forall|k: int| 0 <= k < enough.len() implies {
                let f = #[trigger] enough[k];
                &&& well_seen(&st, f)
                &&& at_clones(&st, f)
                &&& 1 <= f.spec_measurements()
                &&& feature_known(&st, f.featid)
            } by {
                let j = choose|j: int|
                    0 <= j < clean.len() && flags[j] && #[trigger] clean[j] == enough[k];
                assert(well_seen(&st, first[j]));
                assert(flags[j] == updatable(&st, clean)[j]);
            }
        }
        let ghost mut parts: Seq<SlamParts> = Seq::empty();
        let mut systems: Vec<FeatureSystem> = Vec::new();
        let mut i: usize = 0;
        while i < features.len()
            invariant
                i <= enough.len(),
                features@.len() == enough.len(),
                *state == st,
                *values == held,
                st.wf(),
                held.fits(&st),
                anchors_present(&st),
                op == ring(*plus, *times),
                8 * spans(enough, enough.len() as int) <= e,
                e * e <= usize::MAX,
                st.dim() * e <= usize::MAX,
                forall|k: int|
                    0 <= k < enough.len() ==> {
                        let f = #[trigger] enough[k];
                        &&& well_seen(&st, f)
                        &&& at_clones(&st, f)
                        &&& 1 <= f.spec_measurements()
                        &&& feature_known(&st, f.featid)
                    },
                answers(*distort),
                answers(*slope),
                angles.wf(),
                cancels(*cancel),
                mixes(*rotate),
                sizes(*distance),
                tells_percentiles(*wide),
                binary(*plus),
                binary(*times),
                binary(*divide),
                parts.len() == i,
                systems@.len() == i,
                forall|k: int| i <= k < enough.len() ==> #[trigger] features@[k] == enough[k],
                forall|k: int|
                    0 <= k < i ==> fits_feature(#[trigger] systems@[k], &st, features@[k]),
                forall|k: int|
                    0 <= k < i ==> (#[trigger] features@[k]).tracks == enough[k].tracks
                        && features@[k].featid == enough[k].featid,
                slam_assessed(
                    *self,
                    enough.take(i as int),
                    features@.take(i as int),
                    parts,
                    systems@,
                    &st,
                    &held,
                    *distort,
                    *slope,
                    *angles,
                    *cancel,
                    *rotate,
                    *distance,
                    *wide,
                    *times,
                    *divide,
                    op,
                ),
            decreases enough.len() - i,
        {
            let ghost f = enough[i as int];
            let ghost then = features@;
            assert(features@[i as int] == f);
            assert(well_seen(&st, f) && at_clones(&st, f) && feature_known(&st, f.featid));
            proof {
                lemma_found(st.features_slam@, f.featid, 0);
            }
            let place: usize = match find_landmark(state, features[i].featid) {
                Some(p) => p,
                None => {
                    assert(false);
                    0
                },
            };
            let ghost l = st.features_slam@[place as int];
            assert(l == landmark_of(&st, f));
            assert(l.wf());
            let rep = take_from(state, place, &mut features[i], angles, plus, times, divide);
            let ghost g = features@[i as int];
            proof {
                assert(g.tracks == f.tracks);
                assert(rep.spec_is_relative() ==> l.representation.spec_is_relative());
                assert(measurable(&st, &g, rep));
                lemma_room_each(&st, enough, e, i as int);
                assert(feature_room(&st, g));
            }
            let (system, made) = slam_system(
                state,
                values,
                &features[i],
                place,
                rep,
                self.options.chi2_multipler,
                self.options.sigma_pix_sq,
                distort,
                slope,
                angles,
                cancel,
                rotate,
                distance,
                wide,
                plus,
                times,
                divide,
            );
            let ghost before = systems@;
            let ghost known = parts;
            systems.push(system);
            proof {
                parts = parts.push(made@);
                let a = enough.take(i + 1);
                let b = features@.take(i + 1);
                let a0 = enough.take(i as int);
                let b0 = then.take(i as int);
                assert forall|k: int| 0 <= k < a.len() implies taken_from(
                    landmark_of(&st, a[k]),
                    a[k],
                    #[trigger] b[k],
                    *angles,
                    *divide,
                    op,
                ) by {
                    if k < i {
                        assert(b[k] == b0[k] && a[k] == a0[k]);
                    }
                }
                assert forall|k: int| 0 <= k < a.len() implies is_feature_jacobian(
                    &(#[trigger] parts[k]).jac,
                    &st,
                    &b[k],
                    window_representation(landmark_of(&st, a[k]).representation),
                    &held,
                    *distort,
                    *slope,
                    *angles,
                    *divide,
                    op,
                ) by {
                    if k < i {
                        assert(parts[k] == known[k]);
                        assert(b[k] == b0[k] && a[k] == a0[k]);
                    }
                }
                assert forall|k: int| 0 <= k < a.len() implies is_slam_system(
                    #[trigger] systems@[k],
                    parts[k].jac,
                    parts[k].joined,
                    &st,
                    landmark_of(&st, a[k]),
                    self.options.chi2_multipler,
                    self.options.sigma_pix_sq,
                    *cancel,
                    *rotate,
                    *distance,
                    *wide,
                    *times,
                    op,
                ) by {
                    if k < i {
                        assert(systems@[k] == before[k]);
                        assert(parts[k] == known[k]);
                        assert(a[k] == a0[k]);
                    }
                }
                assert forall|k: int| 0 <= k < i + 1 implies fits_feature(
                    #[trigger] systems@[k],
                    &st,
                    features@[k],
                ) by {
                    if k < i {
                        assert(systems@[k] == before[k]);
                        assert(features@[k] == then[k]);
                    }
                }
                assert forall|k: int| 0 <= k < i + 1 implies (#[trigger] features@[k]).tracks
                    == enough[k].tracks && features@[k].featid == enough[k].featid by {
                    if k < i {
                        assert(features@[k] == then[k]);
                    }
                }
            }
            i += 1;
        }
        let ghost left = features@;
        proof {
            assert(enough.take(i as int) =~= enough);
            assert(left.take(i as int) =~= left);
            assert forall|k: int| 0 <= k < left.len() implies span(#[trigger] left[k]) <= span(
                enough[k],
            ) by {
                assert(left[k].tracks == enough[k].tracks);
            }
            lemma_spans_less(left, enough, enough.len() as int);
            lemma_stackable(systems@, &st, left, e);
            assert forall|k: int| 0 <= k < left.len() implies feature_known(
                &st,
                (#[trigger] left[k]).featid,
            ) by {
                assert(left[k].featid == enough[k].featid);
                assert(feature_known(&st, enough[k].featid));
            }
            assert forall|k: int| 0 <= k < systems@.len() implies (#[trigger] systems@[k]).wf() by {
                assert(fits_feature(systems@[k], &st, left[k]));
            }
            assert forall|q: int| 0 <= q < st.features_slam@.len() implies (
            #[trigger] st.features_slam@[q]).update_fail_count + rejections(
                left,
                systems@,
                st.features_slam@[q].featid,
                systems@.len() as int,
            ) <= usize::MAX by {
                lemma_rejections_bounded(
                    left,
                    systems@,
                    st.features_slam@[q].featid,
                    systems@.len() as int,
                );
            }
        }
        let stack = stack_slam(state, features, &systems);
        let ghost counted = *state;
        proof {
            assert forall|q: int| 0 <= q < st.features_slam@.len() implies {
                let l = #[trigger] counted.features_slam@[q];
                &&& l.wf()
                &&& l.featid == st.features_slam@[q].featid
                &&& l.id == st.features_slam@[q].id
                &&& l.value@.len() == st.features_slam@[q].value@.len()
            } by {
                assert(st.features_slam@[q].wf());
            }
            lemma_same_rows(&st, &counted);
        }
        let done = match stack {
            None => Ok(None),
            Some(s) => commit_stack(
                state,
                values,
                s,
                self.options.sigma_pix_sq,
                false,
                cancel,
                rotate,
                solve,
                turn,
                plus,
                times,
                Ghost(systems@),
            ),
        };
        assert(slam_updated(
            *self,
            clean,
            left,
            parts,
            systems@,
            &st,
            counted,
            state,
            &held,
            values,
            first,
            features@,
            *distort,
            *slope,
            *angles,
            *cancel,
            *rotate,
            *distance,
            *wide,
            *solve,
            *turn,
            *plus,
            *times,
            *divide,
            done,
        ));
        done
    }
}

/// What a feature that is to enter the state comes with.
pub struct EntryParts {
    /// Its residual system.
    pub jac: FeatureJacobian,
    /// The derivative by the state.
    pub h_x: Matrix,
    /// The derivative by the feature.
    pub h_f: Matrix,
    /// The residual.
    pub res: Vec<Double>,
    /// The noise.
    pub r: Matrix,
    /// Its position in the anchor camera.
    pub in_anchor: PointForms,
    /// Its position in the world.
    pub in_global: PointForms,
    /// The new feature of the state.
    pub landmark: Landmark,
}

/// Whether parts are those of a feature that is to enter the state: its jacobian,
/// with a single inverse depth after its bearing is eliminated, the noise of its
/// pixels, and a new feature at its position.
pub open spec fn entry_made<
    D: Fn(usize, [Double; 2]) -> [Double; 2],
    J: Fn(usize, [Double; 2]) -> [Double; 4],
    L: Fn([Double; 3]) -> Double,
    A: Fn(Double, Double) -> Double,
    C: Fn(Double) -> Double,
    S: Fn(Double) -> Double,
    K: Fn(Double) -> Double,
    E: Fn(Double, Double) -> Option<Rotation>,
    R: Fn(Rotation, Double, Double) -> (Double, Double),
    V: Fn(Double, Double) -> Double,
>(
    parts: EntryParts,
    u: UpdaterSlam,
    st: &State,
    values: &Estimates,
    f: Feature,
    distort: D,
    slope: J,
    angles: Angles<L, A, C, S, K>,
    cancel: E,
    rotate: R,
    divide: V,
    op: Ring,
) -> bool {
    let n = parts.res@.len() as int;
    &&& is_feature_jacobian(
        &parts.jac,
        st,
        &f,
        window_representation(u.rep_slam),
        values,
        distort,
        slope,
        angles,
        divide,
        op,
    )
    &&& if u.rep_slam is AnchoredInverseDepthSingle {
        depth_separated(
            (parts.h_x, parts.h_f),
            parts.res@,
            &parts.jac.h_x,
            &parts.jac.h_f,
            parts.jac.res@,
            cancel,
            rotate,
        )
    } else {
        &&& parts.h_x == parts.jac.h_x
        &&& parts.h_f == parts.jac.h_f
        &&& parts.res == parts.jac.res
    }
    &&& is(&parts.r, n, n, on_diagonal(u.options.sigma_pix_sq))
    &&& is_written(parts.in_anchor, f.p_fin_a@, angles, divide, op)
    &&& is_written(parts.in_global, f.p_fin_g@, angles, divide, op)
    &&& newly_made(parts.landmark, &f, u.rep_slam, parts.in_anchor, parts.in_global)
}

/// Whether a filter became another as a feature was let in, or not.
pub open spec fn entry_step<
    D: Fn(usize, [Double; 2]) -> [Double; 2],
    J: Fn(usize, [Double; 2]) -> [Double; 4],
    L: Fn([Double; 3]) -> Double,
    A: Fn(Double, Double) -> Double,
    C: Fn(Double) -> Double,
    S: Fn(Double) -> Double,
    K: Fn(Double) -> Double,
    E: Fn(Double, Double) -> Option<Rotation>,
    R: Fn(Rotation, Double, Double) -> (Double, Double),
    M: Fn(&Matrix, &Vec<Double>) -> Double,
    W: Fn(usize) -> Double,
    I: Fn(&Matrix) -> Option<Matrix>,
    U: Fn([Double; 9], [Double; 3]) -> [Double; 9],
    H: Fn(&Matrix) -> Option<Matrix>,
    P: Fn(Double, Double) -> Double,
    T: Fn(Double, Double) -> Double,
    V: Fn(Double, Double) -> Double,
>(
    parts: EntryParts,
    u: UpdaterSlam,
    before: &State,
    after: &State,
    values: &Estimates,
    moved: &Estimates,
    f: Feature,
    distort: D,
    slope: J,
    angles: Angles<L, A, C, S, K>,
    cancel: E,
    rotate: R,
    distance: M,
    wide: W,
    invert: I,
    solve: H,
    turn: U,
    plus: P,
    times: T,
    divide: V,
    out: Result<Joined, FeatureFault>,
) -> bool {
    &&& entry_made(
        parts,
        u,
        before,
        values,
        f,
        distort,
        slope,
        angles,
        cancel,
        rotate,
        divide,
        ring(plus, times),
    )
    &&& feature_joined(
        before,
        after,
        values,
        moved,
        parts.landmark,
        parts.jac.x_order@,
        &parts.h_x,
        &parts.h_f,
        &parts.r,
        parts.res@,
        u.options.chi2_multipler,
        cancel,
        rotate,
        distance,
        wide,
        invert,
        solve,
        turn,
        plus,
        times,
        out,
    )
}

/// A filter on its way, as features enter one by one.
pub struct Stage {
    /// The state.
    pub state: State,
    /// The estimates.
    pub values: Estimates,
}

/// Whether filters follow each other as features enter one by one.
pub open spec fn entered_all<
    D: Fn(usize, [Double; 2]) -> [Double; 2],
    J: Fn(usize, [Double; 2]) -> [Double; 4],
    L: Fn([Double; 3]) -> Double,
    A: Fn(Double, Double) -> Double,
    C: Fn(Double) -> Double,
    S: Fn(Double) -> Double,
    K: Fn(Double) -> Double,
    E: Fn(Double, Double) -> Option<Rotation>,
    R: Fn(Rotation, Double, Double) -> (Double, Double),
    M: Fn(&Matrix, &Vec<Double>) -> Double,
    W: Fn(usize) -> Double,
    I: Fn(&Matrix) -> Option<Matrix>,
    U: Fn([Double; 9], [Double; 3]) -> [Double; 9],
    H: Fn(&Matrix) -> Option<Matrix>,
    P: Fn(Double, Double) -> Double,
    T: Fn(Double, Double) -> Double,
    V: Fn(Double, Double) -> Double,
>(
    stages: Seq<Stage>,
    parts: Seq<EntryParts>,
    outs: Seq<Result<Joined, FeatureFault>>,
    u: UpdaterSlam,
    left: Seq<Feature>,
    distort: D,
    slope: J,
    angles: Angles<L, A, C, S, K>,
    cancel: E,
    rotate: R,
    distance: M,
    wide: W,
    invert: I,
    solve: H,
    turn: U,
    plus: P,
    times: T,
    divide: V,
) -> bool {
    &&& outs.len() <= left.len()
    &&& stages.len() == outs.len() + 1
    &&& parts.len() == outs.len()
    &&& forall|i: int|
        0 <= i < outs.len() ==> entry_step(
            #[trigger] parts[i],
            u,
            &stages[i].state,
            &stages[i + 1].state,
            &stages[i].values,
            &stages[i + 1].values,
            left[i],
            distort,
            slope,
            angles,
            cancel,
            rotate,
            distance,
            wide,
            invert,
            solve,
            turn,
            plus,
            times,
            divide,
            outs[i],
        )
    &&& forall|i: int| 0 <= i < outs.len() - 1 ==> (#[trigger] outs[i]) is Ok
}

/// Whether a feature is in the state now.
pub open spec fn is_in(out: Result<Joined, FeatureFault>) -> bool {
    out is Ok && !(out->Ok_0 is Refused)
}

/// Which features are in the state now.
pub open spec fn admissions(outs: Seq<Result<Joined, FeatureFault>>) -> Seq<bool> {
    Seq::new(outs.len(), |i: int| is_in(outs[i]))
}

/// The increments by which the first `n` features moved the filter.
pub open spec fn increments(outs: Seq<Result<Joined, FeatureFault>>, n: int) -> Seq<Vec<Double>>
    decreases n,
{
    if n <= 0 {
        seq![]
    } else {
        match outs[n - 1] {
            Ok(Joined::Updated(dx)) => increments(outs, n - 1).push(dx),
            _ => increments(outs, n - 1),
        }
    }
}

/// The increments of the first outcomes do not depend on the others.
proof fn lemma_increments_same(
    a: Seq<Result<Joined, FeatureFault>>,
    b: Seq<Result<Joined, FeatureFault>>,
    n: int,
)
    requires
        0 <= n <= a.len(),
        n <= b.len(),
        forall|i: int| 0 <= i < n ==> #[trigger] a[i] == b[i],
    ensures
        increments(a, n) == increments(b, n),
    decreases n,
{
    if n > 0 {
        assert(a[n - 1] == b[n - 1]);
        lemma_increments_same(a, b, n - 1);
    }
}

/// As a feature joins, clones, cameras and options stay; the state grows by the
/// feature's rows if it is in, and holds no other feature more.
proof fn lemma_joining<
    C: Fn(Double, Double) -> Option<Rotation>,
    R: Fn(Rotation, Double, Double) -> (Double, Double),
    M: Fn(&Matrix, &Vec<Double>) -> Double,
    W: Fn(usize) -> Double,
    I: Fn(&Matrix) -> Option<Matrix>,
    H: Fn(&Matrix) -> Option<Matrix>,
    U: Fn([Double; 9], [Double; 3]) -> [Double; 9],
    P: Fn(Double, Double) -> Double,
    T: Fn(Double, Double) -> Double,
>(
    before: &State,
    after: &State,
    values: &Estimates,
    moved: &Estimates,
    landmark: Landmark,
    order: Seq<(i32, usize)>,
    h_r: &Matrix,
    h_l: &Matrix,
    r: &Matrix,
    res: Seq<Double>,
    multiplier: Double,
    cancel: C,
    rotate: R,
    distance: M,
    wide: W,
    invert: I,
    solve: H,
    turn: U,
    plus: P,
    times: T,
    out: Result<Joined, FeatureFault>,
)
    requires
        feature_joined(
            before,
            after,
            values,
            moved,
            landmark,
            order,
            h_r,
            h_l,
            r,
            res,
            multiplier,
            cancel,
            rotate,
            distance,
            wide,
            invert,
            solve,
            turn,
            plus,
            times,
            out,
        ),
        before.wf(),
        landmark.wf(),
        !feature_known(before, landmark.featid),
    ensures
        same_window(before, after),
        out is Ok ==> after.features_slam@.len() == before.features_slam@.len() + (if is_in(out) {
            1int
        } else {
            0
        }),
        out is Ok ==> after.dim() == before.dim() + (if is_in(out) {
            landmark.value@.len() as int
        } else {
            0
        }),
        forall|id: usize|
            #[trigger]
            feature_known(after, id) ==> feature_known(before, id) || id == landmark.featid,
{
    let op = ring(plus, times);
    let rows = res.len() as int;
    let d = landmark.value@.len() as int;
    if *after != *before {
        let turned = crate::vio::givens::triangular(
            crate::vio::givens::joined(h_l, h_r, res),
            cancel,
            rotate,
            rows,
            d,
        );
        let (c, entered, h_up, r_up) = choose|
            c: crate::vio::updater_slam::Candidate,
            entered: State,
            h_up: Matrix,
            r_up: Matrix,
        |
            #[trigger]
            joined_state(
                before,
                &entered,
                after,
                values,
                moved,
                c,
                order,
                turned,
                crate::algebra::entries(r),
                rows,
                &h_up,
                &r_up,
                solve,
                turn,
                plus,
                op,
                out,
            ) && crate::vio::feature_init::prepared(
                c,
                before,
                landmark,
                order,
                turned,
                crate::algebra::entries(r),
                rows as usize,
                multiplier,
                distance,
                wide,
                invert,
                plus,
                times,
            );
        assert(c.landmark.featid == landmark.featid);
        let list = before.features_slam@;
        assert(entered.features_slam@.len() == list.len() + 1);
        let end = entered.features_slam@;
        assert(end[list.len() as int].featid == landmark.featid);
        assert forall|id: usize| #[trigger] feature_known(after, id) implies feature_known(before, id)
            || id == landmark.featid by {
            let q = choose|q: int|
                0 <= q < after.features_slam@.len() && (#[trigger] after.features_slam@[q]).featid
                    == id;
            assert(after.features_slam@.len() == end.len());
            assert(after.features_slam@[q].featid == end[q].featid);
            if q < list.len() {
                assert(end[q] == list[q]);
            }
        }
    }
}

/// Features with different numbers, fewer of them, still have different numbers.
proof fn lemma_kept_apart(features: Seq<Feature>, keep: Seq<bool>, n: int)
    requires
        0 <= n <= features.len(),
        keep.len() == features.len(),
        forall|i: int, j: int|
            0 <= i < j < features.len() ==> (#[trigger] features[i]).featid != (
            #[trigger] features[j]).featid,
    ensures
        forall|i: int, j: int|
            0 <= i < j < kept(features, keep, n).len() ==> (#[trigger] kept(
                features,
                keep,
                n,
            )[i]).featid != (#[trigger] kept(features, keep, n)[j]).featid,
    decreases n,
{
    if n > 0 {
        lemma_kept_apart(features, keep, n - 1);
        lemma_kept(features, features, keep, n - 1);
        let less = kept(features, keep, n - 1);
        let more = kept(features, keep, n);
        assert forall|i: int, j: int| 0 <= i < j < more.len() implies (#[trigger] more[i]).featid != (
        #[trigger] more[j]).featid by {
            assert(more[i] == less[i]);
            if j < less.len() {
                assert(more[j] == less[j]);
            } else {
                let k = choose|k: int|
                    0 <= k < n - 1 && keep[k] && #[trigger] features[k] == less[i];
                assert(features[k].featid != features[n - 1].featid);
            }
        }
    }
}

/// The number of features that are in the state now.
pub open spec fn admitted_count(outs: Seq<Result<Joined, FeatureFault>>, n: int) -> int
    decreases n,
{
    if n <= 0 {
        0
    } else {
        admitted_count(outs, n - 1) + (if is_in(outs[n - 1]) {
            1int
        } else {
            0
        })
    }
}

/// As many are kept as are in the state now.
proof fn lemma_admitted_count(left: Seq<Feature>, outs: Seq<Result<Joined, FeatureFault>>, n: int)
    requires
        0 <= n <= outs.len(),
    ensures
        kept(left, admissions(outs), n).len() == admitted_count(outs, n),
        0 <= admitted_count(outs, n) <= n,
    decreases n,
{
    if n > 0 {
        lemma_admitted_count(left, outs, n - 1);
    }
}

/// The count of the first outcomes does not depend on the others.
proof fn lemma_count_same(
    a: Seq<Result<Joined, FeatureFault>>,
    b: Seq<Result<Joined, FeatureFault>>,
    n: int,
)
    requires
        0 <= n <= a.len(),
        n <= b.len(),
        forall|i: int| 0 <= i < n ==> #[trigger] a[i] == b[i],
    ensures
        admitted_count(a, n) == admitted_count(b, n),
    decreases n,
{
    if n > 0 {
        assert(a[n - 1] == b[n - 1]);
        lemma_count_same(a, b, n - 1);
    }
}

/// There is room for another feature.
proof fn lemma_more_room(now: int, first: int, total: int, i: int, e: int, x: int)
    requires
        0 <= first,
        0 <= now <= first + 3 * i,
        0 <= i < total,
        first + 3 * total + 3 <= i32::MAX,
        (first + 3 * total + 3) * (first + 3 * total + 3) <= usize::MAX,
        (first + 3 * total + 3) * e <= usize::MAX,
        0 <= x <= e,
    ensures
        now + 3 <= i32::MAX,
        (now + 3) * (now + 3) <= usize::MAX,
        (now + 3) * x <= usize::MAX,
        now * e <= usize::MAX,
{
    let most = first + 3 * total + 3;
    assert((now + 3) * (now + 3) <= most * most) by (nonlinear_arith)
        requires
            0 <= now + 3 <= most,
    ;
    assert((now + 3) * x <= most * e) by (nonlinear_arith)
        requires
            0 <= now + 3 <= most,
            0 <= x <= e,
    ;
    assert(now * e <= most * e) by (nonlinear_arith)
        requires
            0 <= now <= most,
            0 <= e,
    ;
}

impl UpdaterSlam {
    /// Lets one feature enter the state.
    fn enter_one<
            D: Fn(usize, [Double; 2]) -> [Double; 2],
            J: Fn(usize, [Double; 2]) -> [Double; 4],
            L: Fn([Double; 3]) -> Double,
            A: Fn(Double, Double) -> Double,
            C: Fn(Double) -> Double,
            S: Fn(Double) -> Double,
            K: Fn(Double) -> Double,
            E: Fn(Double, Double) -> Option<Rotation>,
            R: Fn(Rotation, Double, Double) -> (Double, Double),
            M: Fn(&Matrix, &Vec<Double>) -> Double,
            W: Fn(usize) -> Double,
            I: Fn(&Matrix) -> Option<Matrix>,
            U: Fn([Double; 9], [Double; 3]) -> [Double; 9],
            H: Fn(&Matrix) -> Option<Matrix>,
            P: Fn(Double, Double) -> Double,
            T: Fn(Double, Double) -> Double,
            V: Fn(Double, Double) -> Double,
    >(
        &self,
        state: &mut State,
        values: &mut Estimates,
        f: &Feature,
        distort: &D,
        slope: &J,
        angles: &Angles<L, A, C, S, K>,
        cancel: &E,
        rotate: &R,
        distance: &M,
        wide: &W,
        invert: &I,
        solve: &H,
        turn: &U,
        plus: &P,
        times: &T,
        divide: &V,
    ) -> (out: (Result<Joined, FeatureFault>, Ghost<EntryParts>))
        requires
            old(state).wf(),
            old(values).fits(old(state)),
            measurable(old(state), f, window_representation(self.rep_slam)),
            f.has_pixels(),
            2 <= f.spec_measurements(),
            feature_room(old(state), *f),
            !feature_known(old(state), f.featid),
            old(state).dim() + 3 <= i32::MAX,
            (old(state).dim() + 3) * (old(state).dim() + 3) <= usize::MAX,
            (old(state).dim() + 3) * (8 * span(*f)) <= usize::MAX,
            answers(*distort),
            answers(*slope),
            angles.wf(),
            cancels(*cancel),
            mixes(*rotate),
            sizes(*distance),
            tells_percentiles(*wide),
            inverts(*invert),
            inverts(*solve),
            turns(*turn),
            binary(*plus),
            binary(*times),
            binary(*divide),
        ensures
            final(state).wf(),
            final(values).fits(final(state)),
            out.1@.landmark.wf(),
            out.1@.landmark.featid == f.featid,
            out.1@.landmark.representation == self.rep_slam,
            entry_step(
                out.1@,
                *self,
                old(state),
                final(state),
                old(values),
                final(values),
                *f,
                *distort,
                *slope,
                *angles,
                *cancel,
                *rotate,
                *distance,
                *wide,
                *invert,
                *solve,
                *turn,
                *plus,
                *times,
                *divide,
                out.0,
            ),
    {
        let rep = update_representation(self.rep_slam);
        proof {
            lemma_room(state, f, rep);
            lemma_touched_rows(state, f, rep);
        }
        let jac = get_feature_jacobian_full(
            state,
            f,
            rep,
            values,
            distort,
            slope,
            angles,
            plus,
            times,
            divide,
        );
        let ghost whole = jac;
        let ghost w = column(jac.x_order@, jac.x_order@.len() as int);
        let ghost m = 2 * f.spec_measurements();
        let single = self.rep_slam == FeatRepresentation::AnchoredInverseDepthSingle;
        let FeatureJacobian { h_f, h_x, mut res, x_order } = jac;
        let (mut h_x, mut h_f) = if single {
            separate_depth(&h_x, &h_f, &mut res, cancel, rotate)
        } else {
            (h_x, h_f)
        };
        let n: usize = res.len();
        proof {
            assert(0 <= n <= m);
            assert(n * n <= m * m) by (nonlinear_arith)
                requires
                    0 <= n <= m,
            ;
            assert(w * w <= (w + 3) * (w + 3)) by (nonlinear_arith)
                requires
                    0 <= w,
            ;
            let d = state.dim() + 3;
            assert(state.dim() >= 0);
            assert(d * n <= d * (8 * span(*f))) by (nonlinear_arith)
                requires
                    0 <= n <= 8 * span(*f),
                    0 <= d,
            ;
        }
        let r = pixel_noise(n, self.options.sigma_pix_sq);
        let in_anchor = write_point(&f.p_fin_a, angles, plus, times, divide);
        let in_global = write_point(&f.p_fin_g, angles, plus, times, divide);
        let landmark = make_landmark(f, self.rep_slam, &in_anchor, &in_global);
        let ghost parts = EntryParts {
            jac: whole,
            h_x,
            h_f,
            res,
            r,
            in_anchor,
            in_global,
            landmark,
        };
        let out = initialize_feature(
            state,
            values,
            landmark,
            &x_order,
            &mut h_x,
            &mut h_f,
            &r,
            &mut res,
            self.options.chi2_multipler,
            cancel,
            rotate,
            distance,
            wide,
            invert,
            solve,
            turn,
            plus,
            times,
        );
        (out, Ghost(parts))
    }

    /// Lets features enter the state one by one. Measurements at other times than
    /// those of clones are dropped, then features with fewer than two measurements
    /// and those that are not found. Those with too large a residual are dropped
    /// too; the others stay, marked for deletion in the tracker, and what their
    /// measurements say beyond their position updates the filter.
    pub fn delayed_init<
            F: Fn(&Feature) -> Option<Spot>,
            D: Fn(usize, [Double; 2]) -> [Double; 2],
            J: Fn(usize, [Double; 2]) -> [Double; 4],
            L: Fn([Double; 3]) -> Double,
            A: Fn(Double, Double) -> Double,
            C: Fn(Double) -> Double,
            S: Fn(Double) -> Double,
            K: Fn(Double) -> Double,
            E: Fn(Double, Double) -> Option<Rotation>,
            R: Fn(Rotation, Double, Double) -> (Double, Double),
            M: Fn(&Matrix, &Vec<Double>) -> Double,
            W: Fn(usize) -> Double,
            I: Fn(&Matrix) -> Option<Matrix>,
            U: Fn([Double; 9], [Double; 3]) -> [Double; 9],
            H: Fn(&Matrix) -> Option<Matrix>,
            P: Fn(Double, Double) -> Double,
            T: Fn(Double, Double) -> Double,
            V: Fn(Double, Double) -> Double,
    >(
        &self,
        state: &mut State,
        values: &mut Estimates,
        features: &mut Vec<Feature>,
        locate: &F,
        distort: &D,
        slope: &J,
        angles: &Angles<L, A, C, S, K>,
        cancel: &E,
        rotate: &R,
        distance: &M,
        wide: &W,
        invert: &I,
        solve: &H,
        turn: &U,
        plus: &P,
        times: &T,
        divide: &V,
    ) -> (done: Result<Vec<Vec<Double>>, FeatureFault>)
        requires
            old(state).wf(),
            old(values).fits(old(state)),
            forall|i: int|
                0 <= i < old(features)@.len() ==> well_seen(
                    old(state),
                    #[trigger] old(features)@[i],
                ) && !feature_known(old(state), old(features)@[i].featid),
            forall|i: int, j: int|
                0 <= i < j < old(features)@.len() ==> (#[trigger] old(features)@[i]).featid != (
                #[trigger] old(features)@[j]).featid,
            old(state).dim() + 3 * old(features)@.len() + 3 <= i32::MAX,
            (old(state).dim() + 3 * old(features)@.len() + 3) * (old(state).dim() + 3 * old(
                features,
            )@.len() + 3) <= usize::MAX,
            room(old(state).dim() + 3 * old(features)@.len() + 3, old(features)@),
            locates(*locate),
            self.rep_slam.spec_is_relative() ==> anchors_in(*locate, old(state)),
            answers(*distort),
            answers(*slope),
            angles.wf(),
            cancels(*cancel),
            mixes(*rotate),
            sizes(*distance),
            tells_percentiles(*wide),
            inverts(*invert),
            inverts(*solve),
            turns(*turn),
            binary(*plus),
            binary(*times),
            binary(*divide),
        ensures
            final(state).wf(),
            final(values).fits(final(state)),
            done is Ok ==> final(state).dim() == old(state).dim() + final(features)@.len()
                * self.rep_slam.dim(),
            same_window(old(state), final(state)),
            done is Ok ==> final(features)@.len() <= old(features)@.len(),
            done is Ok ==> final(state).features_slam@.len() == old(state).features_slam@.len()
                + final(features)@.len(),
            exists|
                clean: Seq<Feature>,
                stages: Seq<Stage>,
                parts: Seq<EntryParts>,
                outs: Seq<Result<Joined, FeatureFault>>,
            | #[trigger]
                delayed(
                    *self,
                    clean,
                    stages,
                    parts,
                    outs,
                    old(state),
                    final(state),
                    old(values),
                    final(values),
                    old(features)@,
                    final(features)@,
                    *locate,
                    *distort,
                    *slope,
                    *angles,
                    *cancel,
                    *rotate,
                    *distance,
                    *wide,
                    *invert,
                    *solve,
                    *turn,
                    *plus,
                    *times,
                    *divide,
                    done,
                ),
    {
        let ghost first = features@;
        let ghost total = first.len() as int;
        let ghost e = 8 * spans(first, first.len() as int);
        let ghost st = *state;
        let ghost held = *values;
        let ghost most = st.dim() + 3 * total + 3;
        clean_features(state, features);
        let ghost clean = features@;
        let rep = update_representation(self.rep_slam);
        let anchored = rep.is_relative();
        proof {
            lemma_measurements_fit(clean, e);
            let all = Seq::new(clean.len(), |i: int| crate::vio::feature_update::at_spot(*locate, clean[i]));
            let flags = Seq::new(
                clean.len(),
                |i: int| crate::vio::feature_update::spot_of(*locate, clean[i]) is Some,
            );
            assert forall|i: int, j: int| 0 <= i < j < all.len() implies (#[trigger] all[i]).featid != (
            #[trigger] all[j]).featid by {
                assert(clean[i].featid == first[i].featid);
                assert(clean[j].featid == first[j].featid);
            }
            lemma_kept_apart(all, flags, clean.len() as int);
        }
        retain_found(state, features, locate, anchored);
        let ghost left = features@;
        proof {
            assert(left == found_features(*locate, clean));
            assert forall|k: int| 0 <= k < left.len() implies !feature_known(
                &st,
                (#[trigger] left[k]).featid,
            ) by {
                let j = choose|j: int|
                    0 <= j < clean.len() && (#[trigger] clean[j]).featid == left[k].featid;
                assert(clean[j].featid == first[j].featid);
                assert(!feature_known(&st, first[j].featid));
            }
        }
        let ghost mut stages: Seq<Stage> = seq![Stage { state: st, values: held }];
        let ghost mut parts: Seq<EntryParts> = Seq::empty();
        let ghost mut outs: Seq<Result<Joined, FeatureFault>> = Seq::empty();
        let mut added: Vec<bool> = Vec::new();
        let mut steps: Vec<Vec<Double>> = Vec::new();
        let mut i: usize = 0;
        while i < features.len()
            invariant
                i <= left.len(),
                left.len() <= total,
                features@ == left,
                left == found_features(*locate, clean),
                st == *old(state),
                held == *old(values),
                first == old(features)@,
                all_cleaned(&st, first, clean),
                st.dim() >= 0,
                state.wf(),
                values.fits(state),
                same_window(&st, state),
                state.features_slam@.len() == st.features_slam@.len() + admitted_count(
                    outs,
                    i as int,
                ),
                rep == window_representation(self.rep_slam),
                8 * spans(left, left.len() as int) <= e,
                e * e <= usize::MAX,
                most == st.dim() + 3 * total + 3,
                most <= i32::MAX,
                most * most <= usize::MAX,
                most * e <= usize::MAX,
                forall|k: int|
                    0 <= k < left.len() ==> {
                        let f = #[trigger] left[k];
                        &&& well_seen(&st, f)
                        &&& at_clones(&st, f)
                        &&& 2 <= f.spec_measurements()
                        &&& rep.spec_is_relative() ==> 0 <= f.anchor_cam_id
                            < st.calib_imu_to_cam@.len() && clone_exists(
                            &st,
                            f.anchor_clone_timestamp,
                        )
                    },
                forall|k: int|
                    i <= k < left.len() ==> !feature_known(&*state, (#[trigger] left[k]).featid),
                forall|a: int, b: int|
                    0 <= a < b < left.len() ==> (#[trigger] left[a]).featid != (
                    #[trigger] left[b]).featid,
                answers(*distort),
                answers(*slope),
                angles.wf(),
                cancels(*cancel),
                mixes(*rotate),
                sizes(*distance),
                tells_percentiles(*wide),
                inverts(*invert),
                inverts(*solve),
                turns(*turn),
                binary(*plus),
                binary(*times),
                binary(*divide),
                outs.len() == i,
                stages.len() == i + 1,
                stages[0] == (Stage { state: st, values: held }),
                stages.last() == (Stage { state: *state, values: *values }),
                entered_all(
                    stages,
                    parts,
                    outs,
                    *self,
                    left,
                    *distort,
                    *slope,
                    *angles,
                    *cancel,
                    *rotate,
                    *distance,
                    *wide,
                    *invert,
                    *solve,
                    *turn,
                    *plus,
                    *times,
                    *divide,
                ),
                forall|k: int| 0 <= k < outs.len() ==> (#[trigger] outs[k]) is Ok,
                state.dim() == st.dim() + admitted_count(outs, i as int) * self.rep_slam.dim(),
                0 <= admitted_count(outs, i as int) <= i,
                added@ == admissions(outs),
                steps@ == increments(outs, i as int),
            decreases left.len() - i,
        {
            let ghost before = *state;
            let ghost poses0 = *values;
            let ghost f = left[i as int];
            proof {
                assert(well_seen(&st, f) && at_clones(&st, f));
                assert(well_seen(state, f));
                assert forall|k: int, m: int|
                    0 <= k < f.tracks@.len() && 0 <= m < f.tracks@[k].timestamps@.len() implies clone_exists(
                    state,
                    #[trigger] f.tracks@[k].timestamps@[m],
                ) by {
                    assert(clone_exists(&st, f.tracks@[k].timestamps@[m]));
                }
                assert(measurable(state, &f, rep));
                let c = admitted_count(outs, i as int);
                let d = self.rep_slam.dim();
                assert(c * d <= 3 * i) by (nonlinear_arith)
                    requires
                        0 <= c <= i,
                        0 <= d <= 3,
                ;
                assert(0 <= c * d) by (nonlinear_arith)
                    requires
                        0 <= c,
                        0 <= d,
                ;
                crate::vio::feature_update::lemma_spans(left, i as int, left.len() as int);
                crate::vio::feature_update::lemma_span(f);
                lemma_more_room(state.dim(), st.dim(), total, i as int, e, 8 * span(f));
                lemma_room_each(state, left, e, i as int);
            }
            let (out, made) = self.enter_one(
                state,
                values,
                &features[i],
                distort,
                slope,
                angles,
                cancel,
                rotate,
                distance,
                wide,
                invert,
                solve,
                turn,
                plus,
                times,
                divide,
            );
            let ghost kept_stages = stages;
            let ghost kept_parts = parts;
            let ghost kept_outs = outs;
            proof {
                outs = outs.push(out);
                parts = parts.push(made@);
                stages = stages.push(Stage { state: *state, values: *values });
                assert forall|k: int| 0 <= k < outs.len() implies entry_step(
                    #[trigger] parts[k],
                    *self,
                    &stages[k].state,
                    &stages[k + 1].state,
                    &stages[k].values,
                    &stages[k + 1].values,
                    left[k],
                    *distort,
                    *slope,
                    *angles,
                    *cancel,
                    *rotate,
                    *distance,
                    *wide,
                    *invert,
                    *solve,
                    *turn,
                    *plus,
                    *times,
                    *divide,
                    outs[k],
                ) by {
                    if k < i {
                        assert(parts[k] == kept_parts[k]);
                        assert(stages[k] == kept_stages[k]);
                        assert(stages[k + 1] == kept_stages[k + 1]);
                        assert(outs[k] == kept_outs[k]);
                    } else {
                        assert(stages[k] == kept_stages.last());
                    }
                }
                assert forall|k: int| 0 <= k < outs.len() - 1 implies (#[trigger] outs[k]) is Ok by {
                    assert(outs[k] == kept_outs[k]);
                }
                let p = made@;
                lemma_joining(
                    &before,
                    state,
                    &poses0,
                    values,
                    p.landmark,
                    p.jac.x_order@,
                    &p.h_x,
                    &p.h_f,
                    &p.r,
                    p.res@,
                    self.options.chi2_multipler,
                    *cancel,
                    *rotate,
                    *distance,
                    *wide,
                    *invert,
                    *solve,
                    *turn,
                    *plus,
                    *times,
                    out,
                );
                lemma_count_same(outs, kept_outs, i as int);
                lemma_increments_same(outs, kept_outs, i as int);
                assert forall|k: int| i < k < left.len() implies !feature_known(
                    &*state,
                    (#[trigger] left[k]).featid,
                ) by {
                    assert(left[i as int].featid != left[k].featid);
                    assert(!feature_known(&before, left[k].featid));
                }
            }
            match out {
                Err(fault) => {
                    proof {
                        assert(delayed(
                            *self,
                            clean,
                            stages,
                            parts,
                            outs,
                            &st,
                            state,
                            &held,
                            values,
                            first,
                            features@,
                            *locate,
                            *distort,
                            *slope,
                            *angles,
                            *cancel,
                            *rotate,
                            *distance,
                            *wide,
                            *invert,
                            *solve,
                            *turn,
                            *plus,
                            *times,
                            *divide,
                            Err(fault),
                        ));
                    }
                    return Err(fault);
                },
                Ok(how) => {
                    let ok = match how {
                        Joined::Refused => false,
                        Joined::Entered => true,
                        Joined::Updated(dx) => {
                            steps.push(dx);
                            true
                        },
                    };
                    added.push(ok);
                    proof {
                        assert(added@ =~= admissions(outs)) by {
                            assert forall|k: int| 0 <= k < added@.len() implies #[trigger] added@[k]
                                == admissions(outs)[k] by {
                                if k < i {
                                    assert(outs[k] == kept_outs[k]);
                                    assert(admissions(kept_outs)[k] == is_in(kept_outs[k]));
                                }
                            }
                        }
                        let c = admitted_count(kept_outs, i as int);
                        let d = self.rep_slam.dim();
                        assert((c + 1) * d == c * d + d) by (nonlinear_arith);
                        assert(steps@ =~= increments(outs, i + 1));
                    }
                },
            }
            i += 1;
        }
        retain_initialized(features, &added);
        proof {
            lemma_admitted_count(left, outs, outs.len() as int);
            assert(delayed(
                *self,
                clean,
                stages,
                parts,
                outs,
                &st,
                state,
                &held,
                values,
                first,
                features@,
                *locate,
                *distort,
                *slope,
                *angles,
                *cancel,
                *rotate,
                *distance,
                *wide,
                *invert,
                *solve,
                *turn,
                *plus,
                *times,
                *divide,
                Ok(steps),
            ));
        }
        Ok(steps)
    }
}

/// Whether a filter became another by features that enter: cleaned and found, they
/// enter one by one, and those that did are left, marked for deletion in the
/// tracker. At a fault the others do not enter.
pub open spec fn delayed<
    F: Fn(&Feature) -> Option<Spot>,
    D: Fn(usize, [Double; 2]) -> [Double; 2],
    J: Fn(usize, [Double; 2]) -> [Double; 4],
    L: Fn([Double; 3]) -> Double,
    A: Fn(Double, Double) -> Double,
    C: Fn(Double) -> Double,
    S: Fn(Double) -> Double,
    K: Fn(Double) -> Double,
    E: Fn(Double, Double) -> Option<Rotation>,
    R: Fn(Rotation, Double, Double) -> (Double, Double),
    M: Fn(&Matrix, &Vec<Double>) -> Double,
    W: Fn(usize) -> Double,
    I: Fn(&Matrix) -> Option<Matrix>,
    U: Fn([Double; 9], [Double; 3]) -> [Double; 9],
    H: Fn(&Matrix) -> Option<Matrix>,
    P: Fn(Double, Double) -> Double,
    T: Fn(Double, Double) -> Double,
    V: Fn(Double, Double) -> Double,
>(
    u: UpdaterSlam,
    clean: Seq<Feature>,
    stages: Seq<Stage>,
    parts: Seq<EntryParts>,
    outs: Seq<Result<Joined, FeatureFault>>,
    before: &State,
    after: &State,
    values: &Estimates,
    moved: &Estimates,
    features: Seq<Feature>,
    rest: Seq<Feature>,
    locate: F,
    distort: D,
    slope: J,
    angles: Angles<L, A, C, S, K>,
    cancel: E,
    rotate: R,
    distance: M,
    wide: W,
    invert: I,
    solve: H,
    turn: U,
    plus: P,
    times: T,
    divide: V,
    done: Result<Vec<Vec<Double>>, FeatureFault>,
) -> bool {
    let left = found_features(locate, clean);
    let n = outs.len() as int;
    &&& all_cleaned(before, features, clean)
    &&& entered_all(
        stages,
        parts,
        outs,
        u,
        left,
        distort,
        slope,
        angles,
        cancel,
        rotate,
        distance,
        wide,
        invert,
        solve,
        turn,
        plus,
        times,
        divide,
    )
    &&& stages[0] == (Stage { state: *before, values: *values })
    &&& stages[n] == (Stage { state: *after, values: *moved })
    &&& match done {
        Ok(steps) => {
            &&& n == left.len()
            &&& n > 0 ==> outs[n - 1] is Ok
            &&& steps@ == increments(outs, n)
            &&& rest == kept(left, admissions(outs), n).map_values(|f: Feature| forgotten(f))
        },
        Err(fault) => {
            &&& n > 0
            &&& outs[n - 1] == Err::<Joined, FeatureFault>(fault)
            &&& rest == left
        },
    }
}

/// Times closer than this are the same: 1e-9.
pub const SAME_TIME: u64 = 0x3E11_2E0B_E826_D695;

/// Whether the anchor of feature `i` is the oldest clone.
pub open spec fn anchored_to_oldest(st: &State, i: int, op: Ring) -> bool {
    let t = st.features_slam@[i].anchor_clone_timestamp;
    (op.plus)(t, st.clones_imu@[0].0.spec_neg()).spec_abs().spec_lt(Double { bits: SAME_TIME })
}

/// Of each feature, whether its anchor is the oldest clone.
pub open spec fn nearness(st: &State, op: Ring) -> Seq<bool> {
    Seq::new(st.features_slam@.len(), |i: int| anchored_to_oldest(st, i, op))
}

/// The features that are anchored anew before the oldest clone leaves: those that
/// are anchored to it, if the window is too long.
pub open spec fn to_anchor_anew(st: &State, op: Ring) -> Seq<usize> {
    if st.clones_imu@.len() <= st.options.max_clone_size || st.clones_imu@.len() == 0 {
        seq![]
    } else {
        leaving(st, nearness(st, op), st.features_slam@.len() as int)
    }
}

/// Whether a state became another by anchoring a feature anew.
pub open spec fn anchor_step<
    I: Fn(&Matrix) -> Option<Matrix>,
    L: Fn([Double; 3]) -> Double,
    A: Fn(Double, Double) -> Double,
    C: Fn(Double) -> Double,
    S: Fn(Double) -> Double,
    K: Fn(Double) -> Double,
    V: Fn(Double, Double) -> Double,
>(
    before: &State,
    after: &State,
    place: int,
    t: Double,
    cam: int,
    values: &Estimates,
    invert: I,
    angles: Angles<L, A, C, S, K>,
    divide: V,
    op: Ring,
    res: Result<(), AnchorFault>,
) -> bool {
    exists|
        h_f_old: Matrix,
        h_x_old: Seq<Matrix>,
        h_f_new: Matrix,
        h_x_new: Seq<Matrix>,
        inv: Option<Matrix>,
    | #[trigger]
        anchored_anew(
            before,
            after,
            place,
            t,
            cam,
            values,
            &h_f_old,
            h_x_old,
            &h_f_new,
            h_x_new,
            &inv,
            res,
            invert,
            angles,
            divide,
            op,
        )
}

/// Whether step `k` of a row of states anchors the feature at place `k` anew.
pub open spec fn anchor_step_at<
    I: Fn(&Matrix) -> Option<Matrix>,
    L: Fn([Double; 3]) -> Double,
    A: Fn(Double, Double) -> Double,
    C: Fn(Double) -> Double,
    S: Fn(Double) -> Double,
    K: Fn(Double) -> Double,
    V: Fn(Double, Double) -> Double,
>(
    states: Seq<State>,
    k: int,
    places: Seq<usize>,
    first: &State,
    values: &Estimates,
    invert: I,
    angles: Angles<L, A, C, S, K>,
    divide: V,
    op: Ring,
    res: Result<(), AnchorFault>,
) -> bool {
    anchor_step(
        &states[k],
        &states[k + 1],
        places[k] as int,
        first.timestamp,
        first.features_slam@[places[k] as int].anchor_cam_id as int,
        values,
        invert,
        angles,
        divide,
        op,
        res,
    )
}

/// Whether states follow each other as features are anchored anew, one by one, to
/// the newest clone and each to its camera. At a fault the others stay.
pub open spec fn anchors_changed<
    I: Fn(&Matrix) -> Option<Matrix>,
    L: Fn([Double; 3]) -> Double,
    A: Fn(Double, Double) -> Double,
    C: Fn(Double) -> Double,
    S: Fn(Double) -> Double,
    K: Fn(Double) -> Double,
    V: Fn(Double, Double) -> Double,
>(
    states: Seq<State>,
    before: &State,
    after: &State,
    values: &Estimates,
    invert: I,
    angles: Angles<L, A, C, S, K>,
    divide: V,
    op: Ring,
    done: Result<(), AnchorFault>,
) -> bool {
    let places = to_anchor_anew(before, op);
    let n = states.len() - 1;
    &&& 0 <= n <= places.len()
    &&& states[0] == *before
    &&& states[n] == *after
    &&& done is Ok ==> n == places.len()
    &&& done is Err ==> n > 0
    &&& forall|k: int|
        0 <= k < n - 1 ==> #[trigger] anchor_step_at(
            states,
            k,
            places,
            before,
            values,
            invert,
            angles,
            divide,
            op,
            Ok(()),
        )
    &&& n > 0 ==> anchor_step_at(
        states,
        n - 1,
        places,
        before,
        values,
        invert,
        angles,
        divide,
        op,
        done,
    )
}

/// The features that leave are relative ones, each once and in order.
proof fn lemma_leaving(st: &State, near: Seq<bool>, n: int)
    requires
        0 <= n <= st.features_slam@.len(),
        st.features_slam@.len() <= usize::MAX,
    ensures
        forall|k: int|
            0 <= k < leaving(st, near, n).len() ==> #[trigger] leaving(st, near, n)[k] < n
                && st.features_slam@[leaving(
                st,
                near,
                n,
            )[k] as int].representation.spec_is_relative(),
        forall|a: int, b: int|
            0 <= a < b < leaving(st, near, n).len() ==> #[trigger] leaving(st, near, n)[a]
                < #[trigger] leaving(st, near, n)[b],
    decreases n,
{
    if n > 0 {
        lemma_leaving(st, near, n - 1);
    }
}

/// A feature that is anchored anew leaves the others, the clones and the cameras as
/// they were.
proof fn lemma_anchor_step<
    I: Fn(&Matrix) -> Option<Matrix>,
    L: Fn([Double; 3]) -> Double,
    A: Fn(Double, Double) -> Double,
    C: Fn(Double) -> Double,
    S: Fn(Double) -> Double,
    K: Fn(Double) -> Double,
    V: Fn(Double, Double) -> Double,
>(
    before: &State,
    after: &State,
    place: int,
    t: Double,
    cam: int,
    values: &Estimates,
    invert: I,
    angles: Angles<L, A, C, S, K>,
    divide: V,
    op: Ring,
)
    requires
        anchor_step(before, after, place, t, cam, values, invert, angles, divide, op, Ok(())),
    ensures
        after.wf(),
        same_window(before, after),
        after.features_slam@.len() == before.features_slam@.len(),
        forall|q: int|
            0 <= q < before.features_slam@.len() && q != place ==> #[trigger] after.features_slam@[q]
                == before.features_slam@[q],
{
}

impl UpdaterSlam {
    /// Before the oldest clone leaves a window that is too long, anchors the
    /// features that are anchored to it anew, to the newest clone and each to its
    /// camera.
    pub fn change_anchors<
        I: Fn(&Matrix) -> Option<Matrix>,
            L: Fn([Double; 3]) -> Double,
            A: Fn(Double, Double) -> Double,
            C: Fn(Double) -> Double,
            S: Fn(Double) -> Double,
            K: Fn(Double) -> Double,
            P: Fn(Double, Double) -> Double,
            T: Fn(Double, Double) -> Double,
            V: Fn(Double, Double) -> Double,
    >(
        &self,
        state: &mut State,
        values: &Estimates,
        invert: &I,
        angles: &Angles<L, A, C, S, K>,
        plus: &P,
        times: &T,
        divide: &V,
    ) -> (done: Result<(), AnchorFault>)
        requires
            old(state).wf(),
            values.fits(old(state)),
            anchors_present(old(state)),
            old(state).clones_imu@.len() > old(state).options.max_clone_size ==> clone_exists(
                old(state),
                old(state).timestamp,
            ) && forall|i: int|
                0 <= i < old(state).features_slam@.len() && old(
                    state,
                ).features_slam@[i].representation.spec_is_relative() ==> old(
                    state,
                ).clones_imu@[0].0.spec_le(
                    (#[trigger] old(state).features_slam@[i]).anchor_clone_timestamp,
                ),
            inverts(*invert),
            angles.wf(),
            binary(*plus),
            binary(*times),
            binary(*divide),
        ensures
            done is Ok ==> final(state).wf(),
            done is Ok ==> same_window(old(state), final(state)),
            done is Ok ==> final(state).features_slam@.len() == old(state).features_slam@.len(),
            exists|states: Seq<State>| #[trigger]
                anchors_changed(
                    states,
                    old(state),
                    final(state),
                    values,
                    *invert,
                    *angles,
                    *divide,
                    ring(*plus, *times),
                    done,
                ),
    {
        let ghost op = ring(*plus, *times);
        let ghost first = *state;
        let ghost mut states: Seq<State> = seq![first];
        if state.clones_imu.len() == 0 {
            assert(anchors_changed(
                states,
                &first,
                state,
                values,
                *invert,
                *angles,
                *divide,
                op,
                Ok(()),
            ));
            return Ok(());
        }
        let oldest = state.marg_timestep();
        let mut near: Vec<bool> = Vec::new();
        let mut i: usize = 0;
        while i < state.features_slam.len()
            invariant
                i <= first.features_slam@.len(),
                *state == first,
                first.clones_imu@.len() > 0,
                oldest == first.clones_imu@[0].0,
                op == ring(*plus, *times),
                binary(*plus),
                near@.len() == i,
                forall|k: int| 0 <= k < i ==> #[trigger] near@[k] == nearness(&first, op)[k],
            decreases first.features_slam@.len() - i,
        {
            let t = state.features_slam[i].anchor_clone_timestamp;
            let apart = apply_two(plus, t, oldest.neg());
            near.push(apart.abs().lt(Double { bits: SAME_TIME }));
            i += 1;
        }
        assert(near@ =~= nearness(&first, op));
        let places = leaving_anchors(state, &near);
        let new_t = state.timestamp;
        proof {
            lemma_leaving(&first, near@, near@.len() as int);
        }
        assert(places@ == to_anchor_anew(&first, op));
        let mut k: usize = 0;
        while k < places.len()
            invariant
                k <= places@.len(),
                places@ == to_anchor_anew(&first, op),
                places@.len() > 0 ==> places@ == leaving(&first, near@, near@.len() as int)
                    && first.clones_imu@.len() > first.options.max_clone_size,
                near@.len() == first.features_slam@.len(),
                forall|q: int|
                    0 <= q < places@.len() ==> #[trigger] places@[q] < first.features_slam@.len()
                        && first.features_slam@[places@[q] as int].representation.spec_is_relative(),
                forall|a: int, b: int|
                    0 <= a < b < places@.len() ==> #[trigger] places@[a] < #[trigger] places@[b],
                first == *old(state),
                new_t == first.timestamp,
                places@.len() > 0 ==> clone_exists(&first, new_t),
                anchors_present(&first),
                state.wf(),
                values.fits(state),
                same_window(&first, state),
                state.features_slam@.len() == first.features_slam@.len(),
                forall|q: int|
                    k <= q < places@.len() ==> state.features_slam@[(
                    #[trigger] places@[q]) as int] == first.features_slam@[places@[q] as int],
                op == ring(*plus, *times),
                inverts(*invert),
                angles.wf(),
                binary(*plus),
                binary(*times),
                binary(*divide),
                states.len() == k + 1,
                states[0] == first,
                states[k as int] == *state,
                forall|q: int|
                    0 <= q < k ==> #[trigger] anchor_step_at(
                        states,
                        q,
                        places@,
                        &first,
                        values,
                        *invert,
                        *angles,
                        *divide,
                        op,
                        Ok(()),
                    ),
            decreases places@.len() - k,
        {
            let place: usize = places[k];
            let ghost before = *state;
            let ghost kept_states = states;
            proof {
                assert(places@[k as int] < first.features_slam@.len());
                let l = first.features_slam@[place as int];
                assert(state.features_slam@[place as int] == l);
                assert(l.representation.spec_is_relative());
                assert(clone_exists(&first, l.anchor_clone_timestamp));
            }
            let cam: usize = state.features_slam[place].anchor_cam_id as usize;
            let res = perform_anchor_change(
                state,
                place,
                new_t,
                cam,
                values,
                invert,
                angles,
                plus,
                times,
                divide,
            );
            proof {
                states = states.push(*state);
                assert(anchor_step(
                    &before,
                    state,
                    place as int,
                    first.timestamp,
                    cam as int,
                    values,
                    *invert,
                    *angles,
                    *divide,
                    op,
                    res,
                ));
                assert(states[k as int] == before && states[k + 1] == *state);
                assert(anchor_step_at(
                    states,
                    k as int,
                    places@,
                    &first,
                    values,
                    *invert,
                    *angles,
                    *divide,
                    op,
                    res,
                ));
                assert forall|q: int| 0 <= q < k implies #[trigger] anchor_step_at(
                    states,
                    q,
                    places@,
                    &first,
                    values,
                    *invert,
                    *angles,
                    *divide,
                    op,
                    Ok(()),
                ) by {
                    assert(anchor_step_at(
                        kept_states,
                        q,
                        places@,
                        &first,
                        values,
                        *invert,
                        *angles,
                        *divide,
                        op,
                        Ok(()),
                    ));
                    assert(states[q] == kept_states[q]);
                    assert(states[q + 1] == kept_states[q + 1]);
                }
            }
            match res {
                Err(fault) => {
                    assert(anchors_changed(
                        states,
                        &first,
                        state,
                        values,
                        *invert,
                        *angles,
                        *divide,
                        op,
                        Err(fault),
                    ));
                    return Err(fault);
                },
                Ok(_) => {
                    proof {
                        lemma_anchor_step(
                            &before,
                            state,
                            place as int,
                            first.timestamp,
                            cam as int,
                            values,
                            *invert,
                            *angles,
                            *divide,
                            op,
                        );
                        assert forall|q: int| k + 1 <= q < places@.len() implies state.features_slam@[(
                        #[trigger] places@[q]) as int] == first.features_slam@[places@[q] as int] by {
                            assert(places@[k as int] < places@[q]);
                            assert(before.features_slam@[places@[q] as int]
                                == first.features_slam@[places@[q] as int]);
                        }
                    }
                },
            }
            k += 1;
        }
        assert(anchors_changed(
            states,
            &first,
            state,
            values,
            *invert,
            *angles,
            *divide,
            op,
            Ok(()),
        ));
        Ok(())
    }
}

} // verus!
