//! What a feature's measurements say of the state: its residual system, with the
//! feature eliminated or joined to the state, and the size of its residual.

use vstd::prelude::*;

use crate::algebra::{entries, is, ring, Ring};
use crate::arith::{apply_two, binary, of_two};
use crate::double::Double;
use crate::matrix::Matrix;
use crate::vio::feature_init::{apply_distance, sized, sizes};
use crate::vio::givens::{cancels, mixes, Rotation};
use crate::vio::estimates::Estimates;
use crate::vio::jacobian::{
    answers, get_feature_jacobian_full, is_feature_jacobian, Angles,
};
use crate::vio::kalman::{spread_of, spread_through};
use crate::vio::landmark::Landmark;
use crate::vio::options::FeatRepresentation;
use crate::vio::state::{camera_stride, Run, State};
use crate::vio::state_helper::{column, in_rows, lemma_feature_runs};
use crate::vio::updater::{chi2_95, percentile, tells_percentiles, FeatureSystem};
use crate::vio::updater_helper::{
    anchor_runs, calibration_runs, clone_at, clone_exists, clone_run, distinct, eliminated,
    lemma_columns_bounded, lemma_distinct, lemma_measured_monotonic, lemma_touched_sizes,
    measurable, measured, nullspace_project_inplace, system_fits, time_runs, touched_runs,
    track_runs, CameraTrack, Feature, FeatureJacobian,
};
use crate::vio::updater_slam::{join_feature, joins};

verus! {

/// How many variables a feature's system may have.
pub open spec fn span(f: Feature) -> int {
    3 + 2 * f.tracks@.len() + f.spec_measurements()
}

/// Whether there is room for the system of a feature.
pub open spec fn feature_room(st: &State, f: Feature) -> bool {
    let e = 8 * span(f);
    &&& e * e <= usize::MAX
    &&& st.dim() * e <= usize::MAX
}

/// How many runs the tracks of a feature touch.
proof fn lemma_track_count(st: &State, tracks: Seq<CameraTrack>, k: int)
    requires
        0 <= k <= tracks.len(),
    ensures
        track_runs(st, tracks, k).len() <= 2 * k + measured(tracks, k),
    decreases k,
{
    if k > 0 {
        lemma_track_count(st, tracks, k - 1);
    }
}

/// A feature touches no more variables than it spans, less one.
pub proof fn lemma_touched_count(st: &State, f: &Feature, rep: FeatRepresentation)
    ensures
        touched_runs(st, f, rep).len() <= span(*f) - 1,
        0 <= f.spec_measurements() < span(*f),
{
    lemma_track_count(st, f.tracks@, f.tracks@.len() as int);
    lemma_measured_monotonic(f.tracks@, 0, f.tracks@.len() as int);
}

/// Where there is room, the system fits the machine.
pub proof fn lemma_room(st: &State, f: &Feature, rep: FeatRepresentation)
    requires
        feature_room(st, *f),
        st.dim() >= 0,
    ensures
        system_fits(st, f, rep),
        ({
            let w = column(
                distinct(touched_runs(st, f, rep)),
                distinct(touched_runs(st, f, rep)).len() as int,
            );
            let n = 2 * f.spec_measurements();
            &&& 0 <= w
            &&& (w + 3) * (w + 3) <= usize::MAX
            &&& n * (w + 3) <= usize::MAX
            &&& n * n <= usize::MAX
            &&& n <= 8 * span(*f)
            &&& w + 3 <= 8 * span(*f) <= usize::MAX
        }),
{
    lemma_touched_count(st, f, rep);
    let all = touched_runs(st, f, rep);
    let order = distinct(all);
    lemma_distinct(all);
    lemma_touched_sizes(st, f, rep);
    assert forall|i: int| 0 <= i < order.len() implies (#[trigger] order[i]).1 <= 8 by {
        assert(order.contains(order[i]));
        assert(all.contains(order[i]));
    }
    lemma_columns_bounded(order, order.len() as int);
    crate::vio::state_helper::lemma_column_monotonic(order, 0, order.len() as int);
    let w = column(order, order.len() as int);
    let e = 8 * span(*f);
    let m = f.spec_measurements();
    let cols = 8 * all.len();
    assert(e <= e * e) by (nonlinear_arith)
        requires
            e >= 1,
    ;
    assert(2 * m * cols <= e * e) by (nonlinear_arith)
        requires
            0 <= 2 * m <= e,
            0 <= cols <= e,
    ;
    assert((w + 3) * (w + 3) <= e * e) by (nonlinear_arith)
        requires
            0 <= w + 3 <= e,
    ;
    assert((2 * m) * (w + 3) <= e * e) by (nonlinear_arith)
        requires
            0 <= 2 * m <= e,
            0 <= w + 3 <= e,
    ;
    assert((2 * m) * (2 * m) <= e * e) by (nonlinear_arith)
        requires
            0 <= 2 * m <= e,
    ;
}

/// The run of a clone lies in the covariance.
proof fn lemma_clone_run(st: &State, t: Double)
    requires
        st.wf(),
        clone_exists(st, t),
    ensures
        0 <= clone_run(st, t).0,
        clone_run(st, t).0 + 6 <= st.dim(),
{
    let k = clone_at(st.clones_imu@, t, 0);
    lemma_clone_place(st, t, 0);
    let head = st.runs_before_clones().len() as int;
    assert(st.runs()[head + k] == (st.clones_imu@[k].1.id, 6usize));
}

/// The place of a clone is not before where the search starts.
proof fn lemma_clone_place(st: &State, t: Double, from: int)
    requires
        0 <= from <= st.clones_imu@.len(),
    ensures
        from <= clone_at(st.clones_imu@, t, from) <= st.clones_imu@.len(),
    decreases st.clones_imu@.len() - from,
{
    if from < st.clones_imu@.len() {
        lemma_clone_place(st, t, from + 1);
    }
}

/// The runs of a camera lie in the covariance.
proof fn lemma_camera_runs(st: &State, cam: int)
    requires
        st.wf(),
        0 <= cam < st.calib_imu_to_cam@.len(),
    ensures
        in_rows(calibration_runs(st, cam), st.dim()),
{
    let o = st.options;
    let stride = camera_stride(o);
    let n = o.num_cameras as int;
    assert(cam * stride + stride <= n * stride) by (nonlinear_arith)
        requires
            cam + 1 <= n,
            0 <= stride,
    ;
    assert(0 <= cam * stride) by (nonlinear_arith)
        requires
            0 <= cam,
            0 <= stride,
    ;
    assert(st.calib_imu_to_cam@[cam].size == 6);
    assert(st.cam_intrinsics@[cam].size == 8);
}

/// The runs of the tracks of a feature lie in the covariance.
proof fn lemma_track_rows(st: &State, f: &Feature, rep: FeatRepresentation, k: int)
    requires
        st.wf(),
        measurable(st, f, rep),
        0 <= k <= f.tracks@.len(),
    ensures
        in_rows(track_runs(st, f.tracks@, k), st.dim()),
    decreases k,
{
    if k > 0 {
        lemma_track_rows(st, f, rep, k - 1);
        let t = f.tracks@[k - 1];
        lemma_camera_runs(st, t.cam_id as int);
        let before = track_runs(st, f.tracks@, k - 1);
        let cal = calibration_runs(st, t.cam_id as int);
        let runs = track_runs(st, f.tracks@, k);
        assert forall|i: int| 0 <= i < runs.len() implies 0 <= (#[trigger] runs[i]).0 && runs[i].0
            + runs[i].1 <= st.dim() by {
            if i < before.len() {
                assert(runs[i] == before[i]);
            } else if i < before.len() + cal.len() {
                assert(runs[i] == cal[i - before.len()]);
            } else {
                let m = i - before.len() - cal.len();
                assert(runs[i] == clone_run(st, t.timestamps@[m]));
                assert(clone_exists(st, f.tracks@[k - 1].timestamps@[m]));
                lemma_clone_run(st, t.timestamps@[m]);
            }
        }
    }
}

/// All variables that a feature touches lie in the covariance.
pub proof fn lemma_touched_rows(st: &State, f: &Feature, rep: FeatRepresentation)
    requires
        st.wf(),
        measurable(st, f, rep),
    ensures
        in_rows(touched_runs(st, f, rep), st.dim()),
        in_rows(distinct(touched_runs(st, f, rep)), st.dim()),
{
    let all = touched_runs(st, f, rep);
    let own = anchor_runs(st, f, rep);
    lemma_track_rows(st, f, rep, f.tracks@.len() as int);
    if rep.spec_is_relative() {
        lemma_clone_run(st, f.anchor_clone_timestamp);
        lemma_camera_runs(st, f.anchor_cam_id as int);
        if st.options.do_calib_camera_pose {
            assert(own[0] == calibration_runs(st, f.anchor_cam_id as int)[0]);
        }
    }
    assert forall|i: int| 0 <= i < all.len() implies 0 <= (#[trigger] all[i]).0 && all[i].0 + all[i].1
        <= st.dim() by {
        if i < own.len() {
            assert(all[i] == own[i]);
        } else {
            assert(all[i] == track_runs(st, f.tracks@, f.tracks@.len() as int)[i - own.len()]);
        }
    }
    lemma_distinct(all);
    let order = distinct(all);
    assert forall|i: int| 0 <= i < order.len() implies 0 <= (#[trigger] order[i]).0 && order[i].0
        + order[i].1 <= st.dim() by {
        assert(order.contains(order[i]));
        assert(all.contains(order[i]));
    }
}

/// Whether a system is that of a feature whose position is eliminated: it is sized
/// by the state's covariance, and the largest size is the percentile of its rows.
pub open spec fn is_window_system<
    C: Fn(Double, Double) -> Option<Rotation>,
    R: Fn(Rotation, Double, Double) -> (Double, Double),
    D: Fn(&Matrix, &Vec<Double>) -> Double,
    W: Fn(usize) -> Double,
    T: Fn(Double, Double) -> Double,
>(
    s: FeatureSystem,
    jac: FeatureJacobian,
    st: &State,
    multiplier: Double,
    cancel: C,
    rotate: R,
    distance: D,
    wide: W,
    times: T,
    op: Ring,
) -> bool {
    &&& eliminated(&s.h_x, s.res@, &jac.h_f, &jac.h_x, jac.res@, cancel, rotate)
    &&& s.x_order@ == jac.x_order@
    &&& s.chi2 == sized(
        distance,
        spread_of(entries(&st.cov), entries(&s.h_x), s.x_order@, op),
        s.res@,
    )
    &&& s.threshold == of_two(times, multiplier, percentile(wide, s.res.len()))
}

/// Whether a system fits the list of a feature: shapes and lists agree, all of it
/// lies in the covariance, and it is not larger than the feature spans.
pub open spec fn fits_feature(s: FeatureSystem, st: &State, f: Feature) -> bool {
    &&& s.wf()
    &&& in_rows(s.x_order@, st.dim())
    &&& s.x_order@.len() <= span(f)
    &&& s.res@.len() <= 8 * span(f)
    &&& forall|i: int| 0 <= i < s.x_order@.len() ==> (#[trigger] s.x_order@[i]).1 <= 8
}

/// The system of a feature whose position is eliminated.
pub(crate) fn window_system<
    D: Fn(usize, [Double; 2]) -> [Double; 2],
    J: Fn(usize, [Double; 2]) -> [Double; 4],
    L: Fn([Double; 3]) -> Double,
    A: Fn(Double, Double) -> Double,
    C: Fn(Double) -> Double,
    S: Fn(Double) -> Double,
    K: Fn(Double) -> Double,
    E: Fn(Double, Double) -> Option<Rotation>,
    R: Fn(Rotation, Double, Double) -> (Double, Double),
    M: Fn(&Matrix, &Vec<Double>) -> Double,
    W: Fn(usize) -> Double,
    P: Fn(Double, Double) -> Double,
    T: Fn(Double, Double) -> Double,
    V: Fn(Double, Double) -> Double,
>(
    state: &State,
    values: &Estimates,
    feature: &Feature,
    rep: FeatRepresentation,
    multiplier: Double,
    distort: &D,
    slope: &J,
    angles: &Angles<L, A, C, S, K>,
    cancel: &E,
    rotate: &R,
    distance: &M,
    wide: &W,
    plus: &P,
    times: &T,
    divide: &V,
) -> (both: (FeatureSystem, Ghost<FeatureJacobian>))
    requires
        state.wf(),
        values.fits(state),
        measurable(state, feature, rep),
        feature.has_pixels(),
        2 <= feature.spec_measurements(),
        feature_room(state, *feature),
        answers(*distort),
        answers(*slope),
        angles.wf(),
        cancels(*cancel),
        mixes(*rotate),
        sizes(*distance),
        tells_percentiles(*wide),
        binary(*plus),
        binary(*times),
        binary(*divide),
    ensures
        fits_feature(both.0, state, *feature),
        is_feature_jacobian(
            &both.1@,
            state,
            feature,
            rep,
            values,
            *distort,
            *slope,
            *angles,
            *divide,
            ring(*plus, *times),
        ),
        is_window_system(
            both.0,
            both.1@,
            state,
            multiplier,
            *cancel,
            *rotate,
            *distance,
            *wide,
            *times,
            ring(*plus, *times),
        ),
{
    proof {
        lemma_room(state, feature, rep);
        lemma_touched_rows(state, feature, rep);
        lemma_touched_count(state, feature, rep);
        lemma_distinct(touched_runs(state, feature, rep));
        lemma_touched_sizes(state, feature, rep);
    }
    let jac = get_feature_jacobian_full(
        state,
        feature,
        rep,
        values,
        distort,
        slope,
        angles,
        plus,
        times,
        divide,
    );
    let ghost whole = jac;
    let FeatureJacobian { mut h_f, mut h_x, mut res, x_order } = jac;
    let ghost w = column(x_order@, x_order@.len() as int);
    let ghost n = 2 * feature.spec_measurements();
    proof {
        assert(n * w <= n * (w + 3)) by (nonlinear_arith)
            requires
                0 <= n,
        ;
        assert(w * w <= (w + 3) * (w + 3)) by (nonlinear_arith)
            requires
                0 <= w,
        ;
    }
    nullspace_project_inplace(&mut h_f, &mut h_x, &mut res, cancel, rotate);
    proof {
        assert(h_x.height() * h_x.height() <= n * n) by (nonlinear_arith)
            requires
                0 <= h_x.height() <= n,
        ;
    }
    let s = spread_through(state, &x_order, &h_x, plus, times);
    let ghost f = spread_of(entries(&state.cov), entries(&h_x), x_order@, ring(*plus, *times));
    let chi2 = apply_distance(&s, &res, distance, Ghost(f));
    let threshold = apply_two(times, multiplier, chi2_95(res.len(), wide));
    let ghost order = x_order@;
    let system = FeatureSystem { h_x, res, x_order, chi2, threshold };
    proof {
        assert forall|i: int| 0 <= i < order.len() implies (#[trigger] order[i]).1 <= 8 by {
            let all = touched_runs(state, feature, rep);
            assert(order.contains(order[i]));
            assert(all.contains(order[i]));
        }
    }
    (system, Ghost(whole))
}

/// A matrix with a number added on its diagonal.
pub open spec fn raised(f: spec_fn(int, int) -> Double, by: Double, op: Ring) -> spec_fn(
    int,
    int,
) -> Double {
    |i: int, j: int|
        if i == j {
            (op.plus)(f(i, j), by)
        } else {
            f(i, j)
        }
}

/// Adds a number on the diagonal of a square matrix.
fn raise<P: Fn(Double, Double) -> Double, T: Fn(Double, Double) -> Double>(
    m: &mut Matrix,
    by: Double,
    Ghost(f): Ghost<spec_fn(int, int) -> Double>,
    plus: &P,
    times: &T,
)
    requires
        is(old(m), old(m).height(), old(m).height(), f),
        binary(*plus),
        binary(*times),
    ensures
        is(final(m), old(m).height(), old(m).height(), raised(f, by, ring(*plus, *times))),
{
    let ghost op = ring(*plus, *times);
    let n: usize = m.nrows();
    let mut k: usize = 0;
    while k < n
        invariant
            k <= n,
            n == old(m).height(),
            op == ring(*plus, *times),
            binary(*plus),
            m.shaped(n as int, n as int),
            forall|i: int, j: int|
                m.has(i, j) ==> #[trigger] m.at(i, j) == (if i == j && i < k {
                    raised(f, by, op)(i, j)
                } else {
                    f(i, j)
                }),
        decreases n - k,
    {
        assert(m.has(k as int, k as int));
        let v = apply_two(plus, m.get(k, k), by);
        m.set(k, k, v);
        k += 1;
    }
}

/// Whether a system is that of a feature of the state: the feature's derivative
/// joins the state's, with a single inverse depth after its bearing is eliminated.
/// It is sized by the state's covariance and the noise of a pixel.
pub open spec fn is_slam_system<
    C: Fn(Double, Double) -> Option<Rotation>,
    R: Fn(Rotation, Double, Double) -> (Double, Double),
    D: Fn(&Matrix, &Vec<Double>) -> Double,
    W: Fn(usize) -> Double,
    T: Fn(Double, Double) -> Double,
>(
    s: FeatureSystem,
    jac: FeatureJacobian,
    parts: (Matrix, Matrix),
    st: &State,
    l: Landmark,
    multiplier: Double,
    noise: Double,
    cancel: C,
    rotate: R,
    distance: D,
    wide: W,
    times: T,
    op: Ring,
) -> bool {
    let single = l.representation is AnchoredInverseDepthSingle;
    &&& joins(parts, &jac.h_x, &jac.h_f, single)
    &&& if single {
        eliminated(&s.h_x, s.res@, &parts.1, &parts.0, jac.res@, cancel, rotate)
    } else {
        s.h_x == parts.0 && s.res@ == jac.res@
    }
    &&& s.x_order@ == jac.x_order@.push((l.id, l.value.len()))
    &&& s.chi2 == sized(
        distance,
        raised(spread_of(entries(&st.cov), entries(&s.h_x), s.x_order@, op), noise, op),
        s.res@,
    )
    &&& s.threshold == of_two(times, multiplier, percentile(wide, s.res.len()))
}

/// What a system of a feature of the state was made of.
pub struct SlamParts {
    /// The residual system of the feature.
    pub jac: FeatureJacobian,
    /// Its derivatives, joined.
    pub joined: (Matrix, Matrix),
}

/// The system of the state's feature at `place`.
pub(crate) fn slam_system<
    D: Fn(usize, [Double; 2]) -> [Double; 2],
    J: Fn(usize, [Double; 2]) -> [Double; 4],
    L: Fn([Double; 3]) -> Double,
    A: Fn(Double, Double) -> Double,
    C: Fn(Double) -> Double,
    S: Fn(Double) -> Double,
    K: Fn(Double) -> Double,
    E: Fn(Double, Double) -> Option<Rotation>,
    R: Fn(Rotation, Double, Double) -> (Double, Double),
    M: Fn(&Matrix, &Vec<Double>) -> Double,
    W: Fn(usize) -> Double,
    P: Fn(Double, Double) -> Double,
    T: Fn(Double, Double) -> Double,
    V: Fn(Double, Double) -> Double,
>(
    state: &State,
    values: &Estimates,
    feature: &Feature,
    place: usize,
    rep: FeatRepresentation,
    multiplier: Double,
    noise: Double,
    distort: &D,
    slope: &J,
    angles: &Angles<L, A, C, S, K>,
    cancel: &E,
    rotate: &R,
    distance: &M,
    wide: &W,
    plus: &P,
    times: &T,
    divide: &V,
) -> (both: (FeatureSystem, Ghost<SlamParts>))
    requires
        state.wf(),
        values.fits(state),
        place < state.features_slam@.len(),
        rep == crate::vio::updater::window_representation(
            state.features_slam@[place as int].representation,
        ),
        measurable(state, feature, rep),
        feature.has_pixels(),
        1 <= feature.spec_measurements(),
        feature_room(state, *feature),
        answers(*distort),
        answers(*slope),
        angles.wf(),
        cancels(*cancel),
        mixes(*rotate),
        sizes(*distance),
        tells_percentiles(*wide),
        binary(*plus),
        binary(*times),
        binary(*divide),
    ensures
        fits_feature(both.0, state, *feature),
        is_feature_jacobian(
            &both.1@.jac,
            state,
            feature,
            rep,
            values,
            *distort,
            *slope,
            *angles,
            *divide,
            ring(*plus, *times),
        ),
        is_slam_system(
            both.0,
            both.1@.jac,
            both.1@.joined,
            state,
            state.features_slam@[place as int],
            multiplier,
            noise,
            *cancel,
            *rotate,
            *distance,
            *wide,
            *times,
            ring(*plus, *times),
        ),
{
    let ghost op = ring(*plus, *times);
    let ghost l = state.features_slam@[place as int];
    proof {
        lemma_room(state, feature, rep);
        lemma_touched_rows(state, feature, rep);
        lemma_touched_count(state, feature, rep);
        lemma_distinct(touched_runs(state, feature, rep));
        lemma_touched_sizes(state, feature, rep);
        let features = state.features_slam@;
        lemma_feature_runs(features, features.len() as int);
        let head = state.runs_before_clones().len() as int;
        let clones = state.clones_imu@.len() as int;
        assert(state.runs()[head + clones + place] == (l.id, l.value.len()));
        assert(l.wf());
    }
    let jac = get_feature_jacobian_full(
        state,
        feature,
        rep,
        values,
        distort,
        slope,
        angles,
        plus,
        times,
        divide,
    );
    let ghost whole = jac;
    let ghost w = column(jac.x_order@, jac.x_order@.len() as int);
    let ghost n = 2 * feature.spec_measurements();
    let single = state.features_slam[place].representation
        == FeatRepresentation::AnchoredInverseDepthSingle;
    let (h, bearing) = join_feature(&jac.h_x, &jac.h_f, single);
    let ghost parts = (h, bearing);
    let FeatureJacobian { h_f: _, h_x: _, mut res, mut x_order } = jac;
    let ghost inner = x_order@;
    let (mut h, mut bearing) = (h, bearing);
    if single {
        proof {
            assert(n * (w + 1) <= n * (w + 3)) by (nonlinear_arith)
                requires
                    0 <= n,
            ;
        }
        nullspace_project_inplace(&mut bearing, &mut h, &mut res, cancel, rotate);
    }
    let size: usize = state.features_slam[place].size();
    x_order.push((state.features_slam[place].id(), size));
    let ghost order = x_order@;
    proof {
        let all = touched_runs(state, feature, rep);
        assert forall|i: int| 0 <= i < inner.len() implies (#[trigger] inner[i]).1 == 6 || inner[i].1
            == 8 by {
            assert(inner.contains(inner[i]));
            assert(all.contains(inner[i]));
            let k = choose|k: int| 0 <= k < all.len() && all[k] == inner[i];
            lemma_touched_wide(state, feature, rep, k);
        }
        assert forall|i: int| 0 <= i < order.len() implies (#[trigger] order[i]).1 <= 8 && 0
            <= order[i].0 && order[i].0 + order[i].1 <= state.dim() by {
            if i < inner.len() {
                assert(order[i] == inner[i]);
            }
        }
        assert(order.no_duplicates()) by {
            assert forall|i: int, j: int| 0 <= i < j < order.len() implies order[i] != order[j] by {
                assert(order[i] == inner[i]);
                if j < inner.len() {
                    assert(order[j] == inner[j]);
                } else {
                    assert(inner[i].1 == 6 || inner[i].1 == 8);
                }
            }
        }
        lemma_column_push(inner, (l.id, size));
        let v = column(order, order.len() as int);
        assert(v == w + size);
        assert(v * v <= (w + 3) * (w + 3)) by (nonlinear_arith)
            requires
                0 <= v <= w + 3,
        ;
        assert(h.height() * h.height() <= n * n) by (nonlinear_arith)
            requires
                0 <= h.height() <= n,
        ;
    }
    let mut s = spread_through(state, &x_order, &h, plus, times);
    let ghost f = spread_of(entries(&state.cov), entries(&h), order, op);
    raise(&mut s, noise, Ghost(f), plus, times);
    let chi2 = apply_distance(&s, &res, distance, Ghost(raised(f, noise, op)));
    let threshold = apply_two(times, multiplier, chi2_95(res.len(), wide));
    let system = FeatureSystem { h_x: h, res, x_order, chi2, threshold };
    (system, Ghost(SlamParts { jac: whole, joined: parts }))
}

/// One more variable takes up its own columns.
pub proof fn lemma_column_push(order: Seq<Run>, run: Run)
    ensures
        column(order.push(run), order.len() as int + 1) == column(order, order.len() as int) + run.1,
{
    lemma_column_same(order.push(run), order, order.len() as int);
}

/// The columns of the first variables do not depend on the others.
proof fn lemma_column_same(a: Seq<Run>, b: Seq<Run>, n: int)
    requires
        0 <= n <= a.len(),
        n <= b.len(),
        forall|i: int| 0 <= i < n ==> #[trigger] a[i] == b[i],
    ensures
        column(a, n) == column(b, n),
    decreases n,
{
    if n > 0 {
        assert(a[n - 1] == b[n - 1]);
        lemma_column_same(a, b, n - 1);
    }
}

/// The variables that a feature touches have six or eight rows.
proof fn lemma_touched_wide(st: &State, f: &Feature, rep: FeatRepresentation, k: int)
    requires
        0 <= k < touched_runs(st, f, rep).len(),
    ensures
        touched_runs(st, f, rep)[k].1 == 6 || touched_runs(st, f, rep)[k].1 == 8,
{
    let own = anchor_runs(st, f, rep);
    if k >= own.len() {
        lemma_tracks_wide(st, f.tracks@, f.tracks@.len() as int, k - own.len());
    }
}

/// The variables that tracks touch have six or eight rows.
proof fn lemma_tracks_wide(st: &State, tracks: Seq<CameraTrack>, n: int, k: int)
    requires
        0 <= n <= tracks.len(),
        0 <= k < track_runs(st, tracks, n).len(),
    ensures
        track_runs(st, tracks, n)[k].1 == 6 || track_runs(st, tracks, n)[k].1 == 8,
    decreases n,
{
    let before = track_runs(st, tracks, n - 1);
    if k < before.len() {
        lemma_tracks_wide(st, tracks, n - 1, k);
    } else {
        let cal = calibration_runs(st, tracks[n - 1].cam_id as int);
        if k < before.len() + cal.len() {
            assert(track_runs(st, tracks, n)[k] == cal[k - before.len()]);
        } else {
            let times = tracks[n - 1].timestamps@;
            assert(track_runs(st, tracks, n)[k] == time_runs(st, times, times.len() as int)[k
                - before.len() - cal.len()]);
        }
    }
}

} // verus!
