//! What an update makes of the estimates: every variable moves by its part of the
//! increment.

use vstd::prelude::*;

use crate::algebra::{inverts, ring, Ring};
use crate::arith::{apply_two, binary, of_two, of_vectors};
use crate::double::Double;
use crate::matrix::Matrix;
use crate::vio::estimates::{Estimates, InertialValues};
use crate::vio::jacobian::PoseValue;
use crate::vio::kalman::{ekf_updated, update_covariance, UpdateFault};
use crate::vio::landmark::Landmark;
use crate::vio::options::ImuModel;
use crate::vio::state::{camera_base, camera_stride, initial_dim, Run, State};
use crate::vio::state_helper::{column, in_rows, lemma_feature_runs};

verus! {

/// Whether orientations can be turned by an error angle, always in the same way.
pub open spec fn turns<U: Fn([Double; 9], [Double; 3]) -> [Double; 9]>(turn: U) -> bool {
    &&& forall|r: [Double; 9], a: [Double; 3]| #[trigger] call_requires(turn, (r, a))
    &&& forall|r: [Double; 9], a: [Double; 3], x: [Double; 9], y: [Double; 9]| #[trigger]
        call_ensures(turn, (r, a), x) && #[trigger] call_ensures(turn, (r, a), y) ==> x == y
}

/// Whether an orientation comes of another by an error angle.
pub open spec fn turned<U: Fn([Double; 9], [Double; 3]) -> [Double; 9]>(
    turn: U,
    rot: [Double; 9],
    angle: Seq<Double>,
    after: [Double; 9],
) -> bool {
    exists|a: [Double; 3]| a@ == angle && #[trigger] call_ensures(turn, (rot, a), after)
}

/// The part of an increment that belongs to a variable.
pub open spec fn part_of(dx: Seq<Double>, id: int, size: int) -> Seq<Double> {
    dx.subrange(id, id + size)
}

/// Whether a pose comes of another by an increment: the orientation is turned, the
/// position moved.
pub open spec fn pose_moved<
    U: Fn([Double; 9], [Double; 3]) -> [Double; 9],
    P: Fn(Double, Double) -> Double,
>(before: PoseValue, after: PoseValue, dx: Seq<Double>, turn: U, plus: P) -> bool {
    &&& turned(turn, before.rot, dx.subrange(0, 3), after.rot)
    &&& after.pos@ == of_vectors(plus, before.pos@, dx.subrange(3, 6))
}

/// Whether a feature comes of another by an increment.
pub open spec fn landmark_moved<P: Fn(Double, Double) -> Double>(
    before: Landmark,
    after: Landmark,
    dx: Seq<Double>,
    plus: P,
) -> bool {
    &&& after == (Landmark { value: after.value, ..before })
    &&& after.value@ == of_vectors(
        plus,
        before.value@,
        part_of(dx, before.id as int, before.value@.len() as int),
    )
}

/// Whether an inertial state comes of another by an increment.
pub open spec fn inertial_moved<
    U: Fn([Double; 9], [Double; 3]) -> [Double; 9],
    P: Fn(Double, Double) -> Double,
>(before: InertialValues, after: InertialValues, dx: Seq<Double>, turn: U, plus: P) -> bool {
    &&& pose_moved(before.pose, after.pose, dx.subrange(0, 6), turn, plus)
    &&& after.vel@ == of_vectors(plus, before.vel@, dx.subrange(6, 9))
    &&& after.bias_g@ == of_vectors(plus, before.bias_g@, dx.subrange(9, 12))
    &&& after.bias_a@ == of_vectors(plus, before.bias_a@, dx.subrange(12, 15))
}

/// Whether the calibration of the inertial sensor comes of another by an increment:
/// what the options ask to be calibrated moves by its part, the rest stays.
pub open spec fn calibration_moved<
    U: Fn([Double; 9], [Double; 3]) -> [Double; 9],
    P: Fn(Double, Double) -> Double,
>(
    st: &State,
    before: &Estimates,
    after: &Estimates,
    dx: Seq<Double>,
    turn: U,
    plus: P,
) -> bool {
    let o = st.options;
    let scaled = o.do_calib_imu_intrinsics;
    &&& if scaled {
        &&& after.dw@ == of_vectors(plus, before.dw@, part_of(dx, st.calib_imu_dw.id as int, 6))
        &&& after.da@ == of_vectors(plus, before.da@, part_of(dx, st.calib_imu_da.id as int, 6))
    } else {
        after.dw == before.dw && after.da == before.da
    }
    &&& if scaled && o.do_calib_imu_g_sensitivity {
        after.tg@ == of_vectors(plus, before.tg@, part_of(dx, st.calib_imu_tg.id as int, 9))
    } else {
        after.tg == before.tg
    }
    &&& if scaled && o.imu_model is Kalibr {
        turned(
            turn,
            before.gyro_to_imu,
            part_of(dx, st.calib_imu_gyro_to_imu.id as int, 3),
            after.gyro_to_imu,
        )
    } else {
        after.gyro_to_imu == before.gyro_to_imu
    }
    &&& if scaled && !(o.imu_model is Kalibr) {
        turned(
            turn,
            before.acc_to_imu,
            part_of(dx, st.calib_imu_acc_to_imu.id as int, 3),
            after.acc_to_imu,
        )
    } else {
        after.acc_to_imu == before.acc_to_imu
    }
}

/// Whether the time offset and the intrinsics of the cameras come of others by an
/// increment, where they are calibrated.
pub open spec fn cameras_moved<P: Fn(Double, Double) -> Double>(
    st: &State,
    before: &Estimates,
    after: &Estimates,
    dx: Seq<Double>,
    plus: P,
) -> bool {
    &&& after.dt == (match st.calib_dt_cam_to_imu {
        Some(v) => of_two(plus, before.dt, dx[v.id as int]),
        None => before.dt,
    })
    &&& after.intrinsics@.len() == before.intrinsics@.len()
    &&& forall|c: int|
        0 <= c < before.intrinsics@.len() ==> if st.options.do_calib_camera_intrinsics {
            (#[trigger] after.intrinsics@[c])@ == of_vectors(
                plus,
                before.intrinsics@[c]@,
                part_of(dx, st.cam_intrinsics@[c].id as int, 8),
            )
        } else {
            after.intrinsics@[c] == before.intrinsics@[c]
        }
}

/// Whether estimates come of others by an increment: the inertial state, each feature
/// and each clone by its part, what is calibrated too. First estimates stay.
pub open spec fn values_moved<
    U: Fn([Double; 9], [Double; 3]) -> [Double; 9],
    P: Fn(Double, Double) -> Double,
>(
    before: &State,
    after: &State,
    values: &Estimates,
    moved: &Estimates,
    dx: Seq<Double>,
    turn: U,
    plus: P,
) -> bool {
    &&& inertial_moved(
        values.inertial,
        moved.inertial,
        part_of(dx, before.imu.id as int, 15),
        turn,
        plus,
    )
    &&& moved.inertial_first == values.inertial_first
    &&& calibration_moved(before, values, moved, dx, turn, plus)
    &&& cameras_moved(before, values, moved, dx, plus)
    &&& poses_moved(before, after, values, moved, dx, turn, plus)
}

/// Whether features, clones and cameras come of others by an increment: each feature
/// and each clone by its part, each camera too where its pose is calibrated.
pub open spec fn poses_moved<
    U: Fn([Double; 9], [Double; 3]) -> [Double; 9],
    P: Fn(Double, Double) -> Double,
>(
    before: &State,
    after: &State,
    values: &Estimates,
    moved: &Estimates,
    dx: Seq<Double>,
    turn: U,
    plus: P,
) -> bool {
    &&& *after == (State { features_slam: after.features_slam, ..*before })
    &&& after.features_slam@.len() == before.features_slam@.len()
    &&& forall|i: int|
        0 <= i < before.features_slam@.len() ==> landmark_moved(
            before.features_slam@[i],
            #[trigger] after.features_slam@[i],
            dx,
            plus,
        )
    &&& moved.clones@.len() == values.clones@.len()
    &&& forall|i: int|
        0 <= i < values.clones@.len() ==> {
            &&& (#[trigger] moved.clones@[i]).1 == values.clones@[i].1
            &&& pose_moved(
                values.clones@[i].0,
                moved.clones@[i].0,
                part_of(dx, before.clones_imu@[i].1.id as int, 6),
                turn,
                plus,
            )
        }
    &&& moved.calibs@.len() == values.calibs@.len()
    &&& forall|c: int|
        0 <= c < values.calibs@.len() ==> if before.options.do_calib_camera_pose {
            pose_moved(
                values.calibs@[c],
                #[trigger] moved.calibs@[c],
                part_of(dx, before.calib_imu_to_cam@[c].id as int, 6),
                turn,
                plus,
            )
        } else {
            moved.calibs@[c] == values.calibs@[c]
        }
}

/// Moves a pose by the part of an increment that starts at `from`.
fn move_pose<
    U: Fn([Double; 9], [Double; 3]) -> [Double; 9],
    P: Fn(Double, Double) -> Double,
>(pose: &PoseValue, dx: &Vec<Double>, from: usize, turn: &U, plus: &P) -> (after: PoseValue)
    requires
        from + 6 <= dx.len(),
        turns(*turn),
        binary(*plus),
    ensures
        pose_moved(*pose, after, part_of(dx@, from as int, 6), *turn, *plus),
{
    let angle = [dx[from], dx[from + 1], dx[from + 2]];
    let rot = turn(pose.rot, angle);
    let pos = [
        apply_two(plus, pose.pos[0], dx[from + 3]),
        apply_two(plus, pose.pos[1], dx[from + 4]),
        apply_two(plus, pose.pos[2], dx[from + 5]),
    ];
    proof {
        let part = part_of(dx@, from as int, 6);
        assert(angle@ =~= part.subrange(0, 3));
        assert(call_ensures(*turn, (pose.rot, angle), rot));
        assert(pos@ =~= of_vectors(*plus, pose.pos@, part.subrange(3, 6)));
    }
    PoseValue { rot, pos }
}

/// Moves numbers by the part of an increment that starts at `from`.
fn move_numbers<const N: usize, P: Fn(Double, Double) -> Double>(
    v: &[Double; N],
    dx: &Vec<Double>,
    from: usize,
    plus: &P,
) -> (after: [Double; N])
    requires
        from + N <= dx.len(),
        binary(*plus),
    ensures
        after@ == of_vectors(*plus, v@, part_of(dx@, from as int, N as int)),
{
    let mut after = *v;
    let mut i: usize = 0;
    while i < N
        invariant
            i <= N,
            from + N <= dx.len(),
            binary(*plus),
            forall|k: int|
                0 <= k < N ==> #[trigger] after@[k] == (if k < i {
                    of_two(*plus, v@[k], dx@[from + k])
                } else {
                    v@[k]
                }),
        decreases N - i,
    {
        after[i] = apply_two(plus, v[i], dx[from + i]);
        i += 1;
    }
    assert(after@ =~= of_vectors(*plus, v@, part_of(dx@, from as int, N as int)));
    after
}

/// Turns an orientation by the part of an increment that starts at `from`.
fn turn_by<U: Fn([Double; 9], [Double; 3]) -> [Double; 9]>(
    rot: [Double; 9],
    dx: &Vec<Double>,
    from: usize,
    turn: &U,
) -> (after: [Double; 9])
    requires
        from + 3 <= dx.len(),
        turns(*turn),
    ensures
        turned(*turn, rot, part_of(dx@, from as int, 3), after),
{
    let angle = [dx[from], dx[from + 1], dx[from + 2]];
    let after = turn(rot, angle);
    assert(angle@ =~= part_of(dx@, from as int, 3));
    assert(call_ensures(*turn, (rot, angle), after));
    after
}

/// Moves an inertial state by the part of an increment that starts at `from`.
fn move_inertial<
    U: Fn([Double; 9], [Double; 3]) -> [Double; 9],
    P: Fn(Double, Double) -> Double,
>(v: &InertialValues, dx: &Vec<Double>, from: usize, turn: &U, plus: &P) -> (after: InertialValues)
    requires
        from + 15 <= dx.len(),
        turns(*turn),
        binary(*plus),
    ensures
        inertial_moved(*v, after, part_of(dx@, from as int, 15), *turn, *plus),
{
    let pose = move_pose(&v.pose, dx, from, turn, plus);
    let vel = move_numbers(&v.vel, dx, from + 6, plus);
    let bias_g = move_numbers(&v.bias_g, dx, from + 9, plus);
    let bias_a = move_numbers(&v.bias_a, dx, from + 12, plus);
    proof {
        let part = part_of(dx@, from as int, 15);
        assert(part.subrange(0, 6) =~= part_of(dx@, from as int, 6));
        assert(part.subrange(6, 9) =~= part_of(dx@, from + 6, 3));
        assert(part.subrange(9, 12) =~= part_of(dx@, from + 9, 3));
        assert(part.subrange(12, 15) =~= part_of(dx@, from + 12, 3));
    }
    InertialValues { pose, vel, bias_g, bias_a }
}

/// Moves the calibration of the inertial sensor, the time offset and the intrinsics of
/// the cameras by an increment.
fn move_calibration<
    U: Fn([Double; 9], [Double; 3]) -> [Double; 9],
    P: Fn(Double, Double) -> Double,
>(state: &State, values: &mut Estimates, dx: &Vec<Double>, turn: &U, plus: &P)
    requires
        state.wf(),
        old(values).fits(state),
        dx@.len() == state.dim(),
        turns(*turn),
        binary(*plus),
    ensures
        calibration_moved(state, old(values), final(values), dx@, *turn, *plus),
        cameras_moved(state, old(values), final(values), dx@, *plus),
        *final(values) == (Estimates {
            dw: final(values).dw,
            da: final(values).da,
            tg: final(values).tg,
            gyro_to_imu: final(values).gyro_to_imu,
            acc_to_imu: final(values).acc_to_imu,
            dt: final(values).dt,
            intrinsics: final(values).intrinsics,
            ..*old(values)
        }),
{
    let ghost first = *values;
    proof {
        lemma_calibration_rows(state);
    }
    if state.options.do_calib_imu_intrinsics {
        values.dw = move_numbers(&values.dw, dx, state.calib_imu_dw.id as usize, plus);
        values.da = move_numbers(&values.da, dx, state.calib_imu_da.id as usize, plus);
        if state.options.do_calib_imu_g_sensitivity {
            values.tg = move_numbers(&values.tg, dx, state.calib_imu_tg.id as usize, plus);
        }
        if state.options.imu_model == ImuModel::Kalibr {
            let from: usize = state.calib_imu_gyro_to_imu.id as usize;
            values.gyro_to_imu = turn_by(values.gyro_to_imu, dx, from, turn);
        } else {
            let from: usize = state.calib_imu_acc_to_imu.id as usize;
            values.acc_to_imu = turn_by(values.acc_to_imu, dx, from, turn);
        }
    }
    if let Some(v) = &state.calib_dt_cam_to_imu {
        values.dt = apply_two(plus, values.dt, dx[v.id as usize]);
    }
    let ghost scaled = *values;
    if state.options.do_calib_camera_intrinsics {
        let mut c: usize = 0;
        while c < values.intrinsics.len()
            invariant
                c <= first.intrinsics@.len(),
                first.fits(state),
                dx@.len() == state.dim(),
                binary(*plus),
                scaled.intrinsics == first.intrinsics,
                *values == (Estimates { intrinsics: values.intrinsics, ..scaled }),
                values.intrinsics@.len() == first.intrinsics@.len(),
                forall|k: int|
                    0 <= k < state.cam_intrinsics@.len() ==> 0 <= (
                    #[trigger] state.cam_intrinsics@[k]).id && state.cam_intrinsics@[k].id + 8
                        <= state.dim(),
                forall|k: int|
                    0 <= k < c ==> (#[trigger] values.intrinsics@[k])@ == of_vectors(
                        *plus,
                        first.intrinsics@[k]@,
                        part_of(dx@, state.cam_intrinsics@[k].id as int, 8),
                    ),
                forall|k: int|
                    c <= k < first.intrinsics@.len() ==> #[trigger] values.intrinsics@[k]
                        == first.intrinsics@[k],
            decreases first.intrinsics@.len() - c,
        {
            assert(values.intrinsics@[c as int] == first.intrinsics@[c as int]);
            assert(state.cam_intrinsics@[c as int].id >= 0);
            let from: usize = state.cam_intrinsics[c].id as usize;
            let after = move_numbers(&values.intrinsics[c], dx, from, plus);
            values.intrinsics.set(c, after);
            c += 1;
        }
    }
}

/// The rows of what is calibrated lie in the covariance.
proof fn lemma_calibration_rows(st: &State)
    requires
        st.wf(),
    ensures
        15 <= st.dim(),
        camera_base(st.options) <= st.dim(),
        st.options.do_calib_camera_intrinsics ==> forall|c: int|
            0 <= c < st.cam_intrinsics@.len() ==> 0 <= (#[trigger] st.cam_intrinsics@[c]).id
                && st.cam_intrinsics@[c].id + 8 <= st.dim(),
{
    let o = st.options;
    let stride = camera_stride(o);
    let n = o.num_cameras as int;
    assert(0 <= n * stride) by (nonlinear_arith)
        requires
            0 <= n,
            0 <= stride,
    ;
    if o.do_calib_camera_intrinsics {
        assert forall|c: int| 0 <= c < st.cam_intrinsics@.len() implies 0 <= (
        #[trigger] st.cam_intrinsics@[c]).id && st.cam_intrinsics@[c].id + 8 <= st.dim() by {
            assert(c * stride + stride <= n * stride) by (nonlinear_arith)
                requires
                    c + 1 <= n,
                    0 <= stride,
            ;
            assert(0 <= c * stride) by (nonlinear_arith)
                requires
                    0 <= c,
                    0 <= stride,
            ;
        }
    }
}

/// The rows of features, clones and camera poses lie in the covariance.
proof fn lemma_rows(st: &State)
    requires
        st.wf(),
    ensures
        forall|i: int|
            0 <= i < st.features_slam@.len() ==> 0 <= (#[trigger] st.features_slam@[i]).id
                && st.features_slam@[i].id + st.features_slam@[i].value@.len() <= st.dim(),
        forall|i: int|
            0 <= i < st.clones_imu@.len() ==> 0 <= (#[trigger] st.clones_imu@[i]).1.id
                && st.clones_imu@[i].1.id + 6 <= st.dim(),
        st.options.do_calib_camera_pose ==> forall|c: int|
            0 <= c < st.calib_imu_to_cam@.len() ==> 0 <= (#[trigger] st.calib_imu_to_cam@[c]).id
                && st.calib_imu_to_cam@[c].id + 6 <= st.dim(),
{
    let head = st.runs_before_clones().len() as int;
    let clones = st.clones_imu@.len() as int;
    let features = st.features_slam@;
    lemma_feature_runs(features, features.len() as int);
    assert forall|i: int| 0 <= i < features.len() implies 0 <= (#[trigger] features[i]).id
        && features[i].id + features[i].value@.len() <= st.dim() by {
        assert(st.runs()[head + clones + i] == (features[i].id, features[i].value.len()));
    }
    assert forall|i: int| 0 <= i < clones implies 0 <= (#[trigger] st.clones_imu@[i]).1.id
        && st.clones_imu@[i].1.id + 6 <= st.dim() by {
        assert(st.runs()[head + i] == (st.clones_imu@[i].1.id, 6usize));
    }
    if st.options.do_calib_camera_pose {
        let o = st.options;
        let stride = camera_stride(o);
        let n = o.num_cameras as int;
        assert forall|c: int| 0 <= c < st.calib_imu_to_cam@.len() implies 0 <= (
        #[trigger] st.calib_imu_to_cam@[c]).id && st.calib_imu_to_cam@[c].id + 6 <= st.dim() by {
            assert(c * stride + stride <= n * stride) by (nonlinear_arith)
                requires
                    c + 1 <= n,
                    0 <= stride,
            ;
            assert(0 <= c * stride) by (nonlinear_arith)
                requires
                    0 <= c,
                    0 <= stride,
            ;
            assert(st.calib_imu_to_cam@[c].id == camera_base(o) + c * stride);
        }
    }
}

/// A state whose features keep their numbers and rows is well-formed.
pub proof fn lemma_same_rows(before: &State, after: &State)
    requires
        before.wf(),
        *after == (State { features_slam: after.features_slam, ..*before }),
        after.features_slam@.len() == before.features_slam@.len(),
        forall|i: int|
            0 <= i < before.features_slam@.len() ==> {
                let l = #[trigger] after.features_slam@[i];
                &&& l.wf()
                &&& l.featid == before.features_slam@[i].featid
                &&& l.id == before.features_slam@[i].id
                &&& l.value@.len() == before.features_slam@[i].value@.len()
            },
    ensures
        after.wf(),
        after.runs() == before.runs(),
{
    let n = before.features_slam@.len() as int;
    lemma_feature_runs(before.features_slam@, n);
    assert forall|i: int| 0 <= i < n implies (#[trigger] after.features_slam@[i]).id >= 0 by {
        assert(before.features_slam@[i].id >= 0);
    }
    lemma_feature_runs(after.features_slam@, n);
    assert(after.runs() =~= before.runs());
    assert forall|i: int| 0 <= i < n implies (#[trigger] after.features_slam@[i]).wf()
        && after.features_slam@[i].id >= initial_dim(after.options) by {
        assert(before.features_slam@[i].wf());
    }
    assert forall|i: int, j: int| 0 <= i < j < n implies (#[trigger] after.features_slam@[i]).featid
        != (#[trigger] after.features_slam@[j]).featid by {
        assert(before.features_slam@[i].featid != before.features_slam@[j].featid);
    }
}

/// Moves the features, the clones and the cameras by an increment.
fn move_poses<
    U: Fn([Double; 9], [Double; 3]) -> [Double; 9],
    P: Fn(Double, Double) -> Double,
>(state: &mut State, values: &mut Estimates, dx: &Vec<Double>, turn: &U, plus: &P)
    requires
        old(state).wf(),
        old(values).fits(old(state)),
        dx@.len() == old(state).dim(),
        turns(*turn),
        binary(*plus),
    ensures
        final(state).wf(),
        final(state).runs() == old(state).runs(),
        final(values).fits(final(state)),
        poses_moved(old(state), final(state), old(values), final(values), dx@, *turn, *plus),
        *final(values) == (Estimates {
            clones: final(values).clones,
            calibs: final(values).calibs,
            ..*old(values)
        }),
{
    let ghost before = *state;
    let ghost first = *values;
    proof {
        lemma_rows(state);
    }
    let mut i: usize = 0;
    while i < state.features_slam.len()
        invariant
            i <= before.features_slam@.len(),
            before.wf(),
            dx@.len() == before.dim(),
            binary(*plus),
            *state == (State { features_slam: state.features_slam, ..before }),
            state.features_slam@.len() == before.features_slam@.len(),
            forall|k: int|
                0 <= k < before.features_slam@.len() ==> 0 <= (
                #[trigger] before.features_slam@[k]).id && before.features_slam@[k].id
                    + before.features_slam@[k].value@.len() <= before.dim(),
            forall|k: int|
                0 <= k < i ==> landmark_moved(
                    before.features_slam@[k],
                    #[trigger] state.features_slam@[k],
                    dx@,
                    *plus,
                ),
            forall|k: int|
                i <= k < before.features_slam@.len() ==> #[trigger] state.features_slam@[k]
                    == before.features_slam@[k],
        decreases before.features_slam@.len() - i,
    {
        assert(state.features_slam@[i as int] == before.features_slam@[i as int]);
        let from: usize = state.features_slam[i].id as usize;
        let n: usize = state.features_slam[i].value.len();
        let mut part: Vec<Double> = Vec::new();
        let mut k: usize = 0;
        while k < n
            invariant
                k <= n,
                from + n <= dx.len(),
                part@ == dx@.subrange(from as int, from + k),
            decreases n - k,
        {
            part.push(dx[from + k]);
            k += 1;
            assert(part@ =~= dx@.subrange(from as int, from + k));
        }
        state.features_slam[i].update(&part, plus);
        i += 1;
    }
    let mut i: usize = 0;
    while i < values.clones.len()
        invariant
            i <= first.clones@.len(),
            first.fits(&before),
            dx@.len() == before.dim(),
            turns(*turn),
            binary(*plus),
            values.clones@.len() == first.clones@.len(),
            *values == (Estimates { clones: values.clones, ..first }),
            state.clones_imu == before.clones_imu,
            forall|k: int|
                0 <= k < before.clones_imu@.len() ==> 0 <= (#[trigger] before.clones_imu@[k]).1.id
                    && before.clones_imu@[k].1.id + 6 <= before.dim(),
            forall|k: int|
                0 <= k < i ==> {
                    &&& (#[trigger] values.clones@[k]).1 == first.clones@[k].1
                    &&& pose_moved(
                        first.clones@[k].0,
                        values.clones@[k].0,
                        part_of(dx@, before.clones_imu@[k].1.id as int, 6),
                        *turn,
                        *plus,
                    )
                },
            forall|k: int|
                i <= k < first.clones@.len() ==> #[trigger] values.clones@[k] == first.clones@[k],
        decreases first.clones@.len() - i,
    {
        assert(values.clones@[i as int] == first.clones@[i as int]);
        assert(before.clones_imu@[i as int].1.id >= 0);
        let from: usize = state.clones_imu[i].1.id as usize;
        let (pose, fej) = values.clones[i];
        let after = move_pose(&pose, dx, from, turn, plus);
        values.clones.set(i, (after, fej));
        i += 1;
    }
    let ghost shifted = values.clones;
    if state.options.do_calib_camera_pose {
        let mut c: usize = 0;
        while c < values.calibs.len()
            invariant
                c <= first.calibs@.len(),
                first.fits(&before),
                dx@.len() == before.dim(),
                turns(*turn),
                binary(*plus),
                *values == (Estimates { clones: shifted, calibs: values.calibs, ..first }),
                values.calibs@.len() == first.calibs@.len(),
                state.calib_imu_to_cam == before.calib_imu_to_cam,
                forall|k: int|
                    0 <= k < before.calib_imu_to_cam@.len() ==> 0 <= (
                    #[trigger] before.calib_imu_to_cam@[k]).id && before.calib_imu_to_cam@[k].id + 6
                        <= before.dim(),
                forall|k: int|
                    0 <= k < c ==> pose_moved(
                        first.calibs@[k],
                        #[trigger] values.calibs@[k],
                        part_of(dx@, before.calib_imu_to_cam@[k].id as int, 6),
                        *turn,
                        *plus,
                    ),
                forall|k: int|
                    c <= k < first.calibs@.len() ==> #[trigger] values.calibs@[k] == first.calibs@[k],
            decreases first.calibs@.len() - c,
        {
            assert(values.calibs@[c as int] == first.calibs@[c as int]);
            assert(before.calib_imu_to_cam@[c as int].id >= 0);
            let from: usize = state.calib_imu_to_cam[c].id as usize;
            let after = move_pose(&values.calibs[c], dx, from, turn, plus);
            values.calibs.set(c, after);
            c += 1;
        }
    }
    proof {
        assert forall|k: int| 0 <= k < before.features_slam@.len() implies {
            let l = #[trigger] state.features_slam@[k];
            &&& l.wf()
            &&& l.featid == before.features_slam@[k].featid
            &&& l.id == before.features_slam@[k].id
            &&& l.value@.len() == before.features_slam@[k].value@.len()
        } by {
            assert(landmark_moved(before.features_slam@[k], state.features_slam@[k], dx@, *plus));
            assert(before.features_slam@[k].wf());
        }
        lemma_same_rows(&before, state);
    }
}

impl State {
    /// Moves every variable by its part of the error increment `dx`: orientations are
    /// turned, numbers added. First estimates stay.
    pub fn update_all<
        U: Fn([Double; 9], [Double; 3]) -> [Double; 9],
        P: Fn(Double, Double) -> Double,
    >(&mut self, values: &mut Estimates, dx: &Vec<Double>, turn: &U, plus: &P)
        requires
            old(self).wf(),
            old(values).fits(old(self)),
            dx@.len() == old(self).dim(),
            turns(*turn),
            binary(*plus),
        ensures
            final(self).wf(),
            final(self).runs() == old(self).runs(),
            final(values).fits(final(self)),
            values_moved(old(self), final(self), old(values), final(values), dx@, *turn, *plus),
    {
        proof {
            lemma_calibration_rows(self);
        }
        values.inertial = move_inertial(&values.inertial, dx, self.imu.id as usize, turn, plus);
        move_calibration(self, values, dx, turn, plus);
        move_poses(self, values, dx, turn, plus);
    }
}

/// Whether a filter became another by a residual: the covariance is updated, and
/// where that went well the estimates move by the increment.
pub open spec fn filter_updated<
    I: Fn(&Matrix) -> Option<Matrix>,
    U: Fn([Double; 9], [Double; 3]) -> [Double; 9],
    P: Fn(Double, Double) -> Double,
>(
    before: &State,
    after: &State,
    values: &Estimates,
    moved: &Estimates,
    order: Seq<Run>,
    h: &Matrix,
    res: Seq<Double>,
    r: &Matrix,
    invert: I,
    turn: U,
    plus: P,
    op: Ring,
    done: Result<Vec<Double>, UpdateFault>,
) -> bool {
    let middle = State { features_slam: before.features_slam, ..*after };
    &&& ekf_updated(before, &middle, order, h, res, r, invert, op, done)
    &&& match done {
        Ok(dx) => values_moved(&middle, after, values, moved, dx@, turn, plus),
        Err(_) => *after == middle && *moved == *values,
    }
}

/// Updates the filter by a residual with derivative `h` and noise `r`: covariance
/// and estimates.
pub fn ekf_update<
    I: Fn(&Matrix) -> Option<Matrix>,
    U: Fn([Double; 9], [Double; 3]) -> [Double; 9],
    P: Fn(Double, Double) -> Double,
    T: Fn(Double, Double) -> Double,
>(
    state: &mut State,
    values: &mut Estimates,
    h_order: &Vec<(i32, usize)>,
    h: &Matrix,
    res: &Vec<Double>,
    r: &Matrix,
    invert: &I,
    turn: &U,
    plus: &P,
    times: &T,
) -> (done: Result<Vec<Double>, UpdateFault>)
    requires
        old(state).wf(),
        old(values).fits(old(state)),
        in_rows(h_order@, old(state).dim()),
        column(h_order@, h_order@.len() as int) * column(h_order@, h_order@.len() as int)
            <= usize::MAX,
        h.shaped(res@.len() as int, column(h_order@, h_order@.len() as int)),
        r.shaped(res@.len() as int, res@.len() as int),
        old(state).dim() * res@.len() <= usize::MAX,
        inverts(*invert),
        turns(*turn),
        binary(*plus),
        binary(*times),
    ensures
        final(state).wf(),
        final(values).fits(final(state)),
        final(state).dim() == old(state).dim(),
        final(state).runs() == old(state).runs(),
        filter_updated(
            old(state),
            final(state),
            old(values),
            final(values),
            h_order@,
            h,
            res@,
            r,
            *invert,
            *turn,
            *plus,
            ring(*plus, *times),
            done,
        ),
{
    let ghost before = *state;
    let done = update_covariance(state, h_order, h, res, r, invert, plus, times);
    let ghost middle = *state;
    assert(middle.runs() =~= before.runs());
    assert(middle == (State { features_slam: before.features_slam, ..middle }));
    match &done {
        Ok(dx) => {
            state.update_all(values, dx, turn, plus);
        },
        Err(_) => {},
    }
    assert(State { features_slam: before.features_slam, ..*state } == middle);
    done
}

} // verus!
