//! The filter state: which variables the covariance holds, and where.
//!
//! Every variable in the covariance owns a run of consecutive rows. The runs of
//! a well-formed state tile the covariance: none overlap and none is missing.

use vstd::prelude::*;

use crate::double::Double;
use crate::matrix::Matrix;
use crate::vio::landmark::Landmark;
use crate::vio::options::{ImuModel, StateOptions};

verus! {

/// Prior variance of the inertial state: 1e-6.
pub const IMU_VARIANCE: u64 = 0x3EB0_C6F7_A0B5_ED8D;

/// Prior variance of a calibrated scale, rotation or distortion: 0.005 squared.
pub const FINE_VARIANCE: u64 = 0x3EFA_36E2_EB1C_432D;

/// Prior variance of the accelerometer's scale and shear: 0.008 squared.
pub const ACCEL_VARIANCE: u64 = 0x3F10_C6F7_A0B5_ED8D;

/// Prior variance of the time offset: 0.01 squared.
pub const OFFSET_VARIANCE: u64 = 0x3F1A_36E2_EB1C_432D;

/// Prior variance of a camera position: 0.015 squared.
pub const POSITION_VARIANCE: u64 = 0x3F2D_7DBF_487F_CB92;

/// Prior variance of focal lengths and principal points: one.
pub const FOCAL_VARIANCE: u64 = 0x3FF0_0000_0000_0000;

/// A variable and the first of its rows in the covariance.
#[derive(Clone, Copy, Debug, PartialEq, Eq, Structural)]
pub struct Variable {
    /// The first row; negative while outside the covariance.
    pub id: i32,
    /// The number of rows.
    pub size: usize,
}

impl Variable {
    /// A variable outside the covariance.
    pub fn new(size: usize) -> (v: Variable)
        ensures
            v.id == -1,
            v.size == size,
    {
        Variable { id: -1, size }
    }

    /// The first row; negative while outside the covariance.
    pub fn id(&self) -> (id: i32)
        ensures
            id == self.id,
    {
        self.id
    }

    /// The number of rows.
    pub fn size(&self) -> (size: usize)
        ensures
            size == self.size,
    {
        self.size
    }

    /// Moves the variable to another row.
    pub fn set_local_id(&mut self, id: i32)
        ensures
            *final(self) == (Variable { id, ..*old(self) }),
    {
        self.id = id;
    }

    /// The variable after `size` rows from `marg_id` on have left the covariance.
    pub open spec fn shifted(self, marg_id: int, size: int) -> Variable {
        if self.id > marg_id {
            Variable { id: (self.id - size) as i32, ..self }
        } else {
            self
        }
    }
}

/// A run of rows: the first row and how many there are.
pub type Run = (i32, usize);

/// The run after `size` rows from `marg_id` on have left the covariance.
pub open spec fn shifted_run(run: Run, marg_id: int, size: int) -> Run {
    if run.0 > marg_id {
        ((run.0 - size) as i32, run.1)
    } else {
        run
    }
}

/// Whether row `k` belongs to the run.
pub open spec fn run_has(run: Run, k: int) -> bool {
    run.0 <= k < run.0 + run.1
}

/// Whether the runs lie inside the first `n` rows, do not overlap, and miss no row.
pub open spec fn tiles(runs: Seq<Run>, n: int) -> bool {
    &&& forall|i: int|
        0 <= i < runs.len() ==> 0 <= (#[trigger] runs[i]).0 && runs[i].1 > 0 && runs[i].0 + runs[i].1
            <= n
    &&& forall|i: int, j: int|
        0 <= i < runs.len() && 0 <= j < runs.len() && i != j ==> (#[trigger] runs[i]).0 + runs[i].1
            <= (#[trigger] runs[j]).0 || runs[j].0 + runs[j].1 <= runs[i].0
    &&& forall|k: int| 0 <= k < n ==> #[trigger] covered(runs, k)
}

/// Whether some run holds row `k`.
pub open spec fn covered(runs: Seq<Run>, k: int) -> bool {
    exists|i: int| 0 <= i < runs.len() && run_has(#[trigger] runs[i], k)
}

/// The runs of the cameras from `c` on: poses and intrinsics that are in the covariance.
pub open spec fn camera_runs(poses: Seq<Variable>, intrinsics: Seq<Variable>, c: int) -> Seq<Run>
    decreases poses.len() - c,
{
    if 0 <= c < poses.len() {
        let pose = if poses[c].id >= 0 {
            seq![(poses[c].id, 6usize)]
        } else {
            seq![]
        };
        let intrinsic = if intrinsics[c].id >= 0 {
            seq![(intrinsics[c].id, 8usize)]
        } else {
            seq![]
        };
        pose + intrinsic + camera_runs(poses, intrinsics, c + 1)
    } else {
        seq![]
    }
}

/// The runs of the first `k` features, where they are in the covariance.
pub open spec fn feature_runs(features: Seq<Landmark>, k: int) -> Seq<Run>
    decreases k,
{
    if k <= 0 {
        seq![]
    } else if features[k - 1].id >= 0 {
        feature_runs(features, k - 1).push(
            (features[k - 1].id, features[k - 1].value.len()),
        )
    } else {
        feature_runs(features, k - 1)
    }
}

/// The runs of the clones.
pub open spec fn clone_runs(clones: Seq<(Double, Variable)>) -> Seq<Run> {
    Seq::new(clones.len(), |i: int| (clones[i].1.id, 6usize))
}

/// Whether the runs lie end to end from row `a` up to row `b`.
pub open spec fn chained(runs: Seq<Run>, a: int, b: int) -> bool
    decreases runs.len(),
{
    if runs.len() == 0 {
        a == b
    } else {
        &&& runs.last().1 > 0
        &&& runs.last().0 + runs.last().1 == b
        &&& chained(runs.drop_last(), a, runs.last().0 as int)
    }
}

/// Runs end to end cover the rows between, once each.
pub(crate) proof fn lemma_chained_covers(runs: Seq<Run>, a: int, b: int)
    requires
        chained(runs, a, b),
    ensures
        a <= b,
        forall|i: int|
            0 <= i < runs.len() ==> a <= (#[trigger] runs[i]).0 && runs[i].1 > 0 && runs[i].0
                + runs[i].1 <= b,
        forall|i: int, j: int|
            0 <= i < runs.len() && 0 <= j < runs.len() && i != j ==> (#[trigger] runs[i]).0
                + runs[i].1 <= (#[trigger] runs[j]).0 || runs[j].0 + runs[j].1 <= runs[i].0,
        forall|k: int| a <= k < b ==> #[trigger] covered(runs, k),
    decreases runs.len(),
{
    if runs.len() > 0 {
        let init = runs.drop_last();
        let last = runs.len() - 1;
        lemma_chained_covers(init, a, runs.last().0 as int);
        assert forall|k: int| a <= k < b implies #[trigger] covered(runs, k) by {
            if k < runs.last().0 {
                assert(covered(init, k));
                let i = choose|i: int| 0 <= i < init.len() && run_has(#[trigger] init[i], k);
                assert(run_has(runs[i], k));
            } else {
                assert(run_has(runs[last], k));
            }
        }
        assert forall|i: int| 0 <= i < runs.len() implies a <= (#[trigger] runs[i]).0 && runs[i].1
            > 0 && runs[i].0 + runs[i].1 <= b by {
            if i < last {
                assert(init[i] == runs[i]);
            }
        }
        assert forall|i: int, j: int|
            0 <= i < runs.len() && 0 <= j < runs.len() && i != j implies (#[trigger] runs[i]).0
            + runs[i].1 <= (#[trigger] runs[j]).0 || runs[j].0 + runs[j].1 <= runs[i].0 by {
            if i < last {
                assert(init[i] == runs[i]);
            }
            if j < last {
                assert(init[j] == runs[j]);
            }
        }
    }
}

/// Runs end to end, followed by runs end to end, are runs end to end.
proof fn lemma_chained_concat(x: Seq<Run>, y: Seq<Run>, a: int, b: int, c: int)
    requires
        chained(x, a, b),
        chained(y, b, c),
    ensures
        chained(x + y, a, c),
    decreases y.len(),
{
    if y.len() == 0 {
        assert(x + y =~= x);
    } else {
        assert((x + y).drop_last() =~= x + y.drop_last());
        lemma_chained_concat(x, y.drop_last(), a, b, y.last().0 as int);
    }
}

/// The first camera row of a new state.
pub open spec fn camera_base(options: StateOptions) -> int {
    15 + options.intrinsic_size() + (if options.do_calib_camera_timeoffset {
        1int
    } else {
        0
    })
}

/// The rows of one camera in a new state.
pub open spec fn camera_stride(options: StateOptions) -> int {
    pose_rows(options) + (if options.do_calib_camera_intrinsics {
        8int
    } else {
        0
    })
}

/// The rows of one camera pose in a new state.
pub open spec fn pose_rows(options: StateOptions) -> int {
    if options.do_calib_camera_pose {
        6
    } else {
        0
    }
}

/// The number of rows of a new state.
pub open spec fn initial_dim(options: StateOptions) -> int {
    camera_base(options) + options.num_cameras * camera_stride(options)
}

/// The prior variance of row `k`, which lies before the camera rows.
pub open spec fn fixed_prior(options: StateOptions, k: int) -> Double {
    let bits = if k < 15 {
        IMU_VARIANCE
    } else if k < 15 + options.intrinsic_size() {
        if 21 <= k < 27 {
            ACCEL_VARIANCE
        } else {
            FINE_VARIANCE
        }
    } else {
        OFFSET_VARIANCE
    };
    Double { bits }
}

/// The prior variance of row `o` of a camera.
pub open spec fn camera_prior(options: StateOptions, o: int) -> Double {
    let bits = if o < pose_rows(options) {
        if o < 3 {
            FINE_VARIANCE
        } else {
            POSITION_VARIANCE
        }
    } else if o - pose_rows(options) < 4 {
        FOCAL_VARIANCE
    } else {
        FINE_VARIANCE
    };
    Double { bits }
}

/// Whether the cameras' variables lie end to end in the order of the cameras.
pub open spec fn cameras_laid_out(
    options: StateOptions,
    poses: Seq<Variable>,
    intrinsics: Seq<Variable>,
) -> bool {
    &&& poses.len() == intrinsics.len()
    &&& forall|c: int|
        0 <= c < poses.len() ==> (#[trigger] poses[c]).size == 6 && poses[c].id == (
        if options.do_calib_camera_pose {
            camera_base(options) + c * camera_stride(options)
        } else {
            -1
        })
    &&& forall|c: int|
        0 <= c < intrinsics.len() ==> (#[trigger] intrinsics[c]).size == 8 && intrinsics[c].id == (
        if options.do_calib_camera_intrinsics {
            camera_base(options) + c * camera_stride(options) + pose_rows(options)
        } else {
            -1
        })
}

/// The cameras of a new state lie end to end.
proof fn lemma_cameras_chained(
    options: StateOptions,
    poses: Seq<Variable>,
    intrinsics: Seq<Variable>,
    c: int,
)
    requires
        cameras_laid_out(options, poses, intrinsics),
        0 <= c <= poses.len(),
    ensures
        chained(
            camera_runs(poses, intrinsics, c),
            camera_base(options) + c * camera_stride(options),
            camera_base(options) + poses.len() * camera_stride(options),
        ),
    decreases poses.len() - c,
{
    let stride = camera_stride(options);
    let base = camera_base(options);
    if c < poses.len() {
        lemma_cameras_chained(options, poses, intrinsics, c + 1);
        assert((c + 1) * stride == c * stride + stride) by (nonlinear_arith);
        assert(c * stride >= 0) by (nonlinear_arith)
            requires
                c >= 0,
                stride >= 0,
        ;
        let start = base + c * stride;
        let pose = if poses[c].id >= 0 {
            seq![(poses[c].id, 6usize)]
        } else {
            seq![]
        };
        let intrinsic = if intrinsics[c].id >= 0 {
            seq![(intrinsics[c].id, 8usize)]
        } else {
            seq![]
        };
        reveal_with_fuel(chained, 2);
        assert(pose.len() == 1 ==> pose.drop_last() =~= seq![]);
        assert(intrinsic.len() == 1 ==> intrinsic.drop_last() =~= seq![]);
        assert(chained(pose, start, start + pose_rows(options)));
        assert(chained(intrinsic, start + pose_rows(options), start + stride));
        lemma_chained_concat(pose, intrinsic, start, start + pose_rows(options), start + stride);
        lemma_chained_concat(
            pose + intrinsic,
            camera_runs(poses, intrinsics, c + 1),
            start,
            start + stride,
            base + poses.len() * stride,
        );
    }
}

/// The filter state.
#[derive(Clone, Debug)]
pub struct State {
    /// The time of the last update; minus one before the first.
    pub timestamp: Double,
    /// The options.
    pub options: StateOptions,
    /// Orientation, position, velocity and the two biases.
    pub imu: Variable,
    /// The window: a time and a pose for each clone, oldest first.
    pub clones_imu: Vec<(Double, Variable)>,
    /// The time offset between cameras and inertial sensor, where it is calibrated.
    pub calib_dt_cam_to_imu: Option<Variable>,
    /// The pose of each camera.
    pub calib_imu_to_cam: Vec<Variable>,
    /// The intrinsics of each camera.
    pub cam_intrinsics: Vec<Variable>,
    /// The features of the state.
    pub features_slam: Vec<Landmark>,
    /// Scale and shear of the gyroscope.
    pub calib_imu_dw: Variable,
    /// Scale and shear of the accelerometer.
    pub calib_imu_da: Variable,
    /// Gravity sensitivity of the gyroscope.
    pub calib_imu_tg: Variable,
    /// Rotation from the gyroscope to the inertial frame.
    pub calib_imu_gyro_to_imu: Variable,
    /// Rotation from the accelerometer to the inertial frame.
    pub calib_imu_acc_to_imu: Variable,
    /// The covariance.
    pub cov: Matrix,
}

/// A diagonal entry.
pub open spec fn diagonal(m: &Matrix, k: int) -> Double {
    m.at(k, k)
}

/// The diagonal entry of row `o` of camera `c`.
pub open spec fn camera_diagonal(st: &State, options: StateOptions, c: int, o: int) -> Double {
    diagonal(&st.cov, camera_base(options) + c * camera_stride(options) + o)
}

/// The diagonal prior covariance of a new state.
fn initial_covariance(
    options: StateOptions,
    n: usize,
    base: usize,
    poses: &Vec<Variable>,
    intrinsics: &Vec<Variable>,
) -> (cov: Matrix)
    requires
        n == initial_dim(options),
        n * n <= usize::MAX,
        base == camera_base(options),
        poses@.len() == options.num_cameras,
        cameras_laid_out(options, poses@, intrinsics@),
    ensures
        cov.shaped(n as int, n as int),
        forall|i: int, j: int|
            cov.has(i, j) && i != j ==> #[trigger] cov.at(i, j) == (Double { bits: 0 }),
        forall|k: int| 0 <= k < base ==> #[trigger] cov.at(k, k) == fixed_prior(options, k),
        forall|c: int, o: int|
            0 <= c < options.num_cameras && 0 <= o < camera_stride(options) ==> #[trigger] diagonal(
                &cov,
                base + c * camera_stride(options) + o,
            ) == camera_prior(options, o),
{
    let stride: usize = (if options.do_calib_camera_pose {
        6usize
    } else {
        0
    }) + (if options.do_calib_camera_intrinsics {
        8usize
    } else {
        0
    });
    proof {
        assert(options.num_cameras * stride >= 0) by (nonlinear_arith);
    }
    let mut cov = Matrix::filled(n, n, Double::zero());
    cov.set_diagonal(0, n, Double { bits: IMU_VARIANCE });
    if options.do_calib_imu_intrinsics {
        cov.set_diagonal(15, 6, Double { bits: FINE_VARIANCE });
        cov.set_diagonal(21, 6, Double { bits: ACCEL_VARIANCE });
        if options.do_calib_imu_g_sensitivity {
            cov.set_diagonal(27, 9, Double { bits: FINE_VARIANCE });
            cov.set_diagonal(36, 3, Double { bits: FINE_VARIANCE });
        } else {
            cov.set_diagonal(27, 3, Double { bits: FINE_VARIANCE });
        }
    }
    if options.do_calib_camera_timeoffset {
        cov.set_diagonal(base - 1, 1, Double { bits: OFFSET_VARIANCE });
    }
    let mut c: usize = 0;
    while c < options.num_cameras
        invariant
            c <= options.num_cameras,
            n == initial_dim(options),
            base == camera_base(options),
            stride == camera_stride(options),
            poses@.len() == options.num_cameras,
            cameras_laid_out(options, poses@, intrinsics@),
            cov.shaped(n as int, n as int),
            forall|i: int, j: int|
                cov.has(i, j) && i != j ==> #[trigger] cov.at(i, j) == (Double { bits: 0 }),
            forall|k: int|
                0 <= k < base ==> #[trigger] cov.at(k, k) == fixed_prior(options, k),
            forall|d: int, o: int|
                0 <= d < c && 0 <= o < stride ==> #[trigger] diagonal(
                    &cov,
                    base + d * stride + o,
                ) == camera_prior(options, o),
        decreases options.num_cameras - c,
    {
        proof {
            let m = options.num_cameras as int;
            assert((c + 1) * stride == c * stride + stride) by (nonlinear_arith);
            assert((c + 1) * stride <= m * stride) by (nonlinear_arith)
                requires
                    c + 1 <= m,
                    stride >= 0,
            ;
            assert(c * stride >= 0) by (nonlinear_arith);
        }
        let ghost before = cov;
        if options.do_calib_camera_pose {
            let id: usize = poses[c].id as usize;
            cov.set_diagonal(id, 3, Double { bits: FINE_VARIANCE });
            cov.set_diagonal(id + 3, 3, Double { bits: POSITION_VARIANCE });
        }
        if options.do_calib_camera_intrinsics {
            let id: usize = intrinsics[c].id as usize;
            cov.set_diagonal(id, 4, Double { bits: FOCAL_VARIANCE });
            cov.set_diagonal(id + 4, 4, Double { bits: FINE_VARIANCE });
        }
        assert forall|d: int, o: int|
            0 <= d < c + 1 && 0 <= o < stride implies #[trigger] diagonal(
            &cov,
            base + d * stride + o,
        ) == camera_prior(options, o) by {
            assert(d * stride >= 0) by (nonlinear_arith)
                requires
                    d >= 0,
                    stride >= 0,
            ;
            if d < c {
                assert((d + 1) * stride <= c * stride) by (nonlinear_arith)
                    requires
                        d + 1 <= c,
                        stride >= 0,
                ;
                assert((d + 1) * stride == d * stride + stride) by (nonlinear_arith);
                assert(diagonal(&before, base + d * stride + o) == camera_prior(options, o));
                assert(before.has(base + d * stride + o, base + d * stride + o));
            }
        }
        c += 1;
    }
    cov
}

/// The calibration of a state lies end to end in its first rows.
pub(crate) proof fn lemma_head_chained(st: &State)
    requires
        st.calibration_in_place(),
    ensures
        chained(st.runs_before_clones(), 0, initial_dim(st.options)),
{
    let o = st.options;
    let imu = seq![(st.imu.id, st.imu.size)];
    let scale = if o.do_calib_imu_intrinsics {
        seq![(st.calib_imu_dw.id, 6usize), (st.calib_imu_da.id, 6usize)]
    } else {
        seq![]
    };
    let gravity = if o.do_calib_imu_intrinsics && o.do_calib_imu_g_sensitivity {
        seq![(st.calib_imu_tg.id, 9usize)]
    } else {
        seq![]
    };
    let rotation = if o.do_calib_imu_intrinsics {
        if o.imu_model is Kalibr {
            seq![(st.calib_imu_gyro_to_imu.id, 3usize)]
        } else {
            seq![(st.calib_imu_acc_to_imu.id, 3usize)]
        }
    } else {
        seq![]
    };
    let offset = match st.calib_dt_cam_to_imu {
        Some(dt) => seq![(dt.id, 1usize)],
        None => seq![],
    };
    let after_scale = if o.do_calib_imu_intrinsics {
        27int
    } else {
        15
    };
    let after_gravity = if o.do_calib_imu_intrinsics {
        12 + o.intrinsic_size()
    } else {
        15
    };
    let after_imu = 15 + o.intrinsic_size();
    let base = camera_base(o);
    reveal_with_fuel(chained, 3);
    assert(imu.drop_last() =~= seq![]);
    assert(chained(imu, 0, 15));
    assert(scale.len() == 2 ==> scale.drop_last() =~= seq![(st.calib_imu_dw.id, 6usize)]
        && scale.drop_last().drop_last() =~= seq![]);
    assert(chained(scale, 15, after_scale));
    assert(gravity.len() == 1 ==> gravity.drop_last() =~= seq![]);
    assert(chained(gravity, after_scale, after_gravity));
    assert(rotation.len() == 1 ==> rotation.drop_last() =~= seq![]);
    assert(chained(rotation, after_gravity, after_imu));
    assert(offset.len() == 1 ==> offset.drop_last() =~= seq![]);
    assert(chained(offset, after_imu, base));
    lemma_chained_concat(imu, scale, 0, 15, after_scale);
    lemma_chained_concat(imu + scale, gravity, 0, after_scale, after_gravity);
    lemma_chained_concat(imu + scale + gravity, rotation, 0, after_gravity, after_imu);
    lemma_chained_concat(imu + scale + gravity + rotation, offset, 0, after_imu, base);
    assert(st.fixed_runs() =~= imu + scale + gravity + rotation + offset);
    lemma_cameras_chained(o, st.calib_imu_to_cam@, st.cam_intrinsics@, 0);
    lemma_chained_concat(
        st.fixed_runs(),
        camera_runs(st.calib_imu_to_cam@, st.cam_intrinsics@, 0),
        0,
        base,
        initial_dim(o),
    );
}

impl State {
    /// The runs of the inertial state, its calibration and the time offset.
    pub open spec fn fixed_runs(&self) -> Seq<Run> {
        let imu = seq![(self.imu.id, self.imu.size)];
        let scale = if self.options.do_calib_imu_intrinsics {
            seq![(self.calib_imu_dw.id, 6usize), (self.calib_imu_da.id, 6usize)]
        } else {
            seq![]
        };
        let gravity = if self.options.do_calib_imu_intrinsics
            && self.options.do_calib_imu_g_sensitivity {
            seq![(self.calib_imu_tg.id, 9usize)]
        } else {
            seq![]
        };
        let rotation = if self.options.do_calib_imu_intrinsics {
            if self.options.imu_model is Kalibr {
                seq![(self.calib_imu_gyro_to_imu.id, 3usize)]
            } else {
                seq![(self.calib_imu_acc_to_imu.id, 3usize)]
            }
        } else {
            seq![]
        };
        let offset = match self.calib_dt_cam_to_imu {
            Some(dt) => seq![(dt.id, 1usize)],
            None => seq![],
        };
        imu + scale + gravity + rotation + offset
    }

    /// The runs before those of the clones.
    pub open spec fn runs_before_clones(&self) -> Seq<Run> {
        self.fixed_runs() + camera_runs(self.calib_imu_to_cam@, self.cam_intrinsics@, 0)
    }

    /// The runs of all variables in the covariance.
    pub open spec fn runs(&self) -> Seq<Run> {
        self.runs_before_clones() + clone_runs(self.clones_imu@) + feature_runs(
            self.features_slam@,
            self.features_slam@.len() as int,
        )
    }

    /// The number of rows of the covariance.
    pub open spec fn dim(&self) -> int {
        self.cov.height()
    }

    /// Whether no feature number occurs twice.
    pub open spec fn features_unique(&self) -> bool {
        forall|i: int, j: int|
            0 <= i < j < self.features_slam@.len() ==> (#[trigger] self.features_slam@[i]).featid != (
            #[trigger] self.features_slam@[j]).featid
    }

    /// Whether the inertial state, its calibration, the time offset and the
    /// cameras lie end to end in the first rows, as the options ask for them.
    pub open spec fn calibration_in_place(&self) -> bool {
        let o = self.options;
        &&& self.imu == (Variable { id: 0, size: 15 })
        &&& self.calib_imu_dw.size == 6
        &&& self.calib_imu_dw.id == (if o.do_calib_imu_intrinsics {
            15int
        } else {
            -1
        })
        &&& self.calib_imu_da.size == 6
        &&& self.calib_imu_da.id == (if o.do_calib_imu_intrinsics {
            21int
        } else {
            -1
        })
        &&& self.calib_imu_tg.size == 9
        &&& self.calib_imu_tg.id == (if o.intrinsic_size() == 24 {
            27int
        } else {
            -1
        })
        &&& self.calib_imu_gyro_to_imu.size == 3
        &&& self.calib_imu_gyro_to_imu.id == (if o.do_calib_imu_intrinsics && o.imu_model is Kalibr {
            o.intrinsic_size() + 12
        } else {
            -1
        })
        &&& self.calib_imu_acc_to_imu.size == 3
        &&& self.calib_imu_acc_to_imu.id == (if o.do_calib_imu_intrinsics && o.imu_model is Rpng {
            o.intrinsic_size() + 12
        } else {
            -1
        })
        &&& match self.calib_dt_cam_to_imu {
            Some(dt) => o.do_calib_camera_timeoffset && dt.size == 1 && dt.id == 15
                + o.intrinsic_size(),
            None => !o.do_calib_camera_timeoffset,
        }
        &&& self.calib_imu_to_cam@.len() == o.num_cameras
        &&& cameras_laid_out(o, self.calib_imu_to_cam@, self.cam_intrinsics@)
    }

    /// Well-formedness: the covariance is square, its rows are tiled by the
    /// variables, and everything but clones and features lies in the first rows.
    pub open spec fn wf(&self) -> bool {
        &&& self.cov.shaped(self.dim(), self.dim())
        &&& initial_dim(self.options) <= self.dim() <= i32::MAX
        &&& tiles(self.runs(), self.dim())
        &&& self.calibration_in_place()
        &&& forall|i: int|
            0 <= i < self.clones_imu@.len() ==> (#[trigger] self.clones_imu@[i]).1.size == 6
                && self.clones_imu@[i].1.id >= initial_dim(self.options)
        &&& forall|i: int|
            0 <= i < self.features_slam@.len() ==> (#[trigger] self.features_slam@[i]).wf()
                && self.features_slam@[i].id >= initial_dim(self.options)
        &&& self.features_unique()
    }

    /// A state without clones and features. The variables lie end to end:
    /// inertial state, its calibration, time offset, cameras; the covariance is
    /// diagonal with their prior variances.
    pub fn new(options: StateOptions) -> (st: State)
        requires
            initial_dim(options) <= i32::MAX,
            initial_dim(options) * initial_dim(options) <= usize::MAX,
        ensures
            st.wf(),
            st.options == options,
            st.timestamp == (Double { bits: crate::double::MINUS_ONE_BITS }),
            st.clones_imu@.len() == 0,
            st.features_slam@.len() == 0,
            st.dim() == initial_dim(options),
            forall|i: int, j: int|
                st.cov.has(i, j) && i != j ==> #[trigger] st.cov.at(i, j) == (Double { bits: 0 }),
            forall|k: int|
                0 <= k < camera_base(options) ==> #[trigger] st.cov.at(k, k) == fixed_prior(
                    options,
                    k,
                ),
            forall|c: int, o: int|
                0 <= c < options.num_cameras && 0 <= o < camera_stride(options)
                    ==> #[trigger] camera_diagonal(&st, options, c, o) == camera_prior(options, o),
    {
        let stride: usize = (if options.do_calib_camera_pose {
            6usize
        } else {
            0
        }) + (if options.do_calib_camera_intrinsics {
            8usize
        } else {
            0
        });
        let imu = Variable { id: 0, size: 15 };
        let mut dw = Variable::new(6);
        let mut da = Variable::new(6);
        let mut tg = Variable::new(9);
        let mut gyro_to_imu = Variable::new(3);
        let mut acc_to_imu = Variable::new(3);
        let mut next: i32 = 15;
        if options.do_calib_imu_intrinsics {
            dw.set_local_id(next);
            next += 6;
            da.set_local_id(next);
            next += 6;
            if options.do_calib_imu_g_sensitivity {
                tg.set_local_id(next);
                next += 9;
            }
            if options.imu_model == ImuModel::Kalibr {
                gyro_to_imu.set_local_id(next);
            } else {
                acc_to_imu.set_local_id(next);
            }
            next += 3;
        }
        let mut dt: Option<Variable> = None;
        if options.do_calib_camera_timeoffset {
            dt = Some(Variable { id: next, size: 1 });
            next += 1;
        }
        let base: i32 = next;
        assert(base == camera_base(options));
        let mut poses: Vec<Variable> = Vec::new();
        let mut intrinsics: Vec<Variable> = Vec::new();
        let mut c: usize = 0;
        while c < options.num_cameras
            invariant
                c <= options.num_cameras,
                base == camera_base(options),
                stride == camera_stride(options),
                next == base + c * stride,
                initial_dim(options) <= i32::MAX,
                poses@.len() == c,
                cameras_laid_out(options, poses@, intrinsics@),
            decreases options.num_cameras - c,
        {
            proof {
                let n = options.num_cameras as int;
                assert((c + 1) * stride == c * stride + stride) by (nonlinear_arith);
                assert((c + 1) * stride <= n * stride) by (nonlinear_arith)
                    requires
                        c + 1 <= n,
                        stride >= 0,
                ;
                assert(c * stride >= 0) by (nonlinear_arith);
            }
            let mut pose = Variable::new(6);
            let mut intrin = Variable::new(8);
            if options.do_calib_camera_pose {
                pose.set_local_id(next);
                next += 6;
            }
            if options.do_calib_camera_intrinsics {
                intrin.set_local_id(next);
                next += 8;
            }
            poses.push(pose);
            intrinsics.push(intrin);
            c += 1;
        }
        let cov = initial_covariance(options, next as usize, base as usize, &poses, &intrinsics);
        let st = State {
            timestamp: Double::minus_one(),
            options,
            imu,
            clones_imu: Vec::new(),
            calib_dt_cam_to_imu: dt,
            calib_imu_to_cam: poses,
            cam_intrinsics: intrinsics,
            features_slam: Vec::new(),
            calib_imu_dw: dw,
            calib_imu_da: da,
            calib_imu_tg: tg,
            calib_imu_gyro_to_imu: gyro_to_imu,
            calib_imu_acc_to_imu: acc_to_imu,
            cov,
        };
        proof {
            lemma_head_chained(&st);
            assert(st.runs() =~= st.runs_before_clones());
            lemma_chained_covers(st.runs(), 0, st.dim());
        }
        st
    }

    /// The time of the clone that would leave next; minus one without clones.
    pub fn marg_timestep(&self) -> (t: Double)
        ensures
            t == (if self.clones_imu@.len() == 0 {
                Double { bits: crate::double::MINUS_ONE_BITS }
            } else {
                self.clones_imu@[0].0
            }),
    {
        if self.clones_imu.len() == 0 {
            Double::minus_one()
        } else {
            self.clones_imu[0].0
        }
    }

    /// The number of rows of the covariance.
    pub fn max_covariance_size(&self) -> (n: usize)
        ensures
            n == self.dim(),
    {
        self.cov.nrows()
    }

    /// The runs of all variables in the covariance: inertial state, its
    /// calibration, time offset, cameras, clones, features.
    pub fn variable_order(&self) -> (order: Vec<(i32, usize)>)
        requires
            self.calib_imu_to_cam@.len() == self.options.num_cameras,
            self.cam_intrinsics@.len() == self.options.num_cameras,
        ensures
            order@ == self.runs(),
    {
        let mut order: Vec<(i32, usize)> = Vec::new();
        order.push((self.imu.id, self.imu.size));
        if self.options.do_calib_imu_intrinsics {
            order.push((self.calib_imu_dw.id, 6));
            order.push((self.calib_imu_da.id, 6));
            if self.options.do_calib_imu_g_sensitivity {
                order.push((self.calib_imu_tg.id, 9));
            }
            if self.options.imu_model == ImuModel::Kalibr {
                order.push((self.calib_imu_gyro_to_imu.id, 3));
            } else {
                order.push((self.calib_imu_acc_to_imu.id, 3));
            }
        }
        if let Some(dt) = &self.calib_dt_cam_to_imu {
            order.push((dt.id, 1));
        }
        assert(order@ =~= self.fixed_runs());
        let mut c: usize = 0;
        while c < self.options.num_cameras
            invariant
                c <= self.options.num_cameras,
                self.calib_imu_to_cam@.len() == self.options.num_cameras,
                self.cam_intrinsics@.len() == self.options.num_cameras,
                order@ + camera_runs(self.calib_imu_to_cam@, self.cam_intrinsics@, c as int)
                    == self.runs_before_clones(),
            decreases self.options.num_cameras - c,
        {
            let ghost before = order@;
            if self.calib_imu_to_cam[c].id >= 0 {
                order.push((self.calib_imu_to_cam[c].id, 6));
            }
            if self.cam_intrinsics[c].id >= 0 {
                order.push((self.cam_intrinsics[c].id, 8));
            }
            assert(order@ + camera_runs(self.calib_imu_to_cam@, self.cam_intrinsics@, c + 1)
                =~= before + camera_runs(self.calib_imu_to_cam@, self.cam_intrinsics@, c as int));
            c += 1;
        }
        assert(order@ =~= self.runs_before_clones());
        let mut i: usize = 0;
        while i < self.clones_imu.len()
            invariant
                i <= self.clones_imu@.len(),
                order@ == self.runs_before_clones() + clone_runs(self.clones_imu@).take(i as int),
            decreases self.clones_imu@.len() - i,
        {
            order.push((self.clones_imu[i].1.id, 6));
            assert(clone_runs(self.clones_imu@).take(i + 1) =~= clone_runs(self.clones_imu@).take(
                i as int,
            ).push((self.clones_imu@[i as int].1.id, 6usize)));
            i += 1;
        }
        assert(clone_runs(self.clones_imu@).take(i as int) =~= clone_runs(self.clones_imu@));
        let ghost base = self.runs_before_clones() + clone_runs(self.clones_imu@);
        let mut k: usize = 0;
        while k < self.features_slam.len()
            invariant
                k <= self.features_slam@.len(),
                order@ == base + feature_runs(self.features_slam@, k as int),
            decreases self.features_slam@.len() - k,
        {
            if self.features_slam[k].id >= 0 {
                order.push((self.features_slam[k].id, self.features_slam[k].size()));
            }
            k += 1;
        }
        order
    }

    /// Moves every variable that starts behind row `marg_id` forward by
    /// `marg_size` rows.
    pub(crate) fn renumber_after(&mut self, marg_id: i32, marg_size: usize)
        requires
            0 <= marg_id,
            marg_size <= i32::MAX,
        ensures
            final(self).renumbered(old(self), marg_id as int, marg_size as int),
            final(self).cov == old(self).cov,
    {
        self.calib_imu_dw = shift(self.calib_imu_dw, marg_id, marg_size);
        self.calib_imu_da = shift(self.calib_imu_da, marg_id, marg_size);
        self.calib_imu_tg = shift(self.calib_imu_tg, marg_id, marg_size);
        self.calib_imu_gyro_to_imu = shift(self.calib_imu_gyro_to_imu, marg_id, marg_size);
        self.calib_imu_acc_to_imu = shift(self.calib_imu_acc_to_imu, marg_id, marg_size);
        if let Some(dt) = self.calib_dt_cam_to_imu {
            self.calib_dt_cam_to_imu = Some(shift(dt, marg_id, marg_size));
        }
        shift_all(&mut self.calib_imu_to_cam, marg_id, marg_size);
        shift_all(&mut self.cam_intrinsics, marg_id, marg_size);
        let mut i: usize = 0;
        let ghost clones = self.clones_imu@;
        while i < self.clones_imu.len()
            invariant
                i <= clones.len(),
                0 <= marg_id,
                marg_size <= i32::MAX,
                self.clones_imu@.len() == clones.len(),
                forall|k: int|
                    0 <= k < clones.len() ==> #[trigger] self.clones_imu@[k] == (if k < i {
                        (clones[k].0, clones[k].1.shifted(marg_id as int, marg_size as int))
                    } else {
                        clones[k]
                    }),
                clones == old(self).clones_imu@,
                self.timestamp == old(self).timestamp,
                self.options == old(self).options,
                self.imu == old(self).imu,
                self.cov == old(self).cov,
                self.features_slam == old(self).features_slam,
                self.fixed_renumbered(old(self), marg_id as int, marg_size as int),
            decreases clones.len() - i,
        {
            let (t, v) = self.clones_imu[i];
            self.clones_imu.set(i, (t, shift(v, marg_id, marg_size)));
            i += 1;
        }
        let mut i: usize = 0;
        let ghost features = self.features_slam@;
        while i < self.features_slam.len()
            invariant
                i <= features.len(),
                0 <= marg_id,
                marg_size <= i32::MAX,
                self.features_slam@.len() == features.len(),
                forall|k: int|
                    0 <= k < features.len() ==> #[trigger] self.features_slam@[k] == (if k < i {
                        shifted_feature(features[k], marg_id as int, marg_size as int)
                    } else {
                        features[k]
                    }),
                features == old(self).features_slam@,
                self.timestamp == old(self).timestamp,
                self.options == old(self).options,
                self.imu == old(self).imu,
                self.cov == old(self).cov,
                self.fixed_renumbered(old(self), marg_id as int, marg_size as int),
                self.clones_imu@.len() == old(self).clones_imu@.len(),
                forall|k: int|
                    0 <= k < old(self).clones_imu@.len() ==> #[trigger] self.clones_imu@[k] == (
                    old(self).clones_imu@[k].0,
                    old(self).clones_imu@[k].1.shifted(marg_id as int, marg_size as int)),
            decreases features.len() - i,
        {
            let id: i32 = self.features_slam[i].id;
            if id > marg_id {
                self.features_slam[i].set_local_id(id - marg_size as i32);
            }
            i += 1;
        }
    }

    /// Whether the variables outside window and features are those of `before`, shifted.
    pub open spec fn fixed_renumbered(&self, before: &State, marg_id: int, size: int) -> bool {
        &&& self.calib_imu_dw == before.calib_imu_dw.shifted(marg_id, size)
        &&& self.calib_imu_da == before.calib_imu_da.shifted(marg_id, size)
        &&& self.calib_imu_tg == before.calib_imu_tg.shifted(marg_id, size)
        &&& self.calib_imu_gyro_to_imu == before.calib_imu_gyro_to_imu.shifted(marg_id, size)
        &&& self.calib_imu_acc_to_imu == before.calib_imu_acc_to_imu.shifted(marg_id, size)
        &&& match before.calib_dt_cam_to_imu {
            Some(dt) => self.calib_dt_cam_to_imu == Some(dt.shifted(marg_id, size)),
            None => self.calib_dt_cam_to_imu is None,
        }
        &&& all_shifted(self.calib_imu_to_cam@, before.calib_imu_to_cam@, marg_id, size)
        &&& all_shifted(self.cam_intrinsics@, before.cam_intrinsics@, marg_id, size)
    }

    /// Whether everything but the covariance is that of `before`, with the
    /// variables behind row `marg_id` moved forward by `size` rows.
    pub open spec fn renumbered(&self, before: &State, marg_id: int, size: int) -> bool {
        &&& self.timestamp == before.timestamp
        &&& self.options == before.options
        &&& self.imu == before.imu
        &&& self.fixed_renumbered(before, marg_id, size)
        &&& self.clones_imu@.len() == before.clones_imu@.len()
        &&& forall|k: int|
            0 <= k < before.clones_imu@.len() ==> #[trigger] self.clones_imu@[k] == (
            before.clones_imu@[k].0,
            before.clones_imu@[k].1.shifted(marg_id, size))
        &&& self.features_slam@.len() == before.features_slam@.len()
        &&& forall|k: int|
            0 <= k < before.features_slam@.len() ==> #[trigger] self.features_slam@[k]
                == shifted_feature(before.features_slam@[k], marg_id, size)
    }
}

/// The variable after `marg_size` rows from `marg_id` on have left the covariance.
fn shift(v: Variable, marg_id: i32, marg_size: usize) -> (w: Variable)
    requires
        0 <= marg_id,
        marg_size <= i32::MAX,
    ensures
        w == v.shifted(marg_id as int, marg_size as int),
{
    if v.id > marg_id {
        Variable { id: v.id - marg_size as i32, size: v.size }
    } else {
        v
    }
}

/// Shifts every variable of a list.
fn shift_all(vars: &mut Vec<Variable>, marg_id: i32, marg_size: usize)
    requires
        0 <= marg_id,
        marg_size <= i32::MAX,
    ensures
        all_shifted(final(vars)@, old(vars)@, marg_id as int, marg_size as int),
{
    let mut i: usize = 0;
    while i < vars.len()
        invariant
            i <= vars@.len(),
            0 <= marg_id,
            marg_size <= i32::MAX,
            vars@.len() == old(vars)@.len(),
            forall|k: int|
                0 <= k < vars@.len() ==> #[trigger] vars@[k] == (if k < i {
                    old(vars)@[k].shifted(marg_id as int, marg_size as int)
                } else {
                    old(vars)@[k]
                }),
        decreases vars@.len() - i,
    {
        let v = vars[i];
        vars.set(i, shift(v, marg_id, marg_size));
        i += 1;
    }
}

/// Whether each variable is that of `before`, shifted.
pub open spec fn all_shifted(
    vars: Seq<Variable>,
    before: Seq<Variable>,
    marg_id: int,
    size: int,
) -> bool {
    &&& vars.len() == before.len()
    &&& forall|k: int|
        0 <= k < vars.len() ==> #[trigger] vars[k] == before[k].shifted(marg_id, size)
}

/// The feature after `size` rows from `marg_id` on have left the covariance.
pub open spec fn shifted_feature(l: Landmark, marg_id: int, size: int) -> Landmark {
    if l.id > marg_id {
        Landmark { id: (l.id - size) as i32, ..l }
    } else {
        l
    }
}

/// Every error increment reaches exactly one variable: each row of a
/// well-formed state lies in one run and in no other.
pub proof fn law_rows_belong_once(st: &State, k: int)
    requires
        st.wf(),
        0 <= k < st.dim(),
    ensures
        exists|v: int|
            #![trigger st.runs()[v]]
            0 <= v < st.runs().len() && run_has(st.runs()[v], k) && (forall|w: int|
                0 <= w < st.runs().len() && run_has(#[trigger] st.runs()[w], k) ==> w == v),
{
    assert(covered(st.runs(), k));
}

} // verus!
