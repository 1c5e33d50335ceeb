use firefly::double::Double;
use firefly::matrix::Matrix;
use firefly::vio::estimates::{Estimates, InertialValues};
use firefly::vio::givens::{givens_zero, Rotation};
use firefly::vio::jacobian::{Angles, PoseValue};
use firefly::vio::kalman::{compose, ekf_propagation, Transition, UpdateFault};
use firefly::vio::landmark::{Landmark, PointForms, PointSource};
use firefly::vio::options::{
    FeatRepresentation, ImuModel, IntegrationMethod, StateOptions, UpdaterOptions, VioManagerOptions,
};
use firefly::vio::reanchor::{coordinates_of, write_point};
use firefly::vio::state::{State, Variable};
use firefly::vio::state_helper::{
    augment_clone, check_diagonal, get_full_covariance, get_marginal_covariance, hx_col,
    marginalize, marginalize_old_clone, marginalize_slam, set_initial_covariance, stack_rows,
};
use firefly::vio::updater::chi2_95;
use firefly::vio::updater_helper::{measurement_compress_inplace, nullspace_project_inplace};
use firefly::vio::values::ekf_update;
use nalgebra::linalg::givens::GivensRotation;
use nalgebra::{DMatrix, Matrix3, Vector2, Vector3};

fn d(x: f64) -> Double {
    Double::from_bits(x.to_bits())
}

fn f(x: Double) -> f64 {
    f64::from_bits(x.bits)
}

fn plus(a: Double, b: Double) -> Double {
    d(f(a) + f(b))
}

fn times(a: Double, b: Double) -> Double {
    d(f(a) * f(b))
}

fn to_lib(m: &DMatrix<f64>) -> Matrix {
    let mut out = Matrix::filled(m.nrows(), m.ncols(), Double::zero());
    for i in 0..m.nrows() {
        for j in 0..m.ncols() {
            out.set(i, j, d(m[(i, j)]));
        }
    }
    out
}

fn from_lib(m: &Matrix) -> DMatrix<f64> {
    DMatrix::from_fn(m.nrows(), m.ncols(), |i, j| f(m.get(i, j)))
}

fn at(m: &Matrix, i: usize, j: usize) -> f64 {
    f(m.get(i, j))
}

fn list(v: &[f64]) -> Vec<Double> {
    v.iter().map(|x| d(*x)).collect()
}

const EYE: [f64; 9] = [1.0, 0.0, 0.0, 0.0, 1.0, 0.0, 0.0, 0.0, 1.0];

fn upright(pos: [f64; 3]) -> PoseValue {
    PoseValue { rot: EYE.map(d), pos: pos.map(d) }
}

fn inertial(pos: [f64; 3], vel: [f64; 3], bias_g: [f64; 3], bias_a: [f64; 3]) -> InertialValues {
    let (vel, bias_g, bias_a) = (vel.map(d), bias_g.map(d), bias_a.map(d));
    InertialValues { pose: upright(pos), vel, bias_g, bias_a }
}

/// A state and its first estimates.
fn fresh(options: StateOptions) -> (State, Estimates) {
    let s = State::new(options);
    let v = Estimates::new(&s);
    (s, v)
}

/// An orientation turned by an error angle, by a quaternion whose vector is half of it.
fn turn(rot: [Double; 9], angle: [Double; 3]) -> [Double; 9] {
    let v = 0.5 * Vector3::new(f(angle[0]), f(angle[1]), f(angle[2]));
    let n = (1.0 + v.norm_squared()).sqrt();
    let (v, w) = (v / n, 1.0 / n);
    let small: Matrix3<f64> = (2.0 * w * w - 1.0) * Matrix3::identity()
        - 2.0 * w * v.cross_matrix()
        + 2.0 * v * v.transpose();
    let whole = small * Matrix3::from_fn(|i, j| f(rot[3 * i + j]));
    [0, 1, 2, 3, 4, 5, 6, 7, 8].map(|k| d(whole[(k / 3, k % 3)]))
}

/// The first component of the quaternion of a rotation.
fn first_component(rot: &[Double; 9]) -> f64 {
    let w = (1.0 + f(rot[0]) + f(rot[4]) + f(rot[8])).sqrt() / 2.0;
    (f(rot[5]) - f(rot[7])) / (4.0 * w)
}

fn triple(v: &Vector3<f64>) -> [Double; 3] {
    [d(v.x), d(v.y), d(v.z)]
}

fn cancel(a: Double, b: Double) -> Option<Rotation> {
    GivensRotation::cancel_y(&Vector2::new(f(a), f(b)))
        .map(|(g, _)| Rotation { c: d(g.c()), s: d(g.s()) })
}

fn rotate(g: Rotation, a: Double, b: Double) -> (Double, Double) {
    let (c, s, a, b) = (f(g.c), f(g.s), f(a), f(b));
    (d(c * a - s * b), d(s * a + c * b))
}

fn invert(m: &Matrix) -> Option<Matrix> {
    from_lib(m).cholesky().map(|c| to_lib(&c.inverse()))
}

fn wide(dof: usize) -> Double {
    let n = dof as f64;
    let t = 1.0 - 2.0 / (9.0 * n) + 1.644_853_626_951_472_2 * (2.0 / (9.0 * n)).sqrt();
    d(n * t * t * t)
}

fn divide(a: Double, b: Double) -> Double {
    d(f(a) / f(b))
}

type One = fn(Double) -> Double;
type Two = fn(Double, Double) -> Double;

fn angles() -> Angles<fn([Double; 3]) -> Double, Two, One, One, One> {
    Angles {
        length: |v| d(Vector3::new(f(v[0]), f(v[1]), f(v[2])).norm()),
        atan2: |y, x| d(f(y).atan2(f(x))),
        acos: |a| d(f(a).acos()),
        sin: |a| d(f(a).sin()),
        cos: |a| d(f(a).cos()),
    }
}

fn forms(p: &Vector3<f64>) -> PointForms {
    write_point(&triple(p), &angles(), &plus, &times, &divide)
}

fn point(s: PointSource) -> Vector3<f64> {
    let p = coordinates_of(&s, &angles(), &plus, &times, &divide);
    Vector3::new(f(p[0]), f(p[1]), f(p[2]))
}

#[test]
fn global_3d_roundtrip() {
    let mut lm = Landmark::new(FeatRepresentation::Global3D, 1);
    let p = Vector3::new(1.0, 2.0, 3.0);
    lm.set_from_xyz(&forms(&p), false);
    assert_eq!(point(lm.get_xyz(false)), p);
}

#[test]
fn anchored_inverse_depth_roundtrip() {
    let mut lm = Landmark::new(FeatRepresentation::AnchoredMsckfInverseDepth, 2);
    let p = Vector3::new(0.5, 0.2, 3.0);
    lm.set_from_xyz(&forms(&p), false);
    let back = point(lm.get_xyz(false));
    assert!((back - p).norm() < 1e-12);
    assert_eq!(lm.value.len(), 3);
}

#[test]
fn anchored_3d_roundtrip() {
    let mut lm = Landmark::new(FeatRepresentation::Anchored3D, 4);
    let p = Vector3::new(0.3, -1.2, 4.5);
    lm.set_from_xyz(&forms(&p), false);
    assert!((point(lm.get_xyz(false)) - p).norm() < 1e-12);
}

#[test]
fn full_inverse_depth_roundtrip() {
    let mut lm = Landmark::new(FeatRepresentation::AnchoredFullInverseDepth, 5);
    let p = Vector3::new(1.0, 2.0, 3.0);
    lm.set_from_xyz(&forms(&p), false);
    let back = point(lm.get_xyz(false));
    assert!((back - p).norm() < 1e-9, "roundtrip {back} vs {p}");
    let v = &lm.value;
    assert!((f(v[2]) - 1.0 / p.norm()).abs() < 1e-12);
    assert!((f(v[0]) - p.y.atan2(p.x)).abs() < 1e-12);
}

#[test]
fn single_inverse_depth_uses_locked_bearing() {
    let mut lm = Landmark::new(FeatRepresentation::AnchoredInverseDepthSingle, 6);
    let p = Vector3::new(0.5, 0.2, 3.0);
    lm.set_from_xyz(&forms(&p), false);
    assert_eq!(lm.size(), 1);
    let b = lm.uv_norm_zero;
    let bearing = Vector3::new(f(b[0]), f(b[1]), f(b[2]));
    let expected = p / p.z;
    assert!((bearing - expected).norm() < 1e-12);
    let back = point(lm.get_xyz(false));
    assert!((back - p).norm() < 1e-9);
}

#[test]
fn fej_tracks_separately() {
    let mut lm = Landmark::new(FeatRepresentation::Global3D, 3);
    lm.set_from_xyz(&forms(&Vector3::new(1.0, 0.0, 0.0)), true);
    lm.set_from_xyz(&forms(&Vector3::new(2.0, 0.0, 0.0)), false);
    assert!((point(lm.get_xyz(true)).x - 1.0).abs() < 1e-12);
    assert!((point(lm.get_xyz(false)).x - 2.0).abs() < 1e-12);
}

#[test]
fn landmark_update_adds() {
    let mut lm = Landmark::new(FeatRepresentation::Global3D, 9);
    lm.set_from_xyz(&forms(&Vector3::new(1.0, 2.0, 3.0)), false);
    lm.update(&list(&[0.5, -1.0, 0.25]), &plus);
    assert_eq!(point(lm.get_xyz(false)), Vector3::new(1.5, 1.0, 3.25));
    lm.set_local_id(21);
    assert_eq!(lm.id(), 21);
}

#[test]
fn defaults_match_cpp() {
    let s = StateOptions::default();
    assert!(s.do_fej);
    assert_eq!(s.integration_method, IntegrationMethod::Rk4);
    assert_eq!(s.max_clone_size, 11);
    assert_eq!(s.max_msckf_in_update, 1000);
    assert_eq!(s.num_cameras, 1);
    assert!(!s.do_calib_camera_pose);
    assert!(!s.do_calib_imu_intrinsics);
    assert_eq!(s.imu_model, ImuModel::Kalibr);

    let v = VioManagerOptions::default();
    assert!((f(v.dt_slam_delay) - 2.0).abs() < 1e-12);

    let u = UpdaterOptions::default();
    assert!((f(u.chi2_multipler) - 5.0).abs() < 1e-12);
    assert!((f(u.sigma_pix) - 3.0).abs() < 1e-12);
    assert!((f(u.sigma_pix_sq) - 9.0).abs() < 1e-12);
}

#[test]
fn propagation_options_roundtrip() {
    let s = StateOptions::default();
    let p = s.to_propagation_options();
    assert_eq!(p.integration_method, IntegrationMethod::Rk4);
    assert!(!p.do_calib_imu_intrinsics);
}

#[test]
fn variable_layout_matches_cpp() {
    let s = State::new(StateOptions::default());
    assert_eq!(s.cov.nrows(), 15);
    assert_eq!(s.imu.id(), 0);
    assert_eq!(s.imu.size(), 15);

    let opts = StateOptions {
        do_calib_imu_intrinsics: true,
        do_calib_imu_g_sensitivity: true,
        ..StateOptions::default()
    };
    let s = State::new(opts);
    assert_eq!(s.cov.nrows(), 39);
    assert_eq!(s.calib_imu_dw.id(), 15);
    assert_eq!(s.calib_imu_da.id(), 21);
    assert_eq!(s.calib_imu_tg.id(), 27);
    assert_eq!(s.calib_imu_gyro_to_imu.id(), 36);

    let opts = StateOptions {
        do_calib_imu_intrinsics: true,
        imu_model: ImuModel::Rpng,
        ..StateOptions::default()
    };
    let s = State::new(opts);
    assert_eq!(s.calib_imu_acc_to_imu.id(), 27);
    assert_eq!(s.calib_imu_gyro_to_imu.id(), -1);

    let opts = StateOptions {
        num_cameras: 2,
        do_calib_camera_pose: true,
        do_calib_camera_intrinsics: true,
        ..StateOptions::default()
    };
    let s = State::new(opts);
    assert_eq!(s.cov.nrows(), 43);
    assert_eq!(s.calib_imu_to_cam[0].id(), 15);
    assert_eq!(s.cam_intrinsics[0].id(), 21);
}

#[test]
fn initial_covariance_blocks() {
    let opts = StateOptions { do_calib_imu_intrinsics: true, ..StateOptions::default() };
    let s = State::new(opts);
    assert!((at(&s.cov, 15, 15) - 0.005f64.powi(2)).abs() < 1e-12);
    assert!((at(&s.cov, 21, 21) - 0.008f64.powi(2)).abs() < 1e-12);
    assert!((at(&s.cov, 0, 0) - 1e-6).abs() < 1e-12);
}

#[test]
fn marg_timestep_empty() {
    let s = State::new(StateOptions::default());
    assert!((f(s.marg_timestep()) - (-1.0)).abs() < 1e-12);
}

#[test]
fn calibration_defaults_match_cpp() {
    let (s, v) = fresh(StateOptions::default());
    assert_eq!(s.dm(&v).map(f), EYE);
    assert_eq!(s.da(&v).map(f), EYE);
    assert_eq!(s.tg(&v).map(f), [0.0; 9]);
}

#[test]
fn imu_set_value_roundtrip() {
    let (_, mut v) = fresh(StateOptions::default());
    v.inertial = inertial([1.0, 2.0, 3.0], [0.1, 0.2, 0.3], [0.01, 0.02, 0.03], [0.001, 0.002, 0.003]);
    assert_eq!(v.inertial.pose.pos.map(f), [1.0, 2.0, 3.0]);
    assert_eq!(v.inertial.vel.map(f), [0.1, 0.2, 0.3]);
    assert_eq!(v.inertial.bias_g.map(f), [0.01, 0.02, 0.03]);
    assert_eq!(v.inertial.bias_a.map(f), [0.001, 0.002, 0.003]);
    // The first estimate is set on its own.
    assert_eq!(v.inertial_first.pose.pos.map(f), [0.0; 3]);
}

#[test]
fn estimates_start_plain() {
    let opts = StateOptions { num_cameras: 2, imu_model: ImuModel::Rpng, ..StateOptions::default() };
    let (s, mut v) = fresh(opts);
    assert_eq!(v.inertial.pose.rot.map(f), EYE);
    assert_eq!(v.inertial_first.vel.map(f), [0.0; 3]);
    assert_eq!((v.calibs.len(), v.intrinsics.len(), v.clones.len()), (2, 2, 0));
    assert_eq!(v.calibs[1].rot.map(f), EYE);
    assert_eq!(v.intrinsics[1].map(f), [0.0; 8]);
    assert_eq!(f(s.time_offset(&v)), 0.0);
    v.dt = d(0.5);
    // The offset is not calibrated.
    assert_eq!(f(s.time_offset(&v)), 0.0);
    v.dw = [1.0, 2.0, 3.0, 4.0, 5.0, 6.0].map(d);
    v.tg = [1.0, 2.0, 3.0, 4.0, 5.0, 6.0, 7.0, 8.0, 9.0].map(d);
    v.inertial.bias_g = [d(0.5); 3];
    let c = s.imu_calibration(&v);
    assert_eq!(c.dw.map(f), [1.0, 2.0, 4.0, 0.0, 3.0, 5.0, 0.0, 0.0, 6.0]);
    assert_eq!(c.tg.map(f), [1.0, 4.0, 7.0, 2.0, 5.0, 8.0, 3.0, 6.0, 9.0]);
    assert_eq!(c.bias_g.map(f), [0.5; 3]);
    let (s, _) = fresh(StateOptions { do_calib_camera_timeoffset: true, ..StateOptions::default() });
    assert_eq!(f(s.time_offset(&v)), 0.5);
    assert_eq!(s.dm(&v).map(f), [1.0, 0.0, 0.0, 2.0, 4.0, 0.0, 3.0, 5.0, 6.0]);
}

#[test]
fn augment_clone_grows_covariance() {
    let (mut s, mut v) = fresh(StateOptions::default());
    s.timestamp = d(1.0);
    v.inertial = inertial([1.0, 2.0, 3.0], [0.1, 0.2, 0.3], [0.0; 3], [0.0; 3]);
    augment_clone(&mut s, &mut v, &[d(0.0), d(0.0), d(0.5)], &plus, &times);
    assert_eq!(s.cov.nrows(), 21);
    assert!(s.clones_imu.iter().any(|(t, _)| f(*t).total_cmp(&1.0).is_eq()));
    let clone = &s.clones_imu[0].1;
    assert_eq!(clone.id(), 15);
    assert_eq!(clone.size(), 6);
    assert_eq!(v.clones[0].0.pos.map(f), [1.0, 2.0, 3.0]);
    assert_eq!(v.clones[0].0.rot.map(f), EYE);
    // The first estimate is that of the inertial pose.
    assert_eq!(v.clones[0].1.pos.map(f), [0.0; 3]);
    assert!((at(&s.cov, 15, 15) - 1e-6).abs() < 1e-12);
}

#[test]
fn augment_clone_with_time_offset_calibration() {
    let opts = StateOptions { do_calib_camera_timeoffset: true, ..StateOptions::default() };
    let (mut s, mut v) = fresh(opts);
    assert_eq!(s.cov.nrows(), 16);
    s.timestamp = d(1.0);
    v.inertial = inertial([0.0; 3], [1.0, 2.0, 3.0], [0.0; 3], [0.0; 3]);
    augment_clone(&mut s, &mut v, &[d(0.1), d(0.2), d(0.3)], &plus, &times);
    assert_eq!(s.cov.nrows(), 22);
    let clone = &s.clones_imu[0].1;
    assert_eq!(clone.id(), 16);
    assert!((at(&s.cov, 16, 16) - 2e-6).abs() < 1e-15);
    assert!((at(&s.cov, 15, 16) - 1e-5).abs() < 1e-15);
    // The position of the clone changes with the velocity.
    assert!((at(&s.cov, 15, 20) - 2e-4).abs() < 1e-15);
}

#[test]
fn marginalize_removes_block_and_renumbers() {
    let (mut s, mut v) = fresh(StateOptions::default());
    s.timestamp = d(1.0);
    augment_clone(&mut s, &mut v, &[d(0.0); 3], &plus, &times);
    s.timestamp = d(2.0);
    augment_clone(&mut s, &mut v, &[d(0.0); 3], &plus, &times);
    assert_eq!(s.cov.nrows(), 27);
    assert_eq!(s.clones_imu[0].1.id(), 15);
    assert_eq!(s.clones_imu[1].1.id(), 21);

    marginalize(&mut s, 15, 6);
    assert_eq!(s.cov.nrows(), 21);
    assert_eq!(s.clones_imu[0].1.id(), 15);
}

#[test]
fn marginalize_old_clone_respects_window() {
    let opts = StateOptions { max_clone_size: 2, ..StateOptions::default() };
    let (mut s, mut v) = fresh(opts);
    for t in 1..=3 {
        s.timestamp = d(f64::from(t));
        v.inertial.pose = upright([f64::from(t), 0.0, 0.0]);
        augment_clone(&mut s, &mut v, &[d(0.0); 3], &plus, &times);
    }
    marginalize_old_clone(&mut s, &mut v);
    assert_eq!(s.clones_imu.len(), 2);
    assert!(!s.clones_imu.iter().any(|(t, _)| f(*t).total_cmp(&1.0).is_eq()));
    assert_eq!(s.cov.nrows(), 15 + 2 * 6);
    // The estimates of the oldest clone leave with it.
    let held: Vec<f64> = v.clones.iter().map(|c| f(c.0.pos[0])).collect();
    assert_eq!(held, vec![2.0, 3.0]);
    marginalize_old_clone(&mut s, &mut v);
    assert_eq!(v.clones.len(), 2);
}

#[test]
fn cycles_keep_the_window() {
    let opts = StateOptions { max_clone_size: 2, ..StateOptions::default() };
    let (mut s, mut v) = fresh(opts);
    for t in 1..=6u8 {
        s.timestamp = d(f64::from(t));
        augment_clone(&mut s, &mut v, &[d(0.0); 3], &plus, &times);
        marginalize_old_clone(&mut s, &mut v);
        let held: Vec<f64> = s.clones_imu.iter().map(|(t, _)| f(*t)).collect();
        let now = f64::from(t);
        assert_eq!(held, if t == 1 { vec![1.0] } else { vec![now - 1.0, now] });
        assert_eq!(v.clones.len(), held.len());
    }
}

#[test]
fn ekf_update_scalar_system() {
    let (mut s, mut v) = fresh(StateOptions::default());
    s.cov = to_lib(&DMatrix::identity(15, 15));
    let h = to_lib(&DMatrix::from_row_slice(1, 1, &[1.0]));
    let res = list(&[1.0]);
    let r = to_lib(&DMatrix::from_element(1, 1, 1.0));
    let order = vec![(0i32, 1usize)];
    ekf_update(&mut s, &mut v, &order, &h, &res, &r, &invert, &turn, &plus, &times).unwrap();
    assert!((at(&s.cov, 0, 0) - 0.5).abs() < 1e-9, "cov={}", at(&s.cov, 0, 0));
    // The first inertial error is half; as a quaternion its first component is
    // 0.25 over the norm.
    let q0 = first_component(&v.inertial.pose.rot);
    let expected = 0.25 / (1.0 + 0.0625_f64).sqrt();
    assert!((q0 - expected).abs() < 1e-9, "q[0]={q0}");
    assert!((at(&s.cov, 1, 1) - 1.0).abs() < 1e-12);
}

#[test]
fn ekf_propagation_phi_identity() {
    let mut s = State::new(StateOptions::default());
    let before = DMatrix::from_fn(15, 15, |i, j| if i == j { 1.0 + i as f64 * 0.1 } else { 0.0 });
    s.cov = to_lib(&before);
    let order: Vec<(i32, usize)> = vec![(0, 15)];
    let phi = to_lib(&DMatrix::identity(15, 15));
    let q = to_lib(&DMatrix::zeros(15, 15));
    assert!(ekf_propagation(&mut s, &order, &order, &phi, &q, &plus, &times).is_ok());
    assert!((from_lib(&s.cov) - before).norm() < 1e-12);
}

#[test]
fn get_marginal_covariance_extracts_block() {
    let mut s = State::new(StateOptions::default());
    s.cov.set(0, 0, d(2.0));
    s.cov.set(7, 7, d(3.0));
    let order = vec![(0i32, 3usize), (6i32, 3usize)];
    let small = get_marginal_covariance(&s, &order);
    assert_eq!(small.nrows(), 6);
    assert!((at(&small, 0, 0) - 2.0).abs() < 1e-12);
    assert!((at(&small, 4, 4) - 3.0).abs() < 1e-12);
}

#[test]
fn propagation_matches_the_dense_formula() {
    let (mut s, mut v) = fresh(StateOptions::default());
    s.timestamp = d(1.0);
    augment_clone(&mut s, &mut v, &[d(0.0); 3], &plus, &times);
    let cov = DMatrix::from_fn(21, 21, |i, j| {
        if i == j { 2.0 + i as f64 } else { 0.01 * (i + j) as f64 }
    });
    s.cov = to_lib(&cov);
    let phi = DMatrix::from_fn(15, 15, |i, j| {
        if i == j { 1.0 } else { 0.02 * (i as f64 - j as f64) }
    });
    let q = DMatrix::identity(15, 15) * 0.5;
    let order: Vec<(i32, usize)> = vec![(0, 15)];
    ekf_propagation(&mut s, &order, &order, &to_lib(&phi), &to_lib(&q), &plus, &times).unwrap();
    let mut whole = DMatrix::identity(21, 21);
    whole.view_mut((0, 0), (15, 15)).copy_from(&phi);
    let mut expected = &whole * &cov * whole.transpose();
    for i in 0..15 {
        expected[(i, i)] += 0.5;
    }
    assert!((from_lib(&s.cov) - expected).norm() < 1e-9);
}

#[test]
fn propagation_reports_a_negative_diagonal() {
    let mut s = State::new(StateOptions::default());
    let order: Vec<(i32, usize)> = vec![(0, 15)];
    let phi = to_lib(&DMatrix::identity(15, 15));
    let mut q = DMatrix::zeros(15, 15);
    q[(4, 4)] = -1.0;
    let done = ekf_propagation(&mut s, &order, &order, &phi, &to_lib(&q), &plus, &times);
    assert_eq!(done, Err(4));
    assert_eq!(check_diagonal(&s.cov), Err(4));
}

#[test]
fn update_matches_the_dense_formula() {
    let (mut s, mut v) = fresh(StateOptions::default());
    let cov = DMatrix::from_fn(15, 15, |i, j| {
        if i == j { 1.0 + 0.1 * i as f64 } else { 0.001 * (i + j) as f64 }
    });
    s.cov = to_lib(&cov);
    let order: Vec<(i32, usize)> = vec![(3, 2), (9, 3)];
    let h = DMatrix::from_fn(4, 5, |i, j| 0.3 * (i as f64 + 1.0) - 0.2 * j as f64 * i as f64 + 0.1);
    let r = DMatrix::identity(4, 4) * 0.2;
    let res = [0.1, -0.2, 0.3, 0.05];
    let mut full = DMatrix::zeros(4, 15);
    for i in 0..4 {
        full[(i, 3)] = h[(i, 0)];
        full[(i, 4)] = h[(i, 1)];
        full[(i, 9)] = h[(i, 2)];
        full[(i, 10)] = h[(i, 3)];
        full[(i, 11)] = h[(i, 4)];
    }
    let gained = ekf_update(
        &mut s, &mut v, &order, &to_lib(&h), &list(&res), &to_lib(&r), &invert, &turn, &plus, &times,
    )
    .unwrap();
    let sm = &full * &cov * full.transpose() + &r;
    let k = &cov * full.transpose() * sm.try_inverse().unwrap();
    let expected = &cov - &k * &full * &cov;
    assert!((from_lib(&s.cov) - expected).norm() < 1e-9);
    let dx = &k * nalgebra::DVector::from_row_slice(&res);
    for i in 0..15 {
        assert!((f(gained[i]) - dx[i]).abs() < 1e-9);
    }
    for i in 0..3 {
        assert!((f(v.inertial.pose.pos[i]) - dx[3 + i]).abs() < 1e-9);
        assert!((f(v.inertial.vel[i]) - dx[6 + i]).abs() < 1e-9);
        assert!((f(v.inertial.bias_g[i]) - dx[9 + i]).abs() < 1e-9);
        assert!((f(v.inertial.bias_a[i]) - dx[12 + i]).abs() < 1e-9);
    }
    assert_eq!(v.inertial_first.pose.pos.map(f), [0.0; 3]);
}

#[test]
fn update_without_inverse_changes_nothing() {
    let (mut s, mut v) = fresh(StateOptions::default());
    let before = from_lib(&s.cov);
    let h = to_lib(&DMatrix::zeros(1, 1));
    let r = to_lib(&DMatrix::zeros(1, 1));
    let order = vec![(0i32, 1usize)];
    let done = ekf_update(
        &mut s, &mut v, &order, &h, &list(&[1.0]), &r, &invert, &turn, &plus, &times,
    );
    assert_eq!(done, Err(UpdateFault::Singular));
    assert_eq!(from_lib(&s.cov), before);
}

#[test]
fn update_reports_a_negative_diagonal() {
    let (mut s, mut v) = fresh(StateOptions::default());
    s.cov = to_lib(&DMatrix::identity(15, 15));
    let h = to_lib(&DMatrix::from_row_slice(1, 1, &[1.0]));
    let r = to_lib(&DMatrix::from_element(1, 1, 1.0));
    // An inverse that is far too large takes more away than there is.
    let large = |_: &Matrix| Some(to_lib(&DMatrix::from_element(1, 1, 9.0)));
    let order = vec![(2i32, 1usize)];
    let done = ekf_update(
        &mut s, &mut v, &order, &h, &list(&[1.0]), &r, &large, &turn, &plus, &times,
    );
    assert_eq!(done, Err(UpdateFault::Negative(2)));
}

#[test]
fn steps_compose() {
    let f1 = DMatrix::from_row_slice(2, 2, &[1.0, 0.5, 0.0, 1.0]);
    let f2 = DMatrix::from_row_slice(2, 2, &[0.0, -1.0, 1.0, 0.0]);
    let q1 = DMatrix::identity(2, 2) * 0.1;
    let q2 = DMatrix::identity(2, 2) * 0.2;
    let steps = vec![
        Transition { f: to_lib(&f1), qd: to_lib(&q1) },
        Transition { f: to_lib(&f2), qd: to_lib(&q2) },
    ];
    let (phi, q) = compose(&steps, 2, &plus, &times);
    assert!((from_lib(&phi) - &f2 * &f1).norm() < 1e-15);
    let expected = &f2 * &q1 * f2.transpose() + &q2;
    assert!((from_lib(&q) - expected).norm() < 1e-15);
}

#[test]
fn read_gives_back_write() {
    let mut s = State::new(StateOptions::default());
    let order = vec![(3i32, 2usize), (9i32, 3usize)];
    let small = DMatrix::from_fn(5, 5, |i, j| 1.0 + (i + j) as f64 + if i == j { 4.0 } else { 0.0 });
    set_initial_covariance(&mut s, &to_lib(&small), &order, &plus, &times);
    assert_eq!(from_lib(&get_marginal_covariance(&s, &order)), small);
    // A covariance that is not symmetric is made so.
    let skewed = DMatrix::from_row_slice(2, 2, &[1.0, 4.0, 2.0, 1.0]);
    set_initial_covariance(&mut s, &to_lib(&skewed), &vec![(0i32, 2usize)], &plus, &times);
    assert_eq!(at(&s.cov, 0, 1), 3.0);
    assert_eq!(at(&s.cov, 1, 0), 3.0);
}

#[test]
fn removal_undoes_clone() {
    let (mut s, mut v) = fresh(StateOptions::default());
    let cov = DMatrix::from_fn(15, 15, |i, j| 1.0 + (i * j) as f64 + if i == j { 300.0 } else { 0.0 });
    s.cov = to_lib(&cov);
    s.timestamp = d(4.0);
    augment_clone(&mut s, &mut v, &[d(0.0); 3], &plus, &times);
    assert_eq!(at(&s.cov, 15, 3), cov[(0, 3)]);
    assert_eq!(at(&s.cov, 18, 16), cov[(3, 1)]);
    marginalize(&mut s, 15, 6);
    assert_eq!(from_lib(&get_full_covariance(&s)), cov);
    assert_eq!(s.clones_imu.len(), 1);
}

#[test]
fn marked_features_leave() {
    let mut s = State::new(StateOptions::default());
    s.cov = to_lib(&DMatrix::from_fn(21, 21, |i, j| if i == j { i as f64 + 1.0 } else { 0.0 }));
    for (k, id) in [(7usize, 15i32), (8, 18)] {
        let mut lm = Landmark::new(FeatRepresentation::Global3D, k);
        lm.set_local_id(id);
        lm.should_marg = k == 7;
        s.features_slam.push(lm);
    }
    marginalize_slam(&mut s);
    assert_eq!(s.features_slam.len(), 1);
    assert_eq!(s.features_slam[0].featid, 8);
    assert_eq!(s.features_slam[0].id, 15);
    assert_eq!(s.cov.nrows(), 18);
    assert_eq!(at(&s.cov, 15, 15), 19.0);
}

#[test]
fn rows_belong_once() {
    let opts = StateOptions {
        num_cameras: 2,
        do_calib_camera_pose: true,
        do_calib_camera_intrinsics: true,
        do_calib_camera_timeoffset: true,
        ..StateOptions::default()
    };
    let s = State::new(opts);
    let order = s.variable_order();
    let mut owner = vec![0usize; s.cov.nrows()];
    for (id, size) in &order {
        for k in 0..*size {
            owner[*id as usize + k] += 1;
        }
    }
    assert!(owner.iter().all(|n| *n == 1));
    assert_eq!(hx_col(order.len(), &order), s.cov.nrows());
    assert_eq!(hx_col(order.len() + 9, &order), s.cov.nrows());
    assert_eq!(hx_col(1, &order), order[0].1);
}

#[test]
fn every_variable_moves_by_its_part() {
    let opts = StateOptions {
        num_cameras: 2,
        do_calib_imu_intrinsics: true,
        do_calib_imu_g_sensitivity: true,
        do_calib_camera_pose: true,
        do_calib_camera_intrinsics: true,
        do_calib_camera_timeoffset: true,
        ..StateOptions::default()
    };
    let (mut s, mut v) = fresh(opts);
    s.timestamp = d(1.0);
    augment_clone(&mut s, &mut v, &[d(0.0); 3], &plus, &times);
    let n = s.cov.nrows();
    let first = v.clone();
    // Each entry of the increment is its row, turns are none.
    let turned = |rot: [Double; 9], angle: [Double; 3]| {
        let mut out = rot;
        out[0] = angle[0];
        out
    };
    s.update_all(&mut v, &(0..n).map(|i| d(i as f64)).collect(), &turned, &plus);
    let row = |id: i32, k: i32| f64::from(id + k);
    assert_eq!(f(v.inertial.pose.rot[0]), 0.0);
    assert_eq!(v.inertial.pose.pos.map(f), [3.0, 4.0, 5.0]);
    assert_eq!(v.inertial.vel.map(f), [6.0, 7.0, 8.0]);
    assert_eq!(v.inertial.bias_g.map(f), [9.0, 10.0, 11.0]);
    assert_eq!(v.inertial.bias_a.map(f), [12.0, 13.0, 14.0]);
    assert_eq!(v.dw.map(f), [16.0, 16.0, 17.0, 19.0, 19.0, 21.0]);
    assert_eq!(f(v.da[5]), 1.0 + row(s.calib_imu_da.id(), 5));
    assert_eq!(f(v.tg[8]), row(s.calib_imu_tg.id(), 8));
    assert_eq!(f(v.gyro_to_imu[0]), row(s.calib_imu_gyro_to_imu.id(), 0));
    assert_eq!(v.acc_to_imu.map(f), EYE);
    assert_eq!(f(v.dt), row(s.calib_dt_cam_to_imu.unwrap().id(), 0));
    for c in 0..2 {
        assert_eq!(f(v.calibs[c].rot[0]), row(s.calib_imu_to_cam[c].id(), 0));
        assert_eq!(f(v.calibs[c].pos[2]), row(s.calib_imu_to_cam[c].id(), 5));
        assert_eq!(f(v.intrinsics[c][7]), row(s.cam_intrinsics[c].id(), 7));
    }
    assert_eq!(f(v.clones[0].0.pos[1]), row(s.clones_imu[0].1.id(), 4));
    assert_eq!(v.clones[0].1.pos, first.clones[0].1.pos);
    assert_eq!(v.inertial_first.vel, first.inertial_first.vel);
    // Without calibration only the inertial state moves.
    let (mut s, mut v) = fresh(StateOptions::default());
    s.update_all(&mut v, &list(&[1.0; 15]), &turned, &plus);
    assert_eq!((v.dw, v.tg, v.dt), (first.dw, first.tg, first.dt));
    assert_eq!(v.calibs[0].pos.map(f), [0.0; 3]);
    assert_eq!(v.inertial.bias_a.map(f), [1.0; 3]);
}

#[test]
fn blocks_are_stacked_on_their_rows() {
    let s = State::new(StateOptions { do_calib_camera_timeoffset: true, ..StateOptions::default() });
    let blocks = vec![
        to_lib(&DMatrix::from_element(15, 2, 1.0)),
        to_lib(&DMatrix::from_element(1, 2, 7.0)),
    ];
    let m = stack_rows(&s, &blocks, 2);
    assert_eq!(at(&m, 14, 1), 1.0);
    assert_eq!(at(&m, 15, 0), 7.0);
    assert_eq!(s.max_covariance_size(), s.cov.nrows());
    let mut v = Variable::new(3);
    assert_eq!(v.id(), -1);
    v.set_local_id(4);
    assert_eq!((v.id(), v.size()), (4, 3));
}

#[test]
fn chi2_table_matches_known_values() {
    assert!((f(chi2_95(1, &wide)) - 3.8415).abs() < 1e-3);
    assert!((f(chi2_95(2, &wide)) - 5.9915).abs() < 1e-3);
    assert!((f(chi2_95(10, &wide)) - 18.3070).abs() < 1e-3);
}

#[test]
fn chi2_approx_for_large_dof() {
    let v = f(chi2_95(100, &wide));
    assert!((v - 124.34).abs() < 0.1, "chi2(100) = {v}");
    assert!(f(chi2_95(100, &wide)) > f(chi2_95(50, &wide)));
}

#[test]
fn chi2_monotonic() {
    for n in 1..60 {
        assert!(f(chi2_95(n + 1, &wide)) > f(chi2_95(n, &wide)), "dof={n}");
    }
}

#[test]
fn givens_zeroes_target() {
    let mut h = to_lib(&DMatrix::from_row_slice(2, 3, &[1.0, 2.0, 3.0, 4.0, 5.0, 6.0]));
    let mut h_x = to_lib(&DMatrix::from_row_slice(2, 2, &[1.0, 0.0, 0.0, 1.0]));
    let mut res = list(&[1.0, 2.0]);
    givens_zero(&mut h, &mut h_x, &mut res, 1, 0, &cancel, &rotate);
    assert!(at(&h, 1, 0).abs() < 1e-12, "h[1,0] = {}", at(&h, 1, 0));
    let n1 = (at(&h, 0, 0).powi(2) + at(&h, 1, 0).powi(2)).sqrt();
    assert!((n1 - 17.0_f64.sqrt()).abs() < 1e-9);
}

#[test]
fn nullspace_projects_and_truncates() {
    let mut h_f = to_lib(&DMatrix::from_fn(5, 3, |i, j| (i * 3 + j) as f64 + 1.0));
    let mut h_x = to_lib(&DMatrix::from_fn(5, 4, |i, j| (i * 4 + j) as f64 * 0.5));
    let mut res: Vec<Double> = (0..5).map(|i| d(i as f64)).collect();
    nullspace_project_inplace(&mut h_f, &mut h_x, &mut res, &cancel, &rotate);
    assert_eq!(h_x.nrows(), 2);
    assert_eq!(res.len(), 2);
    for n in 0..3 {
        for m in n + 1..5 {
            assert!(at(&h_f, m, n).abs() < 1e-9, "h_f[{m},{n}] = {}", at(&h_f, m, n));
        }
    }
}

#[test]
fn compress_reduces_rows() {
    let mut h_x = to_lib(&DMatrix::from_fn(6, 2, |i, j| (i * 2 + j) as f64));
    let mut res: Vec<Double> = (0..6).map(|i| d(i as f64)).collect();
    measurement_compress_inplace(&mut h_x, &mut res, &cancel, &rotate);
    assert_eq!(h_x.nrows(), 2);
    assert_eq!(res.len(), 2);
    assert!(at(&h_x, 1, 0).abs() < 1e-9);
}

#[test]
fn compress_keeps_what_the_system_says() {
    let h = DMatrix::from_fn(6, 2, |i, j| (i * 2 + j) as f64 + if i == j { 3.0 } else { 0.0 });
    let r = nalgebra::DVector::from_fn(6, |i, _| i as f64);
    let mut h_x = to_lib(&h);
    let mut res: Vec<Double> = r.iter().map(|x| d(*x)).collect();
    measurement_compress_inplace(&mut h_x, &mut res, &cancel, &rotate);
    let small = from_lib(&h_x);
    let left = nalgebra::DVector::from_iterator(2, res.iter().map(|x| f(*x)));
    assert!((h.transpose() * &h - small.transpose() * &small).norm() < 1e-9);
    assert!((h.transpose() * &r - small.transpose() * &left).norm() < 1e-9);

    // As many columns as rows: nothing is done.
    let mut flat = to_lib(&DMatrix::from_row_slice(1, 2, &[3.0, 4.0]));
    let mut one = list(&[5.0]);
    measurement_compress_inplace(&mut flat, &mut one, &cancel, &rotate);
    assert_eq!((at(&flat, 0, 0), at(&flat, 0, 1), f(one[0])), (3.0, 4.0, 5.0));
}

#[test]
fn elimination_keeps_relations() {
    // In every row the feature and the rest give the residual.
    let (f_true, x_true) = (Vector3::new(1.0, -2.0, 0.5), [3.0, -1.0]);
    let h_f = DMatrix::from_fn(6, 3, |i, j| ((i * 5 + j * 3) % 7) as f64 - 2.0);
    let h_x = DMatrix::from_fn(6, 2, |i, j| ((i * 4 + j * 5) % 9) as f64 - 3.0);
    let r = &h_f * f_true + &h_x * nalgebra::Vector2::from(x_true);
    let (mut a, mut b, mut res) = (to_lib(&h_f), to_lib(&h_x), list(r.as_slice()));
    nullspace_project_inplace(&mut a, &mut b, &mut res, &cancel, &rotate);
    assert_eq!(b.nrows(), 3);
    for i in 0..3 {
        let sum = at(&b, i, 0) * x_true[0] + at(&b, i, 1) * x_true[1];
        assert!((sum - f(res[i])).abs() < 1e-9, "{sum}");
    }
}
