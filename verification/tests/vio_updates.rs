use firefly::double::Double;
use firefly::matrix::Matrix;
use firefly::vio::estimates::{Estimates, InertialValues};
use firefly::vio::feature_init::{initialize_feature, FeatureFault, Joined};
use firefly::vio::feature_update::Spot;
use firefly::vio::givens::Rotation;
use firefly::vio::jacobian::{
    get_feature_jacobian_full, get_feature_jacobian_representation, Angles, PoseValue,
};
use firefly::vio::kalman::Transition;
use firefly::vio::landmark::{Landmark, PointForms, PointSource};
use firefly::vio::options::{
    FeatRepresentation, StateOptions, UpdaterOptions, VioManagerOptions, ZuptOptions,
};
use firefly::vio::reanchor::{coordinates_of, write_point};
use firefly::vio::selection::slam_batches;
use firefly::vio::standstill::{
    bias_wander, correct, still_innovation, still_system, ImuCalibration, ImuReading,
    InertialState,
};
use firefly::vio::state::State;
use firefly::vio::state_helper::{augment_clone, marginalize_old_clone};
use firefly::vio::updater::{retain_flagged, stack_systems, FeatureSystem, UpdaterMsckf};
use firefly::vio::updater_helper::{find_clone, CameraTrack, Feature};
use firefly::vio::updater_slam::{find_landmark, UpdaterSlam};
use firefly::vio::updater_zero_velocity::{
    compute_disparity, disparity_pairs, UpdaterZeroVelocity, ZuptVerdict,
};
use firefly::vio::vio_manager::{
    next_step, CameraStep, InitResult, Prediction, UpdateStart, VioManager,
};
use firefly::vio::zero_velocity::ImuNoise;
use nalgebra::linalg::givens::GivensRotation;
use nalgebra::{DMatrix, DVector, Matrix3, Vector2, Vector3};

fn d(x: f64) -> Double {
    Double::from_bits(x.to_bits())
}

fn f(x: Double) -> f64 {
    f64::from_bits(x.bits)
}

fn plus(a: Double, b: Double) -> Double {
    d(f(a) + f(b))
}

fn times(a: Double, b: Double) -> Double {
    d(f(a) * f(b))
}

fn divide(a: Double, b: Double) -> Double {
    d(f(a) / f(b))
}

type One = fn(Double) -> Double;
type Two = fn(Double, Double) -> Double;

fn angles() -> Angles<fn([Double; 3]) -> Double, Two, One, One, One> {
    Angles {
        length: |v| d(Vector3::new(f(v[0]), f(v[1]), f(v[2])).norm()),
        atan2: |y, x| d(f(y).atan2(f(x))),
        acos: |a| d(f(a).acos()),
        sin: |a| d(f(a).sin()),
        cos: |a| d(f(a).cos()),
    }
}

fn to_lib(m: &DMatrix<f64>) -> Matrix {
    let mut out = Matrix::filled(m.nrows(), m.ncols(), Double::zero());
    for i in 0..m.nrows() {
        for j in 0..m.ncols() {
            out.set(i, j, d(m[(i, j)]));
        }
    }
    out
}

fn from_lib(m: &Matrix) -> DMatrix<f64> {
    DMatrix::from_fn(m.nrows(), m.ncols(), |i, j| f(m.get(i, j)))
}

fn at(m: &Matrix, i: usize, j: usize) -> f64 {
    f(m.get(i, j))
}

fn list(v: &[f64]) -> Vec<Double> {
    v.iter().map(|x| d(*x)).collect()
}

fn cancel(a: Double, b: Double) -> Option<Rotation> {
    GivensRotation::cancel_y(&Vector2::new(f(a), f(b)))
        .map(|(g, _)| Rotation { c: d(g.c()), s: d(g.s()) })
}

fn rotate(g: Rotation, a: Double, b: Double) -> (Double, Double) {
    let (c, s, a, b) = (f(g.c), f(g.s), f(a), f(b));
    (d(c * a - s * b), d(s * a + c * b))
}

fn cholesky(m: &Matrix) -> Option<Matrix> {
    from_lib(m).cholesky().map(|c| to_lib(&c.inverse()))
}

fn try_inverse(m: &Matrix) -> Option<Matrix> {
    from_lib(m).try_inverse().map(|x| to_lib(&x))
}

fn distance(m: &Matrix, v: &Vec<Double>) -> Double {
    let r = DVector::from_iterator(v.len(), v.iter().map(|x| f(*x)));
    match from_lib(m).cholesky() {
        Some(c) => d(r.dot(&c.solve(&r))),
        None => d(f64::INFINITY),
    }
}

fn wide(dof: usize) -> Double {
    let n = dof as f64;
    let t = 1.0 - 2.0 / (9.0 * n) + 1.644_853_626_951_472_2 * (2.0 / (9.0 * n)).sqrt();
    d(n * t * t * t)
}

fn skew(v: &Vector3<f64>) -> Matrix3<f64> {
    Matrix3::new(0.0, -v.z, v.y, v.z, 0.0, -v.x, -v.y, v.x, 0.0)
}

fn forms(p: &Vector3<f64>) -> PointForms {
    write_point(&[d(p.x), d(p.y), d(p.z)], &angles(), &plus, &times, &divide)
}

fn point(s: PointSource) -> Vector3<f64> {
    let p = coordinates_of(&s, &angles(), &plus, &times, &divide);
    Vector3::new(f(p[0]), f(p[1]), f(p[2]))
}

/// Where the camera is at a time: it moves half a metre along the first axis
/// between two clones, and does not turn.
fn camera(t: Double) -> Vector3<f64> {
    Vector3::new(0.5 * (f(t) - 1.0), 0.0, 0.0)
}

fn pixel(p: &Vector3<f64>) -> Vector2<f64> {
    Vector2::new(600.0 * p.x / p.z + 320.0, 600.0 * p.y / p.z + 240.0)
}

/// What the camera measured of the point at each time, as single floats.
fn seen(p: &Vector3<f64>, times: &[f64]) -> Vec<Vector2<f64>> {
    times
        .iter()
        .map(|t| pixel(&(p - camera(d(*t)))).cast::<f32>().cast::<f64>())
        .collect()
}

fn feature(featid: usize, times: &[f64]) -> Feature {
    Feature {
        featid,
        to_delete: false,
        tracks: vec![CameraTrack {
            cam_id: 0,
            timestamps: list(times),
            uvs: vec![[d(0.0); 2]; times.len()],
        }],
        anchor_cam_id: -1,
        anchor_clone_timestamp: d(0.0),
        p_fin_a: [d(0.0); 3],
        p_fin_g: [d(0.0); 3],
    }
}

fn scene(clones: usize) -> State {
    let mut st = State::new(StateOptions::default());
    let mut values = Estimates::new(&st);
    for k in 1..=clones {
        st.timestamp = d(k as f64);
        augment_clone(&mut st, &mut values, &[d(0.0); 3], &plus, &times);
    }
    st
}

/// The point from its measurements, if the camera moved between them.
fn triangulated(uvs: &[Vector2<f64>], times: &[f64]) -> Option<Vector3<f64>> {
    let mut a = Matrix3::zeros();
    let mut b = Vector3::zeros();
    for (uv, t) in uvs.iter().zip(times) {
        let ray = Vector3::new((uv.x - 320.0) / 600.0, (uv.y - 240.0) / 600.0, 1.0).normalize();
        let m = Matrix3::identity() - ray * ray.transpose();
        a += m;
        b += m * camera(d(*t));
    }
    let p = a.try_inverse()? * b;
    if p.z > 0.1 && p.z < 60.0 { Some(p) } else { None }
}

/// The derivative of the global position by the parameters of a point that is
/// anchored where the camera was at time `t`.
fn by_parameters(p: &Vector3<f64>, rep: FeatRepresentation) -> DMatrix<f64> {
    let rho = 1.0 / p.z;
    match rep {
        FeatRepresentation::AnchoredMsckfInverseDepth => DMatrix::from_row_slice(
            3,
            3,
            &[
                1.0 / rho, 0.0, -(p.x / p.z) / (rho * rho),
                0.0, 1.0 / rho, -(p.y / p.z) / (rho * rho),
                0.0, 0.0, -1.0 / (rho * rho),
            ],
        ),
        FeatRepresentation::AnchoredInverseDepthSingle => DMatrix::from_row_slice(
            3,
            1,
            &[
                -(p.x / p.z) / (rho * rho),
                -(p.y / p.z) / (rho * rho),
                -1.0 / (rho * rho),
            ],
        ),
        _ => DMatrix::identity(3, 3),
    }
}

/// The derivative of the global position by the anchor's pose.
fn by_anchor(p: &Vector3<f64>) -> DMatrix<f64> {
    let mut m = DMatrix::zeros(3, 6);
    m.view_mut((0, 0), (3, 3)).copy_from(&(-skew(p)));
    m.view_mut((0, 3), (3, 3)).copy_from(&Matrix3::identity());
    m
}

fn project(_: usize, uv: [Double; 2]) -> [Double; 2] {
    [d(600.0 * f(uv[0]) + 320.0), d(600.0 * f(uv[1]) + 240.0)]
}

fn project_slope(_: usize, _: [Double; 2]) -> [Double; 4] {
    [d(600.0), d(0.0), d(0.0), d(600.0)]
}

/// An orientation turned by a small error angle.
fn turn(rot: [Double; 9], angle: [Double; 3]) -> [Double; 9] {
    let v = 0.5 * Vector3::new(f(angle[0]), f(angle[1]), f(angle[2]));
    let n = (1.0 + v.norm_squared()).sqrt();
    let (v, w) = (v / n, 1.0 / n);
    let small: Matrix3<f64> =
        (2.0 * w * w - 1.0) * Matrix3::identity() - 2.0 * w * skew(&v) + 2.0 * v * v.transpose();
    let whole = small * Matrix3::from_fn(|i, j| f(rot[3 * i + j]));
    [0, 1, 2, 3, 4, 5, 6, 7, 8].map(|k| d(whole[(k / 3, k % 3)]))
}

/// Residuals and derivatives of a feature whose point is known.
fn jacobian(
    st: &State,
    feat: &Feature,
    rep: FeatRepresentation,
    p: &Vector3<f64>,
    uvs: &[Vector2<f64>],
) -> (Matrix, Matrix, Vec<Double>, Vec<(i32, usize)>) {
    let feat = placed(feat, p, uvs);
    let jac = get_feature_jacobian_full(
        st,
        &feat,
        rep,
        &scene_poses(st),
        &project,
        &project_slope,
        &angles(),
        &plus,
        &times,
        &divide,
    );
    (jac.h_f, jac.h_x, jac.res, jac.x_order)
}

fn upright(pos: &Vector3<f64>) -> PoseValue {
    let rot = [1.0, 0.0, 0.0, 0.0, 1.0, 0.0, 0.0, 0.0, 1.0].map(d);
    PoseValue { rot, pos: [d(pos.x), d(pos.y), d(pos.z)] }
}

/// The window of a camera that moves along the first axis.
fn scene_poses(st: &State) -> Estimates {
    let clones = st.clones_imu.iter().map(|c| upright(&camera(c.0))).map(|c| (c, c)).collect();
    Estimates { clones, ..Estimates::new(&State::new(st.options)) }
}

/// A feature with pixels, at a point.
fn placed(feat: &Feature, p: &Vector3<f64>, uvs: &[Vector2<f64>]) -> Feature {
    let off = p - camera(feat.anchor_clone_timestamp);
    let mut feat = feat.clone();
    feat.tracks[0].uvs = uvs.iter().map(|uv| [d(uv.x), d(uv.y)]).collect();
    feat.p_fin_a = [d(off.x), d(off.y), d(off.z)];
    feat.p_fin_g = [d(p.x), d(p.y), d(p.z)];
    feat
}

const TRUTH: [f64; 3] = [0.5, 0.2, 3.0];

fn truth() -> Vector3<f64> {
    Vector3::new(TRUTH[0], TRUTH[1], TRUTH[2])
}

/// Runs the delayed initialization of one feature that was measured at the times.
fn delayed(
    st: &mut State,
    poses: &mut Estimates,
    feats: &mut Vec<Feature>,
    rep: FeatRepresentation,
    uvs: &[Vector2<f64>],
    stamps: &[f64],
) -> UpdaterSlam {
    let updater = UpdaterSlam::new(UpdaterOptions::default(), rep, d(9.0));
    let found = triangulated(uvs, stamps);
    let last = d(*stamps.last().unwrap());
    feats[0].tracks[0].uvs = uvs.iter().map(|uv| [d(uv.x), d(uv.y)]).collect();
    let locate = |_: &Feature| {
        let p = found?;
        let off = p - camera(last);
        Some(Spot {
            anchor_cam_id: 0,
            anchor_clone_timestamp: last,
            p_fin_a: [d(off.x), d(off.y), d(off.z)],
            p_fin_g: [d(p.x), d(p.y), d(p.z)],
        })
    };
    updater
        .delayed_init(
            st,
            poses,
            feats,
            &locate,
            &project,
            &project_slope,
            &angles(),
            &cancel,
            &rotate,
            &distance,
            &wide,
            &try_inverse,
            &cholesky,
            &turn,
            &plus,
            &times,
            &divide,
        )
        .unwrap();
    updater
}

#[test]
fn delayed_init_adds_landmark_and_grows_covariance() {
    let mut st = scene(2);
    let mut poses = scene_poses(&st);
    let cov_before = st.cov.nrows();
    assert_eq!(cov_before, 27);
    let stamps = [1.0, 2.0];
    let mut feats = vec![feature(1, &stamps)];
    let uvs = seen(&truth(), &stamps);
    delayed(&mut st, &mut poses, &mut feats, FeatRepresentation::Global3D, &uvs, &stamps);
    assert_eq!(feats.len(), 1);
    assert!(feats[0].to_delete);
    let place = find_landmark(&st, 1).unwrap();
    let lm = &st.features_slam[place];
    assert_eq!(lm.representation, FeatRepresentation::Global3D);
    assert_eq!(lm.id(), cov_before as i32);
    assert_eq!(lm.size(), 3);
    assert_eq!(st.cov.nrows(), cov_before + 3);
    let p = point(lm.get_xyz(false));
    assert!((p - Vector3::new(0.5, 0.2, 3.0)).norm() < 0.05, "p = {p}");
}

#[test]
fn delayed_init_single_inverse_depth() {
    let mut st = scene(2);
    let mut poses = scene_poses(&st);
    let cov_before = st.cov.nrows();
    let stamps = [1.0, 2.0];
    let mut feats = vec![feature(1, &stamps)];
    let uvs = seen(&truth(), &stamps);
    delayed(&mut st, &mut poses, &mut feats, FeatRepresentation::AnchoredInverseDepthSingle, &uvs, &stamps);
    assert_eq!(feats.len(), 1);
    let place = find_landmark(&st, 1).unwrap();
    let lm = &st.features_slam[place];
    assert_eq!(lm.size(), 1);
    assert_eq!(lm.id(), cov_before as i32);
    assert_eq!(st.cov.nrows(), cov_before + 1);
    let p = point(lm.get_xyz(false));
    assert!((p.z - 3.0).abs() < 0.1, "p = {p}");
    let b = lm.uv_norm_zero;
    assert!(Vector3::new(f(b[0]), f(b[1]), f(b[2])).norm() > 0.5);
}

/// Updates the state with measurements of its feature.
fn slam_update(
    st: &mut State,
    poses: &mut Estimates,
    updater: &UpdaterSlam,
    stamps: &[f64],
    uvs: &[Vector2<f64>],
) -> Vec<Feature> {
    let mut feats = vec![placed(&feature(1, stamps), &Vector3::zeros(), uvs)];
    updater
        .update(
            st,
            poses,
            &mut feats,
            &project,
            &project_slope,
            &angles(),
            &cancel,
            &rotate,
            &distance,
            &wide,
            &cholesky,
            &turn,
            &plus,
            &times,
            &divide,
        )
        .unwrap();
    feats
}

#[test]
fn slam_update_single_inverse_depth_keeps_landmark() {
    let mut st = scene(2);
    let mut poses = scene_poses(&st);
    let stamps = [1.0, 2.0];
    let mut feats = vec![feature(1, &stamps)];
    let uvs = seen(&truth(), &stamps);
    let updater =
        delayed(&mut st, &mut poses, &mut feats, FeatRepresentation::AnchoredInverseDepthSingle, &uvs, &stamps);
    assert!(find_landmark(&st, 1).is_some());
    let cov_init = st.cov.nrows();
    let p = truth();
    // A single measurement has too few rows to eliminate the bearing and say more,
    // so the feature stays as it is.
    let uv2 = seen(&p, &[2.0]);
    let left = slam_update(&mut st, &mut poses, &updater, &[2.0], &uv2);
    assert!(left.iter().all(|x| x.to_delete));
    assert!(find_landmark(&st, 1).is_some());
    assert_eq!(st.cov.nrows(), cov_init);
}

#[test]
fn delayed_init_rejects_degenerate() {
    let mut st = scene(2);
    let mut poses = scene_poses(&st);
    let stamps = [1.0, 2.0];
    let mut feats = vec![feature(1, &stamps)];
    let uvs = vec![Vector2::new(f64::from(0.1f32), f64::from(0.04f32)); 2];
    delayed(&mut st, &mut poses, &mut feats, FeatRepresentation::Global3D, &uvs, &stamps);
    assert!(feats.is_empty());
    assert!(st.features_slam.is_empty());
    assert_eq!(st.cov.nrows(), 27);
}

#[test]
fn slam_update_keeps_landmark_consistent() {
    let mut st = scene(2);
    let mut poses = scene_poses(&st);
    let stamps = [1.0, 2.0];
    let mut feats = vec![feature(1, &stamps)];
    let uvs = seen(&truth(), &stamps);
    let updater = delayed(&mut st, &mut poses, &mut feats, FeatRepresentation::Global3D, &uvs, &stamps);
    let place = find_landmark(&st, 1).unwrap();
    let cov_init = st.cov.nrows();
    let p_init = point(st.features_slam[place].get_xyz(false));
    let uv2 = seen(&p_init, &[2.0]);
    let left = slam_update(&mut st, &mut poses, &updater, &[2.0], &uv2);
    assert_eq!(left.len(), 1);
    assert!(find_landmark(&st, 1).is_some());
    assert_eq!(st.cov.nrows(), cov_init);
    let p_after = point(st.features_slam[place].get_xyz(false));
    assert!((p_after - p_init).norm() < 0.1, "p_after = {p_after}");
}

#[test]
fn change_anchors_relocates_anchored_landmark() {
    let mut st = scene(3);
    let mut poses = scene_poses(&st);
    let stamps = [1.0, 2.0];
    st.options.max_clone_size = 2;
    let mut feats = vec![feature(1, &stamps)];
    let uvs = seen(&truth(), &stamps);
    let updater = delayed(&mut st, &mut poses, &mut feats, FeatRepresentation::AnchoredMsckfInverseDepth, &uvs, &stamps);
    let place = find_landmark(&st, 1).unwrap();
    let cov_before = from_lib(&st.cov);

    let at_first = Vector3::new(0.5, 0.2, 3.0);
    {
        let lm = &mut st.features_slam[place];
        lm.anchor_clone_timestamp = d(1.0);
        lm.set_from_xyz(&forms(&at_first), false);
        lm.set_from_xyz(&forms(&at_first), true);
    }

    let rep = st.features_slam[place].representation;
    let at_new = at_first - camera(d(3.0));
    let poses = scene_poses(&st);
    updater
        .change_anchors(&mut st, &poses, &try_inverse, &angles(), &plus, &times, &divide)
        .unwrap();
    let lm = &st.features_slam[place];
    assert!((f(lm.anchor_clone_timestamp) - 3.0).abs() < 1e-9);
    assert!(lm.has_had_anchor_change);
    assert_eq!(st.cov.nrows(), cov_before.nrows());
    let p = point(lm.get_xyz(false));
    assert!((p - Vector3::new(-0.5, 0.2, 3.0)).norm() < 0.1, "p = {p}");

    // The covariance is that of the whole transition, written out.
    let id = lm.id() as usize;
    let inv = by_parameters(&at_new, rep).try_inverse().unwrap();
    let mut whole = DMatrix::identity(cov_before.nrows(), cov_before.nrows());
    whole.view_mut((id, id), (3, 3)).copy_from(&(&inv * by_parameters(&at_first, rep)));
    whole.view_mut((id, 15), (3, 6)).copy_from(&(&inv * by_anchor(&at_first)));
    whole.view_mut((id, 27), (3, 6)).copy_from(&(-(&inv * by_anchor(&at_new))));
    let expected = &whole * &cov_before * whole.transpose();
    assert!((from_lib(&st.cov) - expected).norm() < 1e-9);
}

#[test]
fn change_anchors_skips_global_landmarks() {
    let mut st = scene(2);
    let mut poses = scene_poses(&st);
    st.options.max_clone_size = 2;
    let stamps = [1.0, 2.0];
    let mut feats = vec![feature(1, &stamps)];
    let uvs = seen(&truth(), &stamps);
    let updater = delayed(&mut st, &mut poses, &mut feats, FeatRepresentation::Global3D, &uvs, &stamps);
    assert!(find_landmark(&st, 1).is_some());
    st.options.max_clone_size = 1;
    let before = st.features_slam[0].clone();
    updater
        .change_anchors(&mut st, &poses, &try_inverse, &angles(), &plus, &times, &divide)
        .unwrap();
    assert_eq!(st.features_slam[0].value, before.value);
    assert!(!st.features_slam[0].has_had_anchor_change);
    assert_eq!(st.features_slam[0].representation, FeatRepresentation::Global3D);
}

#[test]
fn vio_manager_slam_options_flow_through() {
    let params = VioManagerOptions {
        slam_options: UpdaterOptions { sigma_pix: d(1.5), ..UpdaterOptions::default() },
        ..VioManagerOptions::default()
    };
    let mgr = VioManager::new(params);
    let slam = UpdaterSlam::new(
        mgr.params.slam_options,
        mgr.params.state_options.feat_rep_slam,
        mgr.params.slam_options.sigma_pix_sq,
    );
    assert!((f(slam.options.sigma_pix) - 1.5).abs() < 1e-12);
}

#[test]
fn anchored_msckf_inverse_depth_matches_global_3d_residual() {
    let st = scene(1);
    let mut feat = feature(1, &[1.0]);
    feat.anchor_cam_id = 0;
    feat.anchor_clone_timestamp = d(1.0);
    let uvs = vec![Vector2::new(f64::from(0.1f32), f64::from(0.04f32))];
    let p = Vector3::new(0.5, 0.2, 3.0);

    let (h_f, _, res_g, _) = jacobian(&st, &feat, FeatRepresentation::Global3D, &p, &uvs);
    assert_eq!(h_f.nrows(), 2);
    assert_eq!(h_f.ncols(), 3);

    let rep = FeatRepresentation::AnchoredMsckfInverseDepth;
    let (h_f, _, res_i, x_order) = jacobian(&st, &feat, rep, &p, &uvs);
    assert_eq!(h_f.nrows(), 2);
    assert_eq!(h_f.ncols(), 3);
    assert_eq!(res_g.len(), res_i.len());
    for k in 0..res_g.len() {
        assert!((f(res_g[k]) - f(res_i[k])).abs() < 1e-12);
    }
    assert!(x_order.iter().any(|(id, _)| *id == 15));
    let feat = placed(&feat, &p, &uvs);
    let (h_f, blocks) = get_feature_jacobian_representation(
        &st,
        feat.anchor_cam_id,
        feat.anchor_clone_timestamp,
        rep,
        &scene_poses(&st),
        &feat.p_fin_a,
        &angles(),
        &plus,
        &times,
        &divide,
    );
    assert_eq!((h_f.nrows(), h_f.ncols()), (3, 3));
    assert_eq!(blocks.len(), 1);
    assert_eq!((blocks[0].0, blocks[0].1), (15, 6));
    assert_eq!(find_clone(&st, d(1.0)), Some(0));
    assert_eq!(find_clone(&st, d(7.0)), None);
}

#[test]
fn residuals_change_with_the_feature_as_told() {
    let st = scene(2);
    let feat = feature(1, &[1.0, 2.0]);
    let p = truth();
    let uvs = seen(&p, &[1.0, 2.0]);
    let (h_f, _, res, _) = jacobian(&st, &feat, FeatRepresentation::Global3D, &p, &uvs);
    let eps = 1e-6;
    for k in 0..3 {
        let mut moved = p;
        moved[k] += eps;
        let (_, _, next, _) = jacobian(&st, &feat, FeatRepresentation::Global3D, &moved, &uvs);
        for i in 0..4 {
            let slope = (f(res[i]) - f(next[i])) / eps;
            assert!((slope - at(&h_f, i, k)).abs() < 1e-2, "{i} {k}");
        }
    }
}

#[test]
fn feature_that_disagrees_is_kept_out() {
    let mut st = scene(2);
    let before = from_lib(&st.cov);
    let mut lm = Landmark::new(FeatRepresentation::Global3D, 5);
    lm.set_from_xyz(&forms(&truth()), false);
    let stamps = [1.0, 2.0];
    let mut uvs = seen(&truth(), &stamps);
    uvs[1].y += 400.0;
    let (mut h_f, mut h_x, mut res, order) =
        jacobian(&st, &feature(5, &stamps), FeatRepresentation::Global3D, &truth(), &uvs);
    let noise = to_lib(&(DMatrix::identity(4, 4) * 9.0));
    let mut poses = scene_poses(&st);
    let done = initialize_feature(
        &mut st, &mut poses, lm, &order, &mut h_x, &mut h_f, &noise, &mut res, d(1.0), &cancel,
        &rotate, &distance, &wide, &try_inverse, &cholesky, &turn, &plus, &times,
    );
    assert!(matches!(done, Ok(Joined::Refused)));
    assert_eq!(from_lib(&st.cov), before);
    assert!(st.features_slam.is_empty());
}

#[test]
fn feature_that_nothing_fixes_has_no_place() {
    let mut st = scene(2);
    let lm = Landmark::new(FeatRepresentation::Global3D, 6);
    let mut h_f = to_lib(&DMatrix::zeros(4, 3));
    let mut h_x = to_lib(&DMatrix::zeros(4, 6));
    let mut res = list(&[0.0; 4]);
    let noise = to_lib(&DMatrix::identity(4, 4));
    let order = vec![(15i32, 6usize)];
    let mut poses = scene_poses(&st);
    let done = initialize_feature(
        &mut st, &mut poses, lm, &order, &mut h_x, &mut h_f, &noise, &mut res, d(1.0), &cancel,
        &rotate, &distance, &wide, &try_inverse, &cholesky, &turn, &plus, &times,
    );
    assert!(matches!(done, Err(FeatureFault::Unfixed)));
    assert_eq!(st.cov.nrows(), 27);
}

/// Lets the clones drift apart.
fn drift(st: &mut State) {
    for k in 15..st.cov.nrows() {
        let v = at(&st.cov, k, k);
        st.cov.set(k, k, d(v + 1e-3 * (k as f64)));
    }
}

/// The covariance after an update with what the measurements of a feature at its
/// true place say beyond it, and how many rows they have.
fn entered_by_hand(st: &State, stamps: &[f64], uvs: &[Vector2<f64>]) -> (DMatrix<f64>, usize) {
    let (h_f, h_x, res, order) =
        jacobian(st, &feature(1, stamps), FeatRepresentation::Global3D, &truth(), uvs);
    let (hf, hx) = (from_lib(&h_f), from_lib(&h_x));
    // The rows that do not depend on the feature: a basis of the left null space.
    let svd = hf.clone().svd(true, true);
    let u = svd.u.unwrap();
    let rest = DMatrix::identity(4, 4) - &u * u.transpose();
    let mut left = DVector::zeros(4);
    for k in 0..4 {
        if rest.column(k).norm() > left.norm() {
            left = rest.column(k).into_owned();
        }
    }
    let row = left.normalize().transpose() * &hx;
    let n = st.cov.nrows();
    let mut h = DMatrix::zeros(1, n);
    let mut col = 0;
    for (id, size) in order {
        for k in 0..size {
            h[(0, id as usize + k)] = row[(0, col + k)];
        }
        col += size;
    }
    let p = from_lib(&st.cov);
    let s = (&h * &p * h.transpose())[(0, 0)] + 9.0;
    let k = &p * h.transpose() / s;
    (&p - &k * &h * &p, res.len())
}

#[test]
fn entering_updates_the_state_with_the_rows_left_over() {
    let mut st = scene(2);
    drift(&mut st);
    let mut poses = scene_poses(&st);
    let stamps = [1.0, 2.0];
    let mut feats = vec![feature(1, &stamps)];
    let uvs = seen(&truth(), &stamps);
    let (expected, rows) = entered_by_hand(&st, &stamps, &uvs);
    assert_eq!(rows, 4);
    let before = from_lib(&st.cov);
    delayed(&mut st, &mut poses, &mut feats, FeatRepresentation::Global3D, &uvs, &stamps);
    let after = from_lib(&st.cov);
    assert_eq!(after.nrows(), 30);
    let old = after.view((0, 0), (27, 27)).into_owned();
    assert!((&old - &before).norm() > 1e-9);
    assert!((&old - &expected).norm() < 1e-3 * (&before - &expected).norm());
    assert_eq!(after, after.transpose());
}

#[test]
fn entering_with_no_rows_left_keeps_the_state() {
    let mut st = scene(2);
    let mut poses = scene_poses(&st);
    let before = from_lib(&st.cov);
    let lm = Landmark::new(FeatRepresentation::Global3D, 8);
    let mut h_l = to_lib(&(DMatrix::identity(3, 3) * 2.0));
    let mut h_r = to_lib(&DMatrix::zeros(3, 6));
    let mut res = list(&[2.0, 4.0, 6.0]);
    let r = to_lib(&DMatrix::identity(3, 3));
    let done = initialize_feature(
        &mut st, &mut poses, lm, &vec![(15, 6)], &mut h_r, &mut h_l, &r, &mut res, d(1.0), &cancel,
        &rotate, &distance, &wide, &try_inverse, &cholesky, &turn, &plus, &times,
    );
    assert!(matches!(done, Ok(Joined::Entered)));
    let after = from_lib(&st.cov);
    assert_eq!(after.view((0, 0), (27, 27)).into_owned(), before);
    assert_eq!(at(&st.cov, 28, 28), 0.25);
    assert_eq!(st.features_slam[0].value, list(&[1.0, 2.0, 3.0]));
}

#[test]
fn three_failures_send_a_feature_off() {
    let mut st = scene(2);
    let mut poses = scene_poses(&st);
    let stamps = [1.0, 2.0];
    let mut feats = vec![feature(1, &stamps)];
    let uvs = seen(&truth(), &stamps);
    let updater = delayed(&mut st, &mut poses, &mut feats, FeatRepresentation::Global3D, &uvs, &stamps);
    let far = vec![seen(&truth(), &[2.0])[0] + Vector2::new(3000.0, 0.0)];
    for k in 1..=3usize {
        let left = slam_update(&mut st, &mut poses, &updater, &[2.0], &far);
        assert!(left.is_empty());
        assert_eq!(st.features_slam[0].update_fail_count, k);
        assert_eq!(st.features_slam[0].should_marg, k >= 3, "after {k}");
    }
}

#[test]
fn systems_are_stacked_and_gated() {
    let good = FeatureSystem {
        h_x: to_lib(&DMatrix::from_row_slice(1, 3, &[1.0, 2.0, 3.0])),
        res: list(&[0.5]),
        x_order: vec![(15, 3)],
        chi2: d(1.0),
        threshold: d(2.0),
    };
    let bad = FeatureSystem {
        h_x: to_lib(&DMatrix::from_row_slice(1, 3, &[9.0, 9.0, 9.0])),
        res: list(&[8.0]),
        x_order: vec![(18, 3)],
        chi2: d(3.0),
        threshold: d(2.0),
    };
    let more = FeatureSystem {
        h_x: to_lib(&DMatrix::from_row_slice(1, 6, &[4.0, 5.0, 6.0, 7.0, 8.0, 9.0])),
        res: list(&[0.25]),
        x_order: vec![(21, 3), (15, 3)],
        chi2: d(2.0),
        threshold: d(2.0),
    };
    let mut feats = vec![feature(1, &[1.0]), feature(2, &[1.0]), feature(3, &[1.0])];
    let stack = stack_systems(&mut feats, &vec![good, bad, more]).unwrap();
    assert_eq!(feats.iter().map(|x| x.to_delete).collect::<Vec<_>>(), vec![false, true, false]);
    assert_eq!(stack.order, vec![(15, 3), (21, 3)]);
    assert_eq!(
        from_lib(&stack.h),
        DMatrix::from_row_slice(
            2,
            6,
            &[1.0, 2.0, 3.0, 0.0, 0.0, 0.0, 7.0, 8.0, 9.0, 4.0, 5.0, 6.0],
        )
    );
    assert_eq!(stack.res, list(&[0.5, 0.25]));
}

#[test]
fn window_update_uses_what_is_found_and_agrees() {
    let mut st = scene(3);
    drift(&mut st);
    let mut poses = scene_poses(&st);
    let u = UpdaterMsckf::new(UpdaterOptions::default(), d(1.0));
    let stamps = [1.0, 2.0, 3.0];
    let seen_at = |id: usize, stamps: &[f64], off: f64| {
        let mut uvs = seen(&truth(), stamps);
        uvs.last_mut().unwrap().y += off;
        placed(&feature(id, stamps), &truth(), &uvs)
    };
    let mut feats = vec![
        seen_at(1, &[1.0], 0.0),
        seen_at(2, &stamps, 0.5),
        seen_at(3, &stamps, 0.0),
        seen_at(4, &[1.0, 7.0], 0.0),
        seen_at(5, &stamps, 5000.0),
    ];
    let locate = |x: &Feature| {
        assert!(x.tracks[0].timestamps.len() >= 2);
        let p = truth();
        let at = [d(p.x), d(p.y), d(p.z)];
        let spot = Spot {
            anchor_cam_id: 0,
            anchor_clone_timestamp: d(1.0),
            p_fin_a: at,
            p_fin_g: at,
        };
        if x.featid == 3 { None } else { Some(spot) }
    };
    let before = from_lib(&st.cov);
    let run = |st: &mut State, poses: &mut Estimates, feats: &mut Vec<Feature>| {
        u.update(
            st, poses, feats, &locate, &project, &project_slope, &angles(), &cancel, &rotate,
            &distance, &wide, &cholesky, &turn, &plus, &times, &divide,
        )
    };
    let dx = run(&mut st, &mut poses, &mut feats).unwrap().unwrap();
    assert_eq!(dx.len(), st.cov.nrows());
    assert_eq!(feats.iter().map(|x| (x.featid, x.to_delete)).collect::<Vec<_>>(), vec![(2, false), (5, true)]);
    let after = from_lib(&st.cov);
    assert_eq!(after, after.transpose());
    assert!(after.trace() < before.trace());
    // The clones moved by their parts of the increment.
    let id = st.clones_imu[1].1.id() as usize;
    for k in 0..3 {
        let off = f(poses.clones[1].0.pos[k]) - f(poses.clones[1].1.pos[k]);
        assert!((off - f(dx[id + 3 + k])).abs() < 1e-12);
    }
    let mut none: Vec<Feature> = Vec::new();
    assert!(run(&mut st, &mut poses, &mut none).unwrap().is_none());
}

#[test]
fn flagged_items_are_kept_in_order() {
    let mut v = vec![1, 2, 3, 4];
    retain_flagged(&mut v, &vec![true, false, false, true]);
    assert_eq!(v, vec![1, 4]);
    let batches = slam_batches(vec![feature(1, &[]), feature(2, &[]), feature(3, &[])], 2);
    assert_eq!(batches.iter().map(Vec::len).collect::<Vec<_>>(), vec![2, 1]);
}

fn root(a: Double) -> Double {
    d(f(a).sqrt())
}

const EYE: [f64; 9] = [1.0, 0.0, 0.0, 0.0, 1.0, 0.0, 0.0, 0.0, 1.0];

fn calibration() -> ImuCalibration {
    ImuCalibration {
        bias_g: [d(0.0); 3],
        bias_a: [d(0.0); 3],
        r_gyro_to_imu: EYE.map(d),
        r_acc_to_imu: EYE.map(d),
        dw: EYE.map(d),
        da: EYE.map(d),
        tg: [d(0.0); 9],
    }
}

fn at_rest() -> InertialState {
    InertialState {
        rot: EYE.map(d),
        vel: [d(0.0); 3],
        gravity: [d(0.0), d(0.0), d(9.81)],
        sigma_w: d(1.6968e-04),
        sigma_a: d(2.0e-3),
    }
}

#[test]
fn readings_are_corrected() {
    let mut c = calibration();
    c.bias_a = [d(0.5), d(0.0), d(-1.0)];
    c.bias_g = [d(0.25), d(0.0), d(0.0)];
    c.da[0] = d(2.0);
    c.dw[4] = d(4.0);
    c.tg[1] = d(0.125);
    c.r_gyro_to_imu = [0.0, 1.0, 0.0, 1.0, 0.0, 0.0, 0.0, 0.0, 1.0].map(d);
    let r = ImuReading {
        timestamp: d(0.0),
        wm: [d(1.0), d(2.0), d(3.0)],
        am: [d(1.0), d(2.0), d(3.0)],
    };
    let (w, a) = correct(&c, &r, &plus, &times);
    assert_eq!(a.map(f), [1.0, 2.0, 4.0]);
    assert_eq!(w.map(f), [8.0, 0.5, 3.0]);
}

#[test]
fn still_readings_say_what_their_weights_are() {
    let r = |t: f64| ImuReading {
        timestamp: d(t),
        wm: [d(1.0), d(0.0), d(0.0)],
        am: [d(0.0), d(3.0), d(2.0)],
    };
    let moving = InertialState {
        sigma_w: d(0.5),
        sigma_a: d(0.25),
        gravity: [d(0.0), d(0.0), d(1.0)],
        vel: [d(2.0), d(0.0), d(0.0)],
        ..at_rest()
    };
    let data = vec![r(0.0), r(0.25), r(0.5)];
    let s = still_system(&data, &calibration(), &moving, false, &root, &plus, &times, &divide);
    assert_eq!((s.h.nrows(), s.h.ncols()), (12, 9));
    assert_eq!(f(s.dt_summed), 0.5);
    let res: Vec<f64> = s.res.iter().map(|x| f(*x)).collect();
    for half in res.chunks(6) {
        assert_eq!(half, [-1.0, 0.0, 0.0, 0.0, -6.0, -2.0]);
    }
    assert_eq!([at(&s.h, 6, 3), at(&s.h, 7, 4), at(&s.h, 9, 6)], [-1.0, -1.0, -2.0]);
    assert_eq!([at(&s.h, 3, 1), at(&s.h, 4, 0)], [2.0, -2.0]);

    let s = still_system(&data, &calibration(), &moving, true, &root, &plus, &times, &divide);
    assert_eq!((s.h.nrows(), s.h.ncols()), (12, 12));
    let res: Vec<f64> = s.res.iter().map(|x| f(*x)).collect();
    for half in res.chunks(6) {
        assert_eq!(half, [-1.0, 0.0, 0.0, -16.0, -6.0, -2.0]);
    }
    assert_eq!([at(&s.h, 9, 9), at(&s.h, 9, 6), at(&s.h, 9, 1)], [8.0, -2.0, 4.0]);
}

#[test]
fn biases_wander_apart_from_the_rest() {
    let q = bias_wander(d(2.0), d(3.0), d(5.0), &plus, &times);
    let diagonal: Vec<f64> = (0..6).map(|i| at(&q, i, i)).collect();
    assert_eq!(diagonal, vec![6.0, 6.0, 6.0, 10.0, 10.0, 10.0]);
    assert_eq!(at(&q, 0, 3), 0.0);
    let p = to_lib(&DMatrix::identity(9, 9));
    let mut h = DMatrix::zeros(2, 9);
    h[(0, 0)] = 2.0;
    h[(1, 3)] = 1.0;
    h[(1, 8)] = 1.0;
    let s = still_innovation(
        &p, &q, &to_lib(&h), &to_lib(&DMatrix::identity(2, 2)), &plus, &times,
    );
    assert_eq!(from_lib(&s), DMatrix::from_row_slice(2, 2, &[5.0, 0.0, 0.0, 19.0]));
}

fn readings(w: Vector3<f64>, a: Vector3<f64>) -> Vec<ImuReading> {
    let lib = |v: Vector3<f64>| [d(v.x), d(v.y), d(v.z)];
    let at = |i: i32| d(1.0 + 0.02 * f64::from(i));
    (0..11).map(|i| ImuReading { timestamp: at(i), wm: lib(w), am: lib(a) }).collect()
}

fn zupt(integrated: bool) -> UpdaterZeroVelocity {
    UpdaterZeroVelocity::new(UpdaterOptions::default(), d(1.0), d(1.0), d(1.0), integrated)
}

fn number(n: usize) -> Double {
    d(n as f64)
}

fn apart(a: [Double; 2], b: [Double; 2]) -> Double {
    d((f(a[0]) - f(b[0])).hypot(f(a[1]) - f(b[1])))
}

fn attempt(
    u: &mut UpdaterZeroVelocity,
    st: &mut State,
    poses: &mut Estimates,
    data: &Vec<ImuReading>,
    feats: &Vec<Feature>,
) -> (ZuptVerdict, Vec<Double>) {
    let noise = ImuNoise {
        sigma_w: at_rest().sigma_w,
        sigma_a: at_rest().sigma_a,
        sigma_wb_2: d(1.9393e-05 * 1.9393e-05),
        sigma_ab_2: d(3.0e-3 * 3.0e-3),
    };
    let select = |_: Double| Some(data.clone());
    let length = |v: [Double; 3]| d(Vector3::new(f(v[0]), f(v[1]), f(v[2])).norm());
    u.try_update(
        st, poses, d(1.2), data.len(), &noise, feats, &select, &cancel, &rotate, &distance, &wide,
        &length, &apart, &number, &root, &cholesky, &turn, &plus, &times, &divide,
    )
    .unwrap()
}

fn try_zupt(u: &mut UpdaterZeroVelocity, st: &mut State, data: &Vec<ImuReading>) -> bool {
    let mut poses = scene_poses(st);
    let (verdict, _) = attempt(u, st, &mut poses, data, &Vec::new());
    matches!(verdict, ZuptVerdict::Accepted(_))
}

#[test]
fn zupt_accepts_zero_motion() {
    let mut st = scene(1);
    let mut u = zupt(false);
    let data = readings(Vector3::zeros(), Vector3::new(0.0, 0.0, 9.81));
    assert!(try_zupt(&mut u, &mut st, &data));
    assert!((f(st.timestamp) - 1.2).abs() < 1e-12);
    assert_eq!(u.last_zupt_count, 1);
}

#[test]
fn zupt_integrated_accel_accepts_zero_motion() {
    let mut st = scene(1);
    let mut u = zupt(true);
    let data = readings(Vector3::zeros(), Vector3::new(0.0, 0.0, 9.81));
    assert!(try_zupt(&mut u, &mut st, &data));
}

#[test]
fn zupt_rejects_moving() {
    let mut st = State::new(StateOptions::default());
    st.timestamp = d(1.0);
    let mut u = zupt(false);
    let data = readings(Vector3::new(1.0, 2.0, 3.0), Vector3::zeros());
    assert!(!try_zupt(&mut u, &mut st, &data));
}

#[test]
fn standstill_updates_the_filter_without_a_clone() {
    let mut st = scene(1);
    let mut poses = scene_poses(&st);
    let mut u = zupt(false);
    let before = from_lib(&st.cov);
    let data = readings(Vector3::zeros(), Vector3::new(0.0, 0.0, 9.81));
    let (verdict, dx) = attempt(&mut u, &mut st, &mut poses, &data, &Vec::new());
    assert_eq!(verdict, ZuptVerdict::Accepted(None));
    assert_eq!(dx.len(), 21);
    // The estimates move by the increment.
    assert_eq!(poses.inertial.bias_a[0], plus(d(0.0), dx[12]));
    assert_eq!(poses.inertial.vel[2], plus(d(0.0), dx[8]));
    assert_eq!(st.timestamp, d(1.2));
    assert_eq!(st.clones_imu.len(), 1);
    let after = from_lib(&st.cov);
    assert_eq!(after.nrows(), before.nrows());
    assert!(after[(9, 9)] < before[(9, 9)]);
    assert_eq!(u.last_zupt_state_timestamp, d(1.2));
    // The same time again: nothing to do.
    let (verdict, dx) = attempt(&mut u, &mut st, &mut poses, &data, &Vec::new());
    assert_eq!(verdict, ZuptVerdict::Empty);
    assert!(dx.is_empty());
    assert_eq!(from_lib(&st.cov), after);
}

#[test]
fn still_images_overrule_moving_readings() {
    let data = readings(Vector3::new(1.0, 2.0, 3.0), Vector3::zeros());
    let mut seen_twice = feature(1, &[1.0, 1.2]);
    seen_twice.tracks[0].uvs = vec![[d(10.0), d(10.0)], [d(10.3), d(10.4)]];
    let feats: Vec<Feature> = (0..21).map(|_| seen_twice.clone()).collect();
    let (mut st, mut u) = (scene(1), zupt(false));
    let mut poses = scene_poses(&st);
    let few = feats[..20].to_vec();
    let (verdict, _) = attempt(&mut u, &mut st, &mut poses, &data, &few);
    assert_eq!(verdict, ZuptVerdict::Rejected);
    assert_eq!(st.timestamp, d(1.0));
    let (verdict, _) = attempt(&mut u, &mut st, &mut poses, &data, &feats);
    assert!(matches!(verdict, ZuptVerdict::Accepted(_)));
}

#[test]
fn zupt_needs_readings_and_time() {
    let mut st = scene(1);
    let mut u = zupt(false);
    assert!(u.begin(&st, d(1.2), 0, d(0.0)).is_none());
    assert!(u.begin(&st, st.timestamp, 5, d(0.0)).is_none());
    assert_eq!(u.begin(&st, d(1.2), 5, d(0.25)), Some(d(0.25)));
    assert!(u.readings_selected(&st, None, d(0.0)).is_none());
    assert!(u.readings_selected(&st, Some(1), d(0.0)).is_none());
    let layout = u.readings_selected(&st, Some(3), d(0.0)).unwrap();
    assert_eq!(layout.order, vec![(0, 3), (9, 3), (12, 3)]);
    assert_eq!((layout.rows, layout.cols), (12, 9));
    assert!(matches!(u.judge(0, d(0.0), d(1.0), None, d(0.0)), ZuptVerdict::Empty));
    st.timestamp = d(2.0);
}

#[test]
fn still_image_overrules() {
    let mut u = zupt(false);
    let still = Some((d(0.5), 21));
    assert!(matches!(u.judge(9, d(99.0), d(1.0), still, d(50.0)), ZuptVerdict::Accepted(_)));
    let few = Some((d(0.5), 20));
    assert!(matches!(u.judge(9, d(99.0), d(1.0), few, d(0.0)), ZuptVerdict::Rejected));
    let fast = Some((d(1.0), 21));
    assert!(matches!(u.judge(9, d(0.0), d(1.0), fast, d(1.5)), ZuptVerdict::Rejected));
}

#[test]
fn disparity_pairs_common_measurements() {
    let feats = vec![feature(1, &[1.0, 2.0]), feature(2, &[2.0]), feature(3, &[0.0, 1.0, 2.0])];
    let pairs = disparity_pairs(&feats, d(1.0), d(2.0)).unwrap();
    assert_eq!(pairs.len(), 2);
    assert_eq!((pairs[1].feature, pairs[1].first, pairs[1].second), (2, 1, 2));
    assert!(disparity_pairs(&feats, d(1.0), d(9.0)).is_none());
    let mut feats = feats;
    feats[0].tracks[0].uvs = vec![[d(0.0), d(0.0)], [d(3.0), d(4.0)]];
    feats[2].tracks[0].uvs[2] = [d(1.0), d(0.0)];
    let told = |t1: f64| {
        compute_disparity(&feats, d(1.0), d(t1), &apart, &number, &plus, &times, &divide)
    };
    assert_eq!(told(2.0), Some((d(3.0), d(4.0), 2)));
    assert_eq!(told(9.0), None);
}

fn inertial(pos: [f64; 3], vel: [f64; 3], bias_g: [f64; 3]) -> InertialValues {
    InertialValues {
        pose: upright(&Vector3::from(pos)),
        vel: vel.map(d),
        bias_g: bias_g.map(d),
        bias_a: [d(0.0); 3],
    }
}

#[test]
fn gt_initialization_sets_state() {
    let mut mgr = VioManager::new(VioManagerOptions::default());
    let given = inertial([1.0, 2.0, 3.0], [0.1, 0.0, 0.0], [0.01, 0.0, 0.0]);
    mgr.initialize_with_gt(d(10.0), given, &times);
    assert!(mgr.is_initialized_vio);
    assert!(!mgr.initialized());
    assert_eq!(mgr.values.inertial_first.vel.map(f), [0.1, 0.0, 0.0]);
    assert!((f(mgr.state.timestamp) - 10.0).abs() < 1e-12);
    assert_eq!(mgr.values.inertial.pose.pos.map(f), [1.0, 2.0, 3.0]);
    assert_eq!(mgr.values.inertial.vel.map(f), [0.1, 0.0, 0.0]);
    assert_eq!(mgr.values.inertial.bias_g.map(f), [0.01, 0.0, 0.0]);
    assert!((at(&mgr.state.cov, 0, 0) - 0.017 * 0.017).abs() < 1e-12);
    assert!((at(&mgr.state.cov, 3, 3) - 0.05 * 0.05).abs() < 1e-12);
    assert!((at(&mgr.state.cov, 6, 6) - 0.01 * 0.01).abs() < 1e-12);
    assert!((at(&mgr.state.cov, 14, 14) - 0.02 * 0.02).abs() < 1e-12);
    assert_eq!(at(&mgr.state.cov, 0, 1), 0.0);
    // The biases are as uncertain as the options say.
    let params = VioManagerOptions { init_bias_sigma: d(0.5), ..VioManagerOptions::default() };
    let mut mgr = VioManager::new(params);
    mgr.initialize_with_gt(d(10.0), given, &times);
    assert_eq!((at(&mgr.state.cov, 9, 9), at(&mgr.state.cov, 14, 14)), (0.25, 0.25));
}

#[test]
fn imu_feed_buffers() {
    let mgr = VioManager::new(VioManagerOptions::default());
    let mut buffer: Vec<f64> = Vec::new();
    for t in 0..10 {
        let now = f64::from(t);
        buffer.push(now);
        let oldest = f(mgr.feed_measurement_imu(d(now - 2.1)));
        buffer.retain(|x| *x >= oldest);
    }
    let n = buffer.len();
    assert!((2..=10).contains(&n), "{n}");
}

/// Moves upright under gravity and the measured acceleration.
fn fall(
    c: ImuCalibration,
    a: ImuReading,
    b: ImuReading,
    now: InertialValues,
    _: InertialValues,
) -> Prediction {
    let dt = f(b.timestamp) - f(a.timestamp);
    let (mut pose, mut vel) = (now.pose, now.vel);
    for k in 0..3 {
        let g = if k == 2 { 9.81 } else { 0.0 };
        let acc = f(a.am[k]) - f(c.bias_a[k]) - g;
        pose.pos[k] = d(f(pose.pos[k]) + f(vel[k]) * dt + 0.5 * acc * dt * dt);
        vel[k] = d(f(vel[k]) + acc * dt);
    }
    let mut phi = DMatrix::identity(15, 15);
    for k in 0..3 {
        phi[(3 + k, 6 + k)] = dt;
    }
    let qd = to_lib(&(DMatrix::identity(15, 15) * 1e-9));
    Prediction { pose, vel, step: Transition { f: to_lib(&phi), qd } }
}

#[test]
fn propagate_and_clone_with_zero_imu() {
    let mut mgr = VioManager::new(VioManagerOptions::default());
    mgr.state.timestamp = d(0.0);
    let span = mgr.reading_span(d(0.5), &plus);
    assert_eq!((f(span.0), f(span.1)), (0.0, 0.5));
    let still = |t: f64| ImuReading { timestamp: d(t), wm: [d(0.0); 3], am: [d(0.0); 3] };
    let readings: Vec<ImuReading> = (0..11).map(|t| still(0.05 * f64::from(t))).collect();
    let moved = mgr.propagate_impl(d(0.5), Some(readings), true, &fall, &plus, &times);
    assert_eq!(moved, Ok(true));
    assert!((f(mgr.state.timestamp) - 0.5).abs() < 1e-12);
    assert_eq!(mgr.state.clones_imu.len(), 1);
    assert_eq!(mgr.state.cov.nrows(), 21);
    let at_end = mgr.values.inertial;
    assert!((f(at_end.pose.pos[2]) - (-1.22625)).abs() < 1e-6);
    assert!((f(at_end.vel[2]) - (-4.905)).abs() < 1e-6);
    assert_eq!(at_end.pose.rot.map(f), EYE);
    // The first estimate follows, and the clone has both.
    assert_eq!(mgr.values.inertial_first.pose.pos, at_end.pose.pos);
    assert_eq!(mgr.values.clones[0].0.pos, at_end.pose.pos);
    assert_eq!(mgr.values.clones[0].1.pos, at_end.pose.pos);
    // Position variance: 1e-6 (1 + 0.25) from position and velocity, and noise.
    assert!((at(&mgr.state.cov, 3, 3) - 1.25e-6).abs() < 2e-8);
    assert_eq!(at(&mgr.state.cov, 18, 18), at(&mgr.state.cov, 3, 3));

    // Without enough readings nothing happens.
    let moved = mgr.propagate_impl(d(0.6), None, true, &fall, &plus, &times);
    assert_eq!(moved, Ok(false));
    assert_eq!(mgr.state.clones_imu.len(), 1);
    assert_eq!(mgr.values.inertial.pose.pos, at_end.pose.pos);
    // Nor does a clone join where none is asked for.
    let moved = mgr.propagate_impl(d(0.6), Some(vec![still(0.5), still(0.6)]), false, &fall, &plus, &times);
    assert_eq!((moved, mgr.values.clones.len()), (Ok(true), 1));
    assert!(f(mgr.values.inertial.pose.pos[2]) < f(at_end.pose.pos[2]));
}

#[test]
fn start_takes_covariance_time_and_motion() {
    let params = VioManagerOptions {
        zupt_options: ZuptOptions { zupt_max_velocity: d(0.5), ..ZuptOptions::default() },
        ..VioManagerOptions::default()
    };
    let length = |v: [Double; 3]| d(Vector3::new(f(v[0]), f(v[1]), f(v[2])).norm());
    let mut mgr = VioManager::new(params);
    assert!(!mgr.try_to_initialize(None, &length, &plus, &times));
    assert!(!mgr.is_initialized_vio);
    let result = InitResult {
        covariance: to_lib(&(DMatrix::identity(15, 15) * 0.04)),
        order: vec![(0, 15)],
        timestamp: d(3.0),
        inertial: inertial([1.0, 0.0, 0.0], [0.0, 0.75, 0.0], [0.1, 0.2, 0.3]),
    };
    assert!(mgr.try_to_initialize(Some(result), &length, &plus, &times));
    assert!(mgr.has_moved_since_zero_vel);
    assert_eq!(f(mgr.startup_time), 3.0);
    assert_eq!(at(&mgr.state.cov, 7, 7), 0.04);
    assert_eq!(mgr.values.inertial.pose.pos.map(f), [1.0, 0.0, 0.0]);
    assert_eq!(mgr.values.inertial.bias_g.map(f), [0.1, 0.2, 0.3]);
    assert_eq!(mgr.values.inertial_first.vel.map(f), [0.0, 0.75, 0.0]);
}

#[test]
fn camera_steps_follow_each_other() {
    let mut mgr = VioManager::new(VioManagerOptions::default());
    assert_eq!(mgr.feed_measurement_camera(d(1.0)), CameraStep::Initialize);
    assert_eq!(next_step(CameraStep::Initialize, false), None);
    assert_eq!(next_step(CameraStep::Initialize, true), Some(CameraStep::Update));
    assert_eq!(next_step(CameraStep::TryZeroVelocity, true), None);
    assert_eq!(next_step(CameraStep::TryZeroVelocity, false), Some(CameraStep::Update));
    mgr.initialize_with_gt(d(1.0), inertial([0.0; 3], [0.0; 3], [0.0; 3]), &times);
    assert_eq!(mgr.feed_measurement_camera(d(1.5)), CameraStep::Update);
    assert_eq!(mgr.begin_update(d(0.5)), UpdateStart::OutOfOrder);
    assert_eq!(mgr.begin_update(d(1.0)), UpdateStart::Ready);
    assert_eq!(mgr.begin_update(d(1.5)), UpdateStart::Propagate);
    assert!(!mgr.confirm_update(d(1.0)));
    assert_eq!(mgr.marginal_time(), None);
    assert_eq!(mgr.cleanup_time(), None);
    assert_eq!(mgr.propagation_order(), vec![(0, 15)]);
    assert_eq!(mgr.features_per_camera(200), 200);
}

#[test]
fn selection_splits_features() {
    let mut params = VioManagerOptions::default();
    params.state_options.max_slam_features = 1;
    let mut mgr = VioManager::new(params);
    mgr.state.timestamp = d(5.0);
    mgr.startup_time = d(0.0);
    let lost = vec![feature(1, &[1.0, 2.0])];
    let marg = vec![feature(2, &[1.0, 2.0, 3.0])];
    let chosen = mgr.select_features(lost, marg, Vec::new(), &vec![0], d(5.0));
    let ids: Vec<usize> = chosen.msckf.iter().map(|x| x.featid).collect();
    assert_eq!(ids.len() + chosen.slam_delayed.len(), 2);
    assert!(chosen.slam_update.is_empty());
    assert!(chosen.slam_delayed.len() <= 1);
}

#[test]
fn image_updates_keep_bounds() {
    let mut params = VioManagerOptions::default();
    params.state_options.max_clone_size = 3;
    params.state_options.max_slam_features = 1;
    let mut mgr = VioManager::new(params);
    mgr.initialize_with_gt(d(0.0), inertial([0.0; 3], [0.0; 3], [0.0; 3]), &times);
    for t in 1..=6u8 {
        let now = f64::from(t);
        assert_eq!(mgr.begin_update(d(now)), UpdateStart::Propagate);
        let still = |t: f64| ImuReading { timestamp: d(t), wm: [d(0.0); 3], am: [d(0.0); 3] };
        let readings = Some(vec![still(now - 1.0), still(now)]);
        assert_eq!(mgr.propagate_impl(d(now), readings, true, &fall, &plus, &times), Ok(true));
        let went_on = mgr.confirm_update(d(now));
        assert_eq!(went_on, t >= 3);
        if went_on {
            let long: Vec<f64> = (0..5).map(|k| now - f64::from(k)).collect();
            let marg = vec![feature(10 + usize::from(t), &long), feature(50 + usize::from(t), &long)];
            let chosen = mgr.select_features(Vec::new(), marg, Vec::new(), &vec![0], d(now));
            assert!(chosen.slam_delayed.len() <= 1);
            marginalize_old_clone(&mut mgr.state, &mut mgr.values);
        }
        assert!(mgr.state.clones_imu.len() <= 3 && mgr.state.features_slam.len() <= 1);
        assert_eq!(mgr.values.clones.len(), mgr.state.clones_imu.len());
        assert_eq!(f(mgr.state.timestamp), now);
        // An image from before changes nothing.
        assert_eq!(mgr.begin_update(d(now - 0.5)), UpdateStart::OutOfOrder);
    }
}
