use firefly::double::Double;
use firefly::matrix::Matrix;
use firefly::vio::estimates::Estimates;
use firefly::vio::jacobian::{
    from_anchor, get_feature_jacobian_full, get_feature_jacobian_representation,
    measurement_entry, point_slopes, Angles, PlacedBlock, PoseValue, ReprJacobian,
    Vantage,
};
use firefly::vio::landmark::{Landmark, PointSource};
use firefly::vio::options::{FeatRepresentation, StateOptions};
use firefly::vio::reanchor::{
    camera_pose, coordinates_of, perform_anchor_change, see_from, write_point, AnchorFault,
};
use firefly::vio::state::State;
use firefly::vio::state_helper::augment_clone;
use firefly::vio::updater_helper::{CameraTrack, Feature, FeatureJacobian};
use nalgebra::{DMatrix, Matrix3, Rotation3, Vector2, Vector3};

fn d(x: f64) -> Double {
    Double::from_bits(x.to_bits())
}

fn f(x: Double) -> f64 {
    f64::from_bits(x.bits)
}

fn plus(a: Double, b: Double) -> Double {
    d(f(a) + f(b))
}

fn times(a: Double, b: Double) -> Double {
    d(f(a) * f(b))
}

fn divide(a: Double, b: Double) -> Double {
    d(f(a) / f(b))
}

fn lib3(v: &Vector3<f64>) -> [Double; 3] {
    [d(v.x), d(v.y), d(v.z)]
}

fn from_lib(m: &Matrix) -> DMatrix<f64> {
    DMatrix::from_fn(m.nrows(), m.ncols(), |i, j| f(m.get(i, j)))
}

type One = fn(Double) -> Double;
type Two = fn(Double, Double) -> Double;

fn angles() -> Angles<fn([Double; 3]) -> Double, Two, One, One, One> {
    Angles {
        length: |v| d(Vector3::new(f(v[0]), f(v[1]), f(v[2])).norm()),
        atan2: |y, x| d(f(y).atan2(f(x))),
        acos: |a| d(f(a).acos()),
        sin: |a| d(f(a).sin()),
        cos: |a| d(f(a).cos()),
    }
}

#[derive(Clone, Copy)]
struct Pose {
    rot: Matrix3<f64>,
    pos: Vector3<f64>,
}

impl Pose {
    fn new(turn: [f64; 3], pos: [f64; 3]) -> Self {
        Self {
            rot: Rotation3::new(Vector3::from(turn)).into_inner(),
            pos: Vector3::from(pos),
        }
    }

    /// The pose with a small error in one of its six directions.
    fn nudged(&self, k: usize, eps: f64) -> Self {
        let mut out = *self;
        if k < 3 {
            let mut turn = Vector3::zeros();
            turn[k] = -eps;
            out.rot = Rotation3::new(turn).into_inner() * self.rot;
        } else {
            out.pos[k - 3] += eps;
        }
        out
    }

    fn value(&self) -> PoseValue {
        let rot = [0, 1, 2, 3, 4, 5, 6, 7, 8].map(|k| d(self.rot[(k / 3, k % 3)]));
        PoseValue { rot, pos: lib3(&self.pos) }
    }
}

/// A camera with some distortion.
fn distort(_: usize, uv: [Double; 2]) -> [Double; 2] {
    let (u, v) = (f(uv[0]), f(uv[1]));
    [d(600.0 * u * (1.0 + 0.1 * u * u) + 320.0), d(500.0 * v * (1.0 + 0.2 * v * v) + 240.0)]
}

fn distort_slope(_: usize, uv: [Double; 2]) -> [Double; 4] {
    let (u, v) = (f(uv[0]), f(uv[1]));
    [d(600.0 * (1.0 + 0.3 * u * u)), d(0.0), d(0.0), d(500.0 * (1.0 + 0.6 * v * v))]
}

#[derive(Clone)]
struct Scene {
    clones: [Pose; 2],
    first: [Pose; 2],
    calib: Pose,
    p_a: Vector3<f64>,
    p_g: Vector3<f64>,
}

fn scene() -> Scene {
    let clones =
        [Pose::new([0.1, -0.2, 0.05], [0.1, 0.2, -0.3]), Pose::new([-0.1, 0.1, 0.2], [0.6, 0.1, 0.2])];
    let calib = Pose::new([0.05, 0.02, -0.1], [0.03, -0.02, 0.01]);
    let p_a = Vector3::new(0.4, -0.3, 3.0);
    let mut s = Scene { clones, first: clones, calib, p_a, p_g: Vector3::zeros() };
    s.p_g = s.world();
    s
}

impl Scene {
    /// The feature's point in the world, from the anchor in the first clone.
    fn world(&self) -> Vector3<f64> {
        let anchor = &self.clones[0];
        anchor.rot.transpose() * self.calib.rot.transpose() * (self.p_a - self.calib.pos)
            + anchor.pos
    }

    fn poses(&self) -> Estimates {
        let pair = |k: usize| (self.clones[k].value(), self.first[k].value());
        let plain = Estimates::new(&State::new(StateOptions::default()));
        Estimates { clones: vec![pair(0), pair(1)], calibs: vec![self.calib.value()], ..plain }
    }

    fn feature(&self) -> Feature {
        Feature { p_fin_a: lib3(&self.p_a), p_fin_g: lib3(&self.p_g), ..feature() }
    }

    fn jacobian(&self, st: &State, rep: FeatRepresentation) -> FeatureJacobian {
        get_feature_jacobian_full(
            st,
            &self.feature(),
            rep,
            &self.poses(),
            &distort,
            &distort_slope,
            &angles(),
            &plus,
            &times,
            &divide,
        )
    }

    fn representation(&self, st: &State, rep: FeatRepresentation) -> ReprJacobian {
        get_feature_jacobian_representation(
            st,
            0,
            d(1.0),
            rep,
            &self.poses(),
            &lib3(&self.p_a),
            &angles(),
            &plus,
            &times,
            &divide,
        )
    }

    /// The scene with one of the numbers that the feature is written down with
    /// changed.
    fn retold(&self, rep: FeatRepresentation, k: usize, eps: f64) -> Scene {
        let mut s = self.clone();
        let p = self.p_a;
        match rep {
            FeatRepresentation::Anchored3D => s.p_a[k] += eps,
            FeatRepresentation::AnchoredFullInverseDepth => {
                let rho = 1.0 / p.norm();
                let mut v = [p.y.atan2(p.x), (rho * p.z).acos(), rho];
                v[k] += eps;
                let (st, ct) = v[0].sin_cos();
                let (sp, cp) = v[1].sin_cos();
                s.p_a = Vector3::new(ct * sp, st * sp, cp) / v[2];
            }
            FeatRepresentation::AnchoredMsckfInverseDepth => {
                let mut v = [p.x / p.z, p.y / p.z, 1.0 / p.z];
                v[k] += eps;
                s.p_a = Vector3::new(v[0], v[1], 1.0) / v[2];
            }
            FeatRepresentation::AnchoredInverseDepthSingle => {
                s.p_a = (p / p.z) / (1.0 / p.z + eps);
            }
            _ => s.p_g[k] += eps,
        }
        s
    }
}

const ANCHORED: [FeatRepresentation; 4] = [
    FeatRepresentation::Anchored3D,
    FeatRepresentation::AnchoredFullInverseDepth,
    FeatRepresentation::AnchoredMsckfInverseDepth,
    FeatRepresentation::AnchoredInverseDepthSingle,
];

fn state(fej: bool, calibrate: bool) -> State {
    let mut st = State::new(StateOptions {
        do_fej: fej,
        do_calib_camera_pose: calibrate,
        ..StateOptions::default()
    });
    let mut values = Estimates::new(&st);
    for k in 1..=2 {
        st.timestamp = d(k as f64);
        augment_clone(&mut st, &mut values, &[d(0.0); 3], &plus, &times);
    }
    st
}

fn feature() -> Feature {
    Feature {
        featid: 7,
        to_delete: false,
        tracks: vec![CameraTrack {
            cam_id: 0,
            timestamps: vec![d(1.0), d(2.0)],
            uvs: vec![[d(400.0), d(200.0)], [d(350.0), d(210.0)]],
        }],
        anchor_cam_id: 0,
        anchor_clone_timestamp: d(1.0),
        p_fin_a: [d(0.0); 3],
        p_fin_g: [d(0.0); 3],
    }
}

const EPS: f64 = 1e-6;

/// How the prediction changes between two systems, for each step of a number.
fn slope(a: &FeatureJacobian, b: &FeatureJacobian, i: usize) -> f64 {
    (f(a.res[i]) - f(b.res[i])) / (2.0 * EPS)
}

#[test]
fn system_by_the_feature_matches_finite_differences() {
    let st = state(false, false);
    let s = scene();
    for rep in ANCHORED.into_iter().chain([FeatRepresentation::Global3D]) {
        let jac = s.jacobian(&st, rep);
        let cols = if rep == FeatRepresentation::AnchoredInverseDepthSingle { 1 } else { 3 };
        assert_eq!((jac.h_f.nrows(), jac.h_f.ncols()), (4, cols));
        for k in 0..cols {
            let low = s.retold(rep, k, -EPS).jacobian(&st, rep);
            let high = s.retold(rep, k, EPS).jacobian(&st, rep);
            for i in 0..4 {
                let h = f(jac.h_f.get(i, k));
                let n = slope(&low, &high, i);
                assert!((h - n).abs() < 1e-3 * (1.0 + h.abs()), "{rep:?} {i} {k}: {h} {n}");
            }
        }
    }
}

#[test]
fn system_by_the_clones_matches_finite_differences() {
    let st = state(false, false);
    let s = scene();
    for rep in ANCHORED.into_iter().chain([FeatRepresentation::Global3D]) {
        let jac = s.jacobian(&st, rep);
        assert_eq!(jac.x_order, vec![(15, 6), (21, 6)]);
        for c in 0..2 {
            for k in 0..6 {
                let (mut a, mut b) = (s.clone(), s.clone());
                a.clones[c] = s.clones[c].nudged(k, -EPS);
                b.clones[c] = s.clones[c].nudged(k, EPS);
                let (low, high) = (a.jacobian(&st, rep), b.jacobian(&st, rep));
                for i in 0..4 {
                    let h = f(jac.h_x.get(i, 6 * c + k));
                    let n = slope(&low, &high, i);
                    assert!((h - n).abs() < 1e-3 * (1.0 + h.abs()), "{rep:?} {c} {i} {k}: {h} {n}");
                }
            }
        }
    }
}

#[test]
fn system_by_the_camera_matches_finite_differences() {
    let st = state(false, true);
    let s = scene();
    for rep in ANCHORED.into_iter().chain([FeatRepresentation::Global3D]) {
        let jac = s.jacobian(&st, rep);
        let camera = (st.calib_imu_to_cam[0].id(), 6);
        let place = jac.x_order.iter().position(|r| *r == camera).unwrap();
        assert_eq!(jac.x_order.len(), 3);
        for k in 0..6 {
            let (mut a, mut b) = (s.clone(), s.clone());
            a.calib = s.calib.nudged(k, -EPS);
            b.calib = s.calib.nudged(k, EPS);
            let (low, high) = (a.jacobian(&st, rep), b.jacobian(&st, rep));
            for i in 0..4 {
                let h = f(jac.h_x.get(i, 6 * place + k));
                let n = slope(&low, &high, i);
                assert!((h - n).abs() < 1e-3 * (1.0 + h.abs()), "{rep:?} {i} {k}: {h} {n}");
            }
        }
    }
}

#[test]
fn residual_is_pixel_less_expected_pixel() {
    let st = state(false, false);
    let s = scene();
    let jac = s.jacobian(&st, FeatRepresentation::Anchored3D);
    for (k, uv) in [[400.0, 200.0], [350.0, 210.0]].iter().enumerate() {
        let p_i = s.clones[k].rot * (s.p_g - s.clones[k].pos);
        let p_c = s.calib.rot * p_i + s.calib.pos;
        let seen = distort(0, [d(p_c.x / p_c.z), d(p_c.y / p_c.z)]);
        let e = Vector2::new(uv[0] - f(seen[0]), uv[1] - f(seen[1]));
        assert!((f(jac.res[2 * k]) - e.x).abs() < 1e-9);
        assert!((f(jac.res[2 * k + 1]) - e.y).abs() < 1e-9);
    }
}

#[test]
fn first_estimates_keep_residuals() {
    let mut s = scene();
    let now = s.jacobian(&state(true, false), FeatRepresentation::Global3D);
    s.first = [s.clones[0].nudged(1, 0.05), s.clones[1].nudged(4, 0.1)];
    let then = s.jacobian(&state(true, false), FeatRepresentation::Global3D);
    assert_eq!(now.res, then.res);
    assert!((from_lib(&now.h_x) - from_lib(&then.h_x)).norm() > 1.0);
    let off = s.jacobian(&state(false, false), FeatRepresentation::Global3D);
    assert_eq!(from_lib(&off.h_x), from_lib(&now.h_x));
}

#[test]
fn representation_matches_finite_differences() {
    let st = state(false, true);
    let s = scene();
    for rep in ANCHORED {
        let (h_f, blocks) = s.representation(&st, rep);
        for k in 0..h_f.ncols() {
            let n = (s.retold(rep, k, EPS).world() - s.retold(rep, k, -EPS).world()) / (2.0 * EPS);
            for i in 0..3 {
                assert!((f(h_f.get(i, k)) - n[i]).abs() < 1e-4, "{rep:?} {i} {k}");
            }
        }
        assert_eq!(blocks.len(), 2);
        assert_eq!((blocks[0].0, blocks[0].1), (st.clones_imu[0].1.id, 6));
        assert_eq!((blocks[1].0, blocks[1].1), (st.calib_imu_to_cam[0].id, 6));
        for k in 0..6 {
            let (mut a, mut b) = (s.clone(), s.clone());
            a.clones[0] = s.clones[0].nudged(k, -EPS);
            b.clones[0] = s.clones[0].nudged(k, EPS);
            let n = (b.world() - a.world()) / (2.0 * EPS);
            let (mut a, mut b) = (s.clone(), s.clone());
            a.calib = s.calib.nudged(k, -EPS);
            b.calib = s.calib.nudged(k, EPS);
            let c = (b.world() - a.world()) / (2.0 * EPS);
            for i in 0..3 {
                assert!((f(blocks[0].2.get(i, k)) - n[i]).abs() < 1e-4, "anchor {i} {k}");
                assert!((f(blocks[1].2.get(i, k)) - c[i]).abs() < 1e-4, "camera {i} {k}");
            }
        }
    }
}

#[test]
fn representation_at_first_estimates_leaves_the_world_point() {
    let mut s = scene();
    s.first[0] = s.clones[0].nudged(2, 0.1);
    let (h_f, blocks) = s.representation(&state(true, false), FeatRepresentation::Anchored3D);
    let mut moved = s.clone();
    moved.clones[0] = s.first[0];
    moved.p_a = s.calib.rot * (s.first[0].rot * (s.world() - s.first[0].pos)) + s.calib.pos;
    assert!((moved.world() - s.world()).norm() < 1e-9);
    let (g, own) = moved.representation(&state(false, false), FeatRepresentation::Anchored3D);
    assert!((from_lib(&h_f) - from_lib(&g)).norm() < 1e-9);
    assert!((from_lib(&blocks[0].2) - from_lib(&own[0].2)).norm() < 1e-9);
}

#[test]
fn global_feature_depends_on_no_pose() {
    let s = scene();
    let (h_f, blocks) = s.representation(&state(true, true), FeatRepresentation::Global3D);
    assert_eq!(from_lib(&h_f), DMatrix::identity(3, 3));
    assert!(blocks.is_empty());
    let (h_f, blocks) =
        s.representation(&state(false, true), FeatRepresentation::GlobalFullInverseDepth);
    assert_eq!(from_lib(&h_f), DMatrix::identity(3, 3));
    assert_eq!(blocks.len(), 2);
}

#[test]
fn point_of_an_anchor_is_where_it_is_seen() {
    let s = scene();
    let p = from_anchor(&s.clones[0].value(), &s.calib.value(), &lib3(&s.p_a), &plus, &times);
    let p = Vector3::new(f(p[0]), f(p[1]), f(p[2]));
    assert!((p - s.p_g).norm() < 1e-12);
}

#[test]
fn anchor_that_measures_gets_one_block() {
    let s = scene();
    let slopes = point_slopes(
        FeatRepresentation::Anchored3D,
        &s.clones[0].value(),
        &s.calib.value(),
        &lib3(&s.p_a),
        false,
        &angles(),
        &plus,
        &times,
        &divide,
    );
    assert!(slopes.calib.is_none());
    let through = vec![PlacedBlock { place: 4, block: slopes.anchor.unwrap() }];
    let order: Vec<(i32, usize)> = (0..10).map(|k| (6 * k, 6)).collect();
    for place in [4, 9] {
        let own = s.clones[if place == 4 { 0 } else { 1 }].value();
        let calib = s.calib.value();
        let at = Vantage { cam: 0, calib, clone: own, clone_fej: own, place, calib_place: None };
        let entry = measurement_entry(
            &at,
            &[d(0.0), d(0.0)],
            &lib3(&s.p_g),
            &slopes.h_f,
            &through,
            &order,
            &distort,
            &distort_slope,
            &plus,
            &times,
            &divide,
        );
        if place == 4 {
            // A point that is tied to the camera that sees it does not move with it.
            assert_eq!(entry.blocks.len(), 1);
            assert!(from_lib(&entry.blocks[0].1).norm() < 1e-9);
        } else {
            assert_eq!(entry.blocks.iter().map(|b| b.0).collect::<Vec<_>>(), vec![9, 4]);
        }
    }
}

fn try_inverse(m: &Matrix) -> Option<Matrix> {
    let inv = from_lib(m).try_inverse()?;
    let mut out = Matrix::filled(inv.nrows(), inv.ncols(), d(0.0));
    for i in 0..inv.nrows() {
        for j in 0..inv.ncols() {
            out.set(i, j, d(inv[(i, j)]));
        }
    }
    Some(out)
}

fn back(p: [Double; 3]) -> Vector3<f64> {
    Vector3::new(f(p[0]), f(p[1]), f(p[2]))
}

#[test]
fn written_points_are_read_back() {
    let p = Vector3::new(0.4, -0.3, 3.0);
    let forms = write_point(&lib3(&p), &angles(), &plus, &times, &divide);
    assert_eq!(f(forms.msckf_inverse_depth[2]), 1.0 / 3.0);
    assert_eq!(f(forms.full_inverse_depth[2]), 1.0 / p.norm());
    assert_eq!(f(forms.bearing[2]), 1.0);
    for source in [
        PointSource::Xyz(forms.xyz),
        PointSource::FullInverseDepth(forms.full_inverse_depth),
        PointSource::MsckfInverseDepth(forms.msckf_inverse_depth),
        PointSource::SingleInverseDepth(forms.msckf_inverse_depth[2], forms.bearing),
    ] {
        let q = back(coordinates_of(&source, &angles(), &plus, &times, &divide));
        assert!((q - p).norm() < 1e-12, "{source:?}");
    }
}

#[test]
fn camera_is_where_its_body_carries_it() {
    let s = scene();
    let camera = camera_pose(&s.calib.value(), &s.clones[1].value(), &plus, &times);
    let rot = s.calib.rot * s.clones[1].rot;
    let pos = s.clones[1].pos - rot.transpose() * s.calib.pos;
    assert!((back(camera.pos) - pos).norm() < 1e-12);
    for k in 0..9 {
        assert!((f(camera.rot[k]) - rot[(k / 3, k % 3)]).abs() < 1e-12);
    }
}

#[test]
fn new_anchor_sees_the_same_point() {
    let s = scene();
    let (a, b, c) = (s.clones[0].value(), s.clones[1].value(), s.calib.value());
    let q = see_from(&lib3(&s.p_a), &c, &a, &c, &b, &plus, &times);
    let p = back(from_anchor(&b, &c, &q, &plus, &times));
    assert!((p - s.p_g).norm() < 1e-12);
}

/// A state with one feature, in its first clone.
fn anchored(rep: FeatRepresentation, s: &Scene) -> State {
    let mut st = state(true, false);
    let n = st.cov.nrows();
    let size = if rep == FeatRepresentation::AnchoredInverseDepthSingle { 1 } else { 3 };
    let mut cov = Matrix::filled(n + size, n + size, d(0.0));
    for i in 0..n {
        for j in 0..n {
            cov.set(i, j, st.cov.get(i, j));
        }
    }
    cov.set_diagonal(n, size, d(0.5));
    st.cov = cov;
    let mut l = Landmark::new(rep, 7);
    l.anchor_cam_id = 0;
    l.anchor_clone_timestamp = d(1.0);
    l.set_local_id(n as i32);
    let forms = write_point(&lib3(&s.p_a), &angles(), &plus, &times, &divide);
    l.set_from_xyz(&forms, false);
    l.set_from_xyz(&forms, true);
    st.features_slam.push(l);
    st
}

#[test]
fn feature_keeps_its_place_under_a_new_anchor() {
    let s = scene();
    for rep in ANCHORED {
        let mut st = anchored(rep, &s);
        let n = st.cov.nrows();
        perform_anchor_change(
            &mut st, 0, d(2.0), 0, &s.poses(), &try_inverse, &angles(), &plus, &times, &divide,
        )
        .unwrap();
        let l = &st.features_slam[0];
        assert_eq!(l.anchor_clone_timestamp, d(2.0));
        assert!(l.has_had_anchor_change);
        assert_eq!(st.cov.nrows(), n);
        for fej in [false, true] {
            let q = coordinates_of(&l.get_xyz(fej), &angles(), &plus, &times, &divide);
            let p = from_anchor(&s.clones[1].value(), &s.calib.value(), &q, &plus, &times);
            assert!((back(p) - s.p_g).norm() < 1e-9, "{rep:?}");
        }
    }
}

#[test]
fn feature_whose_numbers_cannot_be_solved_for_stays() {
    let s = scene();
    let mut st = anchored(FeatRepresentation::Anchored3D, &s);
    let before = from_lib(&st.cov);
    let none = |_: &Matrix| -> Option<Matrix> { None };
    let res = perform_anchor_change(
        &mut st, 0, d(2.0), 0, &s.poses(), &none, &angles(), &plus, &times, &divide,
    );
    assert!(matches!(res, Err(AnchorFault::Singular)));
    assert_eq!(from_lib(&st.cov), before);
    assert_eq!(st.features_slam[0].anchor_clone_timestamp, d(1.0));
}

#[test]
fn negative_variance_is_reported() {
    let s = scene();
    let mut st = anchored(FeatRepresentation::Anchored3D, &s);
    let n = st.cov.nrows();
    st.cov.set(n - 1, n - 1, d(-1000.0));
    let res = perform_anchor_change(
        &mut st, 0, d(2.0), 0, &s.poses(), &try_inverse, &angles(), &plus, &times, &divide,
    );
    assert!(matches!(res, Err(AnchorFault::Negative(_))));
}

/// The state with three clones that move along the first axis and see a feature ahead.
fn ahead() -> (State, Estimates, Feature) {
    let mut st = State::new(StateOptions { do_fej: false, num_cameras: 1, ..StateOptions::default() });
    let mut values = Estimates::new(&st);
    let r = Matrix3::new(0.0, -1.0, 0.0, 0.0, 0.0, -1.0, 1.0, 0.0, 0.0);
    values.calibs[0] = Pose { rot: r, pos: r * Vector3::new(0.0, 0.025, 0.0) }.value();
    let p_fg = Vector3::new(8.0, -0.9, 1.2);
    let lever = Vector3::new(0.0, -0.025, 0.0);
    let mut track = CameraTrack { cam_id: 0, timestamps: Vec::new(), uvs: Vec::new() };
    for t in [1.0, 2.0, 3.0] {
        st.timestamp = d(t);
        values.inertial.pose = Pose { rot: Matrix3::identity(), pos: Vector3::new(t, 0.0, 1.0) }.value();
        values.inertial_first = values.inertial;
        augment_clone(&mut st, &mut values, &[d(0.0); 3], &plus, &times);
        let pc = r * (p_fg - Vector3::new(t, 0.0, 1.0) - lever);
        assert!(pc.z > 0.5);
        let pixel = |a: f64, b: f64| d(f64::from((FOCAL * a / pc.z + b) as f32));
        track.timestamps.push(d(t));
        track.uvs.push([pixel(pc.x, 160.0), pixel(pc.y, 120.0)]);
    }
    let feat = Feature { featid: 1, tracks: vec![track], p_fin_g: lib3(&p_fg), ..feature() };
    (st, values, feat)
}

const FOCAL: f64 = 168.606_993_943_65;

fn pinhole(_: usize, uv: [Double; 2]) -> [Double; 2] {
    [d(FOCAL * f(uv[0]) + 160.0), d(FOCAL * f(uv[1]) + 120.0)]
}

fn pinhole_slope(_: usize, _: [Double; 2]) -> [Double; 4] {
    [d(FOCAL), d(0.0), d(0.0), d(FOCAL)]
}

fn to_pose(p: &PoseValue) -> Pose {
    let rot = Matrix3::from_fn(|i, j| f(p.rot[3 * i + j]));
    Pose { rot, pos: Vector3::new(f(p.pos[0]), f(p.pos[1]), f(p.pos[2])) }
}

/// Measured less predicted pixels, clone by clone.
fn residual(values: &Estimates, feat: &Feature) -> Vec<f64> {
    let calib = to_pose(&values.calibs[0]);
    let p_fg = Vector3::new(f(feat.p_fin_g[0]), f(feat.p_fin_g[1]), f(feat.p_fin_g[2]));
    let mut res = Vec::new();
    for (uv, (now, _)) in feat.tracks[0].uvs.iter().zip(&values.clones) {
        let clone = to_pose(now);
        let p = calib.rot * (clone.rot * (p_fg - clone.pos)) + calib.pos;
        let seen = pinhole(0, [d(p.x / p.z), d(p.y / p.z)]);
        res.push(f(uv[0]) - f(seen[0]));
        res.push(f(uv[1]) - f(seen[1]));
    }
    res
}

fn turn(rot: [Double; 9], angle: [Double; 3]) -> [Double; 9] {
    let v = 0.5 * Vector3::new(f(angle[0]), f(angle[1]), f(angle[2]));
    let n = (1.0 + v.norm_squared()).sqrt();
    let (v, w) = (v / n, 1.0 / n);
    let small: Matrix3<f64> = (2.0 * w * w - 1.0) * Matrix3::identity()
        - 2.0 * w * v.cross_matrix()
        + 2.0 * v * v.transpose();
    let whole = small * Matrix3::from_fn(|i, j| f(rot[3 * i + j]));
    [0, 1, 2, 3, 4, 5, 6, 7, 8].map(|k| d(whole[(k / 3, k % 3)]))
}

#[test]
fn msckf_jacobian_matches_finite_difference() {
    let (st, values, feat) = ahead();
    let jac = get_feature_jacobian_full(
        &st,
        &feat,
        FeatRepresentation::Global3D,
        &values,
        &pinhole,
        &pinhole_slope,
        &angles(),
        &plus,
        &times,
        &divide,
    );
    assert_eq!(jac.res.len(), 6);
    assert_eq!(jac.x_order.len(), 3);
    let base = residual(&values, &feat);
    let off = base.iter().zip(&jac.res).map(|(a, b)| (a - f(*b)).abs()).fold(0.0, f64::max);
    assert!(off < 1e-9, "{off}");
    let eps = 1e-2;
    let mut worst: f64 = 0.0;
    for (vi, (id, size)) in jac.x_order.iter().enumerate() {
        assert_eq!(*id, st.clones_imu[vi].1.id());
        for comp in 0..*size {
            // The library moves the clone by an increment in one of its rows.
            let moved = |by: f64| {
                let (mut s, mut v) = (st.clone(), values.clone());
                let mut dx = vec![d(0.0); st.cov.nrows()];
                dx[*id as usize + comp] = d(by);
                s.update_all(&mut v, &dx, &turn, &plus);
                residual(&v, &feat)
            };
            let (high, low) = (moved(eps), moved(-eps));
            for r in 0..6 {
                let slope = -(high[r] - low[r]) / (2.0 * eps);
                let a = f(jac.h_x.get(r, 6 * vi + comp));
                worst = worst.max((a - slope).abs() / a.abs().max(slope.abs()).max(1e-6));
            }
        }
    }
    assert!(worst < 0.01, "{worst}");
}
