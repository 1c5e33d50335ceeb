use firefly::double::Double;
use firefly::matrix::Matrix;
use firefly::void_esikf::gain::{correction, cov_update};
use firefly::void_esikf::propagator::{
    NoiseBlocks, PropagationNoise, Propagator, TransitionBlocks,
};
use firefly::void_esikf::update::{
    depth_convergence, information, visual_convergence, EskfUpdater, Information,
    MeasurementModel, Tools, UpdateError,
};
use firefly::void_types::extrinsics::ExtrinsicsConfig;
use firefly::void_types::so3::skew;
use firefly::void_types::state::{State, DIM_STATE};
use firefly::void_types::visual::{gray_gradient, GrayImage, Intrinsics, VisualState};
use nalgebra::{DMatrix, DVector, Matrix3, Rotation3, Vector3};

fn d(x: f64) -> Double {
    Double::from_bits(x.to_bits())
}

fn f(x: Double) -> f64 {
    f64::from_bits(x.bits)
}

fn plus(a: Double, b: Double) -> Double {
    d(f(a) + f(b))
}

fn minus(a: Double, b: Double) -> Double {
    d(f(a) - f(b))
}

fn times(a: Double, b: Double) -> Double {
    d(f(a) * f(b))
}

fn divide(a: Double, b: Double) -> Double {
    d(f(a) / f(b))
}

fn inverse(a: Double) -> Double {
    d(1.0 / f(a))
}

fn v3(v: &Vector3<f64>) -> [Double; 3] {
    [d(v.x), d(v.y), d(v.z)]
}

fn to3(v: &[Double; 3]) -> Vector3<f64> {
    Vector3::new(f(v[0]), f(v[1]), f(v[2]))
}

fn r9(m: &Matrix3<f64>) -> [Double; 9] {
    [0, 1, 2, 3, 4, 5, 6, 7, 8].map(|k| d(m[(k / 3, k % 3)]))
}

fn to9(r: &[Double; 9]) -> Matrix3<f64> {
    Matrix3::from_fn(|i, j| f(r[3 * i + j]))
}

fn to_lib(m: &DMatrix<f64>) -> Matrix {
    let mut out = Matrix::filled(m.nrows(), m.ncols(), Double::zero());
    for i in 0..m.nrows() {
        for j in 0..m.ncols() {
            out.set(i, j, d(m[(i, j)]));
        }
    }
    out
}

fn from_lib(m: &Matrix) -> DMatrix<f64> {
    DMatrix::from_fn(m.nrows(), m.ncols(), |i, j| f(m.get(i, j)))
}

fn lib3(m: &Matrix3<f64>) -> Matrix {
    to_lib(&DMatrix::from_fn(3, 3, |i, j| m[(i, j)]))
}

fn hat(v: &Vector3<f64>) -> Matrix3<f64> {
    let m = from_lib(&skew(&v3(v)));
    Matrix3::from_fn(|i, j| m[(i, j)])
}

fn exp(w: &Vector3<f64>) -> Matrix3<f64> {
    let n = w.norm();
    if n > 1e-7 {
        let k = hat(&(w / n));
        Matrix3::identity() + n.sin() * k + (1.0 - n.cos()) * (k * k)
    } else {
        Matrix3::identity()
    }
}

fn exp_dt(w: &Vector3<f64>, dt: f64) -> Matrix3<f64> {
    let n = w.norm();
    if n > 1e-7 {
        let k = hat(&(w / n));
        let a = n * dt;
        Matrix3::identity() + a.sin() * k + (1.0 - a.cos()) * (k * k)
    } else {
        Matrix3::identity()
    }
}

fn log(r: &Matrix3<f64>) -> Vector3<f64> {
    let theta = if r.trace() > 3.0 - 1e-6 { 0.0 } else { (0.5 * (r.trace() - 1.0)).acos() };
    let k = Vector3::new(r[(2, 1)] - r[(1, 2)], r[(0, 2)] - r[(2, 0)], r[(1, 0)] - r[(0, 1)]);
    if theta.abs() < 0.001 { 0.5 * k } else { 0.5 * theta / theta.sin() * k }
}

fn turn(r: [Double; 9], w: [Double; 3]) -> [Double; 9] {
    r9(&(to9(&r) * exp(&to3(&w))))
}

fn spin(r: [Double; 9], w: [Double; 3], dt: Double) -> [Double; 9] {
    r9(&(to9(&r) * exp_dt(&to3(&w), f(dt))))
}

fn between(from: [Double; 9], to: [Double; 9]) -> [Double; 3] {
    v3(&log(&(to9(&from).transpose() * to9(&to))))
}

fn blocks(r: &Matrix3<f64>, w: &Vector3<f64>, a: &Vector3<f64>, dt: f64) -> TransitionBlocks {
    TransitionBlocks {
        turn: lib3(&exp_dt(w, -dt)),
        velocity_turn: lib3(&(-r * hat(a) * dt)),
        velocity_bias: lib3(&(-r * dt)),
        dt: d(dt),
    }
}

fn noise(n: &PropagationNoise, r: &Matrix3<f64>, dt: f64) -> NoiseBlocks {
    let s = |x: Double| d(f(x) * dt * dt);
    NoiseBlocks {
        gyr: s(n.gyr),
        bias_gyr: s(n.bias_gyr),
        bias_acc: s(n.bias_acc),
        inv_expo: s(n.inv_expo),
        velocity: lib3(&(r * (f(n.acc) * dt * dt * Matrix3::identity()) * r.transpose())),
    }
}

fn propagate(p: &Propagator, s: &mut State, w: Vector3<f64>, a: Vector3<f64>, dt: f64) {
    let linearize = |r: [Double; 9], w: [Double; 3], a: [Double; 3], dt: Double| {
        let rot = to9(&r);
        (blocks(&rot, &to3(&w), &to3(&a), f(dt)), noise(&p.noise, &rot, f(dt)))
    };
    p.propagate(s, &v3(&w), &v3(&a), d(dt), &linearize, &spin, &plus, &times);
}

fn assert_close(a: f64, b: f64, eps: f64) {
    assert!((a - b).abs() < eps, "{a} != {b}");
}

fn vec3(x: f64, y: f64, z: f64) -> Vector3<f64> {
    Vector3::new(x, y, z)
}

#[test]
fn propagate_constant_angular_velocity_analytic() {
    let p = Propagator::new();
    let mut s = State { vel: v3(&vec3(1.0, 0.0, 0.0)), ..State::default() };
    let dt = 0.02;
    let n_steps = 25;
    for _ in 0..n_steps {
        propagate(&p, &mut s, vec3(0.0, 0.0, 0.5), Vector3::zeros(), dt);
    }
    let t = f64::from(n_steps) * dt;
    let r_expect = Rotation3::from_axis_angle(&Vector3::z_axis(), 0.5 * t);
    let rot = to9(&s.rot);
    for i in 0..3 {
        for j in 0..3 {
            assert_close(rot[(i, j)], r_expect.matrix()[(i, j)], 1e-9);
        }
    }
    assert_close(f(s.pos[0]), t, 1e-9);
    assert_close(f(s.pos[1]), 0.0, 1e-9);
    assert_close(f(s.vel[0]), 1.0, 1e-9);
}

#[test]
fn propagate_constant_acceleration_analytic() {
    let p = Propagator::new();
    let mut s = State::default();
    let dt = 0.01;
    let n_steps = 50;
    for _ in 0..n_steps {
        propagate(&p, &mut s, Vector3::zeros(), vec3(0.0, 0.0, 1.0), dt);
    }
    let t = f64::from(n_steps) * dt;
    assert_close(f(s.vel[2]), t, 1e-6);
    assert_close(f(s.pos[2]), 0.5 * t * t, 1e-6);
}

#[test]
fn propagate_covariance_symmetric_positive() {
    let p = Propagator::new();
    let mut s = State::default();
    propagate(&p, &mut s, vec3(0.1, -0.2, 0.3), vec3(0.0, 0.0, 9.8), 0.02);
    let cov = from_lib(&s.cov);
    assert!((&cov - cov.transpose()).norm() < 1e-12);
    for i in 0..19 {
        assert!(cov[(i, i)] > 0.0, "diag[{i}] not positive");
    }
    assert!(cov[(0, 0)] > 0.01);
}

#[test]
fn backward_matches_forward() {
    let p = Propagator::new();
    let mut s = State::default();
    let (omega, acc) = (vec3(0.0, 0.0, 0.3), vec3(0.0, 0.0, 2.0));
    let dt = 0.02;
    propagate(&p, &mut s, omega, acc, dt);
    let (r_back, p_back) =
        p.backward(&s, &v3(&omega), &v3(&acc), d(dt), d(0.0), &spin, &plus, &times);
    assert_close(f(p_back[0]), 0.0, 1e-9);
    assert_close(f(p_back[2]), 0.0, 1e-6);
    let r = to9(&r_back);
    for i in 0..3 {
        for j in 0..3 {
            assert_close(r[(i, j)], if i == j { 1.0 } else { 0.0 }, 1e-9);
        }
    }
}

#[test]
fn discretized_f_block_structure() {
    let p = Propagator::new();
    let b = blocks(&Matrix3::identity(), &Vector3::zeros(), &vec3(0.0, 0.0, 9.8), 0.1);
    let m = from_lib(&p.discretized_f(&b));
    assert_close(m[(3, 7)], 0.1, 1e-12);
    assert_close(m[(7, 16)], 0.1, 1e-12);
    assert_close(m[(0, 10)], -0.1, 1e-12);
    assert_close(m[(7, 13)], -0.1, 1e-12);
    assert_close(m[(0, 3)], 0.0, 1e-12);
}

#[test]
fn disable_switches_zero_blocks() {
    let mut p = Propagator::new();
    p.disable_gravity_est();
    p.disable_bias_est();
    p.disable_exposure_est();
    let b = blocks(&Matrix3::identity(), &Vector3::zeros(), &vec3(0.0, 0.0, 9.8), 0.1);
    let m = from_lib(&p.discretized_f(&b));
    assert_close(m[(7, 16)], 0.0, 1e-12);
    assert_close(m[(0, 10)], 0.0, 1e-12);
    assert_close(m[(7, 13)], 0.0, 1e-12);
    let q = from_lib(&p.process_noise(&noise(&p.noise, &Matrix3::identity(), 0.1)));
    assert_close(q[(6, 6)], 0.0, 1e-12);
}

#[test]
fn process_noise_fills_its_places() {
    let p = Propagator::new().with_noise(PropagationNoise {
        gyr: d(1.0),
        acc: d(2.0),
        bias_gyr: d(3.0),
        bias_acc: d(4.0),
        inv_expo: d(5.0),
    });
    let q = from_lib(&p.process_noise(&noise(&p.noise, &Matrix3::identity(), 1.0)));
    let diag: Vec<f64> = (0..19).map(|i| q[(i, i)]).collect();
    assert_eq!(
        diag,
        vec![
            1.0, 1.0, 1.0, 0.0, 0.0, 0.0, 5.0, 2.0, 2.0, 2.0, 3.0, 3.0, 3.0, 4.0, 4.0, 4.0, 0.0,
            0.0, 0.0,
        ]
    );
}

fn apart(a: &State, b: &State) -> Vec<Double> {
    a.boxminus(b, &between, &minus)
}

fn try_inverse(m: &Matrix) -> Option<Matrix> {
    from_lib(m).try_inverse().map(|x| to_lib(&x))
}

/// A measurement of the whole error, or of the position alone, made twice or once.
struct Direct {
    truth: State,
    variances: Vec<f64>,
    whole: bool,
}

impl MeasurementModel for Direct {
    fn dim(&self) -> usize {
        self.variances.len() * if self.whole { DIM_STATE } else { 3 }
    }

    fn information(&self, x: &State) -> Information {
        let e = apart(x, &self.truth);
        let rows: Vec<usize> = if self.whole { (0..DIM_STATE).collect() } else { vec![3, 4, 5] };
        let n = rows.len() * self.variances.len();
        let mut z = Vec::new();
        let mut h = Matrix::filled(n, DIM_STATE, Double::zero());
        let mut r = Vec::new();
        for (k, var) in self.variances.iter().enumerate() {
            for (i, row) in rows.iter().enumerate() {
                z.push(e[*row]);
                h.set(k * rows.len() + i, *row, d(1.0));
                r.push(d(*var));
            }
        }
        information(&z, &h, &r, &plus, &times, &inverse)
    }
}

fn length(v: [Double; 3]) -> Double {
    d(to3(&v).norm())
}

fn root(x: Double) -> Double {
    d(f(x).sqrt())
}

fn run<M: MeasurementModel>(
    u: &EskfUpdater,
    model: &M,
    s: &mut State,
) -> Result<(usize, bool), UpdateError> {
    let tools =
        Tools { invert: try_inverse, root, length, turn, log: between, plus, minus, times };
    u.update(model, s, &tools)
}

fn position(truth: Vector3<f64>, r: f64) -> Direct {
    Direct {
        truth: State { pos: v3(&truth), ..State::default() },
        variances: vec![r],
        whole: false,
    }
}

#[test]
fn identity_model_converges_to_map() {
    let truth = vec3(1.0, -2.0, 0.5);
    let mut s = State::default();
    let r = 1e-3;
    let u = EskfUpdater::new(10, (d(1e-8), d(1e-8)));
    let (iters, _) = run(&u, &position(truth, r), &mut s).unwrap();
    assert!(iters >= 1);
    let k = 0.01 / (0.01 + r);
    let map = k * truth;
    assert!((to3(&s.pos) - map).norm() < 1e-6, "map={map}");
    assert!(f(s.cov.get(3, 3)) < 0.01);
}

#[test]
fn zero_dim_measurement_is_noop() {
    let mut x = State::default();
    let before = from_lib(&x.cov);
    let u = EskfUpdater::new(5, (d(1e-4), d(1e-4)));
    let (iters, _) = run(&u, &(), &mut x).unwrap();
    assert_eq!(iters, 0);
    assert_eq!(from_lib(&x.cov), before);
}

#[test]
fn information_aggregates_all_rows() {
    let z = vec![d(1.0), d(-2.0)];
    let mut h = Matrix::filled(2, DIM_STATE, Double::zero());
    h.set(0, 0, d(1.0));
    h.set(1, 1, d(1.0));
    let r = vec![d(0.5), d(2.0)];
    let info = information(&z, &h, &r, &plus, &times, &inverse);
    assert!((f(info.s.get(0, 0)) - 2.0).abs() < 1e-12);
    assert!((f(info.s.get(1, 1)) - 0.5).abs() < 1e-12);
    assert!((f(info.b[0]) - 2.0).abs() < 1e-12);
    assert!((f(info.b[1]) + 1.0).abs() < 1e-12);
    assert!((f(info.e) - 4.0).abs() < 1e-12);
    // Rows without a positive finite variance say nothing.
    let bad = vec![d(f64::INFINITY), d(-1.0)];
    let none = information(&z, &h, &bad, &plus, &times, &inverse);
    assert_eq!(f(none.e), 0.0);
    assert_eq!(f(none.s.get(0, 0)), 0.0);
}

#[test]
fn sequential_two_measurements_equals_joint() {
    let hundredth = || to_lib(&(DMatrix::identity(DIM_STATE, DIM_STATE) * 0.01));
    let truth = || State {
        rot: r9(Rotation3::from_axis_angle(&Vector3::z_axis(), 0.3).matrix()),
        pos: v3(&vec3(1.0, -2.0, 0.5)),
        vel: v3(&vec3(0.1, 0.2, -0.3)),
        bias_g: v3(&vec3(0.01, -0.02, 0.03)),
        bias_a: v3(&vec3(-0.1, 0.2, -0.3)),
        gravity: v3(&vec3(0.0, 0.0, -9.8)),
        inv_expo_time: d(2.0),
        cov: hundredth(),
    };
    let start = || State {
        gravity: v3(&vec3(0.0, 0.0, -9.8)),
        cov: hundredth(),
        ..State::default()
    };
    let u = EskfUpdater::new(20, (d(1e-8), d(1e-8)));
    let model = |v: Vec<f64>| Direct { truth: truth(), variances: v, whole: true };
    let mut s_seq = start();
    run(&u, &model(vec![0.01]), &mut s_seq).unwrap();
    run(&u, &model(vec![0.02]), &mut s_seq).unwrap();
    let mut s_joint = start();
    run(&u, &model(vec![0.01, 0.02]), &mut s_joint).unwrap();
    let e = apart(&s_seq, &s_joint);
    let err = e.iter().map(|x| f(*x) * f(*x)).sum::<f64>().sqrt();
    assert!(err < 1e-6, "sequential vs joint err={err}");
}

#[test]
fn covariance_shrinks_after_update() {
    let mut s = State::default();
    let u = EskfUpdater::new(5, (d(1e-6), d(1e-6)));
    run(&u, &position(vec3(0.5, 0.5, 0.5), 0.1), &mut s).unwrap();
    assert!(f(s.cov.get(3, 3)) < 0.01);
    assert!((f(s.cov.get(0, 0)) - 0.01).abs() < 1e-9);
}

/// A measurement whose residual norms are listed. It moves the estimate by one along
/// the first axis in each iteration.
struct Listed {
    norms: Vec<f64>,
    singular_at: usize,
    size: usize,
}

impl MeasurementModel for Listed {
    fn dim(&self) -> usize {
        1
    }

    fn information(&self, x: &State) -> Information {
        let k = f(x.pos[0]).round() as usize;
        let mut s = Matrix::filled(self.size, self.size, Double::zero());
        if k + 1 == self.singular_at {
            s.set(0, 0, d(-1.0));
        }
        let mut b = vec![Double::zero(); DIM_STATE];
        b[3] = d(-1.0 - k as f64);
        Information { s, b, e: d(self.norms[k] * self.norms[k]) }
    }
}

/// Walks along the list, one place in each iteration.
fn walk(
    u: &EskfUpdater,
    norms: &[f64],
    singular_at: usize,
) -> (Result<(usize, bool), UpdateError>, usize) {
    let model = Listed { norms: norms.to_vec(), singular_at, size: DIM_STATE };
    let spread = if singular_at == 0 { 0.0 } else { 1.0 };
    let cov = to_lib(&(DMatrix::identity(DIM_STATE, DIM_STATE) * spread));
    let mut x = State { cov, ..State::default() };
    let done = run(u, &model, &mut x);
    (done, f(x.pos[0]).round() as usize)
}

#[test]
fn a_measurement_speaks_of_the_whole_error() {
    let u = EskfUpdater::new(3, depth_convergence());
    let model = Listed { norms: vec![1.0; 5], singular_at: 99, size: 3 };
    let mut x = State::default();
    assert_eq!(run(&u, &model, &mut x), Err(UpdateError::WrongShape));
    assert_eq!(x.pos, State::default().pos);
}

#[test]
fn without_iterations_nothing_changes() {
    let u = EskfUpdater::new(0, depth_convergence());
    let mut x = State::default();
    let model = Listed { norms: vec![1.0; 5], singular_at: 99, size: DIM_STATE };
    assert_eq!(run(&u, &model, &mut x), Ok((0, false)));
    assert_eq!(x.pos, State::default().pos);
    assert_eq!(from_lib(&x.cov), from_lib(&State::default().cov));
}

#[test]
fn updates_fail_as_they_should() {
    let u = EskfUpdater::new(3, depth_convergence());
    assert_eq!(walk(&u, &[1.0; 5], 99), (Ok((3, false)), 3));
    assert_eq!(walk(&u, &[1.0; 5], 0), (Err(UpdateError::PriorSingular), 0));
    assert_eq!(walk(&u, &[1.0; 5], 2), (Err(UpdateError::InformationSingular), 0));
    assert_eq!(walk(&u, &[1.0, f64::NAN, 1.0], 99), (Err(UpdateError::NotANumber(1)), 0));
    assert_eq!(walk(&u, &[1.0, 1e7, 1.0], 99), (Err(UpdateError::Diverged), 0));
    let wide = u.with_divergence_factor(d(1e9));
    assert_eq!(walk(&wide, &[1.0, 1e7, 1.0], 99).0, Ok((3, false)));
    // With no bound to hold the residual against, nothing diverges.
    assert_eq!(walk(&u, &[0.0, 1e7, 1.0], 99).0, Ok((3, false)));
}

#[test]
fn descent_does_not_worsen() {
    let u = EskfUpdater::new(5, visual_convergence()).with_error_descent_acceptance();
    // The residual rises at the third place: the second is kept.
    assert_eq!(walk(&u, &[3.0, 2.0, 2.5, 0.0, 0.0], 99), (Ok((5, false)), 1));
    assert_eq!(walk(&u, &[3.0, 2.0, 2.0, 1.0, 0.5, 0.0], 99), (Ok((5, false)), 5));
}

#[test]
fn convergence_thresholds() {
    let (r, p) = depth_convergence();
    assert_eq!((f(r), f(p)), (0.01 / 57.3, 0.015 / 100.0));
    let (r, p) = visual_convergence();
    assert_eq!((f(r), f(p)), (0.001 / 57.3, 0.001 / 100.0));
}

#[test]
fn skew_vee_identity() {
    let v = vec3(0.3, -1.2, 0.7);
    let s = hat(&v);
    assert_close(s[(0, 1)], -v[2], 1e-15);
    assert_close(s[(1, 0)], v[2], 1e-15);
    assert_close(s[(0, 2)], v[1], 1e-15);
    assert_close(s[(2, 0)], -v[1], 1e-15);
    assert_close(s[(1, 2)], -v[0], 1e-15);
    assert_close(s[(2, 1)], v[0], 1e-15);
    assert_eq!(s + s.transpose(), Matrix3::zeros());
}

#[test]
fn boxplus_rotation_right_multiplication() {
    let rot = *Rotation3::from_axis_angle(&Vector3::z_axis(), 0.5).matrix();
    let x = State { rot: r9(&rot), ..State::default() };
    let dw = vec3(0.0, 0.0, 0.3);
    let mut delta = vec![d(0.0); DIM_STATE];
    delta[2] = d(dw.z);
    let y = x.boxplus(&delta, &turn, &plus);
    let expect = rot * exp(&dw);
    assert!((to9(&y.rot) - expect).norm() < 1e-12);
}

#[test]
fn boxplus_boxminus_inverse() {
    for w in [vec3(0.1, -0.2, 0.3), vec3(1.0, 0.5, -0.8), vec3(1.4, 0.1, -1.2)] {
        let x = State::default();
        let values = [
            w.x, w.y, w.z, 1.0, -2.0, 0.5, 0.2, 0.3, 0.1, -0.4, 0.01, -0.02, 0.03, -0.1, 0.2, -0.3,
            0.0, 0.0, -9.8,
        ];
        let delta: Vec<Double> = values.iter().map(|v| d(*v)).collect();
        let y = x.boxplus(&delta, &turn, &plus);
        let back = apart(&y, &x);
        let err =
            (0..DIM_STATE).map(|i| (f(back[i]) - values[i]).powi(2)).sum::<f64>().sqrt();
        assert!(err < 1e-9, "roundtrip err={err}");
        let mut z = State::default();
        z.boxplus_assign(&delta, &turn, &plus);
        assert_eq!(z.pos, y.pos);
    }
}

#[test]
fn boxminus_translation_components() {
    let a = State {
        pos: v3(&vec3(1.0, 2.0, 3.0)),
        vel: v3(&vec3(4.0, 5.0, 6.0)),
        ..State::default()
    };
    let b = State {
        pos: v3(&vec3(0.5, 1.0, 2.0)),
        vel: v3(&vec3(1.0, 1.0, 1.0)),
        ..State::default()
    };
    let e = apart(&a, &b);
    assert!((to3(&[e[3], e[4], e[5]]) - vec3(0.5, 1.0, 1.0)).norm() < 1e-12);
    assert!((to3(&[e[7], e[8], e[9]]) - vec3(3.0, 4.0, 5.0)).norm() < 1e-12);
}

#[test]
fn default_covariance_blocks() {
    let x = State::default();
    for (i, v) in [(0, 0.01), (5, 0.01), (6, 0.00001), (10, 0.00001), (18, 0.00001)] {
        assert!((f(x.cov.get(i, i)) - v).abs() < 1e-15);
    }
}

#[test]
fn predict_constant_velocity_flat() {
    let x = State { vel: v3(&vec3(1.0, 0.0, 0.0)), ..State::default() };
    let zero = v3(&Vector3::zeros());
    let delta = x.predict(&zero, &zero, d(0.1), &plus, &times);
    assert!((to3(&[delta[3], delta[4], delta[5]]) - vec3(0.1, 0.0, 0.0)).norm() < 1e-12);
    assert!(to3(&[delta[7], delta[8], delta[9]]).norm() < 1e-12);
    assert!(to3(&[delta[0], delta[1], delta[2]]).norm() < 1e-12);
}

#[test]
fn predict_accelerates_and_turns() {
    let x = State { gravity: v3(&vec3(0.0, 0.0, -9.8)), ..State::default() };
    let delta = x.predict(
        &v3(&vec3(0.0, 0.0, 2.0)),
        &v3(&vec3(1.0, 0.0, 9.8)),
        d(0.5),
        &plus,
        &times,
    );
    assert_eq!(to3(&[delta[0], delta[1], delta[2]]), vec3(0.0, 0.0, 1.0));
    assert!((to3(&[delta[3], delta[4], delta[5]]) - vec3(0.125, 0.0, 0.0)).norm() < 1e-12);
    assert!((to3(&[delta[7], delta[8], delta[9]]) - vec3(0.5, 0.0, 0.0)).norm() < 1e-12);
}

#[test]
fn default_is_identity_with_center_intrinsics() {
    let c = ExtrinsicsConfig::default();
    let p = vec3(1.0, -2.0, 3.0);
    assert!((to3(&c.depth_to_imu(&v3(&p), &plus, &times)) - p).norm() < 1e-12);
    assert_eq!(to3(&c.imu_to_cam(&v3(&p), &plus, &times)), p);
    let k = from_lib(&c.camera_matrix());
    assert!((k[(0, 0)] - 300.0).abs() < 1e-12);
    assert!((k[(1, 1)] - 300.0).abs() < 1e-12);
    assert!((k[(0, 2)] - 160.0).abs() < 1e-12);
    assert!((k[(1, 2)] - 120.0).abs() < 1e-12);
}

#[test]
fn gray_image_access() {
    let img = GrayImage::new(2, 2, vec![0, 1, 2, 3]);
    assert_eq!(img.get(0, 0), Some(0));
    assert_eq!(img.get(1, 1), Some(3));
    assert_eq!(img.get(2, 0), None);
    assert_eq!(img.get(0, 2), None);
    assert_eq!(img.as_slice(), &[0, 1, 2, 3]);
}

#[test]
fn gray_image_roundtrip() {
    let img = GrayImage::new(4, 4, vec![0u8; 16]);
    assert_eq!(img.as_slice().len(), 16);
    assert_eq!((img.width(), img.height()), (4, 4));
    assert_eq!(gray_gradient(&img, 1, 1), (0, 0));
}

#[test]
fn intrinsics_project_unproject_roundtrip() {
    let k = Intrinsics::new(d(300.0), d(300.0), d(160.0), d(120.0));
    let p = vec3(1.0, -2.0, 5.0);
    let px = k.project(&v3(&p), &plus, &times, &inverse).unwrap();
    assert!((f(px[0]) - 220.0).abs() < 1e-9);
    assert!((f(px[1]) - 0.0).abs() < 1e-9);
    let dir = to3(&k.unproject(&px, &plus, &divide));
    assert!((dir.normalize() - p.normalize()).norm() < 1e-9);
    assert!(k.project(&v3(&vec3(0.0, 0.0, -1.0)), &plus, &times, &inverse).is_none());
    assert_eq!(f(k.camera_matrix().get(0, 2)), 160.0);
    assert_eq!(VisualState::new(3, d(0.5)).frame_id, 3);
}

#[test]
fn correction_matches_the_dense_formula() {
    let n = DIM_STATE;
    let s = DMatrix::from_fn(n, n, |i, j| if i == j { 2.0 } else { 0.01 });
    let p_inv = DMatrix::identity(n, n) * 3.0;
    let b = DVector::from_fn(n, |i, _| i as f64 * 0.1);
    let delta = DVector::from_fn(n, |i, _| 1.0 - i as f64 * 0.05);
    let inv = (&s + &p_inv).try_inverse().unwrap();
    let expected = -(&inv * &b) - (DMatrix::identity(n, n) - &inv * &s) * &delta;
    let list = |v: &DVector<f64>| v.iter().map(|x| d(*x)).collect::<Vec<Double>>();
    let got = correction(
        &to_lib(&s), &list(&b), &to_lib(&p_inv), &list(&delta), &try_inverse, &plus, &times,
    )
    .unwrap();
    for i in 0..n {
        assert!((f(got[i]) - expected[i]).abs() < 1e-12);
    }
    let p = DMatrix::identity(n, n) / 3.0;
    let cov = cov_update(&to_lib(&p), &to_lib(&s), &to_lib(&p_inv), &try_inverse, &plus, &times);
    assert!((from_lib(&cov) - (&p - &inv * &s * &p)).norm() < 1e-12);
    let none = |_: &Matrix| None;
    assert!(correction(
        &to_lib(&s), &list(&b), &to_lib(&p_inv), &list(&delta), &none, &plus, &times,
    )
    .is_none());
}
