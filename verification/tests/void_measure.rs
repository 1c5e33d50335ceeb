use std::cell::RefCell;

use firefly::double::Double;
use firefly::matrix::Matrix;
use firefly::void_esikf::update::{
    depth_convergence, information, visual_convergence, EskfUpdater, Information,
    MeasurementModel, Tools, UpdateError,
};
use firefly::void_map::image_patch::PatchPyramid;
use firefly::void_map::map_tools::MapTools;
use firefly::void_map::octree::MapPoint;
use firefly::void_map::options::VoxelMapOptions;
use firefly::void_map::plane::{Six, VoxelPlane};
use firefly::void_map::plane_fit::Eigen;
use firefly::void_map::prior_map::PriorPlaneMap;
use firefly::void_map::voxel::VoxelMap;
use firefly::void_measure::noise::DepthNoise;
use firefly::void_measure::options::{
    DepthOptions, PriorOptions, RelocalizeOptions, VisualOptions, INIT_INV_EXPO,
};
use firefly::void_measure::outlier::{chi2_gate, huber_weight, GateVerdict};
use firefly::void_measure::planar::{
    judge_point, match_plane, point_plane_residual, PlaneQuery,
};
use firefly::void_measure::plane_update::{
    build_rows, count_matches, effective_count, rotation_lever, DepthDiag, DepthMeasurement,
    PlaneResidual, PlaneTools, PointMatch, ResidualRows, Scan,
};
use firefly::void_measure::prior_update::{PriorDiag, PriorPlaneMeasurement};
use firefly::void_measure::relocalize::{
    align, map_plane, relocalize_guess, AlignCandidate, AlignRound, Draws, Guess, SplitMix64,
};
use firefly::void_measure::sim_depth_noise::{
    BASELINE, DEPTH_FOCAL, DEPTH_NOISE, SIGMA_DISP_COEFF,
};
use firefly::void_measure::visual_read::{PatchPoint, ReadTools, Shot};
use firefly::void_measure::visual_update;
use firefly::void_measure::visual_update::{
    interpolate, pixel_term, projection_jacobian, schedule, DepthImage, VisualMeasurement,
};
use firefly::void_types::so3;
use firefly::void_types::state::{State, DIM_STATE};
use firefly::void_types::visual::{GrayImage, Intrinsics};
use nalgebra::{
    DMatrix, Isometry3, Matrix2, Matrix3, Matrix6, Point3, Quaternion, Rotation3, SMatrix, SVector, Translation3, Unit, UnitQuaternion, Vector2, Vector3,
};

/// A visual point as a camera sees it.
#[derive(Debug, Clone)]
struct VisualPointView {
    pos: Vector3<f64>,
    normal: Vector3<f64>,
    ref_patch: PatchPyramid,
    ref_pose: Isometry3<f64>,
    ref_inv_expo: f64,
    px: Vector2<f64>,
}

type Two = fn(Double, Double) -> Double;

fn d(x: f64) -> Double {
    Double::from_bits(x.to_bits())
}

fn f(x: Double) -> f64 {
    f64::from_bits(x.bits)
}

fn plus(a: Double, b: Double) -> Double {
    d(f(a) + f(b))
}

fn minus(a: Double, b: Double) -> Double {
    d(f(a) - f(b))
}

fn times(a: Double, b: Double) -> Double {
    d(f(a) * f(b))
}

fn divide(a: Double, b: Double) -> Double {
    d(f(a) / f(b))
}

fn inverse(a: Double) -> Double {
    d(1.0 / f(a))
}

fn root(a: Double) -> Double {
    d(f(a).sqrt())
}

fn number(n: usize) -> Double {
    d(n as f64)
}

fn whole(n: i64) -> Double {
    d(n as f64)
}

fn sine(a: Double) -> Double {
    d(f(a).sin())
}

fn cosine(a: Double) -> Double {
    d(f(a).cos())
}

fn arccos(a: Double) -> Double {
    d(f(a).acos())
}

fn arctan(a: Double) -> Double {
    d(f(a).atan())
}

/// The length of a vector.
fn length(v: [Double; 3]) -> Double {
    d(to3(&v).norm())
}

fn to2(v: &[Double; 2]) -> Vector2<f64> {
    Vector2::new(f(v[0]), f(v[1]))
}

fn v3(v: &Vector3<f64>) -> [Double; 3] {
    [d(v.x), d(v.y), d(v.z)]
}

fn to3(v: &[Double; 3]) -> Vector3<f64> {
    Vector3::new(f(v[0]), f(v[1]), f(v[2]))
}

fn r9(m: &Matrix3<f64>) -> [Double; 9] {
    [0, 1, 2, 3, 4, 5, 6, 7, 8].map(|k| d(m[(k / 3, k % 3)]))
}

fn to9(r: &[Double; 9]) -> Matrix3<f64> {
    Matrix3::from_fn(|i, j| f(r[3 * i + j]))
}

fn to_lib(m: &DMatrix<f64>) -> Matrix {
    let mut out = Matrix::filled(m.nrows(), m.ncols(), Double::zero());
    for i in 0..m.nrows() {
        for j in 0..m.ncols() {
            out.set(i, j, d(m[(i, j)]));
        }
    }
    out
}

fn from_lib(m: &Matrix) -> DMatrix<f64> {
    DMatrix::from_fn(m.nrows(), m.ncols(), |i, j| f(m.get(i, j)))
}

fn from3(m: &Matrix) -> Matrix3<f64> {
    Matrix3::from_fn(|i, j| f(m.get(i, j)))
}

fn reals(v: &[Double]) -> Vec<f64> {
    v.iter().map(|x| f(*x)).collect()
}

/// A pose as a unit quaternion, real part last, and a translation.
fn pose7(p: &Isometry3<f64>) -> [Double; 7] {
    let q = p.rotation.coords;
    let t = p.translation.vector;
    [d(q[0]), d(q[1]), d(q[2]), d(q[3]), d(t[0]), d(t[1]), d(t[2])]
}

fn to_pose(p: &[Double; 7]) -> Isometry3<f64> {
    let q = Quaternion::new(f(p[3]), f(p[0]), f(p[1]), f(p[2]));
    Isometry3::from_parts(
        Translation3::new(f(p[4]), f(p[5]), f(p[6])),
        UnitQuaternion::new_unchecked(q),
    )
}

/// The inverse of a matrix, if there is one.
fn try_inverse(m: &Matrix) -> Option<Matrix> {
    from_lib(m).try_inverse().map(|i| to_lib(&i))
}

fn skew(v: &Vector3<f64>) -> Matrix3<f64> {
    from3(&so3::skew(&v3(v)))
}

/// The rotation by a vector.
fn exp(ang: Vector3<f64>) -> Matrix3<f64> {
    from3(&so3::exp(&v3(&ang), &length, &sine, &cosine, &plus, &times, &divide))
}

/// The rotation by an angular velocity over a time.
fn exp_dt(ang_vel: Vector3<f64>, dt: Double) -> Matrix3<f64> {
    from3(&so3::exp_dt(&v3(&ang_vel), dt, &length, &sine, &cosine, &plus, &times, &divide))
}

/// The vector of a rotation.
fn log(rot: &Matrix3<f64>) -> Vector3<f64> {
    to3(&so3::log(&r9(rot), &arccos, &sine, &plus, &times, &divide))
}

/// The left Jacobian of the exponential.
fn left_jacobian(ang: Vector3<f64>) -> Matrix3<f64> {
    from3(&so3::left_jacobian(&v3(&ang), &length, &sine, &cosine, &plus, &times, &divide))
}

/// A rotation turned by a vector, entry by entry.
fn turn(rot: [Double; 9], by: [Double; 3]) -> [Double; 9] {
    r9(&(to9(&rot) * exp(to3(&by))))
}

/// The vector that turns one rotation into another.
fn between(from: [Double; 9], to: [Double; 9]) -> [Double; 3] {
    v3(&log(&(to9(&from).transpose() * to9(&to))))
}

/// A point moved by a pose.
fn transform_point(pose: &Isometry3<f64>, p: &Vector3<f64>) -> Vector3<f64> {
    pose.transform_point(&Point3::from(*p)).coords
}

fn map_point(p: &Vector3<f64>, cov: &Matrix3<f64>) -> MapPoint {
    MapPoint { position: v3(p), covariance: r9(cov) }
}

/// Eigenvalues and eigenvectors of a covariance.
fn decompose(m: [Double; 9]) -> Eigen {
    let eig = to9(&m).symmetric_eigen();
    let v = eig.eigenvalues;
    Eigen { values: v3(&v), vectors: r9(&eig.eigenvectors) }
}

/// The functions that a map is made with.
fn map_tools() -> MapTools<
    fn([Double; 9]) -> Eigen,
    fn(usize) -> Double,
    fn(i64) -> Double,
    fn([Double; 3]) -> Double,
    Two,
    Two,
    Two,
    fn(Double) -> Double,
> {
    MapTools { decompose, number, whole, length, plus, times, divide, root }
}

/// Registers points in a map; `covs` are their covariances.
fn register_points(
    map: &mut VoxelMap,
    points: &[Vector3<f64>],
    covs: &[Matrix3<f64>],
    camera_pos: &Vector3<f64>,
) {
    assert_eq!(points.len(), covs.len(), "one covariance for each point");
    let opts = *map.options();
    assert!(opts.layer_init_num.iter().all(|n| *n >= 2), "a plane needs three points");
    let listed: Vec<MapPoint> = points.iter().zip(covs).map(|(p, c)| map_point(p, c)).collect();
    map.register_points(&listed, &v3(camera_pos), &map_tools());
}

fn root_at<'a>(
    map: &'a VoxelMap,
    p: &Vector3<f64>,
) -> Option<&'a firefly::void_map::octree::OctoNode> {
    map.root_at(&v3(p), &divide)
}

/// The pixel of a point in the camera's frame.
fn project(k: &Intrinsics, p_cam: &Vector3<f64>) -> Option<Vector2<f64>> {
    k.project(&v3(p_cam), &plus, &times, &inverse).map(|px| to2(&px))
}

/// A fixed map of given planes.
fn from_planes(planes: Vec<VoxelPlane>) -> PriorPlaneMap {
    PriorPlaneMap::from_planes(planes, &plus, &divide)
}

/// A state that can be copied.
#[derive(Debug, Clone, Copy)]
struct Nav {
    vectors: [[Double; 3]; 5],
    rot: [Double; 9],
    inv_expo_time: Double,
    cov: [[f64; DIM_STATE]; DIM_STATE],
}

fn nav(s: &State) -> Nav {
    let mut cov = [[0.0; DIM_STATE]; DIM_STATE];
    for (i, row) in cov.iter_mut().enumerate() {
        for (j, c) in row.iter_mut().enumerate() {
            *c = f(s.cov.get(i, j));
        }
    }
    Nav {
        vectors: [s.pos, s.vel, s.bias_g, s.bias_a, s.gravity],
        rot: s.rot,
        inv_expo_time: s.inv_expo_time,
        cov,
    }
}

fn state(n: &Nav) -> State {
    State {
        rot: n.rot,
        pos: n.vectors[0],
        vel: n.vectors[1],
        bias_g: n.vectors[2],
        bias_a: n.vectors[3],
        gravity: n.vectors[4],
        inv_expo_time: n.inv_expo_time,
        cov: to_lib(&DMatrix::from_fn(DIM_STATE, DIM_STATE, |i, j| n.cov[i][j])),
    }
}

/// The error that leads from one state to another.
fn apart(to: &State, from: &State) -> Vec<Double> {
    to.boxminus(from, &between, &minus)
}

/// What the rows of a measurement say.
fn informed(rows: &ResidualRows) -> Information {
    information(&rows.z, &rows.h, &rows.r, &plus, &times, &inverse)
}

type One = fn(Double) -> Double;
type Length = fn([Double; 3]) -> Double;
type Turn = fn([Double; 9], [Double; 3]) -> [Double; 9];
type Between = fn([Double; 9], [Double; 9]) -> [Double; 3];
type Invert = fn(&Matrix) -> Option<Matrix>;

/// Updates a state with a measurement.
fn run<M: MeasurementModel>(
    updater: &EskfUpdater,
    model: &M,
    s: &mut State,
) -> Result<(usize, bool), UpdateError> {
    let tools: Tools<Invert, One, Length, Turn, Between, Two, Two, Two> =
        Tools { invert: try_inverse, root, length, turn, log: between, plus, minus, times };
    updater.update(model, s, &tools)
}

/// The noise of a camera's depth points.
fn noise_of(opts: &DepthOptions, fx: Double, fy: Double) -> DepthNoise {
    DepthNoise::from_intrinsics(opts, fx, fy, &arctan, &plus, &times, &divide)
}

/// The covariance of a point in the camera's frame.
fn point_covariance(noise: &DepthNoise, p_cam: &Vector3<f64>) -> Matrix3<f64> {
    from3(&noise.point_covariance(&v3(p_cam), &length, &plus, &times, &divide, &root))
}

fn exponential(x: Double) -> Double {
    d(f(x).exp())
}

type Count = fn(usize) -> Double;

fn plane_tools() -> PlaneTools<Two, Two, Two, One, One, Count> {
    PlaneTools { plus, times, divide, root, exp: exponential, number }
}

/// The points of a depth frame, from a sensor that sits in the body as `ext` says.
fn scan(points: &[Vector3<f64>], covs: &[Matrix3<f64>], ext: &Isometry3<f64>) -> Scan {
    assert_eq!(points.len(), covs.len(), "one covariance for each point");
    assert!(points.len().checked_mul(DIM_STATE).is_some(), "too many points");
    Scan {
        points: points.iter().map(v3).collect(),
        covs: covs.iter().map(r9).collect(),
        rot: r9(&ext.rotation.to_rotation_matrix().into_inner()),
        pos: v3(&ext.translation.vector),
    }
}

/// A depth frame against the planes of the growing map.
struct DepthModel<'a> {
    inner: RefCell<DepthMeasurement<'a>>,
}

impl<'a> DepthModel<'a> {
    fn new(map: &'a VoxelMap, scan: Scan, opts: DepthOptions) -> Self {
        Self { inner: RefCell::new(DepthMeasurement::new(map, scan, opts)) }
    }

    /// Residual, derivatives and variances at a state.
    fn build(&self, x: &State) -> ResidualRows {
        self.inner.borrow_mut().build(x, &plane_tools())
    }

    fn effective_count(&self, x: &State) -> usize {
        self.inner.borrow_mut().effective_count(x, &plane_tools())
    }

    fn last_diag(&self) -> DepthDiag {
        self.inner.borrow().last_diag()
    }
}

impl MeasurementModel for DepthModel<'_> {
    fn dim(&self) -> usize {
        self.inner.borrow().dim()
    }

    fn information(&self, x: &State) -> Information {
        informed(&self.build(x))
    }
}

/// A depth frame against the planes of a fixed map.
struct PriorModel<'a> {
    inner: RefCell<PriorPlaneMeasurement<'a>>,
}

impl<'a> PriorModel<'a> {
    fn new(map: &'a PriorPlaneMap, scan: Scan, opts: PriorOptions) -> Self {
        Self { inner: RefCell::new(PriorPlaneMeasurement::new(map, scan, opts)) }
    }

    /// Residual, derivatives and variances at a state.
    fn build(&self, x: &State) -> ResidualRows {
        self.inner.borrow_mut().build(x, &plane_tools())
    }

    fn effective_count(&self, x: &State) -> usize {
        self.inner.borrow_mut().effective_count(x, &plane_tools())
    }

    fn last_diag(&self) -> PriorDiag {
        self.inner.borrow().last_diag()
    }
}

impl MeasurementModel for PriorModel<'_> {
    fn dim(&self) -> usize {
        self.inner.borrow().dim()
    }

    fn information(&self, x: &State) -> Information {
        informed(&self.build(x))
    }
}

/// The affine map between two views of a plane.
fn affine_warp(
    pose_cur: &Isometry3<f64>,
    pose_ref: &Isometry3<f64>,
    normal_ref: &Vector3<f64>,
    p_ref: &Vector3<f64>,
    k: &Intrinsics,
) -> Matrix2<f64> {
    let rel = pose_cur * pose_ref.inverse();
    let rot = r9(&rel.rotation.to_rotation_matrix().into_inner());
    let way = v3(&rel.translation.vector);
    let (n, p) = (v3(normal_ref), v3(p_ref));
    let w = visual_update::affine_warp(&rot, &way, &n, &p, k, &try_inverse, &plus, &times, &divide);
    Matrix2::new(f(w[0]), f(w[1]), f(w[2]), f(w[3]))
}

/// The grey value between pixels; none outside the image.
fn bilinear_sample(image: &GrayImage, u: f64, v: f64) -> Option<f64> {
    if image.width() == 0 || image.height() == 0 {
        return None;
    }
    visual_update::bilinear_sample(image, d(u), d(v), &number, &plus, &times).map(f)
}

/// The slope of the grey values.
fn image_gradient(image: &GrayImage, u: f64, v: f64) -> Vector2<f64> {
    assert!(image.width() > 0 && image.height() > 0, "the image has pixels");
    assert!(u < 9.2e18 && v < 9.2e18, "the pixel is near the image");
    to2(&visual_update::image_gradient(image, d(u), d(v), &whole, &plus, &times))
}

/// A value between the samples of a patch.
fn sample_patch_bilinear(data: &Vec<Double>, size: usize, x: f64, y: f64) -> f64 {
    assert!(size > 0 && data.len() == size * size, "the patch is square");
    f(visual_update::sample_patch_bilinear(data, size, d(x), d(y), &number, &plus, &times))
}

/// The pose of the camera, from the world to it.
fn cam_pose_from_state(x: &State) -> Isometry3<f64> {
    let r_cw = to9(&x.rot).transpose();
    Isometry3::from_parts(
        Translation3::from(-r_cw * to3(&x.pos)),
        UnitQuaternion::from_rotation_matrix(&Rotation3::from_matrix_unchecked(r_cw)),
    )
}

/// The affine maps of the reference patches into the view.
fn compute_warps(points: &[VisualPointView], x: &State, k: &Intrinsics) -> Vec<Matrix2<f64>> {
    let pose = cam_pose_from_state(x);
    points
        .iter()
        .map(|p| {
            let p_ref = transform_point(&p.ref_pose, &p.pos);
            let n_ref = p.ref_pose.rotation.inverse() * p.normal;
            affine_warp(&pose, &p.ref_pose, &n_ref, &p_ref, k)
        })
        .collect()
}

/// The reference patches as the view should show them.
fn compute_warp_patches(
    points: &[VisualPointView],
    warps: &[Matrix2<f64>],
    size: usize,
    level: usize,
) -> Vec<Vec<f64>> {
    let half = (size / 2) as f64;
    let scale = (1usize << level) as f64;
    points
        .iter()
        .zip(warps)
        .map(|(point, a)| {
            let a_inv = a.try_inverse().unwrap_or_else(Matrix2::identity);
            let sub = |x: f64| (x - (x / scale).floor() * scale) / scale;
            let (su, sv) = (sub(point.px[0]), sub(point.px[1]));
            let data = point.ref_patch.level_at(level);
            let mut out = Vec::with_capacity(size * size);
            for y in 0..size {
                for x in 0..size {
                    let off = a_inv * Vector2::new(x as f64 - half, y as f64 - half);
                    out.push(sample_patch_bilinear(data, size, half + su + off[0], half + sv + off[1]));
                }
            }
            out
        })
        .collect()
}

type Index = fn(i64) -> Double;

/// Visual points against one level of an image.
struct VisualModel<'a> {
    image: &'a GrayImage,
    points: Vec<VisualPointView>,
    depth: Option<(&'a [f64], usize, usize)>,
    k: Intrinsics,
    opts: VisualOptions,
    level: usize,
    warp_patches: Vec<Vec<f64>>,
}

impl<'a> VisualModel<'a> {
    fn new(
        image: &'a GrayImage,
        points: Vec<VisualPointView>,
        warp_patches: Vec<Vec<f64>>,
        k: Intrinsics,
        opts: VisualOptions,
        level: usize,
    ) -> Self {
        Self { image, points, depth: None, k, opts, level, warp_patches }
    }

    /// With a depth image that shows what is hidden.
    fn with_depth(mut self, depth: &'a [f64], width: usize, height: usize) -> Self {
        self.depth = Some((depth, width, height));
        self
    }

    fn patch_size(&self) -> usize {
        visual_update::patch_size(self.points.first().map(|p| p.ref_patch.patch_size), &self.opts)
    }

    /// What the points say at a state.
    fn measurement(&self, x: &State) -> VisualMeasurement {
        let depth = self.depth.map(|(data, width, height)| {
            assert_eq!(data.len(), width * height, "the depth image has its size");
            DepthImage { depth: data.iter().map(|z| d(*z)).collect(), width, height }
        });
        let size = self.patch_size();
        let rows = size.checked_mul(size).and_then(|n| n.checked_mul(self.points.len()));
        assert!(rows.and_then(|n| n.checked_mul(DIM_STATE)).is_some(), "too many pixels");
        let side = |n: usize| n > 0 && i64::try_from(n).is_ok();
        assert!(side(self.image.width()) && side(self.image.height()), "the image has pixels");
        let tools: ReadTools<Two, Two, Two, One, Length, Count, Index> =
            ReadTools { plus, times, divide, inverse, length, number, whole };
        let (rot, pos) = tools.camera_pose(x);
        let shot = Shot {
            image: self.image,
            depth,
            camera: self.k,
            rot,
            pos,
            exposure: x.inv_expo_time,
            scale: d((1usize << self.level) as f64),
            jump: self.opts.depth_discontinuity_thresh,
        };
        let read = |(p, patch): (&VisualPointView, &Vec<f64>)| {
            let patch = patch.iter().map(|z| d(*z)).collect();
            let point =
                PatchPoint { pos: v3(&p.pos), normal: v3(&p.normal), exposure: d(p.ref_inv_expo), patch };
            tools.read(&shot, &point, size)
        };
        VisualMeasurement {
            points: self.points.iter().zip(&self.warp_patches).map(read).collect(),
            patch_size: size,
            opts: self.opts,
            limit: d(f(self.opts.outlier_threshold) * (size * size) as f64),
        }
    }

    /// Residual, derivatives and variances at a state.
    fn residual(&self, x: &State) -> ResidualRows {
        self.measurement(x).level_residual(&plus, &times)
    }

    fn effective_count(&self, x: &State) -> usize {
        self.measurement(x).effective_count(&plus, &times)
    }

    /// Updates a state from the coarsest level to the finest.
    fn pyramid_update(
        image: &'a GrayImage,
        points: &[VisualPointView],
        depth: Option<(&'a [f64], usize, usize)>,
        k: Intrinsics,
        opts: VisualOptions,
        x: &mut State,
    ) -> Result<usize, UpdateError> {
        let most = opts.pyramid_level.checked_add(2).and_then(|n| n.checked_mul(opts.max_iterations));
        assert!(most.is_some(), "too many iterations");
        let size = visual_update::patch_size(points.first().map(|p| p.ref_patch.patch_size), &opts);
        let level_run = |level: usize, n: Nav| -> Result<(Nav, usize), UpdateError> {
            let mut s = state(&n);
            let warps = compute_warps(points, &s, &k);
            let patches = compute_warp_patches(points, &warps, size, level);
            let mut model = Self::new(image, points.to_vec(), patches, k, opts, level);
            model.depth = depth;
            let updater = EskfUpdater::new(opts.max_iterations, visual_convergence())
                .with_error_descent_acceptance();
            let (iters, _) = run(&updater, &model, &mut s)?;
            Ok((nav(&s), iters))
        };
        let mut n = nav(x);
        let total =
            VisualMeasurement::pyramid_update(!points.is_empty(), &opts, &mut n, &level_run)?;
        *x = state(&n);
        Ok(total)
    }
}

impl MeasurementModel for VisualModel<'_> {
    fn dim(&self) -> usize {
        self.points.len() * self.patch_size() * self.patch_size()
    }

    fn information(&self, x: &State) -> Information {
        let r_inv = d(1.0 / f(self.opts.img_point_cov));
        self.measurement(x).level_information(r_inv, &plus, &times)
    }
}

/// Points to be aligned with the planes of a map.
struct PointPlaneAlign<'a> {
    map: &'a VoxelMap,
    cloud: Vec<Vector3<f64>>,
}

impl<'a> PointPlaneAlign<'a> {
    fn new(map: &'a VoxelMap, cloud: Vec<Vector3<f64>>) -> Self {
        Self { map, cloud }
    }

    fn plane_at(&self, p: &Vector3<f64>) -> Option<&'a VoxelPlane> {
        let root = root_at(self.map, p)?;
        let mut planes = Vec::new();
        root.collect_planes(&mut planes);
        let candidates = planes
            .iter()
            .map(|pl| AlignCandidate {
                is_plane: pl.is_plane,
                distance: d((to3(&pl.center) - p).norm()),
                limit: d(f(pl.radius) * 3.0),
            })
            .collect();
        map_plane(&candidates).map(|i| planes[i])
    }

    fn distance(&self, p: &Vector3<f64>) -> Option<(f64, Vector3<f64>)> {
        let plane = self.plane_at(p)?;
        let dis = point_plane_residual(&plane.normal, &v3(p), &plane.center, &plus, &times);
        Some((f(dis), to3(&plane.normal)))
    }

    fn iterate(&self, pose: &Isometry3<f64>, weights: &[f64]) -> (f64, Vector3<f64>, Vector3<f64>) {
        let rot = pose.rotation.to_rotation_matrix().into_inner();
        let mut hth = SMatrix::<f64, 6, 6>::zeros();
        let mut htz = SVector::<f64, 6>::zeros();
        let mut total = 0.0;
        for (p_b, w) in self.cloud.iter().zip(weights) {
            let p_w = rot * p_b + pose.translation.vector;
            let Some((dis, normal)) = self.distance(&p_w) else {
                continue;
            };
            let mut row = SVector::<f64, 6>::zeros();
            row.fixed_rows_mut::<3>(0).copy_from(&(skew(p_b) * rot.transpose() * normal));
            row.fixed_rows_mut::<3>(3).copy_from(&normal);
            hth += *w * (row * row.transpose());
            htz += *w * (-dis) * row;
            total += dis * dis;
        }
        let Some(inverse) = hth.try_inverse() else {
            return (total, Vector3::zeros(), Vector3::zeros());
        };
        let delta = inverse * htz;
        (total, delta.fixed_rows::<3>(0).into_owned(), delta.fixed_rows::<3>(3).into_owned())
    }

    fn weights(&self, pose: &Isometry3<f64>) -> Vec<f64> {
        self.cloud
            .iter()
            .map(|p| {
                let dis = self.distance(&transform_point(pose, p)).map_or(0.0, |x| x.0);
                1.0 / (1.0 + dis * dis / 0.01)
            })
            .collect()
    }

    /// The aligned pose, and the sum of the squared distances that are left.
    fn align(&self, init: &Isometry3<f64>, max_iterations: usize) -> (f64, Isometry3<f64>) {
        let round = |pose: Isometry3<f64>, weighted: bool| {
            let weights =
                if weighted { self.weights(&pose) } else { vec![1.0; self.cloud.len()] };
            let (total, rot_inc, t_inc) = self.iterate(&pose, &weights);
            let rot = pose.rotation.to_rotation_matrix().into_inner() * exp(rot_inc);
            AlignRound {
                total: d(total),
                step: d((rot_inc.norm() + t_inc.norm()).max(1e-12)),
                next: Isometry3::from_parts(
                    Translation3::from(pose.translation.vector + t_inc),
                    UnitQuaternion::from_matrix(&rot),
                ),
            }
        };
        let (total, pose) = align(*init, max_iterations, &round);
        (f(total), pose)
    }
}

fn gaussian(a: u64, b: u64) -> f64 {
    let unit = |n: u64| n as f64 / (1u64 << 53) as f64;
    (-2.0 * unit(a).ln()).sqrt() * (2.0 * std::f64::consts::PI * unit(b)).cos()
}

fn gaussian_vec(draws: &[u64], cov: &Matrix3<f64>) -> Vector3<f64> {
    let l = cov.cholesky().map_or_else(|| Matrix3::identity() * 1e-3, nalgebra::Cholesky::unpack);
    l * Vector3::new(
        gaussian(draws[0], draws[1]),
        gaussian(draws[2], draws[3]),
        gaussian(draws[4], draws[5]),
    )
}

/// Guesses of the pose with their errors, the best first.
fn guess(
    map: &VoxelMap,
    cloud: &[Vector3<f64>],
    cov: &Matrix6<f64>,
    opts: &RelocalizeOptions,
) -> Vec<(f64, Isometry3<f64>)> {
    let pos_cov = cov.fixed_view::<3, 3>(3, 3).into_owned();
    let rot_cov = cov.fixed_view::<3, 3>(0, 0).into_owned();
    let aligner = PointPlaneAlign::new(map, cloud.to_vec());
    let one = |draws: Option<Draws>| {
        let init = match draws {
            None => Isometry3::identity(),
            Some(n) => {
                let rot = exp(gaussian_vec(&n[6..], &rot_cov));
                Isometry3::from_parts(
                    Translation3::from(gaussian_vec(&n[..6], &pos_cov)),
                    UnitQuaternion::from_rotation_matrix(&Rotation3::from_matrix_unchecked(rot)),
                )
            }
        };
        let (error, pose) = aligner.align(&init, opts.max_iterations);
        Guess { error: d(error), pose: pose7(&pose) }
    };
    relocalize_guess(opts, &one).iter().map(|g| (f(g.error), to_pose(&g.pose))).collect()
}

fn six(by: f64) -> Six {
    let mut m = Six::filled(Double::zero());
    (0..6).for_each(|i| m.set(i, i, d(by)));
    m
}

fn eye_pose() -> Isometry3<f64> {
    Isometry3::from_parts(Translation3::new(0.0, 0.0, 0.0), UnitQuaternion::identity())
}

fn rotated(axis: &Unit<Vector3<f64>>, angle: f64) -> [Double; 9] {
    r9(Rotation3::from_axis_angle(axis, angle).matrix())
}

/// The derivatives of a residual by differences.
fn numeric_h<F: Fn(&State) -> Vec<Double>>(x: &State, z: F, eps: f64) -> DMatrix<f64> {
    let m = z(x).len();
    let mut h = DMatrix::zeros(m, DIM_STATE);
    for j in 0..DIM_STATE {
        let mut dp = vec![d(0.0); DIM_STATE];
        dp[j] = d(eps);
        let zp = z(&x.boxplus(&dp, &turn, &plus));
        dp[j] = d(-eps);
        let zm = z(&x.boxplus(&dp, &turn, &plus));
        for i in 0..m {
            h[(i, j)] = (f(zp[i]) - f(zm[i])) / (2.0 * eps);
        }
    }
    h
}

fn used(rows: &ResidualRows) -> Vec<f64> {
    rows.z.iter().zip(&rows.r).filter(|(_, s)| f(**s) < 1e6).map(|(z, _)| f(*z)).collect()
}

fn grid20(z: f64) -> Vec<Vector3<f64>> {
    (0..400)
        .map(|i| Vector3::new(-0.2 + f64::from(i % 20) * 0.02, -0.2 + f64::from(i / 20) * 0.02, z))
        .collect()
}

fn map_with_plane_z1() -> VoxelMap {
    let mut map = VoxelMap::new(VoxelMapOptions::default());
    let cov = Matrix3::identity() * 1e-8;
    register_points(&mut map, &grid20(1.0), &vec![cov; 400], &Vector3::zeros());
    map
}

fn plane_points(n: usize) -> Vec<Vector3<f64>> {
    let side = (n as f64).sqrt().ceil() as usize;
    (0..n)
        .map(|i| {
            let x = -0.2 + (i % side) as f64 * 0.4 / side as f64;
            let y = -0.2 + (i / side) as f64 * 0.4 / side as f64;
            Vector3::new(x, y, 1.0)
        })
        .collect()
}

fn depth_model(map: &VoxelMap, pts: Vec<Vector3<f64>>) -> DepthModel<'_> {
    let covs = vec![Matrix3::identity() * 1e-8; pts.len()];
    DepthModel::new(map, scan(&pts, &covs, &eye_pose()), DepthOptions::default())
}

#[test]
fn chi2_gate_rejects_large_residual() {
    let gate = |z: f64, r: f64, k: f64| chi2_gate(d(z), d(r), d(k), &times, &root);
    assert_eq!(gate(0.1, 0.01, 3.0), GateVerdict::Inlier);
    assert_eq!(gate(0.5, 0.01, 3.0), GateVerdict::Outlier);
    assert_eq!(gate(1e9, 0.0, 3.0), GateVerdict::Inlier);
}

#[test]
fn huber_weights() {
    let weight = |r: f64, delta: f64| f(huber_weight(d(r), d(delta), &divide));
    assert!((weight(0.5, 1.0) - 1.0).abs() < 1e-12);
    assert!((weight(2.0, 1.0) - 0.5).abs() < 1e-12);
    assert!((weight(1e6, f64::INFINITY) - 1.0).abs() < 1e-12);
}

#[test]
fn point_plane_residual_zero_on_plane() {
    let n = v3(&Vector3::z_axis().into_inner());
    let c = v3(&Vector3::new(0.0, 0.0, 1.0));
    let off = |x: f64, y: f64, z: f64| {
        f(point_plane_residual(&n, &v3(&Vector3::new(x, y, z)), &c, &plus, &times))
    };
    assert!(off(0.1, -0.2, 1.0).abs() < 1e-12);
    assert!((off(0.1, -0.2, 1.05) - 0.05).abs() < 1e-12);
}

#[test]
fn plane_update_residual_zero_at_truth_pose() {
    let map = map_with_plane_z1();
    let model = depth_model(&map, plane_points(64));
    let rows = model.build(&State::default());
    assert_eq!(rows.z.len(), 64);
    let valid = used(&rows);
    assert!(!valid.is_empty());
    assert!(valid.iter().all(|v| v.abs() < 1e-6), "{valid:?}");
    assert_eq!(rows.h.nrows(), rows.z.len());
    assert_eq!(rows.h.ncols(), DIM_STATE);
    assert_eq!(rows.r.len(), rows.z.len());
    assert_eq!(model.dim(), 64);
    assert_eq!(model.effective_count(&State::default()), valid.len());
    let diag = model.last_diag();
    assert_eq!(diag.total, 64);
    assert_eq!(diag.kept, valid.len());
    assert_eq!(diag.no_plane + diag.chi2_rejected + diag.kept, 64);
}

#[test]
fn plane_update_jacobian_matches_finite_difference() {
    let map = map_with_plane_z1();
    let model = depth_model(&map, plane_points(64));
    let x = State {
        pos: v3(&Vector3::new(0.05, -0.02, 0.01)),
        rot: rotated(&Vector3::y_axis(), 0.03),
        ..State::default()
    };
    let h = from_lib(&model.build(&x).h);
    let num = numeric_h(&x, |s| model.build(s).z, 1e-6);
    let err = (&h - &num).norm() / (h.norm() + 1e-12);
    assert!(err < 1e-6, "{err}");
}

fn sigma_at(noise: &DepthNoise, z: f64) -> f64 {
    f(noise.range_sigma(d(z), &plus, &times, &root))
}

#[test]
fn range_sigma_grows_with_z_squared() {
    let noise = DepthNoise::new(&DepthOptions::default(), d(0.001));
    let (s1, s2, s4) = (sigma_at(&noise, 1.0), sigma_at(&noise, 2.0), sigma_at(&noise, 4.0));
    assert!(s2 > s1 * 2.0, "{s1} {s2}");
    assert!(s4 > s2 * 2.5, "{s2} {s4}");
    let of = |bits: u64| f64::from_bits(bits);
    let expect = of(SIGMA_DISP_COEFF) * of(DEPTH_NOISE) / (of(DEPTH_FOCAL) * of(BASELINE));
    assert!(s1 > expect && s1 < 0.03, "{s1} {expect}");
    assert!((s1 - (expect * expect + 0.0004).sqrt()).abs() < 1e-12);
}

#[test]
fn point_covariance_grows_with_depth() {
    let noise = DepthNoise::new(&DepthOptions::default(), d(0.001));
    let c1 = point_covariance(&noise, &Vector3::new(0.1, 0.1, 1.0));
    let c3 = point_covariance(&noise, &Vector3::new(0.1, 0.1, 3.0));
    assert!(c3.trace() > c1.trace() * 5.0);
    assert!((c1 - c1.transpose()).norm() < 1e-12);
    assert!((c3 - c3.transpose()).norm() < 1e-12);
    assert!(c1.determinant() > 0.0);
    assert!(c3.determinant() > 0.0);
}

#[test]
fn from_intrinsics_pixel_angle() {
    let noise = noise_of(&DepthOptions::default(), d(300.0), d(300.0));
    let expect: f64 = 0.5 * ((0.5_f64 / 300.0).atan() + (0.5_f64 / 300.0).atan());
    let c = point_covariance(&noise, &Vector3::new(0.0, 0.0, 1.0));
    let tangential = 0.5 * (c[(0, 0)] + c[(1, 1)]);
    assert!((tangential.sqrt() - expect).abs() < 1e-3);
    assert_eq!(f(noise.angle_sigma), expect);
}

#[test]
fn noise_grows_with_depth() {
    let noise = noise_of(&DepthOptions::default(), d(300.0), d(300.0));
    let near = point_covariance(&noise, &Vector3::new(0.1, 0.1, 1.0));
    let far = point_covariance(&noise, &Vector3::new(0.1, 0.1, 3.0));
    assert!(far.trace() > near.trace() * 5.0);
}

#[test]
fn a_level_ray_has_its_own_axes() {
    let noise = DepthNoise::new(&DepthOptions::default(), d(0.001));
    let c = point_covariance(&noise, &Vector3::new(0.0, 2.0, 0.0));
    let sigma = sigma_at(&noise, 2.0);
    assert!((c[(1, 1)] - sigma * sigma).abs() < 1e-12);
    assert!((c[(0, 0)] - 4e-6).abs() < 1e-15 && (c[(2, 2)] - 4e-6).abs() < 1e-15);
}

#[test]
fn exp_log_roundtrip() {
    for w in [
        Vector3::new(1e-8, 0.0, 0.0),
        Vector3::new(0.2, -0.5, 0.8),
        Vector3::new(1.2, 1.5, -0.6),
    ] {
        let err = (log(&exp(w)) - w).norm();
        assert!(err < 1e-7, "roundtrip err={err}");
    }
}

#[test]
fn exp_dt_matches_exp_scaled() {
    let w = Vector3::new(0.3, -0.2, 0.5);
    let dt = 0.1;
    let a = exp_dt(w, d(dt));
    let b = exp(w * dt);
    for i in 0..3 {
        for j in 0..3 {
            assert!((a[(i, j)] - b[(i, j)]).abs() < 1e-12);
        }
    }
}

#[test]
fn left_jacobian_small_angle() {
    let j = left_jacobian(Vector3::new(1e-9, 0.0, 0.0));
    for i in 0..3 {
        for jj in 0..3 {
            assert!((j[(i, jj)] - if i == jj { 1.0 } else { 0.0 }).abs() < 1e-6);
        }
    }
    let w = Vector3::new(0.4, -0.2, 0.6);
    let theta: f64 = w.norm();
    let axis = w / theta;
    let k = skew(&axis);
    let expect = theta.sin() / theta * Matrix3::identity()
        + (1.0 - theta.sin() / theta) * (axis * axis.transpose())
        + (1.0 - theta.cos()) / theta * k;
    let j = left_jacobian(w);
    for i in 0..3 {
        for jj in 0..3 {
            assert!((j[(i, jj)] - expect[(i, jj)]).abs() < 1e-12);
        }
    }
}

#[test]
fn a_quarter_turn_about_an_axis() {
    let r = exp(Vector3::new(0.0, 0.0, std::f64::consts::FRAC_PI_2));
    let expect = Matrix3::new(0.0, -1.0, 0.0, 1.0, 0.0, 0.0, 0.0, 0.0, 1.0);
    assert!((r - expect).norm() < 1e-12);
    assert!((log(&r) - Vector3::new(0.0, 0.0, std::f64::consts::FRAC_PI_2)).norm() < 1e-12);
    assert_eq!(exp(Vector3::new(1e-7, 0.0, 0.0)), Matrix3::identity());
}

fn fixed_plane(center: Vector3<f64>, normal: Vector3<f64>, radius: f64) -> VoxelPlane {
    VoxelPlane {
        center: v3(&center),
        normal: v3(&normal),
        d: d(-normal.dot(&center)),
        plane_var: six(1e-8),
        covariance: r9(&(Matrix3::identity() * radius)),
        radius: d(radius),
        eigen_min: d(1e-6),
        eigen_mid: d(radius * radius),
        eigen_max: d(radius * radius),
        points_count: 50,
        is_plane: true,
        is_mature: true,
    }
}

fn points_on_plane(n: usize, center: Vector3<f64>, normal: Vector3<f64>) -> Vec<Vector3<f64>> {
    let t1 = if normal[0].abs() < 0.9 {
        normal.cross(&Vector3::new(1.0, 0.0, 0.0))
    } else {
        normal.cross(&Vector3::new(0.0, 1.0, 0.0))
    }
    .normalize();
    let t2 = normal.cross(&t1).normalize();
    let side = (n as f64).sqrt().ceil() as usize;
    (0..n)
        .map(|i| {
            let a = -0.2 + (i % side) as f64 * 0.4 / side as f64;
            let b = -0.2 + (i / side) as f64 * 0.4 / side as f64;
            center + t1 * a + t2 * b
        })
        .collect()
}

fn prior_model(map: &PriorPlaneMap, pts: Vec<Vector3<f64>>) -> PriorModel<'_> {
    let covs = vec![Matrix3::identity() * 1e-8; pts.len()];
    PriorModel::new(map, scan(&pts, &covs, &eye_pose()), PriorOptions::default())
}

fn up() -> Vector3<f64> {
    Vector3::new(0.0, 0.0, 1.0)
}

fn drifted_state(pos: Vector3<f64>) -> State {
    let mut cov = DMatrix::identity(DIM_STATE, DIM_STATE) * 1e-4;
    cov[(6, 6)] = 1e-5;
    for i in 10..19 {
        cov[(i, i)] = 1e-5;
    }
    State { pos: v3(&pos), cov: to_lib(&cov), ..State::default() }
}

fn mean(v: &[f64]) -> f64 {
    v.iter().sum::<f64>() / v.len().max(1) as f64
}

#[test]
fn prior_update_residual_zero_at_truth_pose() {
    let map = from_planes(vec![fixed_plane(up(), up(), 0.4)]);
    let rows = prior_model(&map, points_on_plane(64, up(), up())).build(&State::default());
    assert_eq!(rows.z.len(), 64);
    let valid = used(&rows);
    assert!(!valid.is_empty());
    assert!(valid.iter().all(|v| v.abs() < 1e-6), "{valid:?}");
    assert_eq!(rows.h.nrows(), 64);
    assert_eq!(rows.h.ncols(), DIM_STATE);
}

#[test]
fn prior_update_jacobian_matches_finite_difference() {
    let map = from_planes(vec![fixed_plane(up(), up(), 0.4)]);
    let model = prior_model(&map, points_on_plane(64, up(), up()));
    let x = State {
        pos: v3(&Vector3::new(0.05, -0.02, 0.01)),
        rot: rotated(&Vector3::y_axis(), 0.03),
        ..State::default()
    };
    let h = from_lib(&model.build(&x).h);
    let num = numeric_h(&x, |s| model.build(s).z, 1e-6);
    let err = (&h - &num).norm() / (h.norm() + 1e-12);
    assert!(err < 1e-6, "{err}");
}

#[test]
fn esikf_pulls_drift_back_to_prior_wall() {
    let center = Vector3::new(1.0, 0.0, 0.5);
    let normal = Vector3::new(1.0, 0.0, 0.0);
    let map = from_planes(vec![fixed_plane(center, normal, 0.5)]);
    let model = prior_model(&map, points_on_plane(100, center, normal));
    let mut drifted = drifted_state(Vector3::new(-0.01, 0.0, 0.0));
    let kept = used(&model.build(&drifted));
    assert!(!kept.is_empty());
    assert!((mean(&kept) + 0.01).abs() < 0.005, "{}", mean(&kept));
    let updater = EskfUpdater::new(10, (d(1e-6), d(1e-6)));
    let (iters, _) = run(&updater, &model, &mut drifted).unwrap();
    assert!(iters >= 1);
    assert!(f(drifted.pos[0]).abs() < 5e-3, "{}", f(drifted.pos[0]));
    let kept = used(&model.build(&drifted));
    assert!(!kept.is_empty());
    assert!(mean(&kept).abs() < 5e-3, "{}", mean(&kept));
}

#[test]
fn esikf_pulls_drift_back_to_prior_ground() {
    let map = from_planes(vec![fixed_plane(up(), up(), 0.5)]);
    let model = prior_model(&map, points_on_plane(100, up(), up()));
    let mut drifted = drifted_state(Vector3::new(0.0, 0.0, -0.01));
    let kept = used(&model.build(&drifted));
    assert!(!kept.is_empty());
    assert!((mean(&kept) + 0.01).abs() < 0.005, "{}", mean(&kept));
    let updater = EskfUpdater::new(10, (d(1e-6), d(1e-6)));
    run(&updater, &model, &mut drifted).unwrap();
    assert!(f(drifted.pos[2]).abs() < 5e-3, "{}", f(drifted.pos[2]));
}

#[test]
fn chi2_rejects_distant_point() {
    let map = from_planes(vec![fixed_plane(up(), up(), 0.4)]);
    let model = prior_model(&map, vec![Vector3::new(0.0, 0.0, 0.7)]);
    let rows = model.build(&State::default());
    assert!(f(rows.r[0]) > 1e6, "{}", f(rows.r[0]));
    assert!(f(rows.z[0]).abs() < 1e-12, "{}", f(rows.z[0]));
    let diag = model.last_diag();
    assert_eq!(diag.kept, 0);
    assert_eq!(diag.chi2_rejected, 1);
    assert_eq!(model.effective_count(&State::default()), 0);
    assert_eq!(f(diag.residual_mean), 0.0);
}

#[test]
fn prior_diag_reports_kept_and_residual() {
    let map = from_planes(vec![fixed_plane(up(), up(), 0.4)]);
    let model = prior_model(&map, points_on_plane(64, up(), up()));
    model.build(&State::default());
    let diag = model.last_diag();
    assert_eq!(diag.kept, 64);
    assert_eq!(diag.no_plane, 0);
    assert_eq!(diag.chi2_rejected, 0);
    assert!(f(diag.residual_mean) < 1e-6);
    assert!((f(diag.sigma_mean) - 0.001).abs() < 1e-3, "{}", f(diag.sigma_mean));
}

#[test]
fn points_are_judged_by_distance_and_variance() {
    let mut plane = fixed_plane(up(), up(), 0.5);
    plane.plane_var = six(0.01);
    let judge = |plane: &VoxelPlane, p: &Vector3<f64>, cov: &Matrix3<f64>, k: Double, s: Double, by: Double| {
        judge_point(
            plane, &v3(p), &r9(cov), k, s, by, &plus, &times, &divide, &root, &exponential,
        )
    };
    let p = Vector3::new(0.3, 0.4, 1.2);
    let j = judge(&plane, &p, &(Matrix3::identity() * 0.02), d(3.0), d(2.0), d(4.0));
    assert!((f(j.distance) - 0.2).abs() < 1e-12);
    assert_eq!(j.abs_distance, j.distance);
    assert!((f(j.range) - 0.5).abs() < 1e-12);
    assert!((f(j.range_limit) - 1.5).abs() < 1e-12);
    // Of the plane 4 * 0.01 * (0.29 + 1), of the point 0.02, and the floor.
    let var = 0.04 * 1.29 + 0.02 + 0.001;
    assert!((f(j.variance) - var).abs() < 1e-12);
    assert!((f(j.bound) - 2.0 * var.sqrt()).abs() < 1e-12);
    assert!((f(j.probability) - (-0.02 / var).exp() / var.sqrt()).abs() < 1e-12);
    let below = judge(&plane, &Vector3::new(0.0, 0.0, 0.9), &Matrix3::zeros(), d(3.0), d(2.0), d(1.0));
    assert!((f(below.distance) + 0.1).abs() < 1e-12);
    assert!((f(below.abs_distance) - 0.1).abs() < 1e-12);
}

#[test]
fn the_lever_is_a_cross_product() {
    let rot = Rotation3::from_axis_angle(&Vector3::z_axis(), 0.5);
    let (p, n) = (Vector3::new(1.0, 2.0, 3.0), Vector3::new(0.6, 0.0, 0.8));
    let lever = rotation_lever(&v3(&p), &r9(rot.matrix()), &v3(&n), &plus, &times);
    assert!((to3(&lever) - p.cross(&(rot.inverse() * n))).norm() < 1e-12);
}

#[test]
fn pixels_know_how_they_change() {
    let k = Intrinsics::new(d(100.0), d(200.0), d(0.0), d(0.0));
    let p = Vector3::new(1.0, 2.0, 4.0);
    let j = projection_jacobian(&v3(&p), &k, &times, &inverse);
    assert_eq!(reals(&j), vec![25.0, 0.0, -6.25, 0.0, 50.0, -25.0]);
    let eye = r9(&Matrix3::identity());
    let g = [d(1.0), d(0.0)];
    let t = pixel_term(d(10.0), d(3.0), d(2.0), d(4.0), &g, &j, &v3(&p), &eye, &plus, &times);
    assert_eq!(f(t.value), 10.0);
    assert_eq!(f(t.residual), 8.0);
    assert_eq!(t.position.map(f), [-50.0, 0.0, 12.5]);
    // Twice the first row, times the cross product matrix of the point.
    assert_eq!(t.rotation.map(f), [25.0, -212.5, 100.0]);
    assert_eq!(f(interpolate(d(0.25), d(0.5), &[d(0.0), d(4.0), d(8.0), d(12.0)], &plus, &times)), 5.0);
}

#[test]
fn the_most_likely_plane_is_matched() {
    let planes: Vec<VoxelPlane> =
        [0.9, 0.99, 5.0].iter().map(|h| fixed_plane(up() * *h, up(), 1.0)).collect();
    let listed: Vec<&VoxelPlane> = planes.iter().collect();
    let query = |planes: &Vec<&VoxelPlane>, p: Vector3<f64>| {
        let cov = r9(&(Matrix3::identity() * 0.02));
        match_plane(
            planes, &v3(&p), &cov, d(3.0), d(3.0), d(1.0), &plus, &times, &divide, &root,
            &exponential,
        )
    };
    let PlaneQuery::Matched(normal, distance, variance) = query(&listed, up()) else {
        panic!("no match");
    };
    assert_eq!(normal, planes[1].normal);
    assert!((f(distance) - 0.01).abs() < 1e-12);
    assert!((f(variance) - 0.021).abs() < 1e-6);
    assert!(matches!(query(&listed, up() * 3.0), PlaneQuery::Chi2Rejected));
    assert!(matches!(query(&listed, Vector3::new(9.0, 0.0, 1.0)), PlaneQuery::NoPlane));
    assert!(matches!(query(&vec![], up()), PlaneQuery::NoPlane));
}

#[test]
fn a_scan_without_points_gives_no_rows() {
    let map = from_planes(vec![fixed_plane(up(), up(), 0.4)]);
    let rows = prior_model(&map, Vec::new()).build(&State::default());
    assert_eq!((rows.z.len(), rows.h.nrows()), (0, 0));
    let online = map_with_plane_z1();
    let rows = depth_model(&online, Vec::new()).build(&State::default());
    assert_eq!((rows.z.len(), rows.h.nrows()), (0, 0));
}

#[test]
fn rows_of_unmatched_points_say_nothing() {
    let residual = PlaneResidual {
        rotation: v3(&Vector3::new(1.0, 2.0, 3.0)),
        normal: v3(&Vector3::new(4.0, 5.0, 6.0)),
        distance: d(0.5),
        variance: d(0.25),
    };
    let matches =
        vec![PointMatch::NoPlane, PointMatch::Residual(residual), PointMatch::Chi2Rejected];
    let rows = build_rows(&matches);
    assert_eq!(reals(&rows.z), vec![0.0, 0.5, 0.0]);
    assert_eq!(reals(&rows.r), vec![1e12, 0.25, 1e12]);
    let h = from_lib(&rows.h);
    assert!(h.row(0).iter().all(|x| *x == 0.0));
    let row: Vec<f64> = h.row(1).iter().copied().collect();
    assert_eq!(&row[..7], &[1.0, 2.0, 3.0, 4.0, 5.0, 6.0, 0.0]);
    assert_eq!(effective_count(&rows.r), 1);
    let diag = count_matches(&matches);
    assert_eq!((diag.total, diag.no_plane, diag.chi2_rejected, diag.kept), (3, 1, 1, 1));
}

fn visual_k() -> Intrinsics {
    Intrinsics::new(d(300.0), d(300.0), d(160.0), d(120.0))
}

fn visual_opts() -> VisualOptions {
    VisualOptions {
        pyramid_level: 1,
        max_iterations: 5,
        convergence_eps: d(1e-6),
        img_point_cov: d(20_000.0),
        ..VisualOptions::default()
    }
}

fn smooth_image(width: usize, height: usize) -> GrayImage {
    let mut data = Vec::with_capacity(width * height);
    for y in 0..height {
        for x in 0..width {
            let u = x as f64 * 0.06;
            let v = y as f64 * 0.08;
            let value =
                120.0 + 60.0 * (u.sin() * v.cos() + 0.5 * (2.0 * u).sin() * (3.0 * v).sin());
            data.push(value.round().clamp(0.0, 255.0) as u8);
        }
    }
    GrayImage::new(width, height, data)
}

fn make_point(img: &GrayImage, pose: &Isometry3<f64>, pos: Vector3<f64>) -> VisualPointView {
    let px = project(&visual_k(), &transform_point(pose, &pos)).unwrap();
    let size = 11i64;
    let half = size / 2;
    let mut levels = Vec::with_capacity(3);
    for level in 0..3 {
        let scale = f64::from(1 << level);
        let mut data = Vec::new();
        for y in 0..size {
            for x in 0..size {
                let u = px[0] + (x - half) as f64 * scale;
                let v = px[1] + (y - half) as f64 * scale;
                data.push(d(bilinear_sample(img, u, v).unwrap_or(0.0)));
            }
        }
        levels.push(data);
    }
    VisualPointView {
        pos,
        normal: -Vector3::z_axis().into_inner(),
        ref_patch: PatchPyramid { levels, scale: vec![1, 2, 4], patch_size: 11 },
        ref_pose: *pose,
        ref_inv_expo: f64::from_bits(INIT_INV_EXPO),
        px,
    }
}

fn visual_grid(img: &GrayImage, n: i32, side: i32, start: f64, gap: f64) -> Vec<VisualPointView> {
    (0..n)
        .map(|i| {
            let x = start + f64::from(i % side) * gap;
            let y = start + f64::from(i / side) * gap;
            make_point(img, &eye_pose(), Vector3::new(x, y, 2.0))
        })
        .collect()
}

fn render_current_frame(ref_img: &GrayImage, truth: &Isometry3<f64>, exposure: f64) -> GrayImage {
    let (width, height) = (ref_img.width(), ref_img.height());
    let k = visual_k();
    let r_cam_world = truth.rotation.to_rotation_matrix().into_inner().transpose();
    let t_cam_world = -r_cam_world * truth.translation.vector;
    let mut data = Vec::with_capacity(width * height);
    for v in 0..height {
        for u in 0..width {
            let ray = Vector3::new(
                (u as f64 - f(k.cx)) / f(k.fx),
                (v as f64 - f(k.cy)) / f(k.fy),
                1.0,
            );
            let denom = r_cam_world * ray;
            if denom[2].abs() < 1e-12 {
                data.push(60);
                continue;
            }
            let t = (2.0 - t_cam_world[2]) / denom[2];
            let p_w = t * denom + t_cam_world;
            let value = if p_w[2] > 0.0 {
                project(&k, &p_w)
                    .and_then(|p| bilinear_sample(ref_img, p[0], p[1]))
                    .unwrap_or(60.0)
            } else {
                60.0
            };
            data.push((value * exposure).round().clamp(0.0, 255.0) as u8);
        }
    }
    GrayImage::new(width, height, data)
}

fn visual_model<'a>(
    image: &'a GrayImage,
    points: &[VisualPointView],
    x: &State,
    opts: VisualOptions,
) -> VisualModel<'a> {
    let warps = compute_warps(points, x, &visual_k());
    let patches = compute_warp_patches(points, &warps, 11, 0);
    VisualModel::new(image, points.to_vec(), patches, visual_k(), opts, 0)
}

#[test]
fn visual_alignment_converges_to_truth() {
    let ref_img = smooth_image(320, 240);
    let truth_pose = Isometry3::from_parts(
        Translation3::new(0.04, 0.0, 0.0),
        UnitQuaternion::from_axis_angle(&Vector3::y_axis(), 0.02),
    );
    let points = visual_grid(&ref_img, 25, 5, -0.1, 0.05);
    let cur_img = render_current_frame(&ref_img, &truth_pose, 1.2);
    let truth_rot = truth_pose.rotation.inverse().to_rotation_matrix();
    let truth_pos = -(truth_rot * truth_pose.translation.vector);
    let truth_state = State {
        rot: r9(truth_rot.matrix()),
        pos: v3(&truth_pos),
        inv_expo_time: d(1.0 / 1.2),
        ..State::default()
    };
    let rows = visual_model(&cur_img, &points, &truth_state, visual_opts()).residual(&truth_state);
    assert!(used(&rows).iter().all(|z| z.abs() < 5.0));
    let mut x = State {
        rot: r9(truth_rot.matrix()),
        pos: v3(&(truth_pos + Vector3::new(0.006, -0.004, 0.002))),
        inv_expo_time: d(1.0 / 1.2),
        ..State::default()
    };
    x.cov.set(6, 6, d(0.01));
    let iters =
        VisualModel::pyramid_update(&cur_img, &points, None, visual_k(), visual_opts(), &mut x)
            .unwrap();
    assert!(iters > 0);
    let rot_err = UnitQuaternion::from_matrix(&to9(&x.rot))
        .angle_to(&UnitQuaternion::from_rotation_matrix(&truth_rot));
    let tau_truth = 1.0 / 1.2;
    assert!((f(x.inv_expo_time) - tau_truth).abs() / tau_truth < 0.05);
    assert!(rot_err.to_degrees() < 0.5, "{}", rot_err.to_degrees());
    let tang_err = (to3(&x.pos) - truth_pos).xy().norm();
    assert!(tang_err < 0.01, "{tang_err}");
}

#[test]
fn visual_jacobian_matches_finite_difference() {
    let ref_img = smooth_image(320, 240);
    let points = visual_grid(&ref_img, 8, 4, -0.08, 0.05);
    let cur_img = render_current_frame(&ref_img, &Isometry3::identity(), 1.0);
    let x = State {
        pos: v3(&Vector3::new(0.005, -0.003, 0.0)),
        rot: rotated(&Vector3::y_axis(), 0.005),
        ..State::default()
    };
    let model = visual_model(&cur_img, &points, &x, visual_opts());
    let rows = model.residual(&x);
    let num = numeric_h(&x, |s| model.residual(s).z, 1e-6);
    let h = from_lib(&rows.h);
    let mut max_err = 0.0f64;
    for i in 0..h.nrows() {
        if f(rows.r[i]) >= 1e6 {
            continue;
        }
        for j in 0..DIM_STATE {
            max_err = max_err.max((h[(i, j)] - num[(i, j)]).abs());
        }
    }
    assert!(max_err < 1e-3, "{max_err}");
}

#[test]
fn depth_discontinuity_rejects_occluded() {
    let ref_img = smooth_image(320, 240);
    let points = visual_grid(&ref_img, 16, 4, -0.1, 0.06);
    let cur_img = render_current_frame(&ref_img, &Isometry3::identity(), 1.0);
    let mut depth = vec![2.0; 320 * 240];
    for (i, p) in points.iter().enumerate() {
        if i % 5 == 0 {
            for dy in -2i64..=2 {
                for dx in -2i64..=2 {
                    let u = (p.px[0] as i64 + dx).clamp(0, 319) as usize;
                    let v = (p.px[1] as i64 + dy).clamp(0, 239) as usize;
                    depth[v * 320 + u] = 1.0;
                }
            }
        }
    }
    let x = State::default();
    let model = visual_model(&cur_img, &points, &x, visual_opts()).with_depth(&depth, 320, 240);
    let rows = model.residual(&x);
    assert_eq!(rows.z.len(), 16 * 11 * 11);
    let valid = used(&rows).len();
    assert!(valid > 0);
    assert!(valid <= 12 * 11 * 11, "{valid}");
    assert_eq!(model.effective_count(&x), valid);
    assert_eq!(model.dim(), rows.z.len());
}

#[test]
fn rows_and_sums_say_the_same() {
    let ref_img = smooth_image(320, 240);
    let points = visual_grid(&ref_img, 8, 4, -0.08, 0.05);
    let cur_img = render_current_frame(&ref_img, &Isometry3::identity(), 1.0);
    let x = State { pos: v3(&Vector3::new(0.005, -0.003, 0.0)), ..State::default() };
    let model = visual_model(&cur_img, &points, &x, visual_opts());
    let by_rows = informed(&model.residual(&x));
    let by_pixels = model.information(&x);
    let (a, b) = (from_lib(&by_rows.s), from_lib(&by_pixels.s));
    assert!((&a - &b).norm() < 1e-6 * a.norm());
    assert!((f(by_rows.e) - f(by_pixels.e)).abs() < 1e-6 * f(by_rows.e));
    assert!(a.norm() > 0.0);
}

#[test]
fn levels_run_from_coarse_to_fine() {
    assert_eq!(schedule(3), vec![2, 1, 0, 0, 0]);
    assert!(schedule(0).is_empty());
    let opts = VisualOptions { pyramid_level: 3, max_iterations: 4, ..VisualOptions::default() };
    let level = |l: usize, x: usize| -> Result<(usize, usize), ()> { Ok((10 * x + l + 1, l + 1)) };
    let mut x = 0;
    let total = VisualMeasurement::pyramid_update(true, &opts, &mut x, &level);
    assert_eq!((total, x), (Ok(8), 32111));
    let mut x = 7;
    let total = VisualMeasurement::pyramid_update(false, &opts, &mut x, &level);
    assert_eq!((total, x), (Ok(0), 7));
    let failing =
        |l: usize, x: usize| if l == 0 { Err("lost") } else { Ok((x + 1, 1)) };
    let mut x = 0;
    let total = VisualMeasurement::pyramid_update(true, &opts, &mut x, &failing);
    assert_eq!((total, x), (Err("lost"), 2));
}

#[test]
fn samples_end_at_the_border() {
    let img = GrayImage::new(2, 2, vec![10, 20, 30, 40]);
    assert_eq!(bilinear_sample(&img, 0.5, 0.5), Some(25.0));
    assert_eq!(bilinear_sample(&img, 1.0, 1.0), Some(40.0));
    assert_eq!(bilinear_sample(&img, 1.01, 0.0), None);
    assert_eq!(bilinear_sample(&img, 0.0, -0.01), None);
    assert_eq!(image_gradient(&img, 0.5, 0.0), Vector2::new(10.0, 20.0));
    assert_eq!(image_gradient(&img, 5.0, 0.0), Vector2::new(0.0, 20.0));
    let patch = vec![d(1.0), d(2.0), d(3.0), d(4.0)];
    assert_eq!(sample_patch_bilinear(&patch, 2, 0.5, 0.5), 2.5);
    assert_eq!(sample_patch_bilinear(&patch, 2, 0.5, 1.0), 3.5);
}

#[test]
fn a_plane_through_the_camera_is_not_distorted() {
    let k = Intrinsics::new(d(2.0), d(4.0), d(1.0), d(3.0));
    let turn = [0.0, -1.0, 0.0, 1.0, 0.0, 0.0, 0.0, 0.0, 1.0].map(d);
    let way = [d(0.5), d(0.0), d(0.25)];
    let normal = [d(0.0), d(0.0), d(1.0)];
    let warp = |depth: f64| {
        let p = [d(1.0), d(2.0), d(depth)];
        let w = visual_update::affine_warp(
            &turn, &way, &normal, &p, &k, &try_inverse, &plus, &times, &divide,
        );
        w.map(f)
    };
    assert_eq!(warp(1e-13), [1.0, 0.0, 0.0, 1.0]);
    // K (R + t n / d) K^-1 with d = 2, by hand.
    let kk = Matrix3::new(2.0, 0.0, 1.0, 0.0, 4.0, 3.0, 0.0, 0.0, 1.0);
    let inner = Matrix3::new(0.0, -1.0, 0.25, 1.0, 0.0, 0.0, 0.0, 0.0, 1.125);
    let a = kk * inner * kk.try_inverse().unwrap();
    assert_eq!(warp(2.0), [a[(0, 0)], a[(0, 1)], a[(1, 0)], a[(1, 1)]]);
}

#[test]
fn relocalize_finds_truth_within_candidates() {
    let map = map_with_plane_z1();
    let truth = Isometry3::from_parts(
        Translation3::new(0.05, 0.0, 0.0),
        UnitQuaternion::from_axis_angle(&Vector3::y_axis(), 0.1),
    );
    let cloud: Vec<Vector3<f64>> = (0..64)
        .map(|i| {
            let x = -0.2 + f64::from(i % 8) * 0.05;
            let y = -0.2 + f64::from(i / 8) * 0.05;
            transform_point(&truth, &Vector3::new(x, y, 1.0))
        })
        .collect();
    let mut cov6 = Matrix6::identity();
    cov6.fixed_view_mut::<3, 3>(0, 0).copy_from(&(Matrix3::identity() * 0.1));
    cov6.fixed_view_mut::<3, 3>(3, 3).copy_from(&(Matrix3::identity() * 0.01));
    let opts = RelocalizeOptions { n_candidates: 48, max_iterations: 15 };
    let candidates = guess(&map, &cloud, &cov6, &opts);
    assert_eq!(candidates.len(), 48);
    // The best guess comes first.
    assert!(candidates.windows(2).all(|w| w[0].0 <= w[1].0));
    let err = (candidates[0].1.translation.vector - truth.translation.vector).norm();
    assert!(err < 0.2, "{err}");
}

#[test]
fn guesses_are_sorted_by_their_errors() {
    let opts = RelocalizeOptions { n_candidates: 4, max_iterations: 1 };
    let zero = [d(0.0); 7];
    let one = |draws: Option<Draws>| match draws {
        None => Guess { error: d(f64::NAN), pose: zero },
        Some(n) => Guess { error: d(n[0] as f64), pose: zero },
    };
    let found = relocalize_guess(&opts, &one);
    assert_eq!(found.len(), 4);
    // What is not a number comes last.
    assert!(f(found[3].error).is_nan());
    assert!(f(found[0].error) < f(found[1].error) && f(found[1].error) < f(found[2].error));
    let none = RelocalizeOptions { n_candidates: 0, max_iterations: 1 };
    assert_eq!(relocalize_guess(&none, &one).len(), 1);
}

#[test]
fn the_generator_mixes_its_state() {
    let mut rng = SplitMix64(0);
    assert_eq!(rng.next(), 0xE220_A839_7B1D_CDAF);
    assert_eq!(rng.next(), 0x6E78_9E6A_A1B9_65F4);
    let mut a = SplitMix64(1);
    let mut b = SplitMix64(2);
    a.next();
    b.next();
    assert_ne!(a.0, b.0);
    // No two states hand out the same number.
    let mut numbers: Vec<u64> = (0..1000).map(|state| SplitMix64(state).next()).collect();
    numbers.sort_unstable();
    assert!(numbers.windows(2).all(|w| w[0] < w[1]));
}

#[test]
fn alignment_ends_once_steps_are_small() {
    let round = |x: usize, weighted: bool| AlignRound {
        total: d(x as f64),
        step: d(if x < 3 { 1.0 } else { 1e-7 }),
        next: if weighted { x + 1 } else { 1 },
    };
    let end = |n: usize| {
        let (total, x) = align(0, n, &round);
        (f(total), x)
    };
    assert_eq!(end(0), (0.0, 0));
    assert_eq!(end(2), (2.0, 2));
    assert_eq!(end(50), (4.0, 4));
}

fn sequential_points(img: &GrayImage) -> Vec<VisualPointView> {
    (0..16)
        .map(|i| {
            let x = -0.1 + f64::from(i % 4) * 0.06;
            let y = -0.1 + f64::from(i / 4) * 0.06;
            let point = make_point(img, &Isometry3::identity(), Vector3::new(x, y, 1.0));
            VisualPointView { normal: Vector3::z_axis().into_inner(), ..point }
        })
        .collect()
}

#[test]
fn sequential_depth_then_visual_converges() {
    let truth = Isometry3::from_parts(
        Translation3::new(0.02, -0.01, 0.005),
        UnitQuaternion::from_axis_angle(&Vector3::y_axis(), 0.02),
    );
    let map = map_with_plane_z1();
    let ref_img = smooth_image(320, 240);
    let vis_pts = sequential_points(&ref_img);
    let k = visual_k();
    let mut cur = Vec::with_capacity(320 * 240);
    for v in 0..240 {
        for u in 0..320 {
            let ray = Vector3::new(
                (f64::from(u) - f(k.cx)) / f(k.fx),
                (f64::from(v) - f(k.cy)) / f(k.fy),
                1.0,
            );
            let p_w = truth.inverse() * (ray * (1.0 / ray[2]));
            let value = bilinear_sample(
                &ref_img,
                f(k.cx) + f(k.fx) * p_w[0] / p_w[2],
                f(k.cy) + f(k.fy) * p_w[1] / p_w[2],
            )
            .unwrap_or(60.0);
            cur.push((value * 1.15).round().clamp(0.0, 255.0) as u8);
        }
    }
    let cur_img = GrayImage::new(320, 240, cur);
    let depth_pts: Vec<Vector3<f64>> = (0..64)
        .map(|i| {
            let x = -0.2 + f64::from(i % 8) * 0.05;
            let y = -0.2 + f64::from(i / 8) * 0.05;
            Vector3::new(x, y, 1.0)
        })
        .collect();
    let mut x = State::default();
    let mut total = 0;
    for _ in 0..3 {
        let depth = DepthModel::new(&map, scan(&depth_pts.clone(), &vec![Matrix3::identity() * 1e-6; 64], &Isometry3::identity()), DepthOptions::default());
        let (iters, _) = run(&EskfUpdater::new(5, depth_convergence()), &depth, &mut x).unwrap();
        total += iters;
        let opts = VisualOptions {
            pyramid_level: 1,
            max_iterations: 10,
            convergence_eps: d(1e-6),
            ..VisualOptions::default()
        };
        let visual = visual_model(&cur_img, &vis_pts, &x, opts);
        let (iters, _) = run(&EskfUpdater::new(10, visual_convergence()), &visual, &mut x).unwrap();
        total += iters;
    }
    assert!(total > 0);
    let rot_err = UnitQuaternion::from_matrix(&to9(&x.rot)).angle_to(&truth.rotation);
    let pos_err = (to3(&x.pos) - truth.translation.vector).norm();
    assert!(rot_err.to_degrees() < 2.0, "{}", rot_err.to_degrees());
    assert!(pos_err < 0.03, "{pos_err}");
}

#[test]
fn points_are_read_where_they_are_seen() {
    let tools: ReadTools<Two, Two, Two, One, Length, Count, Index> =
        ReadTools { plus, times, divide, inverse, length, number, whole };
    // A ramp along the rows, seen by a camera that looks along the third axis.
    let image = GrayImage::new(20, 10, (0..200).map(|i| (i % 20) as u8 * 10).collect());
    let x = State { pos: v3(&Vector3::new(0.0, 0.0, -1.0)), ..State::default() };
    let (rot, pos) = tools.camera_pose(&x);
    assert_eq!(pos.map(f), [0.0, 0.0, 1.0]);
    let shot = |depth: Option<DepthImage>| Shot {
        image: &image,
        depth,
        camera: Intrinsics::new(d(10.0), d(10.0), d(5.0), d(5.0)),
        rot,
        pos,
        exposure: d(2.0),
        scale: d(1.0),
        jump: d(0.5),
    };
    let point = PatchPoint {
        pos: v3(&Vector3::new(0.2, 0.0, 1.0)),
        normal: v3(&Vector3::new(0.0, 0.0, -1.0)),
        exposure: d(1.0),
        patch: vec![d(7.0)],
    };
    let r = tools.read(&shot(None), &point, 1);
    assert_eq!((f(r.depth), r.reference_len, r.discontinuous), (2.0, 1, false));
    assert!((f(r.view_cos) - 2.0 / 4.04f64.sqrt()).abs() < 1e-12);
    // The pixel (6, 5) is 60; exposed twice and less the reference.
    let t = r.pixels[0].unwrap();
    assert_eq!((f(t.value), f(t.residual)), (60.0, 113.0));
    // Twice the slope of 10, times the focal length over the depth.
    assert!((f(t.position[0]) + 100.0).abs() < 1e-9);
    // A nearer depth around the pixel hides the point.
    let near = DepthImage { depth: vec![d(1.0); 200], width: 20, height: 10 };
    assert!(tools.read(&shot(Some(near)), &point, 1).discontinuous);
    // Outside the image, behind the camera or without a whole patch it says nothing.
    let aside = PatchPoint { pos: v3(&Vector3::new(9.0, 0.0, 1.0)), ..point.clone() };
    assert!(tools.read(&shot(None), &aside, 1).pixels[0].is_none());
    let behind = PatchPoint { pos: v3(&Vector3::new(0.0, 0.0, -3.0)), ..point.clone() };
    assert!(tools.read(&shot(None), &behind, 1).pixels[0].is_none());
    let r = tools.read(&shot(None), &point, 2);
    assert_eq!((r.pixels.len(), r.reference_len), (4, 1));
    assert!(r.pixels.iter().all(|t| t.is_none()));
}
