use firefly::double::Double;
use firefly::matrix::Matrix;
use firefly::void_map::image_patch::{extract_patch_pyramid, Corners, PatchPyramid};
use firefly::void_map::normal_refine::{m_to_m, m_to_normal, refine_normal, RefinePose, RefineStep};
use firefly::void_map::map_tools::MapTools;
use firefly::void_map::octree::{child_cube, MapPoint, OctoNode};
use firefly::void_map::options::{PlaneOptions, VoxelMapOptions};
use firefly::void_map::plane::{align_normal_to_camera, order_eigenvalues, Six, VoxelPlane};
use firefly::void_map::plane_fit::{fit_facing_plane, fit_plane, Eigen};
use firefly::void_map::prior_map::PriorPlaneMap;
use firefly::void_map::prior_text::{Direction, PriorError};
use firefly::void_map::raycast::{build_ray_samples, probe_offsets, Probe};
use firefly::void_map::visual_point::{PatchObservation, VisualPoint};
use firefly::void_map::voxel::{CellAction, Projection, VoxelKey, VoxelMap};
use firefly::void_measure::visual_update;
use firefly::void_measure::visual_update::{corner_values, interpolate};
use firefly::void_types::visual::{GrayImage, Intrinsics, VisualState};
use nalgebra::{
    DMatrix, Isometry3, Matrix2, Matrix3, Point3, Quaternion, Translation3,
    UnitQuaternion, Vector2, Vector3,
};

/// A visual point as a camera sees it.
#[derive(Debug, Clone)]
struct VisualPointView {
    pos: Vector3<f64>,
    normal: Vector3<f64>,
    ref_patch: PatchPyramid,
    ref_pose: Isometry3<f64>,
    ref_inv_expo: f64,
    px: Vector2<f64>,
}

type Two = fn(Double, Double) -> Double;

fn d(x: f64) -> Double {
    Double::from_bits(x.to_bits())
}

fn f(x: Double) -> f64 {
    f64::from_bits(x.bits)
}

fn plus(a: Double, b: Double) -> Double {
    d(f(a) + f(b))
}

fn times(a: Double, b: Double) -> Double {
    d(f(a) * f(b))
}

fn divide(a: Double, b: Double) -> Double {
    d(f(a) / f(b))
}

fn inverse(a: Double) -> Double {
    d(1.0 / f(a))
}

fn root(a: Double) -> Double {
    d(f(a).sqrt())
}

fn number(n: usize) -> Double {
    d(n as f64)
}

fn whole(n: i64) -> Double {
    d(n as f64)
}

fn cosine(a: Double) -> Double {
    d(f(a).cos())
}

/// The length of a vector.
fn length(v: [Double; 3]) -> Double {
    d(to3(&v).norm())
}

fn v2(v: &Vector2<f64>) -> [Double; 2] {
    [d(v.x), d(v.y)]
}

fn to2(v: &[Double; 2]) -> Vector2<f64> {
    Vector2::new(f(v[0]), f(v[1]))
}

fn v3(v: &Vector3<f64>) -> [Double; 3] {
    [d(v.x), d(v.y), d(v.z)]
}

fn to3(v: &[Double; 3]) -> Vector3<f64> {
    Vector3::new(f(v[0]), f(v[1]), f(v[2]))
}

fn r9(m: &Matrix3<f64>) -> [Double; 9] {
    [0, 1, 2, 3, 4, 5, 6, 7, 8].map(|k| d(m[(k / 3, k % 3)]))
}

fn to9(r: &[Double; 9]) -> Matrix3<f64> {
    Matrix3::from_fn(|i, j| f(r[3 * i + j]))
}

fn to_lib(m: &DMatrix<f64>) -> Matrix {
    let mut out = Matrix::filled(m.nrows(), m.ncols(), Double::zero());
    for i in 0..m.nrows() {
        for j in 0..m.ncols() {
            out.set(i, j, d(m[(i, j)]));
        }
    }
    out
}

fn from_lib(m: &Matrix) -> DMatrix<f64> {
    DMatrix::from_fn(m.nrows(), m.ncols(), |i, j| f(m.get(i, j)))
}

fn lib3(m: &Matrix3<f64>) -> Matrix {
    to_lib(&DMatrix::from_fn(3, 3, |i, j| m[(i, j)]))
}

fn from3(m: &Matrix) -> Matrix3<f64> {
    Matrix3::from_fn(|i, j| f(m.get(i, j)))
}

fn reals(v: &[Double]) -> Vec<f64> {
    v.iter().map(|x| f(*x)).collect()
}

/// A pose as a unit quaternion, real part last, and a translation.
fn pose7(p: &Isometry3<f64>) -> [Double; 7] {
    let q = p.rotation.coords;
    let t = p.translation.vector;
    [d(q[0]), d(q[1]), d(q[2]), d(q[3]), d(t[0]), d(t[1]), d(t[2])]
}

fn to_pose(p: &[Double; 7]) -> Isometry3<f64> {
    let q = Quaternion::new(f(p[3]), f(p[0]), f(p[1]), f(p[2]));
    Isometry3::from_parts(
        Translation3::new(f(p[4]), f(p[5]), f(p[6])),
        UnitQuaternion::new_unchecked(q),
    )
}

/// The inverse of a matrix, if there is one.
fn try_inverse(m: &Matrix) -> Option<Matrix> {
    from_lib(m).try_inverse().map(|i| to_lib(&i))
}

/// A point moved by a pose.
fn transform_point(pose: &Isometry3<f64>, p: &Vector3<f64>) -> Vector3<f64> {
    pose.transform_point(&Point3::from(*p)).coords
}

/// The root voxel of a point.
fn key_of(p: &Vector3<f64>, root_size: f64) -> VoxelKey {
    VoxelKey::from_point(&v3(p), d(root_size), &divide)
}

fn map_point(p: &Vector3<f64>, cov: &Matrix3<f64>) -> MapPoint {
    MapPoint { position: v3(p), covariance: r9(cov) }
}

/// Eigenvalues and eigenvectors of a covariance.
fn decompose(m: [Double; 9]) -> Eigen {
    let eig = to9(&m).symmetric_eigen();
    let v = eig.eigenvalues;
    Eigen { values: v3(&v), vectors: r9(&eig.eigenvectors) }
}

/// The functions that a map is made with.
fn map_tools() -> MapTools<
    fn([Double; 9]) -> Eigen,
    fn(usize) -> Double,
    fn(i64) -> Double,
    fn([Double; 3]) -> Double,
    Two,
    Two,
    Two,
    fn(Double) -> Double,
> {
    MapTools { decompose, number, whole, length, plus, times, divide, root }
}

/// Registers points in a map; `covs` are their covariances.
fn register_points(
    map: &mut VoxelMap,
    points: &[Vector3<f64>],
    covs: &[Matrix3<f64>],
    camera_pos: &Vector3<f64>,
) {
    assert_eq!(points.len(), covs.len(), "one covariance for each point");
    let opts = *map.options();
    assert!(opts.layer_init_num.iter().all(|n| *n >= 2), "a plane needs three points");
    let listed: Vec<MapPoint> = points.iter().zip(covs).map(|(p, c)| map_point(p, c)).collect();
    map.register_points(&listed, &v3(camera_pos), &map_tools());
}

/// Lets a map follow the platform.
fn on_update_end(map: &mut VoxelMap, pos: &Vector3<f64>) {
    let opts = map.options();
    let key = key_of(pos, f(opts.root_size));
    let half = opts.half_map_size;
    for c in [key.x, key.y, key.z] {
        assert!(
            c.checked_sub(half).is_some() && c.checked_add(half).is_some(),
            "the window leaves the grid"
        );
    }
    let distance = |a: [Double; 3], b: [Double; 3]| d((to3(&a) - to3(&b)).norm());
    map.on_update_end(v3(pos), &distance, &divide);
}

/// The pixel of a point in the camera's frame.
fn project(k: &Intrinsics, p_cam: &Vector3<f64>) -> Option<Vector2<f64>> {
    k.project(&v3(p_cam), &plus, &times, &inverse).map(|px| to2(&px))
}

fn projection(pose: &Isometry3<f64>, k: &Intrinsics, p: &Vector3<f64>) -> Option<Projection> {
    let p_cam = transform_point(pose, p);
    project(k, &p_cam).map(|px| Projection { u: d(px[0]), v: d(px[1]), depth: d(p_cam[2]) })
}

/// Four pixels as numbers.
/// The patches around a pixel, level by level.
fn patch_pyramid(image: &GrayImage, px: &Vector2<f64>, opts: &VoxelMapOptions) -> PatchPyramid {
    assert!(opts.patch_pyramid_level <= 32, "too many levels");
    let corners = extract_patch_pyramid(image, &v2(px), opts);
    let mut levels = Vec::new();
    let mut scale = Vec::new();
    for (level, rows) in corners.iter().enumerate() {
        let step = f64::from(1u32 << level);
        let sub = |x: f64| (x - (x / step).floor() * step) / step;
        let (su, sv) = (sub(px[0]), sub(px[1]));
        let blend = |c: &Corners| interpolate(d(su), d(sv), &corner_values(c, &number), &plus, &times);
        levels.push(rows.iter().flatten().map(blend).collect());
        scale.push(1u32 << level);
    }
    PatchPyramid { levels, scale, patch_size: opts.patch_size }
}

fn observe(
    state: &VisualState,
    pose: &Isometry3<f64>,
    px: &Vector2<f64>,
    image: &GrayImage,
    opts: &VoxelMapOptions,
) -> PatchObservation {
    assert!(opts.patch_pyramid_level > 0, "a patch has a level");
    let patch = patch_pyramid(image, px, opts);
    let mean = patch.level0_mean(&number, &plus, &times, &divide);
    PatchObservation::new(state.frame_id, pose7(pose), state.inv_expo_time, v2(px), patch, mean)
}

/// A point with a normal of length one.
fn visual_point(pos: &Vector3<f64>, covariance: &Matrix3<f64>, normal: &Vector3<f64>) -> VisualPoint {
    VisualPoint::new(v3(pos), lib3(covariance), v3(&normal.normalize()), d(normal.norm()))
}

/// How well each patch of a point stands for the others.
fn scores(vp: &VisualPoint) -> Vec<Double> {
    let tr_sigma = from3(&vp.normal_information).try_inverse().map_or(0.0, |cov| cov.trace());
    let weight = d(tr_sigma / (1.0 + tr_sigma.exp()));
    let cosine = |i: usize| {
        let pose = to_pose(&vp.obs[i].pose);
        let pf = transform_point(&pose, &to3(&vp.pos));
        let dir = if pf.norm() > 1e-12 { pf.normalize() } else { Vector3::zeros() };
        d(dir.dot(&(pose.rotation * to3(&vp.normal))))
    };
    vp.patch_scores(weight, &cosine, &number, &plus, &times, &divide, &root)
}

/// Makes visual points of an image, and adds patches to those there are.
fn update_visual(
    map: &mut VoxelMap,
    pose: &Isometry3<f64>,
    gray: &GrayImage,
    k: &Intrinsics,
    state: &VisualState,
) {
    let opts = *map.options();
    assert!(opts.grid_size > 0, "cells have a size");
    let planes: Vec<VoxelPlane> = map.planes().into_iter().cloned().collect();
    let seen_planes: Vec<Option<Projection>> =
        planes.iter().map(|p| projection(pose, k, &to3(&p.center))).collect();
    let seen_points: Vec<Option<Projection>> =
        map.visual_points().iter().map(|v| projection(pose, k, &to3(&v.pos))).collect();
    let (cols, rows) = opts.grid_dims(gray.width(), gray.height());
    assert!(cols.checked_mul(rows).is_some(), "too many cells");
    let actions =
        map.update_visual(state.frame_id, gray.width(), gray.height(), &seen_planes, &seen_points);
    for action in actions {
        match action {
            CellAction::Create { cell, plane } => {
                let source = &planes[plane];
                let size = opts.grid_size as f64;
                let px = Vector2::new(
                    ((cell % cols) as f64 + 0.5) * size,
                    ((cell / cols) as f64 + 0.5) * size,
                );
                let mut vp = visual_point(
                    &to3(&source.center),
                    &(Matrix3::identity() * 1e-4),
                    &to3(&source.normal),
                );
                vp.from_mature_plane = source.is_mature;
                vp.add_observation(observe(state, pose, &px, gray, &opts));
                let own = scores(&vp);
                map.create_visual_point(vp, &own, &divide);
            }
            CellAction::Append(id) => append_patch(map, id, pose, gray, k, state, &opts),
        }
    }
}

fn append_patch(
    map: &mut VoxelMap,
    id: usize,
    pose: &Isometry3<f64>,
    gray: &GrayImage,
    k: &Intrinsics,
    state: &VisualState,
    opts: &VoxelMapOptions,
) {
    let vp = &map.visual_points()[id];
    let seen = projection(pose, k, &to3(&vp.pos));
    let Some(q) = seen else {
        return;
    };
    let px = Vector2::new(f(q.u), f(q.v));
    let distance = vp.obs.last().map_or(0.0, |last| (px - to2(&last.px)).norm());
    if !map.append_patch_if_needed(id, seen, gray.width(), gray.height(), state.frame_id, d(distance)) {
        return;
    }
    let vp = map.visual_point_mut(id);
    vp.append_patch(observe(state, pose, &px, gray, opts), opts);
    let own = scores(vp);
    vp.update_reference_patch(&own, opts);
    if let Some(n) = refine(vp, k, 10) {
        let change = (n - to3(&vp.previous_normal)).norm();
        vp.accept_normal(v3(&n), d(change), opts);
    }
}

fn visible(map: &VoxelMap, pose: &Isometry3<f64>, k: &Intrinsics) -> Vec<bool> {
    map.visual_points().iter().map(|v| projection(pose, k, &to3(&v.pos)).is_some()).collect()
}

fn views(
    map: &VoxelMap,
    pose: &Isometry3<f64>,
    k: &Intrinsics,
    found: &[(usize, usize)],
) -> Vec<VisualPointView> {
    let seen = |(id, patch): &(usize, usize)| {
        let vp = &map.visual_points()[*id];
        let obs = &vp.obs[*patch];
        Some(VisualPointView {
            pos: to3(&vp.pos),
            normal: to3(&vp.normal),
            ref_patch: obs.patch.clone(),
            ref_pose: to_pose(&obs.pose),
            ref_inv_expo: f(obs.inv_expo_time),
            px: project(k, &transform_point(pose, &to3(&vp.pos)))?,
        })
    };
    found.iter().filter_map(seen).collect()
}

/// The visual points in view, with those that were seen before.
fn visible_map_points(
    map: &VoxelMap,
    pose: &Isometry3<f64>,
    k: &Intrinsics,
    prev_visible: &[VisualPointView],
) -> Vec<VisualPointView> {
    let opts = map.options();
    let (r0, reach) = (f(opts.root_size), f(opts.ray_depth_max));
    let r_cw = pose.rotation.to_rotation_matrix().into_inner();
    let cam_pos = -r_cw.transpose() * pose.translation.vector;
    let cam_axis = r_cw.transpose() * Vector3::z_axis().into_inner();
    let span = (reach / r0).ceil() as i64;
    assert!(span < i64::MAX / 4, "the view is too wide");
    let probes: Vec<Probe> = probe_offsets(span)
        .into_iter()
        .map(|(x, y, z)| {
            let offset = Vector3::new(x as f64 * r0, y as f64 * r0, z as f64 * r0);
            let center = cam_pos + offset;
            let way = center - cam_pos;
            let distance = way.norm();
            Probe {
                distance: d(distance),
                cosine: d((way / distance).dot(&cam_axis)),
                key: key_of(&center, r0),
            }
        })
        .collect();
    let found = map.visible_map_points(
        &probes,
        d(reach + r0),
        d(f(opts.fov).cos()),
        &visible(map, pose, k),
    );
    let mut out = views(map, pose, k, &found);
    out.extend(prev_visible.iter().cloned());
    out
}

/// Adds what the rays through cells without visual points hit.
fn raycast_visual_points(
    map: &VoxelMap,
    pose: &Isometry3<f64>,
    k: &Intrinsics,
    occupied_grid: &[bool],
    out: &mut Vec<VisualPointView>,
) {
    let n = occupied_grid.len();
    if n == 0 {
        return;
    }
    let opts = map.options();
    let cols = (((n as f64) * 4.0 / 3.0).sqrt().round() as usize).max(1);
    let rays: Vec<Vec<VoxelKey>> = (0..n)
        .map(|i| {
            let ray = build_ray_samples(
                i % cols,
                i / cols,
                k,
                opts,
                &number,
                &length,
                &plus,
                &times,
                &divide,
            );
            ray.samples
                .iter()
                .map(|s| key_of(&transform_point(pose, &to3(s)), f(opts.root_size)))
                .collect()
        })
        .collect();
    let mut found = Vec::new();
    map.raycast_visual_points(&occupied_grid.to_vec(), &rays, &visible(map, pose, k), &mut found);
    out.extend(views(map, pose, k, &found));
}

/// The unit normal from the two parameters.
fn normal_from(m: &Vector2<f64>, p_ref: &Vector3<f64>) -> Option<Vector3<f64>> {
    m_to_normal(&v2(m), &v3(p_ref), &length, &plus, &times, &inverse, &divide).map(|n| to3(&n))
}

/// A point in the frame of the reference camera.
fn ref_plane_point(pos: &Vector3<f64>, pose_ref: &Isometry3<f64>) -> Vector3<f64> {
    transform_point(pose_ref, pos)
}

/// How a patch is distorted from one view to another.
fn affine_warp(
    pose_ref: &Isometry3<f64>,
    pose_i: &Isometry3<f64>,
    normal_ref: &Vector3<f64>,
    p_ref: &Vector3<f64>,
    k: &Intrinsics,
) -> Matrix2<f64> {
    let rel = pose_i * pose_ref.inverse();
    let rot = r9(&rel.rotation.to_rotation_matrix().into_inner());
    let way = v3(&rel.translation.vector);
    let (n, p) = (v3(normal_ref), v3(p_ref));
    let w = visual_update::affine_warp(&rot, &way, &n, &p, k, &try_inverse, &plus, &times, &divide);
    Matrix2::new(f(w[0]), f(w[1]), f(w[2]), f(w[3]))
}

fn bilinear_sample_patch(data: &Vec<Double>, size: usize, x: f64, y: f64) -> f64 {
    assert!(size > 0 && data.len() == size * size, "the patch is square");
    f(visual_update::sample_patch_bilinear(data, size, d(x), d(y), &number, &plus, &times))
}

/// The sum of the squared differences of a patch and its distorted image.
fn photometric_residuals(
    n_ref: &Vector3<f64>,
    p_ref: &Vector3<f64>,
    obs_ref: &PatchObservation,
    obs_i: &PatchObservation,
    size: usize,
    k: &Intrinsics,
) -> f64 {
    let a = affine_warp(&to_pose(&obs_ref.pose), &to_pose(&obs_i.pose), n_ref, p_ref, k);
    let half = (size as f64 - 1.0) / 2.0;
    let ref0 = reals(obs_ref.patch.level0());
    let mut sum = 0.0;
    for y in 0..size {
        for x in 0..size {
            let warped = a * Vector2::new(x as f64 - half, y as f64 - half)
                + Vector2::new(half, half);
            let val = bilinear_sample_patch(obs_i.patch.level0(), size, warped[0], warped[1]);
            let res = f(obs_i.inv_expo_time) * val - f(obs_ref.inv_expo_time) * ref0[y * size + x];
            sum += res * res;
        }
    }
    sum
}

/// The normal under which the patches of a point agree best.
fn refine(pt: &VisualPoint, k: &Intrinsics, max_iterations: usize) -> Option<Vector3<f64>> {
    let about = |i: usize| {
        let obs = &pt.obs[i];
        let pose = to_pose(&obs.pose);
        (pose, ref_plane_point(&to3(&pt.pos), &pose))
    };
    let at = pt.ref_patch.unwrap_or(0);
    let pose_of = |i: usize| {
        let (pose, p_ref) = about(i);
        let n_ref = pose.rotation.inverse() * to3(&pt.normal);
        let dot = n_ref.dot(&p_ref);
        let m = n_ref / dot;
        RefinePose { abs_depth: d(p_ref[2].abs()), abs_dot: d(dot.abs()), m: [d(m[0]), d(m[1])] }
    };
    let step_of = |m: [Double; 2]| -> Option<RefineStep> {
        let (pose, p_ref) = about(at);
        let obs_ref = &pt.obs[at];
        let size = obs_ref.patch.patch_size;
        let m = to2(&m);
        let eps = 1e-6;
        normal_from(&m, &p_ref)?;
        let error = |m: &Vector2<f64>| -> Option<f64> {
            let n = pose.rotation.inverse() * normal_from(m, &p_ref)?;
            let others = pt.obs.iter().enumerate().filter(|(i, _)| *i != at);
            Some(others.map(|(_, o)| photometric_residuals(&n, &p_ref, obs_ref, o, size, k)).sum())
        };
        let mut grad = Vector2::zeros();
        for j in 0..2 {
            let mut ahead = m;
            ahead[j] += eps;
            let mut back = m;
            back[j] -= eps;
            grad[j] = 0.5 * (error(&ahead)? - error(&back)?) / eps;
        }
        let mut hess = Matrix2::zeros();
        for j in 0..2 {
            hess[(j, j)] = grad[j].abs().max(1e-8);
        }
        let step = -hess.try_inverse().unwrap_or_else(Matrix2::identity) * grad;
        Some(RefineStep { slope: d(grad.norm()), next: v2(&(m + step)) })
    };
    let normal_of = |m: [Double; 2]| {
        let (pose, p_ref) = about(at);
        normal_from(&to2(&m), &p_ref).map(|n| v3(&(pose.rotation * n)))
    };
    refine_normal(pt, max_iterations, &pose_of, &step_of, &normal_of).map(|n| to3(&n))
}

/// A fixed map of given planes.
fn from_planes(planes: Vec<VoxelPlane>) -> PriorPlaneMap {
    PriorPlaneMap::from_planes(planes, &plus, &divide)
}

/// The planes of a fixed map near a point.
fn candidates_at<'a>(map: &'a PriorPlaneMap, p: &Vector3<f64>) -> Vec<&'a VoxelPlane> {
    map.candidates_at(&v3(p), &divide)
}

/// A fixed map from its text.
fn parse_text(raw: &str) -> Result<PriorPlaneMap, PriorError> {
    let number_of = |word: &Vec<char>| {
        let text: String = word.iter().collect();
        text.parse::<f64>().ok().map(d)
    };
    let direct = |n: [Double; 3]| {
        let n = to3(&n);
        Direction { length: d(n.norm()), unit: v3(&n.normalize()) }
    };
    let chars = raw.chars().collect();
    PriorPlaneMap::parse_text(&chars, &number_of, &direct, &times, &plus, &divide)
}

/// The text of a fixed map.
fn to_text(map: &PriorPlaneMap) -> String {
    let mut lines = vec!["# c n d var_scale radius npts".to_owned()];
    for p in map.planes() {
        let (c, n) = (to3(&p.center), to3(&p.normal));
        lines.push(format!(
            "{:.6} {:.6} {:.6} {:.6} {:.6} {:.6} {:.6} {:.6e} {:.6} {}",
            c[0],
            c[1],
            c[2],
            n[0],
            n[1],
            n[2],
            f(p.d),
            (0..6).map(|i| f(p.plane_var.get(i, i))).sum::<f64>() / 6.0,
            f(p.radius),
            p.points_count,
        ));
    }
    lines.join("\n") + "\n"
}

/// The cube of a root voxel: its center, and half its edge.
fn root_cube(key: VoxelKey, root_size: f64) -> ([Double; 3], Double) {
    (key.center(d(root_size), &whole, &plus, &times), d(root_size / 2.0))
}

/// The plane through points, if they lie on one.
fn plane_of(points: &Vec<MapPoint>, opts: &PlaneOptions) -> Option<VoxelPlane> {
    assert!(points.len() >= 3, "a plane needs three points");
    fit_plane(points, opts, &decompose, &number, &plus, &times, &divide, &root)
}

/// The plane through points, facing the camera.
fn fit(points: &Vec<MapPoint>, opts: &PlaneOptions, camera_pos: &Vector3<f64>) -> Option<VoxelPlane> {
    assert!(points.len() >= 3, "a plane needs three points");
    let at = v3(camera_pos);
    fit_facing_plane(points, opts, &at, &decompose, &number, &length, &plus, &times, &divide, &root)
}

/// Turns a plane's normal towards the camera.
fn face_camera(plane: &mut VoxelPlane, camera_pos: &Vector3<f64>) {
    align_normal_to_camera(plane, &v3(camera_pos), &length, &plus, &times);
}

/// The cube of a child.
fn child(center: [Double; 3], half_len: Double, leaf: usize) -> ([Double; 3], Double) {
    child_cube(&center, half_len, leaf, &plus, &times)
}

fn six(by: f64) -> Six {
    let mut m = Six::filled(Double::zero());
    (0..6).for_each(|i| m.set(i, i, d(by)));
    m
}

fn from_six(m: &Six) -> DMatrix<f64> {
    DMatrix::from_fn(6, 6, |i, j| f(m.get(i, j)))
}

fn numbers(values: &[f64]) -> Vec<Double> {
    values.iter().map(|x| d(*x)).collect()
}

fn identity_pose() -> Isometry3<f64> {
    Isometry3::from_parts(Translation3::new(0.0, 0.0, 0.0), UnitQuaternion::identity())
}

fn test_intrinsics() -> Intrinsics {
    Intrinsics::new(d(300.0), d(300.0), d(160.0), d(120.0))
}

fn opts_small_map() -> VoxelMapOptions {
    VoxelMapOptions { half_map_size: 4, sliding_thresh: d(0.0), ..VoxelMapOptions::default() }
}

fn checkerboard(width: usize, height: usize, cell: usize) -> GrayImage {
    let mut data = Vec::with_capacity(width * height);
    for y in 0..height {
        for x in 0..width {
            let dark = ((x / cell) + (y / cell)) % 2 == 0;
            data.push(if dark { 0 } else { 255 });
        }
    }
    GrayImage::new(width, height, data)
}

fn map_with_plane(n_points: usize) -> (VoxelMap, Vec<Vector3<f64>>) {
    let mut map = VoxelMap::new(opts_small_map());
    let cov = Matrix3::identity() * 1e-4;
    let mut pts = Vec::with_capacity(n_points);
    for i in 0..n_points {
        let x = -0.2 + (i % 40) as f64 * 0.01;
        let y = -0.2 + (i / 40) as f64 * 0.01;
        pts.push(Vector3::new(x, y, 1.0));
    }
    let covs = vec![cov; n_points];
    register_points(&mut map, &pts, &covs, &Vector3::zeros());
    (map, pts)
}

fn point_cloud_on_plane(n_points: usize, noise: f64) -> Vec<MapPoint> {
    let cov = Matrix3::identity() * (noise * noise);
    (0..n_points)
        .map(|i| {
            let x = (i % 100) as f64 * 0.004;
            let y = (i / 100) as f64 * 0.004;
            let z = 0.5 + noise * ((i % 7) as f64 - 3.0) / 3.0;
            map_point(&Vector3::new(x, y, z), &cov)
        })
        .collect()
}

#[test]
fn fit_single_plane_params_accurate() {
    let opts = VoxelMapOptions::default();
    let pts = point_cloud_on_plane(10_000, 0.01);
    let plane = plane_of(&pts, &opts.plane_options()).unwrap();
    assert!(plane.is_plane);
    let z = Vector3::z_axis().into_inner();
    let normal = to3(&plane.normal);
    assert!((normal - z).norm() < 0.01 || (normal + z).norm() < 0.01);
    assert!((f(plane.center[2]) - 0.5).abs() < 0.05);
    assert!(from_six(&plane.plane_var).iter().all(|v| v.is_finite()));
    assert_eq!(plane.points_count, 10_000);
    assert!(plane.is_mature);
}

#[test]
fn octree_subdivides_nonplanar_and_discards() {
    let opts = VoxelMapOptions { layer_init_num: [200, 5, 5, 5, 5], ..VoxelMapOptions::default() };
    let mut node =
        OctoNode::new_root(v3(&Vector3::new(1.0, 1.0, 1.0)), d(f(opts.root_size) / 2.0), &opts);
    let cov = Matrix3::identity() * 1e-4;
    let n = 500;
    let mut pts: Vec<Vector3<f64>> = (0..n)
        .map(|i| {
            let y = 1.0 - 2.0 * (i as f64 + 0.5) / n as f64;
            let r = (1.0 - y * y).sqrt();
            let phi = i as f64 * 2.399_963_229_728_653;
            Vector3::new(1.0 + 0.4 * r * phi.cos(), 1.0 + 0.4 * r * phi.sin(), 1.0 + 0.4 * y)
        })
        .collect();
    let mut seed = 0x9E37_79B9_7F4A_7C15u64;
    for i in (1..n).rev() {
        seed = seed.wrapping_mul(6_364_136_223_846_793_005).wrapping_add(1_442_695_040_888_963_407);
        let j = ((seed >> 33) % (i as u64 + 1)) as usize;
        pts.swap(i, j);
    }
    let camera = v3(&Vector3::zeros());
    for p in pts {
        node.insert(map_point(&p, &cov), &opts, &camera, &map_tools());
    }
    assert!(node.depth() <= opts.max_layer);
    assert!(node.plane.is_none(), "a sphere is not a plane");
    assert!(node.leaves.iter().flatten().next().is_some(), "what is not planar is divided");
}

#[test]
fn sliding_window_capacity_bounded() {
    let mut map = VoxelMap::new(opts_small_map());
    let cov = Matrix3::identity() * 1e-4;
    for k in 0..10 {
        let kf = f64::from(k);
        let pts: Vec<Vector3<f64>> =
            (0..20).map(|i| Vector3::new(kf * 2.0, f64::from(i % 5) * 0.1, 0.0)).collect();
        let covs = vec![cov; 20];
        register_points(&mut map, &pts, &covs, &Vector3::zeros());
        on_update_end(&mut map, &Vector3::new(kf * 2.0, 0.0, 0.0));
    }
    let count = map.root_count();
    assert!(count <= 100, "{count}");
    assert!(count > 0);
    for key in map.root_keys() {
        assert!((key.x - key_of(&Vector3::new(18.0, 0.0, 0.0), 0.5).x).abs() <= 4);
    }
}

#[test]
fn visual_point_generation_on_checkerboard() {
    let (mut map, _) = map_with_plane(400);
    let img = checkerboard(320, 240, 30);
    let state = VisualState::new(0, d(1.0));
    update_visual(&mut map, &identity_pose(), &img, &test_intrinsics(), &state);
    let n = map.visual_point_count();
    assert!(n >= 1, "{n}");
    assert!(n <= 40, "{n}");
}

#[test]
fn minimum_depth_candidate_selected() {
    let (mut map, _) = map_with_plane(400);
    let img = checkerboard(320, 240, 30);
    let pose = identity_pose();
    let state = VisualState::new(0, d(1.0));
    update_visual(&mut map, &pose, &img, &test_intrinsics(), &state);
    for vp in map.visual_points() {
        let p_cam = transform_point(&pose, &to3(&vp.pos));
        assert!(p_cam[2] > 0.0, "a visual point lies in front of the camera");
    }
}

fn pyramid(data: &[f64]) -> PatchPyramid {
    PatchPyramid { levels: vec![numbers(data)], scale: vec![1], patch_size: 11 }
}

fn observation(frame_id: u32, pose: &Isometry3<f64>, data: &[f64]) -> PatchObservation {
    PatchObservation::new(frame_id, pose7(pose), d(1.0), [d(0.0), d(0.0)], pyramid(data), d(0.0))
}

#[test]
fn reference_patch_scoring_selects_expected() {
    let opts = VoxelMapOptions::default();
    let mut a = Vec::with_capacity(121);
    let mut b = Vec::with_capacity(121);
    let mut c = Vec::with_capacity(121);
    for i in 0..121 {
        let v = f64::from((i * 7) % 256);
        a.push(v);
        b.push(v + f64::from(i % 3));
        c.push(f64::from(i * 13 % 256));
    }
    let z = Vector3::z_axis().into_inner();
    let mut vp = visual_point(&Vector3::zeros(), &Matrix3::identity(), &z);
    for _ in 0..2 {
        vp.add_observation(observation(0, &identity_pose(), &a));
        vp.add_observation(observation(0, &identity_pose(), &b));
        vp.add_observation(observation(0, &identity_pose(), &c));
    }
    let own = scores(&vp);
    vp.update_reference_patch(&own, &opts);
    let idx = vp.ref_patch.unwrap();
    assert!(idx % 3 != 2, "{idx}");
    // No patch scores more than the reference.
    assert!(vp.obs.iter().all(|o| f(o.score) <= f(vp.obs[idx].score)));
}

#[test]
fn patches_are_compared_without_their_brightness() {
    let like = |a: &[f64], b: &[f64]| {
        f(pyramid(a).ncc_level0(&pyramid(b), &number, &plus, &times, &divide, &root))
    };
    assert!((like(&[1.0, 2.0, 3.0], &[10.0, 20.0, 30.0]) - 1.0).abs() < 1e-12);
    assert!((like(&[1.0, 2.0, 3.0], &[6.0, 4.0, 2.0]) + 1.0).abs() < 1e-12);
    assert_eq!(like(&[1.0, 2.0, 3.0], &[5.0, 5.0, 5.0]), 0.0);
    assert_eq!(like(&[1.0, 2.0], &[]), 0.0);
    // A longer patch is cut.
    assert!((like(&[1.0, 2.0], &[3.0, 4.0, -9.0]) - 1.0).abs() < 1e-12);
}

#[test]
fn scores_weigh_likeness_and_view() {
    let z = Vector3::z_axis().into_inner();
    let mut vp = visual_point(&Vector3::zeros(), &Matrix3::identity(), &z);
    let cosine = |i: usize| d(i as f64);
    let score = |vp: &VisualPoint| {
        let all = vp.patch_scores(d(0.25), &cosine, &number, &plus, &times, &divide, &root);
        reals(&all)
    };
    vp.add_observation(observation(0, &identity_pose(), &[1.0, 2.0, 3.0]));
    assert_eq!(score(&vp), vec![0.0]);
    vp.add_observation(observation(1, &identity_pose(), &[2.0, 4.0, 6.0]));
    vp.add_observation(observation(2, &identity_pose(), &[3.0, 2.0, 1.0]));
    let got = score(&vp);
    // Likenesses are 1 and -1, views 0, 1 and 2.
    for (a, b) in got.iter().zip([0.0, 0.25, -0.75 + 0.5]) {
        assert!((a - b).abs() < 1e-12, "{got:?}");
    }
}

#[test]
fn normal_refine_converges() {
    let opts = VoxelMapOptions::default();
    let size = opts.patch_size;
    let mut data = Vec::with_capacity(size * size);
    for _y in 0..size {
        for x in 0..size {
            data.push(x as f64 * 20.0);
        }
    }
    let z = Vector3::z_axis().into_inner();
    let mut vp = visual_point(&Vector3::new(0.0, 0.0, 1.0), &Matrix3::identity(), &z);
    vp.add_observation(observation(0, &identity_pose(), &data));
    let pose_tgt = Isometry3::from_parts(
        Translation3::new(0.0, 0.0, 1.0),
        UnitQuaternion::from_axis_angle(&Vector3::y_axis(), 0.17),
    );
    let mut target = observation(1, &pose_tgt, &data);
    target.px = [d(160.0), d(120.0)];
    vp.add_observation(target);
    vp.ref_patch = Some(0);
    let n = refine(&vp, &test_intrinsics(), 20).unwrap();
    let err_deg = n.angle(&Vector3::z_axis()).to_degrees();
    assert!(err_deg < 5.0, "{err_deg}");
}

#[test]
fn raycast_returns_correct_visible_set() {
    let mut map = VoxelMap::new(opts_small_map());
    let img = checkerboard(320, 240, 30);
    let cov = Matrix3::identity() * 1e-4;
    let wall = |z: f64| -> Vec<Vector3<f64>> {
        (0..400)
            .map(|i| {
                Vector3::new(-0.2 + f64::from(i % 20) * 0.02, -0.2 + f64::from(i / 20) * 0.02, z)
            })
            .collect()
    };
    register_points(&mut map, &wall(1.0), &vec![cov; 400], &Vector3::zeros());
    register_points(&mut map, &wall(2.0), &vec![cov; 400], &Vector3::zeros());
    let pose = identity_pose();
    let state = VisualState::new(0, d(1.0));
    update_visual(&mut map, &pose, &img, &test_intrinsics(), &state);
    let visible = visible_map_points(&map, &pose, &test_intrinsics(), &[]);
    assert!(!visible.is_empty(), "visual points are in view");
    for v in &visible {
        let p_cam = transform_point(&pose, &v.pos);
        assert!(p_cam[2] > 0.0 && p_cam[2] < 3.0);
    }
}

#[test]
fn planes_iterator_reports_registered_planes() {
    let (map, _) = map_with_plane(400);
    let planes: Vec<&VoxelPlane> = map.planes();
    assert!(!planes.is_empty(), "there are planes");
    for p in &planes {
        assert!(p.is_plane);
        assert!((to3(&p.normal).norm() - 1.0).abs() < 1e-6);
    }
    let counted: usize =
        map.root_keys().iter().map(|k| map.root_at_key(k).unwrap().plane_count()).sum();
    assert_eq!(planes.len(), counted);
}

fn insert_visual_point(map: &mut VoxelMap, pos: Vector3<f64>) {
    register_points(map, &[pos], &[Matrix3::identity() * 1e-8], &Vector3::zeros());
    let z = Vector3::z_axis().into_inner();
    let mut vp = visual_point(&pos, &(Matrix3::identity() * 1e-4), &z);
    let mut obs = observation(0, &Isometry3::identity(), &[0.0; 121]);
    obs.px = [d(160.0), d(120.0)];
    vp.add_observation(obs);
    map.create_visual_point(vp, &numbers(&[0.0]), &divide);
}

#[test]
fn fov_center_uses_camera_world_position() {
    let mut map = VoxelMap::new(VoxelMapOptions::default());
    insert_visual_point(&mut map, Vector3::new(0.0, 0.0, 0.5));
    let vis = visible_map_points(&map, &Isometry3::identity(), &test_intrinsics(), &[]);
    assert_eq!(vis.len(), 1, "what lies straight ahead is in view");
}

#[test]
fn fov_center_with_nonidentity_rotation() {
    let rot_cw = nalgebra::Rotation3::from_axis_angle(&Vector3::y_axis(), std::f64::consts::PI);
    let cam_pose = Isometry3::from_parts(
        Translation3::new(0.0, 0.0, 1.0),
        UnitQuaternion::from_rotation_matrix(&rot_cw),
    );
    let mut map = VoxelMap::new(VoxelMapOptions::default());
    insert_visual_point(&mut map, Vector3::new(0.0, 0.0, 0.4));
    let vis = visible_map_points(&map, &cam_pose, &test_intrinsics(), &[]);
    assert_eq!(vis.len(), 1, "what lies straight ahead is in view");
}

fn prior_plane(center: Vector3<f64>, normal: Vector3<f64>, off: f64, radius: f64) -> VoxelPlane {
    VoxelPlane {
        center: v3(&center),
        normal: v3(&normal),
        d: d(off),
        plane_var: six(1e-4),
        covariance: r9(&Matrix3::identity()),
        radius: d(radius),
        eigen_min: d(1e-6),
        eigen_mid: d(radius),
        eigen_max: d(radius),
        points_count: 1000,
        is_plane: true,
        is_mature: true,
    }
}

fn ground_plane() -> VoxelPlane {
    prior_plane(Vector3::zeros(), Vector3::z_axis().into_inner(), 0.0, 10.0)
}

fn small_plane(center: Vector3<f64>) -> VoxelPlane {
    prior_plane(center, Vector3::x_axis().into_inner(), -center[0], 0.3)
}

#[test]
fn large_plane_visible_from_any_root() {
    let map = from_planes(vec![ground_plane()]);
    for p in [Vector3::new(1.0, 4.0, 1.0), Vector3::new(-3.0, 20.0, 2.0)] {
        assert_eq!(candidates_at(&map, &p).len(), 1);
    }
}

#[test]
fn small_plane_indexed_by_covering_root_voxels() {
    let map = from_planes(vec![small_plane(Vector3::new(0.2, 0.2, 0.3))]);
    assert_eq!(candidates_at(&map, &Vector3::new(0.25, 0.25, 0.35)).len(), 1);
    assert_eq!(candidates_at(&map, &Vector3::new(0.9, 0.9, 0.9)).len(), 1);
    assert!(candidates_at(&map, &Vector3::new(5.0, 5.0, 5.0)).is_empty());
}

#[test]
fn roundtrip_text() {
    let map = from_planes(vec![ground_plane(), small_plane(Vector3::new(0.2, 0.2, 0.3))]);
    let back = parse_text(&to_text(&map)).unwrap();
    assert_eq!(back.len(), 2);
    for p in back.planes() {
        assert!(p.is_plane && p.is_mature);
        assert!((to3(&p.normal).norm() - 1.0).abs() < 1e-9);
    }
    let b0 = &back.planes()[0];
    assert!(to3(&b0.center).norm() < 1e-6);
    assert!((to3(&b0.normal) - Vector3::z_axis().into_inner()).norm() < 1e-6);
}

#[test]
fn parse_rejects_bad_line() {
    assert!(parse_text("1 2 3\n").is_err());
    assert!(parse_text("").is_ok());
    assert!(parse_text("# only a comment\n").is_ok());
}

#[test]
fn a_bad_line_is_named() {
    let good = "0 0 0 0 0 2 0 1e-4 0.3 7\n";
    assert_eq!(parse_text(good).unwrap().len(), 1);
    let numbered = |line: &str| parse_text(&format!("# c\n{good}\n{line}\n")).err();
    assert_eq!(numbered("0 0 0 0 0 x 0 1 1 1"), Some(PriorError::BadNumber(4)));
    assert_eq!(numbered("0 0 0 0 0 1 0 1 1"), Some(PriorError::BadCount(4)));
    assert_eq!(numbered("0 0 0 0 0 1 0 1 1 1 1"), Some(PriorError::BadCount(4)));
    assert_eq!(numbered("0 0 0 0 0 1 0 0 1 1"), Some(PriorError::BadValue(4)));
    assert_eq!(numbered("0 0 0 0 0 1 0 1 0 1"), Some(PriorError::BadValue(4)));
    assert_eq!(numbered("0 0 0 0 0 0 0 1 1 1"), Some(PriorError::BadValue(4)));
}

#[test]
fn a_line_says_what_a_plane_is() {
    let map = parse_text("\t1 2 3  0 0 2 -3 1e-4 0.3 7.9 \r\n").unwrap();
    let p = &map.planes()[0];
    assert_eq!(to3(&p.center), Vector3::new(1.0, 2.0, 3.0));
    assert_eq!(to3(&p.normal), Vector3::new(0.0, 0.0, 1.0));
    assert_eq!(f(p.d), -3.0);
    assert_eq!(f(p.plane_var.get(5, 5)), 1e-4);
    assert_eq!(f(p.plane_var.get(5, 4)), 0.0);
    assert_eq!(f(p.covariance[4]), 0.3);
    assert_eq!(f(p.eigen_min), 1e-4);
    assert_eq!(f(p.eigen_mid), 0.3 * 0.3);
    assert_eq!(p.points_count, 7);
}

#[test]
fn candidates_are_the_large_and_the_touching_planes() {
    let far = small_plane(Vector3::new(5.0, 5.0, 5.0));
    let near = small_plane(Vector3::new(0.2, 0.2, 0.3));
    let map = from_planes(vec![far, ground_plane(), near]);
    let at = |x: f64, y: f64, z: f64| map.candidate_indices(&v3(&Vector3::new(x, y, z)), &divide);
    assert_eq!(at(0.25, 0.25, 0.25), vec![1, 2]);
    assert_eq!(at(5.1, 5.1, 5.1), vec![1, 0]);
    assert_eq!(at(50.0, 50.0, 50.0), vec![1]);
    assert!(!map.is_empty());
}

#[test]
fn a_plane_is_a_candidate_throughout_its_span() {
    let center = Vector3::new(0.2, -0.4, 1.3);
    let map = from_planes(vec![ground_plane(), small_plane(center), ground_plane()]);
    for i in 0..27 {
        let way = Vector3::new(f64::from(i % 3), f64::from(i / 3 % 3), f64::from(i / 9));
        let p = center + (way - Vector3::repeat(1.0)) * 0.3;
        let found = map.candidate_indices(&v3(&p), &divide);
        assert_eq!(found, vec![0, 2, 1]);
    }
}

#[test]
fn equal_points_make_a_plane_of_no_size() {
    let at = Vector3::new(1.0, 2.0, 4.0);
    let points: Vec<MapPoint> = (0..4).map(|_| map_point(&at, &Matrix3::zeros())).collect();
    let opts = VoxelMapOptions::default().plane_options();
    let plane = fit(&points, &opts, &Vector3::zeros()).unwrap();
    assert_eq!(plane.center.map(f), [1.0, 2.0, 4.0]);
    assert_eq!(f(plane.radius), 0.0);
    assert_eq!(plane.points_count, 4);
    assert!(to3(&plane.normal).dot(&at) <= 0.0);
}

#[test]
fn negative_coordinates_are_rounded_down() {
    assert_eq!(key_of(&Vector3::new(0.0, 0.49, 0.5), 0.5), VoxelKey { x: 0, y: 0, z: 1 });
    assert_eq!(key_of(&Vector3::new(-0.1, -0.5, -0.6), 0.5), VoxelKey { x: -1, y: -1, z: -2 });
    assert_eq!(key_of(&Vector3::new(-0.1, 0.1, -0.6), 0.5), VoxelKey { x: -1, y: 0, z: -2 });
}

#[test]
fn cubes_are_divided_in_eight() {
    let key = VoxelKey { x: 2, y: -1, z: 0 };
    let (center, half) = root_cube(key, 0.5);
    assert_eq!(center.map(f), [1.25, -0.25, 0.25]);
    assert_eq!(f(half), 0.25);
    let (low, quarter) = child(center, half, 0);
    assert_eq!(low.map(f), [1.125, -0.375, 0.125]);
    assert_eq!(f(quarter), 0.125);
    let (other, _) = child(center, half, 5);
    assert_eq!(other.map(f), [1.375, -0.375, 0.375]);
}

#[test]
fn eigenvalues_are_ordered() {
    assert_eq!(order_eigenvalues(&v3(&Vector3::new(3.0, 1.0, 2.0))), (1, 2, 0));
    assert_eq!(order_eigenvalues(&v3(&Vector3::new(1.0, 1.0, 2.0))), (0, 1, 2));
    assert_eq!(order_eigenvalues(&v3(&Vector3::new(2.0, 1.0, 1.0))), (1, 2, 0));
}

fn grid(n: usize, z: f64) -> Vec<MapPoint> {
    (0..n)
        .map(|i| {
            let p = Vector3::new((i % 10) as f64 * 0.02, (i / 10) as f64 * 0.02, z);
            map_point(&p, &(Matrix3::identity() * 1e-4))
        })
        .collect()
}

#[test]
fn points_hand_their_uncertainty_on() {
    // Four corners of a rectangle: the spread is 4 and 1 along the axes, and the
    // normal turns by a corner's height over twice the spread.
    let corner = |x: f64, y: f64| {
        map_point(&Vector3::new(x, y, 5.0), &Matrix3::from_diagonal(&Vector3::new(0.0, 0.0, 1.0)))
    };
    let points = vec![corner(2.0, 1.0), corner(-2.0, 1.0), corner(2.0, -1.0), corner(-2.0, -1.0)];
    let p = plane_of(&points, &VoxelMapOptions::default().plane_options()).unwrap();
    assert!((to3(&p.center) - Vector3::new(0.0, 0.0, 5.0)).norm() < 1e-12);
    assert!((f(p.normal[2]).abs() - 1.0).abs() < 1e-12);
    assert!((f(p.d).abs() - 5.0).abs() < 1e-12);
    assert!((f(p.eigen_max) - 4.0).abs() < 1e-12 && (f(p.eigen_mid) - 1.0).abs() < 1e-12);
    assert!((f(p.radius) - 2.0).abs() < 1e-12);
    assert!((to9(&p.covariance) - Matrix3::from_diagonal(&Vector3::new(4.0, 1.0, 0.0))).norm() < 1e-12);
    let var = from_six(&p.plane_var);
    // Of the normal: 4 times (2 / 16)^2 along x and 4 times (1 / 4)^2 along y.
    assert!((var[(0, 0)] - 0.0625).abs() < 1e-12, "{var}");
    assert!((var[(1, 1)] - 0.25).abs() < 1e-12, "{var}");
    assert!(var[(2, 2)].abs() < 1e-12);
    // Of the center: a quarter of the height's variance.
    assert!((var[(5, 5)] - 0.25).abs() < 1e-12);
    assert!(var[(3, 3)].abs() < 1e-12);
    assert_eq!((p.points_count, p.is_plane, p.is_mature), (4, true, false));
}

#[test]
fn normals_face_the_camera() {
    let mut plane =
        plane_of(&grid(30, 1.0), &VoxelMapOptions::default().plane_options()).unwrap();
    plane.plane_var.set(0, 4, d(7.0));
    plane.plane_var.set(4, 0, d(7.0));
    let before = plane.clone();
    let side = if f(plane.normal[2]) > 0.0 { 1.0 } else { -1.0 };
    face_camera(&mut plane, &Vector3::new(0.1, 0.1, 1.0 + side));
    assert_eq!(plane.normal, before.normal);
    assert_eq!(f(plane.plane_var.get(0, 4)), 7.0);
    face_camera(&mut plane, &Vector3::new(0.1, 0.1, 1.0 - side));
    assert_eq!(f(plane.normal[2]), -f(before.normal[2]));
    assert_eq!(f(plane.d), -f(before.d));
    assert_eq!(f(plane.plane_var.get(0, 4)), -7.0);
    assert_eq!(f(plane.plane_var.get(4, 0)), -7.0);
    assert_eq!(plane.plane_var.get(0, 0), before.plane_var.get(0, 0));
}

#[test]
fn a_mature_plane_takes_no_more_points() {
    let opts = VoxelMapOptions::default();
    let camera = v3(&Vector3::zeros());
    let mut node = OctoNode::new_root(v3(&Vector3::zeros()), d(0.25), &opts);
    let mut found = false;
    for p in grid(80, 0.1) {
        node.insert(p, &opts, &camera, &map_tools());
        assert!(!found || node.plane.is_some(), "a plane is never lost");
        found = node.plane.is_some();
    }
    assert!(!node.update_enable);
    assert!(node.temp_points.is_empty());
    let count = node.plane.as_ref().unwrap().points_count;
    node.insert(grid(1, 0.2).remove(0), &opts, &camera, &map_tools());
    assert_eq!(node.plane.as_ref().unwrap().points_count, count);
    assert_eq!(node.plane_count(), 1);
    assert_eq!(node.find_correspond(&v3(&Vector3::zeros())).layer, 0);
}

#[test]
fn patches_of_a_point_are_bounded() {
    let opts = VoxelMapOptions { max_obs_per_point: 3, ..VoxelMapOptions::default() };
    let z = Vector3::z_axis().into_inner();
    let mut vp = visual_point(&Vector3::zeros(), &Matrix3::identity(), &z);
    for frame in 0..6 {
        let mut o = observation(frame, &identity_pose(), &[0.0; 121]);
        o.score = d(f64::from((frame * 5) % 7));
        vp.append_patch(o, &opts);
        assert!(vp.obs_count() <= 3);
    }
    // The scores were 0, 5, 3, 1, 6, 4, and the lowest left each time.
    let left: Vec<u32> = vp.obs.iter().map(|o| o.frame_id).collect();
    assert_eq!(left, vec![1, 4, 5]);
}

#[test]
fn a_point_wants_patches_now_and_again() {
    let opts = VoxelMapOptions::default();
    let z = Vector3::z_axis().into_inner();
    let mut vp = visual_point(&Vector3::zeros(), &Matrix3::identity(), &z);
    assert!(vp.wants_patch(0, d(0.0), &opts));
    vp.add_observation(observation(5, &identity_pose(), &[0.0; 121]));
    assert!(!vp.wants_patch(25, d(40.0), &opts));
    assert!(vp.wants_patch(26, d(0.0), &opts));
    assert!(vp.wants_patch(5, d(40.5), &opts));
    assert!(!vp.wants_patch(0, d(0.0), &opts));
}

#[test]
fn a_settled_point_keeps_its_reference() {
    let opts = VoxelMapOptions { min_obs_for_converge: 2, ..VoxelMapOptions::default() };
    let z = Vector3::z_axis().into_inner();
    let mut vp = visual_point(&Vector3::zeros(), &Matrix3::identity(), &z);
    for frame in 0..3 {
        vp.add_observation(observation(frame, &identity_pose(), &[0.0; 121]));
    }
    vp.ref_patch = Some(1);
    vp.accept_normal(v3(&Vector3::x_axis().into_inner()), d(0.5), &opts);
    assert!(!vp.converged);
    assert_eq!(to3(&vp.previous_normal), z);
    vp.accept_normal(v3(&z), d(1e-9), &opts);
    assert!(vp.converged);
    assert_eq!(vp.obs_count(), 1);
    assert_eq!(vp.obs[0].frame_id, 1);
    assert_eq!(vp.ref_patch, Some(0));
}

#[test]
fn a_point_without_a_normal_faces_up() {
    let p = VisualPoint::new(
        v3(&Vector3::zeros()),
        lib3(&Matrix3::identity()),
        v3(&Vector3::new(9.0, 9.0, 9.0)),
        d(1e-13),
    );
    assert_eq!(to3(&p.normal), Vector3::z_axis().into_inner());
    assert!(VisualPoint::normal_converged(d(0.1), d(0.2)));
    assert!(!VisualPoint::normal_converged(d(0.2), d(0.2)));
}

#[test]
fn rays_stop_at_the_first_hit_and_skip_occupied_cells() {
    let mut map = VoxelMap::new(VoxelMapOptions::default());
    insert_visual_point(&mut map, Vector3::new(0.1, 0.1, 1.2));
    insert_visual_point(&mut map, Vector3::new(0.1, 0.1, 2.2));
    let key = |z: f64| key_of(&Vector3::new(0.1, 0.1, z), 0.5);
    let rays = vec![vec![key(0.2), key(1.2), key(2.2)], vec![key(2.2)], vec![key(0.2)]];
    let seen = vec![true, true];
    let mut out = Vec::new();
    map.raycast_visual_points(&vec![false, false, false], &rays, &seen, &mut out);
    assert_eq!(out, vec![(0, 0), (1, 0)]);
    let mut out = Vec::new();
    map.raycast_visual_points(&vec![true, true, true], &rays, &seen, &mut out);
    assert!(out.is_empty());
    let mut out = Vec::new();
    map.raycast_visual_points(&vec![false, true, true], &rays, &vec![false, true], &mut out);
    assert_eq!(out, vec![(1, 0)]);
}

#[test]
fn rays_through_a_whole_image() {
    let mut map = VoxelMap::new(VoxelMapOptions::default());
    insert_visual_point(&mut map, Vector3::new(0.0, 0.0, 0.6));
    let k = Intrinsics::new(d(1.0), d(1.0), d(15.0), d(15.0));
    let mut out = Vec::new();
    raycast_visual_points(&map, &identity_pose(), &k, &[false], &mut out);
    assert_eq!(out.len(), 1);
    raycast_visual_points(&map, &identity_pose(), &k, &[], &mut out);
    assert_eq!(out.len(), 1);
}

#[test]
fn offsets_run_along_the_first_axis_first() {
    let all = probe_offsets(1);
    assert_eq!(all.len(), 27);
    assert_eq!(&all[..4], &[(-1, -1, -1), (0, -1, -1), (1, -1, -1), (-1, 0, -1)]);
    assert!(probe_offsets(-1).is_empty());
}

#[test]
fn pixels_outside_an_image_are_black() {
    let img = GrayImage::new(4, 4, vec![100; 16]);
    let opts =
        VoxelMapOptions { patch_size: 3, patch_pyramid_level: 2, ..VoxelMapOptions::default() };
    let p = patch_pyramid(&img, &Vector2::new(0.5, 0.0), &opts);
    assert_eq!(p.scale, vec![1, 2]);
    // Left and upper neighbours lie outside.
    assert_eq!(reals(p.level0()), vec![0.0, 0.0, 0.0, 50.0, 100.0, 100.0, 50.0, 100.0, 100.0]);
    assert_eq!(
        reals(p.level_at(1)),
        vec![0.0, 0.0, 0.0, 25.0, 100.0, 75.0, 25.0, 100.0, 75.0]
    );
    assert_eq!(p.level_at(7), p.level_at(1));
    let mean = p.level0_mean(&number, &plus, &times, &divide);
    assert!((f(mean) - 500.0 / 9.0).abs() < 1e-12);
}

#[test]
fn rays_are_evenly_sampled() {
    let opts = VoxelMapOptions::default();
    let k = Intrinsics::new(d(1.0), d(1.0), d(42.0), d(19.0));
    let (n, l) = (&number, &length);
    let ray = build_ray_samples(1, 0, &k, &opts, n, l, &plus, &times, &divide);
    // The middle of the cell lies 3 to the right and 4 up.
    let (x, y) = (1.5 * opts.grid_size as f64 - 42.0, 0.5 * opts.grid_size as f64 - 19.0);
    let dir = Vector3::new(x, y, 1.0).normalize();
    assert!((to3(&ray.dir_cam) - dir).norm() < 1e-12);
    assert_eq!(ray.samples.len(), 32);
    let (near, far) = (f(opts.ray_depth_min), f(opts.ray_depth_max));
    assert!((to3(&ray.samples[0]) - dir * near).norm() < 1e-12);
    assert!((to3(&ray.samples[31]) - dir * far).norm() < 1e-12);
    let gap = (to3(&ray.samples[1]) - to3(&ray.samples[0])).norm();
    assert!((gap - (far - near) / 31.0).abs() < 1e-12);
}

#[test]
fn a_plane_vector_meets_its_point() {
    let p = Vector3::new(0.5, -1.0, 2.0);
    let m = Vector2::new(0.25, 0.5);
    let v = m_to_m(&v2(&m), &v3(&p), &plus, &times, &inverse).map(|v| to3(&v)).unwrap();
    assert!((v.dot(&p) - 1.0).abs() < 1e-12);
    assert_eq!((v[0], v[1]), (0.25, 0.5));
    let n = normal_from(&m, &p).unwrap();
    assert!((n - v.normalize()).norm() < 1e-12);
    let near = v3(&Vector3::new(0.5, -1.0, 1e-13));
    assert!(m_to_m(&v2(&m), &near, &plus, &times, &inverse).is_none());
    assert!(normal_from(&m, &to3(&near)).is_none());
    assert!(normal_from(&Vector2::zeros(), &Vector3::new(0.0, 0.0, 1e13)).is_none());
}

#[test]
fn a_flat_slope_ends_the_search() {
    let z = Vector3::z_axis().into_inner();
    let mut vp = visual_point(&Vector3::new(0.0, 0.0, 1.0), &Matrix3::identity(), &z);
    vp.add_observation(observation(0, &identity_pose(), &[0.0; 121]));
    let pose = |_: usize| RefinePose { abs_depth: d(1.0), abs_dot: d(1.0), m: [d(0.0), d(0.0)] };
    let step = |m: [Double; 2]| {
        let x = f(m[0]);
        Some(RefineStep { slope: d(if x < 3.0 { 1.0 } else { 0.0 }), next: [d(x + 1.0), m[1]] })
    };
    let normal = |m: [Double; 2]| Some([m[0], m[1], d(0.0)]);
    // No reference, and no other patch.
    assert!(refine_normal(&vp, 10, &pose, &step, &normal).is_none());
    vp.ref_patch = Some(0);
    assert!(refine_normal(&vp, 10, &pose, &step, &normal).is_none());
    vp.add_observation(observation(1, &identity_pose(), &[0.0; 121]));
    let end = |n: usize| f(refine_normal(&vp, n, &pose, &step, &normal).unwrap()[0]);
    assert_eq!(end(0), 0.0);
    assert_eq!(end(2), 2.0);
    assert_eq!(end(10), 3.0);
    let off = |_: usize| RefinePose { abs_depth: d(0.0), abs_dot: d(1.0), m: [d(0.0), d(0.0)] };
    assert!(refine_normal(&vp, 10, &off, &step, &normal).is_none());
    let lost = |_: [Double; 2]| {
        Some(RefineStep { slope: d(1.0), next: [d(f64::NAN), d(0.0)] })
    };
    assert!(refine_normal(&vp, 10, &pose, &lost, &normal).is_none());
}

#[test]
fn registered_planes_are_those_of_their_points() {
    // Enough points for one plane in the first root voxel, seen from above.
    let opts = VoxelMapOptions { root_size: d(0.5), ..VoxelMapOptions::default() };
    let mut node = OctoNode::new_root(v3(&Vector3::repeat(0.25)), d(0.25), &opts);
    let camera = Vector3::new(0.25, 0.25, 3.0);
    let points: Vec<MapPoint> = (0..opts.layer_init_num[0] + 1)
        .map(|i| {
            let p = Vector3::new((i % 3) as f64 * 0.1, (i / 3) as f64 * 0.05, 0.1);
            map_point(&p, &(Matrix3::identity() * 1e-4))
        })
        .collect();
    for p in &points {
        node.insert(*p, &opts, &v3(&camera), &map_tools());
    }
    let kept = node.plane.unwrap();
    let fitted = fit(&points, &opts.plane_options(), &camera).unwrap();
    assert_eq!(kept.center, fitted.center);
    assert_eq!(kept.normal, fitted.normal);
    assert_eq!(kept.plane_var.v, fitted.plane_var.v);
    assert!(f(kept.normal[2]) > 0.0);
}
