use firefly::double::Double;
use firefly::matrix::Matrix as Grid;
use firefly::vision_match::calibration::{left_pos_in_body, rot_cam_to_body, MUJOCO_FOCAL};
use firefly::vision_match::pose::{
    axis_flip, camera_matrix, has_consensus, inlier_places, passes_prior_gate, pose_covariance,
    prior_subset, ransac_pose, solve_visual_pose, CameraIntrinsics, Consensus, Gauge, PoseError,
    VisualPose,
};
use nalgebra::{
    DMatrix, Isometry3, Matrix3, Matrix4, Translation3, Unit, UnitQuaternion, Vector3,
};
use purecv::prelude::{solve_pnp, solve_pnp_ransac, Matrix, Point2f, Point3f, SolvePnPMethod};

fn d(x: f64) -> Double {
    Double::from_bits(x.to_bits())
}

fn f(x: Double) -> f64 {
    f64::from_bits(x.bits)
}

fn to_grid(m: &Matrix4<f64>) -> Grid {
    let mut out = Grid::filled(4, 4, Double::zero());
    for i in 0..4 {
        for j in 0..4 {
            out.set(i, j, d(m[(i, j)]));
        }
    }
    out
}

fn from_grid(m: &Grid) -> DMatrix<f64> {
    DMatrix::from_fn(m.nrows(), m.ncols(), |i, j| f(m.get(i, j)))
}

fn pose_of(m: &Grid) -> Matrix4<f64> {
    Matrix4::from_fn(|i, j| f(m.get(i, j)))
}

fn intrinsics(focal: f64) -> CameraIntrinsics {
    CameraIntrinsics { focal: d(focal), cx: d(160.0), cy: d(120.0) }
}

fn flip() -> Matrix4<f64> {
    pose_of(&axis_flip())
}

fn to_prior(t_global: &Matrix4<f64>, t_prior: &Matrix4<f64>) -> (Double, Double) {
    let dt = (t_global.fixed_view::<3, 1>(0, 3) - t_prior.fixed_view::<3, 1>(0, 3)).norm();
    let r_rel = t_global.fixed_view::<3, 3>(0, 0).into_owned().transpose()
        * t_prior.fixed_view::<3, 3>(0, 0).into_owned();
    let cos_a = ((r_rel.trace() - 1.0) / 2.0).clamp(-1.0, 1.0);
    (d(dt), d(cos_a.acos()))
}

fn gate(t_global: &Matrix4<f64>, t_prior: &Matrix4<f64>) -> bool {
    let (distance, angle) = to_prior(t_global, t_prior);
    passes_prior_gate(distance, angle)
}

fn project(t_cam: &Matrix4<f64>, p: &[f64; 3], intr: CameraIntrinsics) -> Option<(f64, f64)> {
    let c = t_cam * nalgebra::Vector4::new(p[0], p[1], p[2], 1.0);
    if !c.z.is_finite() || c.z <= 1e-9 {
        return None;
    }
    Some((f(intr.focal) * c.x / c.z + f(intr.cx), f(intr.focal) * c.y / c.z + f(intr.cy)))
}

type Vectors = ([f64; 3], [f64; 3]);

fn vector(m: &Matrix<f64>) -> [f64; 3] {
    [0, 1, 2].map(|i| m.at(i, 0, 0).copied().unwrap_or(0.0))
}

/// The listed points with their pixels, and the camera.
fn problem(
    p2: &[[f32; 2]],
    p3: &[[f64; 3]],
    intr: CameraIntrinsics,
    places: &[usize],
) -> (Vec<Point3f>, Vec<Point2f>, Matrix<f64>) {
    let object = places
        .iter()
        .map(|k| Point3f::new(p3[*k][0] as f32, p3[*k][1] as f32, p3[*k][2] as f32))
        .collect();
    let image = places.iter().map(|k| Point2f::new(p2[*k][0], p2[*k][1])).collect();
    let k = from_grid(&camera_matrix(intr));
    let mut cam = Matrix::new(3, 3, 1);
    for i in 0..3 {
        for j in 0..3 {
            cam.set(i, j, 0, k[(i, j)]);
        }
    }
    (object, image, cam)
}

fn solve(
    p2: &[[f32; 2]],
    p3: &[[f64; 3]],
    intr: CameraIntrinsics,
    prior: Option<Matrix4<f64>>,
) -> Result<Option<VisualPose>, PoseError> {
    let run = |places: &Vec<usize>| -> Option<Consensus<Vectors>> {
        let (object, image, cam) = problem(p2, p3, intr, places);
        let (mut rvec, mut tvec) = (Matrix::new(3, 1, 1), Matrix::new(3, 1, 1));
        let mut inliers: Vec<i32> = Vec::new();
        let solved = solve_pnp_ransac(
            &object,
            &image,
            &cam,
            None,
            &mut rvec,
            &mut tvec,
            false,
            100,
            8.0,
            0.99,
            Some(&mut inliers),
            SolvePnPMethod::Iterative,
        )
        .ok()?;
        Some(Consensus { solved, inliers, pose: (vector(&rvec), vector(&tvec)) })
    };
    let refine = |places: &Vec<usize>| -> Option<Vectors> {
        let (object, image, cam) = problem(p2, p3, intr, places);
        let (mut r, mut t) = (Matrix::new(3, 1, 1), Matrix::new(3, 1, 1));
        let method = SolvePnPMethod::Iterative;
        solve_pnp(&object, &image, &cam, None, &mut r, &mut t, false, method).ok()?;
        Some((vector(&r), vector(&t)))
    };
    let gauge = |x: Vectors, near: &Vec<usize>| -> Gauge {
        let axis = Vector3::from(x.0);
        let quat = if axis.norm() > 1e-12 {
            UnitQuaternion::from_axis_angle(&Unit::new_normalize(axis), axis.norm())
        } else {
            UnitQuaternion::identity()
        };
        let iso = Isometry3::from_parts(Translation3::from(Vector3::from(x.1)), quat);
        let t_global = iso.inverse().to_homogeneous() * flip();
        let t_cam = flip() * t_global.try_inverse().unwrap_or(Matrix4::identity());
        let errors: Vec<f64> = near
            .iter()
            .filter_map(|i| {
                let (u, v) = project(&t_cam, &p3[*i], intr)?;
                Some((u - f64::from(p2[*i][0])).hypot(v - f64::from(p2[*i][1])))
            })
            .collect();
        let mean = if errors.is_empty() {
            f64::INFINITY
        } else {
            errors.iter().sum::<f64>() / errors.len() as f64
        };
        Gauge {
            t_global: to_grid(&t_global),
            mean_reproj_px: d(mean),
            to_prior: prior.as_ref().map(|p| to_prior(&t_global, p)),
        }
    };
    let bridge = prior.and_then(|p| p.try_inverse()).map(|inv| flip() * inv);
    let error = |i: usize| -> Option<Double> {
        let (u, v) = project(bridge.as_ref()?, &p3[i], intr)?;
        let (du, dv) = (u - f64::from(p2[i][0]), v - f64::from(p2[i][1]));
        Some(d((du * du + dv * dv).sqrt()))
    };
    solve_visual_pose(p2.len(), p3.len(), prior.is_some(), &run, &refine, &gauge, &error)
}

fn rng(seed: u64) -> impl FnMut() -> f64 {
    let mut state = seed;
    move || {
        state = state.wrapping_mul(6_364_136_223_846_793_005).wrapping_add(1);
        (state >> 33) as f64 / f64::from(u32::MAX)
    }
}

fn camera_in_body() -> Matrix4<f64> {
    let r = from_grid(&rot_cam_to_body());
    let p = left_pos_in_body();
    let rot = Matrix3::from_fn(|i, j| r[(i, j)]);
    Isometry3::from_parts(
        Translation3::new(f(p[0]), f(p[1]), f(p[2])),
        UnitQuaternion::from_matrix(&rot),
    )
    .to_homogeneous()
}

#[test]
fn cam_axes_match_depth_camera() {
    let r = from_grid(&rot_cam_to_body());
    assert!(r[(0, 0)].abs() < 1e-12 && (r[(1, 0)] + 1.0).abs() < 1e-12 && r[(2, 0)].abs() < 1e-12);
}

#[test]
fn body_cam_extrinsics_match_mujoco_truth() {
    let t_body = Isometry3::from_parts(
        Translation3::new(1.0, 4.0, 1.0),
        UnitQuaternion::identity(),
    )
    .to_homogeneous();
    let expected = Matrix4::new(
        0.0, 0.3420, -0.9397, 1.0, //
        -1.0, 0.0, 0.0, 3.975, //
        0.0, 0.9397, 0.3420, 1.0, //
        0.0, 0.0, 0.0, 1.0,
    );
    let back = t_body * camera_in_body();
    assert!((back - expected).norm() < 1e-3);
}

#[test]
fn focal_matches_formula() {
    let focal = 120.0 / (70.88_f64 / 2.0).to_radians().tan();
    assert!((focal - f64::from_bits(MUJOCO_FOCAL)).abs() < 1e-9);
}

#[test]
fn solves_synthetic_pose() {
    let intr = intrinsics(168.0);
    let t_gt = Isometry3::from_parts(
        Translation3::new(1.0, 2.0, 0.5),
        UnitQuaternion::from_euler_angles(0.1, -0.2, 0.3),
    )
    .to_homogeneous();
    let mut rand = rng(12345);
    let mut p3 = Vec::new();
    let mut p2 = Vec::new();
    for _ in 0..60 {
        let p = [rand() * 6.0 - 1.0, rand() * 4.0 - 1.0, rand() * 2.0 + 2.0];
        let c = t_gt * nalgebra::Vector4::new(p[0], p[1], p[2], 1.0);
        p3.push(p);
        p2.push([
            (168.0 * c.x / c.z + 160.0 + (rand() - 0.5)) as f32,
            (168.0 * c.y / c.z + 120.0 + (rand() - 0.5)) as f32,
        ]);
    }
    let pose = solve(&p2, &p3, intr, None).unwrap().expect("synthetic should solve");
    let found = pose_of(&pose.t_global);
    let t_expected = t_gt.try_inverse().unwrap() * flip();
    let dt = (found.fixed_view::<3, 1>(0, 3) - t_expected.fixed_view::<3, 1>(0, 3)).norm();
    let dr = (found.fixed_view::<3, 3>(0, 0) - t_expected.fixed_view::<3, 3>(0, 0)).norm();
    assert!(dt < 0.05, "trans err {dt}");
    assert!(dr < 0.02, "rot err {dr}");
    assert!(f(pose.mean_reproj_px) < 2.0);
    assert!(pose.num_inliers >= 50);
    assert!(pose.num_inliers <= pose.total);
    let n = pose.num_inliers.max(1) as f64;
    let err = f(pose.mean_reproj_px).max(0.2);
    let r = pose_covariance(
        d((0.005 * err / n.sqrt()).powi(2)),
        d((0.02 * err / n.sqrt()).powi(2)),
    );
    assert!(f(r.get(0, 0)) > 0.0 && f(r.get(3, 3)) > 0.0);
}

#[test]
fn tilted_camera_full_chain() {
    let focal = f64::from_bits(MUJOCO_FOCAL);
    let intr = intrinsics(focal);
    let t_body_truth =
        Isometry3::from_parts(Translation3::new(1.0, 4.0, 1.0), UnitQuaternion::identity())
            .to_homogeneous();
    let t_world_cam = t_body_truth * camera_in_body();
    let mut rand = rng(999);
    let mut p2 = Vec::new();
    let mut p3 = Vec::new();
    while p2.len() < 80 {
        let u = rand() * 320.0;
        let v = rand() * 240.0;
        let depth = rand() * 4.0 + 1.0;
        let dx = (u - 160.0) / focal;
        let dy = -(v - 120.0) / focal;
        let xw = t_world_cam * nalgebra::Vector4::new(dx * depth, dy * depth, -depth, 1.0);
        p2.push([u as f32, v as f32]);
        p3.push([xw[0], xw[1], xw[2]]);
    }
    let pose = solve(&p2, &p3, intr, None).unwrap().expect("tilted chain should solve");
    let t_body = pose_of(&pose.t_global) * camera_in_body().try_inverse().unwrap();
    let dt = (t_body.fixed_view::<3, 1>(0, 3) - t_body_truth.fixed_view::<3, 1>(0, 3)).norm();
    let r_err = (t_body.fixed_view::<3, 3>(0, 0) - t_body_truth.fixed_view::<3, 3>(0, 0)).norm();
    assert!(dt < 0.1, "trans err {dt}");
    assert!(r_err < 0.05, "rot err {r_err}");
}

#[test]
fn prior_gate_rejects_wild_pose() {
    let at = |x: f64, y: f64, z: f64, q: UnitQuaternion<f64>| {
        Isometry3::from_parts(Translation3::new(x, y, z), q).to_homogeneous()
    };
    let near = at(20.1, 0.05, 1.02, UnitQuaternion::from_euler_angles(0.01, 0.02, 0.03));
    let prior = at(20.0, 0.0, 1.0, UnitQuaternion::identity());
    assert!(gate(&near, &prior));
    let far = at(40000.0, 0.0, 1.0, UnitQuaternion::identity());
    assert!(!gate(&far, &prior));
    let flipped =
        at(20.0, 0.0, 1.0, UnitQuaternion::from_euler_angles(0.0, std::f64::consts::PI, 0.0));
    assert!(!gate(&flipped, &prior));
    assert!(gate(&near, &near));
}

fn synth_scene(n: usize, r_gt: &Matrix3<f64>) -> (Vec<[f64; 3]>, Vec<[f32; 2]>) {
    let intr = intrinsics(168.0);
    let mut rand = rng(777);
    let mut obj = Vec::new();
    let mut img = Vec::new();
    let cam = r_gt.to_homogeneous();
    while obj.len() < n {
        let p = [rand() * 12.0 - 6.0, rand() * 4.0 - 2.0, 8.0];
        let Some((u, v)) = project(&cam, &p, intr) else {
            continue;
        };
        if !(0.0..320.0).contains(&u) || !(0.0..240.0).contains(&v) {
            continue;
        }
        obj.push(p);
        img.push([u as f32, v as f32]);
    }
    (obj, img)
}

fn perturbed_prior() -> Matrix4<f64> {
    let r = UnitQuaternion::from_euler_angles(0.0, 0.14, 0.0).to_rotation_matrix().into_inner();
    let mut ocv = Matrix4::identity();
    ocv.fixed_view_mut::<3, 3>(0, 0).copy_from(&r);
    ocv.fixed_view_mut::<3, 1>(0, 3).copy_from(&Vector3::new(0.5, 0.0, 0.0));
    ocv.try_inverse().unwrap() * flip()
}

fn assert_in_basin(pose: &VisualPose) {
    let t = pose_of(&pose.t_global);
    let dt = t.fixed_view::<3, 1>(0, 3).norm();
    assert!(dt < 0.5, "trans err {dt}");
    let m = flip().fixed_view::<3, 3>(0, 0).into_owned();
    let cos_a = ((t.fixed_view::<3, 3>(0, 0).into_owned().transpose() * m).trace() - 1.0) / 2.0;
    assert!(cos_a.clamp(-1.0, 1.0).acos() < 0.17, "rot off basin");
}

#[test]
fn solve_recovers_flip_consensus() {
    let intr = intrinsics(168.0);
    let (mut obj, mut img) = synth_scene(20, &Matrix3::identity());
    let r_flip = UnitQuaternion::from_euler_angles(0.0, 0.0, std::f64::consts::PI)
        .to_rotation_matrix()
        .into_inner()
        .to_homogeneous();
    let mut rand = rng(4242);
    while obj.len() < 80 {
        let p = [rand() * 12.0 - 6.0, rand() * 4.0 - 2.0, 8.0];
        let Some((u, v)) = project(&r_flip, &p, intr) else {
            continue;
        };
        if !(0.0..320.0).contains(&u) || !(0.0..240.0).contains(&v) {
            continue;
        }
        obj.push(p);
        img.push([u as f32, v as f32]);
    }
    let pose = solve(&img, &obj, intr, Some(perturbed_prior()))
        .unwrap()
        .expect("subset recovery should publish truth");
    assert_in_basin(&pose);
}

#[test]
fn solve_recovers_prior_basin_on_plane() {
    let intr = intrinsics(168.0);
    let (obj, img) = synth_scene(80, &Matrix3::identity());
    let pose = solve(&img, &obj, intr, Some(perturbed_prior()))
        .unwrap()
        .expect("planar scene with near prior should publish");
    assert_in_basin(&pose);
}

#[test]
fn pairs_must_match_and_suffice() {
    let intr = intrinsics(168.0);
    let none = solve(&[[0.0; 2]; 7], &[[0.0; 3]; 6], intr, None);
    assert!(matches!(none, Err(PoseError::Mismatch(7, 6))));
    let few = solve(&[[0.0; 2]; 5], &[[0.0; 3]; 5], intr, None);
    assert!(matches!(few, Err(PoseError::TooFew(5))));
    let failing = |_: &Vec<usize>| -> Option<Consensus<u8>> { None };
    let stays = |_: &Vec<usize>| -> Option<u8> { None };
    let plain = |_: u8, _: &Vec<usize>| Gauge {
        t_global: to_grid(&Matrix4::identity()),
        mean_reproj_px: d(0.5),
        to_prior: None,
    };
    let error = |_: usize| None;
    let failed = solve_visual_pose(8, 8, false, &failing, &stays, &plain, &error);
    assert!(matches!(failed, Err(PoseError::Solver)));
    let lost = |_: &Vec<usize>| Some(Consensus { solved: false, inliers: vec![0], pose: 0u8 });
    let empty = |_: &Vec<usize>| Some(Consensus { solved: true, inliers: Vec::new(), pose: 0u8 });
    assert!(matches!(
        solve_visual_pose(8, 8, false, &lost, &stays, &plain, &error),
        Ok(None)
    ));
    assert!(matches!(
        solve_visual_pose(8, 8, false, &empty, &stays, &plain, &error),
        Ok(None)
    ));
}

#[test]
fn second_try_takes_what_the_prior_explains() {
    let solve = |places: &Vec<usize>| -> Option<Consensus<usize>> {
        let inliers = (0..places.len() as i32).collect();
        Some(Consensus { solved: true, inliers, pose: places.len() })
    };
    let refine = |_: &Vec<usize>| -> Option<usize> { None };
    let gauge = |x: usize, near: &Vec<usize>| {
        assert_eq!(near.len(), x);
        let to = if x == 20 { (3.5, 0.0) } else { (0.5, 0.1) };
        Gauge {
            t_global: to_grid(&Matrix4::identity()),
            mean_reproj_px: d(0.5),
            to_prior: Some((d(to.0), d(to.1))),
        }
    };
    let error = |i: usize| if i % 3 == 2 { Some(d(64.5)) } else { Some(d(64.0)) };
    let pose = solve_visual_pose(20, 20, true, &solve, &refine, &gauge, &error).unwrap().unwrap();
    assert_eq!((pose.num_inliers, pose.total), (14, 20));
    // Too few are explained, or all of them: nothing is tried again.
    let few = |i: usize| if i < 11 { Some(d(0.0)) } else { None };
    assert!(solve_visual_pose(20, 20, true, &solve, &refine, &gauge, &few).unwrap().is_none());
    let all = |_: usize| Some(d(0.0));
    assert!(solve_visual_pose(20, 20, true, &solve, &refine, &gauge, &all).unwrap().is_none());
    assert_eq!(prior_subset(&vec![None; 12]), None);
}

#[test]
fn consensus_needs_agreeing_matches() {
    assert!(!has_consensus(true, &Vec::new()));
    assert!(!has_consensus(false, &vec![1]));
    assert_eq!(inlier_places(&vec![-1, 0, 5, 6], 6), vec![0, 5]);
    let refine = |list: &Vec<usize>| if list.len() == 6 { Some(2u32) } else { None };
    let six: Vec<i32> = (0..6).collect();
    let found = |inliers: &Vec<i32>, n: usize, solved: bool| {
        let c = Consensus { solved, inliers: inliers.clone(), pose: 1u32 };
        ransac_pose(&c, &(0..n).collect(), &refine)
    };
    assert_eq!(found(&six, 9, true), Some(2));
    assert_eq!(found(&six, 5, true), Some(1));
    let seven: Vec<i32> = (0..7).collect();
    assert_eq!(found(&seven, 9, true), Some(1));
    assert_eq!(found(&Vec::new(), 9, true), None);
    assert_eq!(found(&six, 9, false), None);
    let last = |list: &Vec<usize>| list.last().map(|x| *x as u32);
    let c = Consensus { solved: true, inliers: six, pose: 1u32 };
    assert_eq!(ransac_pose(&c, &vec![10, 11, 12, 13, 14, 15], &last), Some(15));
}
