use firefly::double::Double;
use firefly::matrix::Matrix;
use firefly::void::cloud::{build_downsampled_cloud, CloudPoint};
use firefly::void::odometry::{
    carries_on, occupied_grid, time_step, wants_raycast, FrameReport, FrameStage, FrameTimings,
    ImuPlan, Jump, MapStep, SeenPoint, VoidOdometry,
};
use firefly::void::options::{default_depth_ext, UpdateGateConfig, VoidOptions};
use firefly::void_esikf::propagator::{NoiseBlocks, PropagationNoise, TransitionBlocks};
use firefly::void_measure::options::DepthOptions;
use firefly::void_measure::visual_update::DepthImage;
use firefly::void_types::sensor::ImuSample;
use firefly::void_types::state::State;
use nalgebra::{Matrix3, Vector3};

fn d(x: f64) -> Double {
    Double::from_bits(x.to_bits())
}

fn f(x: Double) -> f64 {
    f64::from_bits(x.bits)
}

fn plus(a: Double, b: Double) -> Double {
    d(f(a) + f(b))
}

fn times(a: Double, b: Double) -> Double {
    d(f(a) * f(b))
}

fn v3(v: &Vector3<f64>) -> [Double; 3] {
    [d(v.x), d(v.y), d(v.z)]
}

fn to3(v: &[Double; 3]) -> Vector3<f64> {
    Vector3::new(f(v[0]), f(v[1]), f(v[2]))
}

fn r9(m: &Matrix3<f64>) -> [Double; 9] {
    [0, 1, 2, 3, 4, 5, 6, 7, 8].map(|k| d(m[(k / 3, k % 3)]))
}

fn to9(r: &[Double; 9]) -> Matrix3<f64> {
    Matrix3::from_fn(|i, j| f(r[3 * i + j]))
}

fn gate() -> UpdateGateConfig {
    UpdateGateConfig { max_pos_delta: d(0.5), max_vel_delta: d(1.0), max_rot_delta: d(0.2) }
}

fn pipeline(visual_warmup: u32, map_warmup: u32) -> VoidOdometry {
    let options = VoidOptions::default();
    let fov = d(f(options.map.fov_deg).to_radians());
    let rot0 = r9(&to9(&options.body_ext_rot).transpose());
    VoidOdometry::new(options, gate(), visual_warmup, map_warmup, rot0, fov)
}

fn no_jump() -> Jump {
    Jump { dp: d(0.0), dvel: d(0.0), drot: d(0.0) }
}

/// The points of a depth image as the default options place them.
fn cloud_of(image: &DepthImage, options: &VoidOptions) -> Vec<CloudPoint> {
    let rot = to9(&options.depth_ext_rot);
    let focal = 168.607;
    let coeff = f(options.depth.depth_sigma_coeff);
    let cell = f(options.depth.downsample_voxel);
    let back = |x: usize, y: usize, z: Double| {
        let z = f(z);
        let p_gl = Vector3::new((x as f64 - 160.0) / focal * z, (y as f64 - 120.0) / focal * z, -z);
        let r = p_gl.norm();
        let sigma = ((coeff * r * r).powi(2) + (0.02 * r).powi(2)).sqrt();
        let dir = p_gl / r;
        let cov = dir * dir.transpose() * (sigma * sigma)
            + (Matrix3::identity() - dir * dir.transpose()) * 1e-6;
        let p = rot * p_gl;
        CloudPoint {
            position: v3(&p),
            covariance: r9(&(rot * cov * rot.transpose())),
            sigma: d(sigma),
            scaled: v3(&(p / cell)),
        }
    };
    let gap = |a: Double, b: Double| d((f(a) - f(b)).abs());
    build_downsampled_cloud(image, options.depth.max_range, &gap, &back)
}

fn flat_image(width: usize, height: usize, z: f64) -> DepthImage {
    DepthImage { depth: vec![d(z); width * height], width, height }
}

#[test]
fn downsample_keeps_one_point_per_voxel() {
    let options = VoidOptions::default();
    let cloud = cloud_of(&flat_image(320, 240, 2.0), &options);
    assert!(cloud.len() < 500, "downsampled {} should be small", cloud.len());
    assert!(cloud.len() > 30, "downsampled {} should be non-trivial", cloud.len());
    for p in &cloud {
        assert!((f(p.position[2]) - 2.0).abs() < 0.2);
        let c = to9(&p.covariance);
        assert!((c - c.transpose()).norm() < 1e-10);
        assert!(c.determinant() > 0.0);
    }
    let mut cells: Vec<[i64; 3]> =
        cloud.iter().map(|p| p.scaled.map(|x| f(x).floor() as i64)).collect();
    cells.sort();
    cells.dedup();
    assert_eq!(cells.len(), cloud.len());
}

#[test]
fn the_most_uncertain_point_of_a_voxel_stays() {
    let coarse = cloud_of(&flat_image(320, 240, 2.0), &VoidOptions::default());
    let mut options = VoidOptions::default();
    options.depth.downsample_voxel = d(0.1);
    let fine = cloud_of(&flat_image(320, 240, 2.0), &options);
    assert_eq!(fine.len(), 38 * 30);
    for p in &fine {
        let cell = p.position.map(|x| (f(x) / 0.5).floor());
        let kept = coarse.iter().find(|q| q.scaled.map(|x| f(x).floor()) == cell).unwrap();
        assert!(f(kept.sigma) >= f(p.sigma));
    }
}

#[test]
fn edges_and_depths_out_of_range_are_left_out() {
    let options = VoidOptions::default();
    let count = |image: &DepthImage| cloud_of(image, &options).len();
    assert_eq!(count(&flat_image(1, 1, 2.0)), 1);
    assert_eq!(count(&flat_image(1, 1, 6.0)), 1);
    assert_eq!(count(&flat_image(1, 1, 6.01)), 0);
    assert_eq!(count(&flat_image(1, 1, 0.05)), 0);
    assert_eq!(count(&flat_image(1, 1, f64::NAN)), 0);
    assert_eq!(count(&flat_image(1, 1, f64::INFINITY)), 0);
    let step = |near: f64, far: f64| DepthImage { depth: vec![d(near), d(far)], width: 2, height: 1 };
    assert_eq!(count(&step(2.0, 2.14)), 2);
    assert_eq!(count(&step(2.0, 2.2)), 0);
    assert_eq!(count(&step(2.0, 0.01)), 1);
}

#[test]
fn depth_ext_rot_maps_opengl_to_pinhole() {
    let ext = to9(&VoidOptions::default().depth_ext_rot);
    let p = ext * Vector3::new(0.0, 0.0, -5.0);
    assert!((p - Vector3::new(0.0, 0.0, 5.0)).norm() < 1e-12);
    let p2 = ext * Vector3::new(0.1, 0.2, -1.0);
    assert!((p2 - Vector3::new(0.1, -0.2, 1.0)).norm() < 1e-12);
}

#[test]
fn default_depth_ext_maps_pixels_to_pinhole() {
    let ext = to9(&default_depth_ext());
    let p = ext * Vector3::new(0.0, 0.0, -5.0);
    assert!((p - Vector3::new(0.0, 0.0, 5.0)).norm() < 1e-12);
    let p2 = ext * Vector3::new(0.0, 0.1, -1.0);
    assert!((p2 - Vector3::new(0.0, -0.1, 1.0)).norm() < 1e-12);
}

#[test]
fn hover_gravity_consistency() {
    let odom = pipeline(0, 0);
    let r_wv = to9(&odom.state().rot);
    let rot_bv = to9(&odom.body_ext());
    let acc_v = rot_bv * Vector3::new(0.0, 0.0, 9.81);
    let acc_world = r_wv * acc_v + to3(&odom.state().gravity);
    assert!(acc_world.norm() < 1e-9, "{acc_world}");
    assert!((r_wv * rot_bv - Matrix3::identity()).norm() < 1e-9);
}

#[test]
fn a_part_of_the_options_has_its_defaults() {
    let o = VoidOptions::default();
    assert_eq!(o.t0.map(f), [1.0, 4.0, 1.0]);
    assert!(!o.estimate_exposure);
    assert!((f(o.depth.downsample_voxel) - 0.5).abs() < 1e-12);
    assert!((f(o.depth.max_range) - 6.0).abs() < 1e-12);
    assert!((f(o.map.root_size) - 0.5).abs() < 1e-12);
    assert!((f(o.depth.depth_sigma_coeff) - 0.08 / 8.43).abs() < 1e-6);
    assert_eq!(o.map.max_layer, 3);
    let noise = PropagationNoise::default();
    assert!((f(o.imu.bias_gyr) - f(noise.bias_gyr) / 10.0).abs() < 1e-18);
    assert_eq!(o.imu.noise().gyr, noise.gyr);
    assert_eq!(f(o.depth.depth_options().sigma_num), f(DepthOptions::default().sigma_num));
    assert!(o.visual.visual_options(true).estimate_exposure);
    assert_eq!(f(o.map.map_options(d(0.7)).fov), 0.7);
}

#[test]
fn measurements_are_turned_and_queued() {
    let mut odom = pipeline(0, 0);
    let rotate = |r: [Double; 9], v: [Double; 3]| v3(&(to9(&r) * to3(&v)));
    for t in [1.0, 1.5, 2.0, 2.5] {
        let omega = v3(&Vector3::new(1.0, 0.0, 0.0));
        odom.process_imu(&ImuSample { t: d(t), omega, acc: omega }, &rotate);
    }
    assert_eq!(to3(&odom.imu_queue[0].omega), Vector3::new(0.0, 0.0, 1.0));
    let plan = odom.begin_frame(d(1.9), d(2.0), &plus);
    assert_eq!(f(plan.frame_t), 2.0);
    assert_eq!(plan.samples.len(), 3);
    assert_eq!(f(plan.reached), 2.0);
    assert_eq!(odom.imu_queue.len(), 1);
    assert_eq!(odom.frame_id, 1);
    let plan = odom.begin_frame(d(2.2), d(2.1), &plus);
    assert!(plan.samples.is_empty());
    assert_eq!(f(plan.reached), 2.2);
    assert_eq!(odom.frame_id, 2);
}

#[test]
fn short_steps_are_stretched_and_tails_skipped() {
    assert_eq!(f(time_step(d(0.02))), 0.02);
    assert_eq!(f(time_step(d(-1.0))), 1e-4);
    assert!(!carries_on(d(1e-3)));
    assert!(carries_on(d(1.1e-3)));
    assert!(wants_raycast(59));
    assert!(!wants_raycast(60));
}

#[test]
fn jumps_are_rejected() {
    let mut odom = pipeline(0, 0);
    let mut report = FrameReport::new();
    let moved = State { pos: v3(&Vector3::new(9.0, 9.0, 9.0)), ..State::default() };
    let far = Jump { dp: d(0.5), ..no_jump() };
    odom.judge_depth(&mut report, 7, 3, moved.clone(), far);
    assert_eq!(odom.rejected_updates, 1);
    assert_eq!(report.rejected, 1);
    assert_eq!(report.depth_inliers, 7);
    assert!(report.depth_converged);
    assert_eq!(odom.state().pos.map(f), [1.0, 4.0, 1.0]);
    // The depth update may change the velocity, the visual one may not.
    let fast = Jump { dvel: d(2.0), ..no_jump() };
    odom.judge_depth(&mut report, 7, 5, moved.clone(), fast);
    assert_eq!(odom.state().pos, moved.pos);
    assert!(!report.depth_converged);
    odom.judge_visual(&mut report, 4, State::default(), fast);
    assert_eq!(odom.state().pos, moved.pos);
    assert_eq!((report.visual_iterations, report.visual_healthy), (0, false));
    let lost = Jump { drot: d(f64::NAN), ..no_jump() };
    odom.judge_visual(&mut report, 4, State::default(), lost);
    assert_eq!(odom.rejected_updates, 3);
    let bright = State { inv_expo_time: d(3.0), ..State::default() };
    odom.judge_visual(&mut report, 4, bright, no_jump());
    assert_eq!((report.visual_iterations, report.visual_healthy), (4, true));
    assert_eq!(f(odom.state().inv_expo_time), 1.0);
    let out = odom.finish_frame(d(2.5), &report, FrameTimings::default());
    assert_eq!(out.rejected_updates, 3);
    assert_eq!(out.rejected_total, 3);
    assert_eq!(out.visual_iterations, 4);
    assert_eq!(f(out.t), 2.5);
    assert_eq!(out.covariance_diag.len(), 19);
    assert_eq!(odom.last_frame_t.map(f), Some(2.5));
}

#[test]
fn refused_updates_leave_no_trace() {
    let mut odom = pipeline(0, 0);
    let before = odom.state().clone();
    let mut report = FrameReport::new();
    let moved = State { pos: v3(&Vector3::new(9.0, 9.0, 9.0)), ..State::default() };
    let far = Jump { dp: d(50.0), ..no_jump() };
    odom.judge_depth(&mut report, 7, 3, moved.clone(), far);
    odom.judge_visual(&mut report, 4, moved, far);
    let out = odom.finish_frame(d(2.5), &report, FrameTimings::default());
    assert_eq!(odom.state().pos, before.pos);
    assert_eq!(odom.state().rot, before.rot);
    assert_eq!(odom.state().vel, before.vel);
    assert_eq!((out.rejected_updates, out.rejected_total), (2, 2));
    assert_eq!(out.visual_iterations, 0);
}

#[test]
fn early_frames_only_propagate() {
    let mut odom = pipeline(2, 1);
    let mut seen = Vec::new();
    for _ in 0..3 {
        odom.begin_frame(d(1.0), d(1.0), &plus);
        seen.push((odom.visual_warmup(), odom.map_step()));
    }
    assert_eq!(
        seen,
        vec![
            (true, MapStep::Skip),
            (true, MapStep::Register),
            (false, MapStep::RegisterAndUpdateVisual),
        ]
    );
}

#[test]
fn a_given_pose_starts_anew() {
    let mut odom = pipeline(0, 0);
    odom.state.vel = v3(&Vector3::new(1.0, 1.0, 1.0));
    let rot = r9(&Matrix3::identity());
    odom.set_initial_pose(d(7.0), v3(&Vector3::new(1.0, 2.0, 3.0)), rot);
    assert_eq!(odom.state().pos.map(f), [1.0, 2.0, 3.0]);
    assert_eq!(odom.state().vel.map(f), [0.0; 3]);
    assert_eq!(odom.state().rot, rot);
    assert_eq!(odom.last_frame_t.map(f), Some(7.0));
    assert_eq!(odom.map_stats(), (0, 0));
    assert!(odom.map_points(5).is_empty());
}

#[test]
fn cells_with_points_are_occupied() {
    let at = |u: f64, v: f64, z: f64| SeenPoint { depth: d(z), pixel: [d(u), d(v)] };
    let points = vec![at(0.0, 0.0, 1.0), at(45.0, 31.0, 1.0), at(999.0, 999.0, 1.0)];
    assert_eq!(occupied_grid(&points, 3, 2), vec![true, false, false, false, true, true]);
    let hidden = vec![at(0.0, 0.0, 0.0), at(-1.0, 5.0, 1.0), at(5.0, -0.5, 1.0)];
    assert_eq!(occupied_grid(&hidden, 3, 2), vec![false; 6]);
}

fn eye3(by: f64) -> Matrix {
    let mut m = Matrix::filled(3, 3, Double::zero());
    (0..3).for_each(|i| m.set(i, i, d(by)));
    m
}

#[test]
fn measurements_move_the_state() {
    let mut odom = pipeline(0, 0);
    odom.set_initial_pose(d(0.0), [d(0.0); 3], r9(&Matrix3::identity()));
    let sample = |t: f64, a: f64| ImuSample { t: d(t), omega: [d(0.0); 3], acc: [d(a), d(0.0), d(9.81)] };
    let linearize = |_: [Double; 9], _: [Double; 3], _: [Double; 3], dt: Double| {
        let none = d(0.0);
        (
            TransitionBlocks {
                turn: eye3(1.0),
                velocity_turn: eye3(0.0),
                velocity_bias: eye3(0.0),
                dt,
            },
            NoiseBlocks { gyr: none, bias_gyr: none, bias_acc: none, inv_expo: none, velocity: eye3(0.0) },
        )
    };
    let spin = |r: [Double; 9], _: [Double; 3], _: Double| r;
    // The mean acceleration over a second is two; half a second is left at three.
    let plan = ImuPlan {
        frame_t: d(1.5),
        samples: vec![sample(0.0, 1.0), sample(1.0, 3.0)],
        reached: d(1.0),
    };
    odom.propagate(&plan, &linearize, &spin, &plus, &times);
    assert!((f(odom.state().vel[0]) - 3.5).abs() < 1e-12);
    assert!((f(odom.state().pos[0]) - (1.0 + 2.0 * 0.5 + 0.5 * 3.0 * 0.25)).abs() < 1e-12);
    assert!(f(odom.state().vel[2]).abs() < 1e-12);
    // Without measurements nothing moves, and too short a rest is skipped.
    let before = odom.state().pos;
    let plan = ImuPlan { frame_t: d(9.0), samples: Vec::new(), reached: d(0.0) };
    odom.propagate(&plan, &linearize, &spin, &plus, &times);
    let plan = ImuPlan { frame_t: d(9.0), samples: vec![sample(9.0, 1.0)], reached: d(9.0) };
    odom.propagate(&plan, &linearize, &spin, &plus, &times);
    assert_eq!(odom.state().pos, before);
}

#[test]
fn stages_follow_each_other() {
    let mut odom = pipeline(1, 0);
    odom.begin_frame(d(1.0), d(1.0), &plus);
    assert_eq!(odom.next_stage(FrameStage::Propagate), Some(FrameStage::Depth));
    // The first frame is not updated with the image.
    assert_eq!(odom.next_stage(FrameStage::Depth), Some(FrameStage::Mapping));
    odom.begin_frame(d(2.0), d(2.0), &plus);
    assert_eq!(odom.next_stage(FrameStage::Depth), Some(FrameStage::Visual));
    assert_eq!(odom.next_stage(FrameStage::Visual), Some(FrameStage::Mapping));
    assert_eq!(odom.next_stage(FrameStage::Mapping), None);
}
