//! Options of the pipeline.

use vstd::prelude::*;

use crate::double::{Double, MINUS_ONE_BITS, ONE_BITS};
use crate::void_esikf::propagator::PropagationNoise;
use crate::void_map::options::VoxelMapOptions;
use crate::void_measure::options::{DepthOptions, VisualOptions};

verus! {

/// The rotation from the depth camera to the camera frame, row by row: the second
/// and third axis are turned around.
pub fn default_depth_ext() -> (r: [Double; 9])
    ensures
        forall|i: int|
            0 <= i < 9 ==> (#[trigger] r@[i]).bits == (if i == 0 {
                ONE_BITS
            } else if i == 4 || i == 8 {
                MINUS_ONE_BITS
            } else {
                0
            }),
{
    let o = Double::zero();
    [Double::one(), o, o, o, Double::minus_one(), o, o, o, Double::minus_one()]
}

/// The rotation from the body to the camera frame, row by row: forward becomes
/// depth, left becomes minus right, up becomes minus down.
pub fn default_body_ext() -> (r: [Double; 9])
    ensures
        forall|i: int|
            0 <= i < 9 ==> (#[trigger] r@[i]).bits == (if i == 6 {
                ONE_BITS
            } else if i == 1 || i == 5 {
                MINUS_ONE_BITS
            } else {
                0
            }),
{
    let o = Double::zero();
    let m = Double::minus_one();
    [o, m, o, o, o, m, Double::one(), o, o]
}

/// Variances of the inertial sensor.
#[derive(Clone, Copy, Debug, PartialEq, Eq, Structural)]
pub struct PropagationNoiseConfig {
    /// Gyroscope.
    pub gyr: Double,
    /// Accelerometer.
    pub acc: Double,
    /// Walk of the gyroscope's bias.
    pub bias_gyr: Double,
    /// Walk of the accelerometer's bias.
    pub bias_acc: Double,
    /// Walk of the inverse exposure time.
    pub inv_expo: Double,
}

impl Default for PropagationNoiseConfig {
    /// Those of the filter, with a tenth of the biases' walk.
    fn default() -> (c: Self)
        ensures
            c.gyr.bits == 0x3FB9_9999_9999_999A,
            c.acc.bits == 0x3FB9_9999_9999_999A,
            c.bias_gyr.bits == 0x3F84_7AE1_47AE_147B,
            c.bias_acc.bits == 0x3F84_7AE1_47AE_147B,
            c.inv_expo.bits == 0x3FC9_9999_9999_999A,
    {
        let n = PropagationNoise::default();
        let tenth = Double { bits: 0x3F84_7AE1_47AE_147B };
        PropagationNoiseConfig {
            gyr: n.gyr,
            acc: n.acc,
            bias_gyr: tenth,
            bias_acc: tenth,
            inv_expo: n.inv_expo,
        }
    }
}

impl PropagationNoiseConfig {
    /// The variances as the filter takes them.
    pub fn noise(&self) -> (n: PropagationNoise)
        ensures
            n == (PropagationNoise {
                gyr: self.gyr,
                acc: self.acc,
                bias_gyr: self.bias_gyr,
                bias_acc: self.bias_acc,
                inv_expo: self.inv_expo,
            }),
    {
        PropagationNoise {
            gyr: self.gyr,
            acc: self.acc,
            bias_gyr: self.bias_gyr,
            bias_acc: self.bias_acc,
            inv_expo: self.inv_expo,
        }
    }
}

/// Options of the depth measurement and of its cloud.
#[derive(Clone, Copy, Debug, PartialEq, Eq, Structural)]
pub struct DepthConfig {
    /// Edge length of the voxels that thin out the cloud (m).
    pub downsample_voxel: Double,
    /// The largest depth (m).
    pub max_range: Double,
    /// Standard deviation of a depth over its square.
    pub depth_sigma_coeff: Double,
    /// Deviation of a depth reading.
    pub dept_err: Double,
    /// Deviation of a ray's angle.
    pub beam_err: Double,
    /// The standard deviations within which a residual is used.
    pub sigma_num: Double,
    /// How many extents a point may lie from a plane's center.
    pub radius_k: Double,
}

impl Default for DepthConfig {
    /// Voxels of 0.5 m, depths of up to 6 m, and the defaults of the measurement.
    fn default() -> (c: Self)
        ensures
            c.downsample_voxel.bits == 0x3FE0_0000_0000_0000,
            c.max_range.bits == 0x4018_0000_0000_0000,
            call_ensures(<DepthOptions as Default>::default, (), c.measurement()),
    {
        let o = DepthOptions::default();
        let c = DepthConfig {
            downsample_voxel: Double { bits: 0x3FE0_0000_0000_0000 },
            max_range: Double { bits: 0x4018_0000_0000_0000 },
            depth_sigma_coeff: o.depth_sigma_coeff,
            dept_err: o.dept_err,
            beam_err: o.beam_err,
            sigma_num: o.sigma_num,
            radius_k: o.radius_k,
        };
        assert(c.measurement() == o);
        c
    }
}

impl DepthConfig {
    /// The options as the measurement takes them.
    pub open spec fn measurement(&self) -> DepthOptions {
        DepthOptions {
            depth_sigma_coeff: self.depth_sigma_coeff,
            dept_err: self.dept_err,
            beam_err: self.beam_err,
            sigma_num: self.sigma_num,
            radius_k: self.radius_k,
        }
    }

    /// The options as the measurement takes them.
    pub fn depth_options(&self) -> (o: DepthOptions)
        ensures
            o == self.measurement(),
    {
        DepthOptions {
            depth_sigma_coeff: self.depth_sigma_coeff,
            dept_err: self.dept_err,
            beam_err: self.beam_err,
            sigma_num: self.sigma_num,
            radius_k: self.radius_k,
        }
    }
}

/// Options of the visual measurement.
#[derive(Clone, Copy, Debug, PartialEq, Eq, Structural)]
pub struct VisualConfig {
    /// Variance of a pixel.
    pub img_point_cov: Double,
    /// The mean squared error of a patch that is still used.
    pub outlier_threshold: Double,
    /// Edge length of a patch (samples).
    pub patch_size: usize,
    /// Levels of the pyramid.
    pub pyramid_level: usize,
    /// The most iterations on a level.
    pub max_iterations: usize,
    /// The step below which a level has converged.
    pub convergence_eps: Double,
    /// The threshold of the robust weight.
    pub huber_delta: Double,
    /// The jump in depth (m) at which a point counts as hidden.
    pub depth_discontinuity_thresh: Double,
    /// The least cosine between normal and line of sight.
    pub min_view_cos: Double,
}

impl Default for VisualConfig {
    /// The defaults of the measurement.
    fn default() -> (c: Self)
        ensures
            call_ensures(<VisualOptions as Default>::default, (), c.measurement(true)),
    {
        let o = VisualOptions::default();
        let c = VisualConfig {
            img_point_cov: o.img_point_cov,
            outlier_threshold: o.outlier_threshold,
            patch_size: o.patch_size,
            pyramid_level: o.pyramid_level,
            max_iterations: o.max_iterations,
            convergence_eps: o.convergence_eps,
            huber_delta: o.huber_delta,
            depth_discontinuity_thresh: o.depth_discontinuity_thresh,
            min_view_cos: o.min_view_cos,
        };
        assert(c.measurement(true) == o);
        c
    }
}

impl VisualConfig {
    /// The options as the measurement takes them.
    pub open spec fn measurement(&self, estimate_exposure: bool) -> VisualOptions {
        VisualOptions {
            img_point_cov: self.img_point_cov,
            outlier_threshold: self.outlier_threshold,
            patch_size: self.patch_size,
            pyramid_level: self.pyramid_level,
            max_iterations: self.max_iterations,
            convergence_eps: self.convergence_eps,
            huber_delta: self.huber_delta,
            depth_discontinuity_thresh: self.depth_discontinuity_thresh,
            min_view_cos: self.min_view_cos,
            estimate_exposure,
        }
    }

    /// The options as the measurement takes them.
    pub fn visual_options(&self, estimate_exposure: bool) -> (o: VisualOptions)
        ensures
            o == self.measurement(estimate_exposure),
    {
        VisualOptions {
            img_point_cov: self.img_point_cov,
            outlier_threshold: self.outlier_threshold,
            patch_size: self.patch_size,
            pyramid_level: self.pyramid_level,
            max_iterations: self.max_iterations,
            convergence_eps: self.convergence_eps,
            huber_delta: self.huber_delta,
            depth_discontinuity_thresh: self.depth_discontinuity_thresh,
            min_view_cos: self.min_view_cos,
            estimate_exposure,
        }
    }
}

/// Options of the map; the angle of view is in degrees.
#[derive(Clone, Copy, Debug)]
pub struct MapConfig {
    /// Edge length of a root voxel (m).
    pub root_size: Double,
    /// How often a root voxel is split at most.
    pub max_layer: usize,
    /// How many points a node gathers before a plane is tried, by layer.
    pub layer_init_num: [usize; 5],
    /// The points after which a node takes no more.
    pub max_points_per_plane: usize,
    /// New points after which a plane is fitted again.
    pub update_size_threshold: usize,
    /// The least eigenvalue of points that are no plane.
    pub planer_threshold: Double,
    /// Half the width of the map, in root voxels.
    pub half_map_size: i64,
    /// How far (m) the platform moves before the map follows.
    pub sliding_thresh: Double,
    /// Edge length of a grid cell (pixels).
    pub grid_size: usize,
    /// Edge length of a patch (pixels).
    pub patch_size: usize,
    /// Levels of a patch pyramid.
    pub patch_pyramid_level: usize,
    /// Frames after which a patch is added.
    pub patch_add_frame_gap: u32,
    /// Pixels of movement after which a patch is added.
    pub patch_add_pixel_dist: Double,
    /// Change of a normal below which it has settled.
    pub normal_converge_thresh: Double,
    /// The most patches of a point.
    pub max_obs_per_point: usize,
    /// The fewest patches among which a reference is chosen.
    pub min_obs_for_score: usize,
    /// The fewest patches with which a normal can settle.
    pub min_obs_for_converge: usize,
    /// Where rays begin (m).
    pub ray_depth_min: Double,
    /// Where rays end (m).
    pub ray_depth_max: Double,
    /// Half the angle of view (degrees).
    pub fov_deg: Double,
}

impl Default for MapConfig {
    /// The defaults of the map, which sees seventy degrees.
    fn default() -> (c: Self)
        ensures
            exists|o: VoxelMapOptions|
                #[trigger] call_ensures(<VoxelMapOptions as Default>::default, (), o) && c.options(
                    o.fov,
                ) == o,
            c.fov_deg.bits == 0x4051_8000_0000_0000,
    {
        let o = VoxelMapOptions::default();
        let c = MapConfig {
            root_size: o.root_size,
            max_layer: o.max_layer,
            layer_init_num: o.layer_init_num,
            max_points_per_plane: o.max_points_per_plane,
            update_size_threshold: o.update_size_threshold,
            planer_threshold: o.planer_threshold,
            half_map_size: o.half_map_size,
            sliding_thresh: o.sliding_thresh,
            grid_size: o.grid_size,
            patch_size: o.patch_size,
            patch_pyramid_level: o.patch_pyramid_level,
            patch_add_frame_gap: o.patch_add_frame_gap,
            patch_add_pixel_dist: o.patch_add_pixel_dist,
            normal_converge_thresh: o.normal_converge_thresh,
            max_obs_per_point: o.max_obs_per_point,
            min_obs_for_score: o.min_obs_for_score,
            min_obs_for_converge: o.min_obs_for_converge,
            ray_depth_min: o.ray_depth_min,
            ray_depth_max: o.ray_depth_max,
            fov_deg: Double { bits: 0x4051_8000_0000_0000 },
        };
        assert(c.options(o.fov) == o);
        c
    }
}

impl MapConfig {
    /// The options as the map takes them, with the angle of view in radians.
    pub open spec fn options(&self, fov: Double) -> VoxelMapOptions {
        VoxelMapOptions {
            root_size: self.root_size,
            max_layer: self.max_layer,
            layer_init_num: self.layer_init_num,
            max_points_per_plane: self.max_points_per_plane,
            update_size_threshold: self.update_size_threshold,
            planer_threshold: self.planer_threshold,
            half_map_size: self.half_map_size,
            sliding_thresh: self.sliding_thresh,
            grid_size: self.grid_size,
            patch_size: self.patch_size,
            patch_pyramid_level: self.patch_pyramid_level,
            patch_add_frame_gap: self.patch_add_frame_gap,
            patch_add_pixel_dist: self.patch_add_pixel_dist,
            normal_converge_thresh: self.normal_converge_thresh,
            max_obs_per_point: self.max_obs_per_point,
            min_obs_for_score: self.min_obs_for_score,
            min_obs_for_converge: self.min_obs_for_converge,
            ray_depth_min: self.ray_depth_min,
            ray_depth_max: self.ray_depth_max,
            fov,
        }
    }

    /// The options as the map takes them, with the angle of view in radians.
    pub fn map_options(&self, fov: Double) -> (o: VoxelMapOptions)
        ensures
            o == self.options(fov),
    {
        VoxelMapOptions {
            root_size: self.root_size,
            max_layer: self.max_layer,
            layer_init_num: self.layer_init_num,
            max_points_per_plane: self.max_points_per_plane,
            update_size_threshold: self.update_size_threshold,
            planer_threshold: self.planer_threshold,
            half_map_size: self.half_map_size,
            sliding_thresh: self.sliding_thresh,
            grid_size: self.grid_size,
            patch_size: self.patch_size,
            patch_pyramid_level: self.patch_pyramid_level,
            patch_add_frame_gap: self.patch_add_frame_gap,
            patch_add_pixel_dist: self.patch_add_pixel_dist,
            normal_converge_thresh: self.normal_converge_thresh,
            max_obs_per_point: self.max_obs_per_point,
            min_obs_for_score: self.min_obs_for_score,
            min_obs_for_converge: self.min_obs_for_converge,
            ray_depth_min: self.ray_depth_min,
            ray_depth_max: self.ray_depth_max,
            fov,
        }
    }
}

/// How far a single update may move the state.
#[derive(Clone, Copy, Debug, PartialEq, Eq, Structural)]
pub struct UpdateGateConfig {
    /// The largest move (m).
    pub max_pos_delta: Double,
    /// The largest change of velocity (m/s).
    pub max_vel_delta: Double,
    /// The largest turn (rad).
    pub max_rot_delta: Double,
}

/// Options of the pipeline.
#[derive(Clone, Copy, Debug)]
pub struct VoidOptions {
    /// Where the platform starts (m).
    pub t0: [Double; 3],
    /// Estimate the exposure.
    pub estimate_exposure: bool,
    /// The inertial sensor.
    pub imu: PropagationNoiseConfig,
    /// The depth measurement.
    pub depth: DepthConfig,
    /// The visual measurement.
    pub visual: VisualConfig,
    /// The map.
    pub map: MapConfig,
    /// The rotation from the depth camera to the camera frame, row by row.
    pub depth_ext_rot: [Double; 9],
    /// The rotation from the body to the camera frame, row by row.
    pub body_ext_rot: [Double; 9],
}

impl Default for VoidOptions {
    /// A start at (1, 4, 1), a fixed exposure, defaults for the rest.
    fn default() -> (o: Self)
        ensures
            o.t0@[0].bits == ONE_BITS,
            o.t0@[1].bits == 0x4010_0000_0000_0000,
            o.t0@[2].bits == ONE_BITS,
            !o.estimate_exposure,
            call_ensures(<PropagationNoiseConfig as Default>::default, (), o.imu),
            call_ensures(<DepthConfig as Default>::default, (), o.depth),
            call_ensures(<VisualConfig as Default>::default, (), o.visual),
            call_ensures(<MapConfig as Default>::default, (), o.map),
            call_ensures(default_depth_ext, (), o.depth_ext_rot),
            call_ensures(default_body_ext, (), o.body_ext_rot),
    {
        VoidOptions {
            t0: [Double::one(), Double { bits: 0x4010_0000_0000_0000 }, Double::one()],
            estimate_exposure: false,
            imu: PropagationNoiseConfig::default(),
            depth: DepthConfig::default(),
            visual: VisualConfig::default(),
            map: MapConfig::default(),
            depth_ext_rot: default_depth_ext(),
            body_ext_rot: default_body_ext(),
        }
    }
}

} // verus!
