//! Options of the filter, with their defaults.

use vstd::prelude::*;

use crate::double::Double;

verus! {

/// How the inertial measurements are integrated.
#[derive(Clone, Copy, Debug, PartialEq, Eq, Structural)]
pub enum IntegrationMethod {
    /// Zero-order discrete steps.
    Discrete,
    /// Fourth-order Runge-Kutta.
    Rk4,
    /// Closed form.
    Analytical,
}

/// The model of the inertial sensor's own errors.
#[derive(Clone, Copy, Debug, PartialEq, Eq, Structural)]
pub enum ImuModel {
    /// Scale and shear filled by rows; the gyroscope frame is calibrated.
    Kalibr,
    /// Scale and shear filled by columns; the accelerometer frame is calibrated.
    Rpng,
}

/// How a feature's position is written down.
#[derive(Clone, Copy, Debug, PartialEq, Eq, Structural)]
pub enum FeatRepresentation {
    /// Global coordinates.
    Global3D,
    /// Global bearing angles and inverse depth.
    GlobalFullInverseDepth,
    /// Coordinates in the anchor camera.
    Anchored3D,
    /// Bearing angles and inverse depth in the anchor camera.
    AnchoredFullInverseDepth,
    /// Normalized image coordinates and inverse depth in the anchor camera.
    AnchoredMsckfInverseDepth,
    /// Inverse depth along the first bearing in the anchor camera.
    AnchoredInverseDepthSingle,
}

impl FeatRepresentation {
    /// Whether the position is relative to an anchor camera.
    pub open spec fn spec_is_relative(self) -> bool {
        !(self is Global3D) && !(self is GlobalFullInverseDepth)
    }

    /// How many numbers the filter estimates for a feature written this way.
    pub open spec fn dim(self) -> int {
        if self is AnchoredInverseDepthSingle {
            1
        } else {
            3
        }
    }

    /// Whether the position is relative to an anchor camera.
    #[verifier::when_used_as_spec(spec_is_relative)]
    pub fn is_relative(self) -> (relative: bool)
        ensures
            relative == self.spec_is_relative(),
    {
        matches!(
            self,
            FeatRepresentation::Anchored3D
                | FeatRepresentation::AnchoredFullInverseDepth
                | FeatRepresentation::AnchoredMsckfInverseDepth
                | FeatRepresentation::AnchoredInverseDepthSingle
        )
    }
}

/// What the filter estimates, and how much of it.
#[derive(Clone, Copy, Debug, PartialEq, Eq, Structural)]
pub struct StateOptions {
    /// Linearize at first estimates.
    pub do_fej: bool,
    /// How inertial measurements are integrated.
    pub integration_method: IntegrationMethod,
    /// Calibrate the camera poses.
    pub do_calib_camera_pose: bool,
    /// Calibrate the camera intrinsics.
    pub do_calib_camera_intrinsics: bool,
    /// Calibrate the time offset between cameras and inertial sensor.
    pub do_calib_camera_timeoffset: bool,
    /// Calibrate scale and shear of the inertial sensor.
    pub do_calib_imu_intrinsics: bool,
    /// Calibrate the gyroscope's sensitivity to gravity.
    pub do_calib_imu_g_sensitivity: bool,
    /// The model of the inertial sensor's errors.
    pub imu_model: ImuModel,
    /// The most clones the window keeps.
    pub max_clone_size: usize,
    /// The most features the state keeps.
    pub max_slam_features: usize,
    /// The most state features in one update.
    pub max_slam_in_update: usize,
    /// The most window features in one update.
    pub max_msckf_in_update: usize,
    /// The most marker features; zero without a marker tracker.
    pub max_aruco_features: usize,
    /// The number of cameras.
    pub num_cameras: usize,
    /// How window features are written down.
    pub feat_rep_msckf: FeatRepresentation,
    /// How state features are written down.
    pub feat_rep_slam: FeatRepresentation,
}

impl Default for StateOptions {
    fn default() -> (o: Self)
        ensures
            o == (StateOptions {
                do_fej: true,
                integration_method: IntegrationMethod::Rk4,
                do_calib_camera_pose: false,
                do_calib_camera_intrinsics: false,
                do_calib_camera_timeoffset: false,
                do_calib_imu_intrinsics: false,
                do_calib_imu_g_sensitivity: false,
                imu_model: ImuModel::Kalibr,
                max_clone_size: 11,
                max_slam_features: 25,
                max_slam_in_update: 1000,
                max_msckf_in_update: 1000,
                max_aruco_features: 0,
                num_cameras: 1,
                feat_rep_msckf: FeatRepresentation::Global3D,
                feat_rep_slam: FeatRepresentation::Global3D,
            }),
    {
        StateOptions {
            do_fej: true,
            integration_method: IntegrationMethod::Rk4,
            do_calib_camera_pose: false,
            do_calib_camera_intrinsics: false,
            do_calib_camera_timeoffset: false,
            do_calib_imu_intrinsics: false,
            do_calib_imu_g_sensitivity: false,
            imu_model: ImuModel::Kalibr,
            max_clone_size: 11,
            max_slam_features: 25,
            max_slam_in_update: 1000,
            max_msckf_in_update: 1000,
            max_aruco_features: 0,
            num_cameras: 1,
            feat_rep_msckf: FeatRepresentation::Global3D,
            feat_rep_slam: FeatRepresentation::Global3D,
        }
    }
}

/// What the inertial propagation needs of the options.
#[derive(Clone, Copy, Debug, PartialEq, Eq, Structural)]
pub struct PropagationOptions {
    /// How inertial measurements are integrated.
    pub integration_method: IntegrationMethod,
    /// Calibrate scale and shear of the inertial sensor.
    pub do_calib_imu_intrinsics: bool,
    /// Calibrate the gyroscope's sensitivity to gravity.
    pub do_calib_imu_g_sensitivity: bool,
    /// Linearize at first estimates.
    pub do_fej: bool,
    /// The model of the inertial sensor's errors.
    pub imu_model: ImuModel,
}

impl StateOptions {
    /// The number of error states that calibrate the inertial sensor: scale,
    /// shear and rotation count fifteen, gravity sensitivity nine more, and only
    /// beside the former.
    pub open spec fn intrinsic_size(self) -> int {
        if self.do_calib_imu_intrinsics {
            if self.do_calib_imu_g_sensitivity {
                24
            } else {
                15
            }
        } else {
            0
        }
    }

    /// The number of error states that calibrate the inertial sensor.
    pub fn imu_intrinsic_size(&self) -> (size: usize)
        ensures
            size == self.intrinsic_size(),
    {
        let mut size: usize = 0;
        if self.do_calib_imu_intrinsics {
            size += 15;
            if self.do_calib_imu_g_sensitivity {
                size += 9;
            }
        }
        size
    }

    /// The options that the inertial propagation reads.
    pub fn to_propagation_options(&self) -> (p: PropagationOptions)
        ensures
            p == (PropagationOptions {
                integration_method: self.integration_method,
                do_calib_imu_intrinsics: self.do_calib_imu_intrinsics,
                do_calib_imu_g_sensitivity: self.do_calib_imu_g_sensitivity,
                do_fej: self.do_fej,
                imu_model: self.imu_model,
            }),
    {
        PropagationOptions {
            integration_method: self.integration_method,
            do_calib_imu_intrinsics: self.do_calib_imu_intrinsics,
            do_calib_imu_g_sensitivity: self.do_calib_imu_g_sensitivity,
            do_fej: self.do_fej,
            imu_model: self.imu_model,
        }
    }
}

/// Measurement noise and gates of a visual update.
#[derive(Clone, Copy, Debug, PartialEq, Eq, Structural)]
pub struct UpdaterOptions {
    /// Factor on the chi-squared threshold.
    pub chi2_multipler: Double,
    /// Standard deviation of a pixel measurement.
    pub sigma_pix: Double,
    /// Variance of a pixel measurement.
    pub sigma_pix_sq: Double,
    /// Features beyond this depth (m) are dropped.
    pub max_feature_depth_m: Double,
    /// Depth (m) at which the pixel noise has doubled.
    pub depth_noise_scale_m: Double,
    /// Largest position correction (m) of one update.
    pub max_state_correction_m: Double,
}

impl Default for UpdaterOptions {
    /// A factor of 5, a deviation of 3 pixels, depths up to 8 m with a scale of
    /// 5 m, corrections up to half a metre.
    fn default() -> (o: Self)
        ensures
            o.chi2_multipler.bits == 0x4014_0000_0000_0000,
            o.sigma_pix.bits == 0x4008_0000_0000_0000,
            o.sigma_pix_sq.bits == 0x4022_0000_0000_0000,
            o.max_feature_depth_m.bits == 0x4020_0000_0000_0000,
            o.depth_noise_scale_m.bits == 0x4014_0000_0000_0000,
            o.max_state_correction_m.bits == 0x3FE0_0000_0000_0000,
    {
        UpdaterOptions {
            chi2_multipler: Double { bits: 0x4014_0000_0000_0000 },
            sigma_pix: Double { bits: 0x4008_0000_0000_0000 },
            sigma_pix_sq: Double { bits: 0x4022_0000_0000_0000 },
            max_feature_depth_m: Double { bits: 0x4020_0000_0000_0000 },
            depth_noise_scale_m: Double { bits: 0x4014_0000_0000_0000 },
            max_state_correction_m: Double { bits: 0x3FE0_0000_0000_0000 },
        }
    }
}

/// Options of the zero-velocity update.
#[derive(Clone, Copy, Debug, PartialEq, Eq, Structural)]
pub struct ZuptOptions {
    /// Try zero-velocity updates.
    pub try_zupt: bool,
    /// No update above this speed.
    pub zupt_max_velocity: Double,
    /// Factor on the measurement noise.
    pub zupt_noise_multiplier: Double,
    /// No update at or above this mean disparity.
    pub zupt_max_disparity: Double,
    /// Only until the platform has moved.
    pub zupt_only_at_beginning: bool,
    /// Constrain the integrated acceleration as well.
    pub integrated_accel_constraint: bool,
}

impl Default for ZuptOptions {
    /// Off, with unit thresholds.
    fn default() -> (o: Self)
        ensures
            !o.try_zupt,
            o.zupt_max_velocity.bits == crate::double::ONE_BITS,
            o.zupt_noise_multiplier.bits == crate::double::ONE_BITS,
            o.zupt_max_disparity.bits == crate::double::ONE_BITS,
            !o.zupt_only_at_beginning,
            !o.integrated_accel_constraint,
    {
        ZuptOptions {
            try_zupt: false,
            zupt_max_velocity: Double::one(),
            zupt_noise_multiplier: Double::one(),
            zupt_max_disparity: Double::one(),
            zupt_only_at_beginning: false,
            integrated_accel_constraint: false,
        }
    }
}

/// Options of the odometry.
#[derive(Clone, Copy, Debug, PartialEq, Eq, Structural)]
pub struct VioManagerOptions {
    /// What the filter estimates.
    pub state_options: StateOptions,
    /// Noise and gates of the update with window features.
    pub msckf_options: UpdaterOptions,
    /// Noise and gates of the update with state features.
    pub slam_options: UpdaterOptions,
    /// How long (s) after the start no feature enters the state.
    pub dt_slam_delay: Double,
    /// Options of the zero-velocity update.
    pub zupt_options: ZuptOptions,
    /// Prior deviation of the biases after a start from a known state.
    pub init_bias_sigma: Double,
}

impl Default for VioManagerOptions {
    /// The defaults of the parts, a delay of two seconds and a deviation of 0.02.
    fn default() -> (o: Self)
        ensures
            call_ensures(<StateOptions as Default>::default, (), o.state_options),
            call_ensures(<UpdaterOptions as Default>::default, (), o.msckf_options),
            call_ensures(<UpdaterOptions as Default>::default, (), o.slam_options),
            call_ensures(<ZuptOptions as Default>::default, (), o.zupt_options),
            o.dt_slam_delay.bits == 0x4000_0000_0000_0000,
            o.init_bias_sigma.bits == 0x3F94_7AE1_47AE_147B,
    {
        VioManagerOptions {
            state_options: StateOptions::default(),
            msckf_options: UpdaterOptions::default(),
            slam_options: UpdaterOptions::default(),
            dt_slam_delay: Double { bits: 0x4000_0000_0000_0000 },
            zupt_options: ZuptOptions::default(),
            init_bias_sigma: Double { bits: 0x3F94_7AE1_47AE_147B },
        }
    }
}

} // verus!
