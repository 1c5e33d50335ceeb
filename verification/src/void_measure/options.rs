//! Options of the measurement models.

use vstd::prelude::*;

use crate::double::{Double, INFINITY_BITS, ONE_BITS};

verus! {

/// The inverse exposure time at the start: one.
pub const INIT_INV_EXPO: u64 = 0x3FF0_0000_0000_0000;

/// Options of the depth measurement.
#[derive(Clone, Copy, Debug, PartialEq, Eq, Structural)]
pub struct DepthOptions {
    /// Standard deviation of a depth over its square.
    pub depth_sigma_coeff: Double,
    /// Deviation of a depth reading.
    pub dept_err: Double,
    /// Deviation of a ray's angle.
    pub beam_err: Double,
    /// The standard deviations within which a residual is used.
    pub sigma_num: Double,
    /// How many extents a point may lie from a plane's center.
    pub radius_k: Double,
}

impl Default for DepthOptions {
    /// 0.02 and 0.01 for reading and angle, three deviations, three extents; the
    /// coefficient is that of the simulated camera.
    fn default() -> (o: Self)
        ensures
            o.depth_sigma_coeff.bits == 0x3F83_6F73_17FD_9212,
            o.dept_err.bits == 0x3F94_7AE1_47AE_147B,
            o.beam_err.bits == 0x3F84_7AE1_47AE_147B,
            o.sigma_num.bits == 0x4008_0000_0000_0000,
            o.radius_k.bits == 0x4008_0000_0000_0000,
    {
        DepthOptions {
            depth_sigma_coeff: Double { bits: 0x3F83_6F73_17FD_9212 },
            dept_err: Double { bits: 0x3F94_7AE1_47AE_147B },
            beam_err: Double { bits: 0x3F84_7AE1_47AE_147B },
            sigma_num: Double { bits: 0x4008_0000_0000_0000 },
            radius_k: Double { bits: 0x4008_0000_0000_0000 },
        }
    }
}

/// Options of the measurement against known planes.
#[derive(Clone, Copy, Debug, PartialEq, Eq, Structural)]
pub struct PriorOptions {
    /// The standard deviations within which a residual is used.
    pub sigma_num: Double,
    /// How many extents a point may lie from a plane's center.
    pub radius_k: Double,
    /// Factor on the covariance of the planes.
    pub var_scale: Double,
}

impl Default for PriorOptions {
    /// Three deviations, three extents, the covariance as it is.
    fn default() -> (o: Self)
        ensures
            o.sigma_num.bits == 0x4008_0000_0000_0000,
            o.radius_k.bits == 0x4008_0000_0000_0000,
            o.var_scale.bits == ONE_BITS,
    {
        PriorOptions {
            sigma_num: Double { bits: 0x4008_0000_0000_0000 },
            radius_k: Double { bits: 0x4008_0000_0000_0000 },
            var_scale: Double::one(),
        }
    }
}

/// Options of the visual measurement.
#[derive(Clone, Copy, Debug, PartialEq, Eq, Structural)]
pub struct VisualOptions {
    /// Variance of a pixel.
    pub img_point_cov: Double,
    /// The mean squared error of a patch that is still used.
    pub outlier_threshold: Double,
    /// Edge length of a patch (samples).
    pub patch_size: usize,
    /// Levels of the pyramid.
    pub pyramid_level: usize,
    /// The most iterations on a level.
    pub max_iterations: usize,
    /// The step below which a level has converged.
    pub convergence_eps: Double,
    /// The threshold of the robust weight.
    pub huber_delta: Double,
    /// The jump in depth (m) at which a point counts as hidden.
    pub depth_discontinuity_thresh: Double,
    /// The least cosine between normal and line of sight.
    pub min_view_cos: Double,
    /// Estimate the exposure as well.
    pub estimate_exposure: bool,
}

impl Default for VisualOptions {
    /// A variance of 100, an error of 1000, steps of 1e-4, no robust weight, jumps
    /// of half a metre, a cosine of 0.17.
    fn default() -> (o: Self)
        ensures
            o.img_point_cov.bits == 0x4059_0000_0000_0000,
            o.outlier_threshold.bits == 0x408F_4000_0000_0000,
            o.patch_size == 11,
            o.pyramid_level == 3,
            o.max_iterations == 5,
            o.convergence_eps.bits == 0x3F1A_36E2_EB1C_432D,
            o.huber_delta.bits == INFINITY_BITS,
            o.depth_discontinuity_thresh.bits == 0x3FE0_0000_0000_0000,
            o.min_view_cos.bits == 0x3FC5_C28F_5C28_F5C3,
            o.estimate_exposure,
    {
        VisualOptions {
            img_point_cov: Double { bits: 0x4059_0000_0000_0000 },
            outlier_threshold: Double { bits: 0x408F_4000_0000_0000 },
            patch_size: 11,
            pyramid_level: 3,
            max_iterations: 5,
            convergence_eps: Double { bits: 0x3F1A_36E2_EB1C_432D },
            huber_delta: Double { bits: INFINITY_BITS },
            depth_discontinuity_thresh: Double { bits: 0x3FE0_0000_0000_0000 },
            min_view_cos: Double { bits: 0x3FC5_C28F_5C28_F5C3 },
            estimate_exposure: true,
        }
    }
}

/// How many guesses a relocalization makes.
#[derive(Clone, Copy, Debug, PartialEq, Eq, Structural)]
pub struct RelocalizeOptions {
    /// The number of guesses.
    pub n_candidates: usize,
    /// The most alignment steps for each guess.
    pub max_iterations: usize,
}

impl Default for RelocalizeOptions {
    fn default() -> (o: Self)
        ensures
            o == (RelocalizeOptions { n_candidates: 32, max_iterations: 10 }),
    {
        RelocalizeOptions { n_candidates: 32, max_iterations: 10 }
    }
}

} // verus!
