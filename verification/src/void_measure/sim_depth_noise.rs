//! The noise of the simulated depth camera.

use vstd::prelude::*;

verus! {

/// Scale of the disparity noise: 0.02.
pub const DEPTH_NOISE: u64 = 0x3F94_7AE1_47AE_147B;

/// Standard deviation of the disparity (pixels) over the scale: 4.
pub const SIGMA_DISP_COEFF: u64 = 0x4010_0000_0000_0000;

/// Distance of the two cameras (m): 0.05.
pub const BASELINE: u64 = 0x3FA9_9999_9999_999A;

/// Focal length (pixels): 168.6.
pub const DEPTH_FOCAL: u64 = 0x4065_1333_3333_3333;

/// The least share of pixels without a depth: 0.05.
pub const HOLE_RATE_MIN: u64 = 0x3FA9_9999_9999_999A;

/// The largest share of pixels without a depth: 0.15.
pub const HOLE_RATE_MAX: u64 = 0x3FC3_3333_3333_3333;

} // verus!
