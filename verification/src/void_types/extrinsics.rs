//! How the sensors are mounted, and the camera's calibration.

use vstd::prelude::*;

use crate::algebra::ring;
use crate::arith::binary;
use crate::double::Double;
use crate::matrix::Matrix;
use crate::void_types::motion::{place_point, placed, rotate3, rotated3};
use crate::void_types::state::{identity, identity_rotation};
use crate::void_types::visual::Intrinsics;

verus! {

/// Mounting and calibration. Rotations are stored row by row.
#[derive(Clone, Copy, Debug)]
pub struct ExtrinsicsConfig {
    /// The depth camera's position in the inertial sensor's frame (m).
    pub depth_to_imu_trans: [Double; 3],
    /// The rotation from the depth camera's frame to the inertial sensor's.
    pub depth_to_imu_rot: [Double; 9],
    /// The rotation from the inertial sensor's frame to the camera's.
    pub imu_to_cam_rot: [Double; 9],
    /// Two focal lengths, the principal point and four distortion coefficients.
    pub cam_intrinsics: [Double; 8],
    /// Image width (pixels).
    pub cam_width: usize,
    /// Image height (pixels).
    pub cam_height: usize,
}

impl Default for ExtrinsicsConfig {
    /// All frames coincide; focal lengths of 300 and a principal point of (160,
    /// 120) in an image of 320 by 240, without distortion.
    fn default() -> (c: Self)
        ensures
            c.depth_to_imu_trans@ == seq![Double { bits: 0 }, Double { bits: 0 }, Double { bits: 0 }],
            c.depth_to_imu_rot@ == identity(),
            c.imu_to_cam_rot@ == identity(),
            c.cam_intrinsics@ == seq![
                Double { bits: 0x4072_C000_0000_0000 },
                Double { bits: 0x4072_C000_0000_0000 },
                Double { bits: 0x4064_0000_0000_0000 },
                Double { bits: 0x405E_0000_0000_0000 },
                Double { bits: 0 },
                Double { bits: 0 },
                Double { bits: 0 },
                Double { bits: 0 },
            ],
            c.cam_width == 320,
            c.cam_height == 240,
    {
        let zero = Double::zero();
        ExtrinsicsConfig {
            depth_to_imu_trans: [zero, zero, zero],
            depth_to_imu_rot: identity_rotation(),
            imu_to_cam_rot: identity_rotation(),
            cam_intrinsics: [
                Double { bits: 0x4072_C000_0000_0000 },
                Double { bits: 0x4072_C000_0000_0000 },
                Double { bits: 0x4064_0000_0000_0000 },
                Double { bits: 0x405E_0000_0000_0000 },
                zero,
                zero,
                zero,
                zero,
            ],
            cam_width: 320,
            cam_height: 240,
        }
    }
}

impl ExtrinsicsConfig {
    /// The camera without its distortion.
    pub open spec fn pinhole(&self) -> Intrinsics {
        Intrinsics {
            fx: self.cam_intrinsics@[0],
            fy: self.cam_intrinsics@[1],
            cx: self.cam_intrinsics@[2],
            cy: self.cam_intrinsics@[3],
        }
    }

    /// A point of the depth camera, in the inertial sensor's coordinates.
    pub fn depth_to_imu<P: Fn(Double, Double) -> Double, T: Fn(Double, Double) -> Double>(
        &self,
        p: &[Double; 3],
        plus: &P,
        times: &T,
    ) -> (q: [Double; 3])
        requires
            binary(*plus),
            binary(*times),
        ensures
            q@ == placed(
                self.depth_to_imu_rot@,
                p@,
                self.depth_to_imu_trans@,
                ring(*plus, *times),
            ),
    {
        place_point(&self.depth_to_imu_rot, p, &self.depth_to_imu_trans, plus, times)
    }

    /// A point of the inertial sensor, in the camera's coordinates.
    pub fn imu_to_cam<P: Fn(Double, Double) -> Double, T: Fn(Double, Double) -> Double>(
        &self,
        p: &[Double; 3],
        plus: &P,
        times: &T,
    ) -> (q: [Double; 3])
        requires
            binary(*plus),
            binary(*times),
        ensures
            q@ == rotated3(self.imu_to_cam_rot@, p@, ring(*plus, *times)),
    {
        rotate3(&self.imu_to_cam_rot, p, plus, times)
    }

    /// The matrix that projects onto pixels.
    pub fn camera_matrix(&self) -> (k: Matrix)
        ensures
            k.shaped(3, 3),
            forall|i: int, j: int|
                k.has(i, j) ==> #[trigger] k.at(i, j) == self.pinhole().entry(i, j),
    {
        let k = self.cam_intrinsics;
        Intrinsics::new(k[0], k[1], k[2], k[3]).camera_matrix()
    }
}

} // verus!
