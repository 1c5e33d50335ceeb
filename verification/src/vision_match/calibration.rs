//! The mounting of the left camera.

use vstd::prelude::*;

use crate::double::Double;
use crate::matrix::Matrix;

verus! {

/// The focal length in pixels, in both directions: 168.606993943649968.
pub const MUJOCO_FOCAL: u64 = 0x4065_136C_7E90_1B18;

/// The second coordinate of the camera in the body's frame (m): -0.025.
pub const LEFT_Y_IN_BODY: u64 = 0xBF99_9999_9999_999A;

/// Sine of the downward tilt: 0.342.
pub const TILT_SIN: u64 = 0x3FD5_E353_F7CE_D917;

/// Cosine of the downward tilt: 0.9397.
pub const TILT_COS: u64 = 0x3FEE_1205_BC01_A36E;

/// The cosine's negative.
pub const NEG_TILT_COS: u64 = 0xBFEE_1205_BC01_A36E;

/// The position of the left camera in the body's frame (m).
pub fn left_pos_in_body() -> (p: [Double; 3])
    ensures
        p@[0].bits == 0,
        p@[1].bits == LEFT_Y_IN_BODY,
        p@[2].bits == 0,
{
    [Double::zero(), Double { bits: LEFT_Y_IN_BODY }, Double::zero()]
}

/// The bits of entry `(i, j)` of the rotation from the camera to the body.
pub open spec fn rotation_bits(i: int, j: int) -> u64 {
    if i == 0 && j == 1 {
        TILT_SIN
    } else if i == 0 && j == 2 {
        NEG_TILT_COS
    } else if i == 1 && j == 0 {
        crate::double::MINUS_ONE_BITS
    } else if i == 2 && j == 1 {
        TILT_COS
    } else if i == 2 && j == 2 {
        TILT_SIN
    } else {
        0
    }
}

/// The rotation from the camera to the body; its columns are the camera's axes.
pub fn rot_cam_to_body() -> (r: Matrix)
    ensures
        r.shaped(3, 3),
        forall|i: int, j: int|
            r.has(i, j) ==> #[trigger] r.at(i, j) == (Double { bits: rotation_bits(i, j) }),
{
    let mut r = Matrix::filled(3, 3, Double::zero());
    r.set(0, 1, Double { bits: TILT_SIN });
    r.set(0, 2, Double { bits: NEG_TILT_COS });
    r.set(1, 0, Double::minus_one());
    r.set(2, 1, Double { bits: TILT_COS });
    r.set(2, 2, Double { bits: TILT_SIN });
    r
}

} // verus!
