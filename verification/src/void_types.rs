//! Basic types of the depth-inertial-visual odometry.

pub mod exact_motion;
pub mod extrinsics;
pub mod motion;
pub mod sensor;
pub mod so3;
pub mod state;
pub mod turns;
pub mod visual;
