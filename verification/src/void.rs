//! The odometry pipeline: how the stages of a frame follow each other, what is
//! accepted, and the cloud that a depth image is reduced to.

pub mod cloud;
pub mod odometry;
pub mod options;
pub mod sampling;
