//! What the sensors deliver.

use vstd::prelude::*;

use crate::double::Double;

verus! {

/// One inertial measurement.
#[derive(Clone, Copy, Debug)]
pub struct ImuSample {
    /// The time (s).
    pub t: Double,
    /// The angular rate (rad/s), with its bias.
    pub omega: [Double; 3],
    /// The acceleration (m/s^2), with its bias.
    pub acc: [Double; 3],
}

/// A grey image with its time.
#[derive(Debug)]
pub struct CameraFrame {
    /// The time (s).
    pub t: Double,
    /// The pixels, row after row.
    pub left_gray: Vec<u8>,
    /// The number of columns.
    pub width: usize,
    /// The number of rows.
    pub height: usize,
}

/// A depth image with its time; zero stands for no depth.
#[derive(Debug)]
pub struct DepthFrame {
    /// The time (s).
    pub t: Double,
    /// The depths (m), row after row.
    pub depth: Vec<Double>,
    /// The number of columns.
    pub width: usize,
    /// The number of rows.
    pub height: usize,
}

} // verus!
