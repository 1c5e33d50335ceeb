//! Finding a pose from matched landmarks: which pairs are used, and which
//! solutions are believed.

pub mod agreement;
pub mod calibration;
pub mod pose;
