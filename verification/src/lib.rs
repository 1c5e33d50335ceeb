//! Verified logic of a visual-inertial odometry stack.
//!
//! The modules hold what the stack computes and decides: filter states and their
//! covariances, feature bookkeeping, voxel maps, fitted planes, measurement
//! models, the map file format and the gates between the steps of a frame.
//!
//! Real numbers are [`double::Double`]s, IEEE doubles held by their bits. Their
//! order, sign and rounding to integers are defined here. Arithmetic on them is
//! handed in by the caller, as functions that always have one result; contracts
//! say which operations are applied to what, in which order.

pub mod algebra;
pub mod arith;
pub mod double;
pub mod matrix;
pub mod sorting;
pub mod table;
pub mod vio;
pub mod vision_map;
pub mod vision_match;
pub mod voxel_svio;
pub mod void;
pub mod void_esikf;
pub mod void_types;
pub mod void_map;
pub mod void_measure;
pub mod whole;
