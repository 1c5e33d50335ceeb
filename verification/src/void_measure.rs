//! Measurement models: gates, selections and the rows of residual systems.

pub mod distances;
pub mod frames;
pub mod noise;
pub mod options;
pub mod outlier;
pub mod photometry;
pub mod planar;
pub mod plane_update;
pub mod prior_update;
pub mod relocalize;
pub mod sim_depth_noise;
pub mod visual_read;
pub mod visual_update;
