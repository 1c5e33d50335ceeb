//! The adaptive voxel map: which root voxel and octree node a point belongs to,
//! which planes and visual points a query returns.

pub mod facing;
pub mod fits;
pub mod image_patch;
pub mod map_tools;
pub mod normal_refine;
pub mod octree;
pub mod options;
pub mod plane;
pub mod plane_fit;
pub mod prior_map;
pub mod prior_text;
pub mod raycast;
pub mod visual_point;
pub mod voxel;
