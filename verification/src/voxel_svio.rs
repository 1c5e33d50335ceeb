//! Choosing map points by the voxels in view: few from each, so that they are
//! spread out and old ones drop out by themselves.

pub mod cells;
pub mod map;
pub mod options;
