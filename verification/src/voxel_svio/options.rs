//! Options of the voxel selection.

use vstd::prelude::*;

use crate::double::Double;

verus! {

/// Options of the voxel selection.
#[derive(Clone, Copy, Debug, PartialEq, Eq, Structural)]
pub struct VoxelOptions {
    /// Select by voxels at all.
    pub enabled: bool,
    /// Edge length of a voxel (m).
    pub voxel_size: Double,
    /// The most points that one voxel takes in.
    pub max_points_per_voxel: usize,
    /// The least distance (m) between points of one voxel.
    pub min_point_distance: Double,
    /// How many voxels around a query are looked at, in each direction.
    pub neighbor_radius: i32,
    /// Take all points of a voxel in view, not just the first.
    pub use_all_points: bool,
}

impl Default for VoxelOptions {
    /// Off; voxels of 0.1 m with up to 5 points 0.03 m apart, direct neighbours.
    fn default() -> (o: Self)
        ensures
            !o.enabled,
            o.voxel_size.bits == 0x3FB9_9999_9999_999A,
            o.max_points_per_voxel == 5,
            o.min_point_distance.bits == 0x3F9E_B851_EB85_1EB8,
            o.neighbor_radius == 1,
            !o.use_all_points,
    {
        VoxelOptions {
            enabled: false,
            voxel_size: Double { bits: 0x3FB9_9999_9999_999A },
            max_points_per_voxel: 5,
            min_point_distance: Double { bits: 0x3F9E_B851_EB85_1EB8 },
            neighbor_radius: 1,
            use_all_points: false,
        }
    }
}

} // verus!
