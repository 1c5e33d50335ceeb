//! Options of the voxel map.

use vstd::prelude::*;

use crate::double::Double;

verus! {

/// Edge length of a root voxel (m): 0.5.
pub const ROOT_SIZE: u64 = 0x3FE0_0000_0000_0000;

/// How often a root voxel is split at most.
pub const MAX_LAYER: usize = 3;

/// How many points a node gathers before a plane is tried, in every layer.
pub const LAYER_INIT_NUM: [usize; 5] = [5, 5, 5, 5, 5];

/// The points after which a plane no longer changes.
pub const MAX_POINTS_PER_PLANE: usize = 50;

/// New points after which a plane is fitted again.
pub const UPDATE_SIZE_THRESHOLD: usize = 5;

/// The least eigenvalue of points that are no plane: 0.01.
pub const PLANER_THRESHOLD: u64 = 0x3F84_7AE1_47AE_147B;

/// Half the width of the map, in root voxels.
pub const HALF_MAP_SIZE: i64 = 100;

/// How far (m) the platform moves before the map follows: 8.
pub const SLIDING_THRESH: u64 = 0x4020_0000_0000_0000;

/// Options of the voxel map.
#[derive(Clone, Copy, Debug)]
pub struct VoxelMapOptions {
    /// Edge length of a root voxel (m).
    pub root_size: Double,
    /// How often a root voxel is split at most.
    pub max_layer: usize,
    /// How many points a node gathers before a plane is tried, by layer.
    pub layer_init_num: [usize; 5],
    /// The points after which a node takes no more.
    pub max_points_per_plane: usize,
    /// New points after which a plane is fitted again.
    pub update_size_threshold: usize,
    /// The least eigenvalue of points that are no plane.
    pub planer_threshold: Double,
    /// Half the width of the map, in root voxels.
    pub half_map_size: i64,
    /// How far (m) the platform moves before the map follows.
    pub sliding_thresh: Double,
    /// Edge length of a grid cell (pixels).
    pub grid_size: usize,
    /// Edge length of a patch (pixels).
    pub patch_size: usize,
    /// Levels of a patch pyramid.
    pub patch_pyramid_level: usize,
    /// Frames after which a patch is added.
    pub patch_add_frame_gap: u32,
    /// Pixels of movement after which a patch is added.
    pub patch_add_pixel_dist: Double,
    /// Change of a normal below which it has settled.
    pub normal_converge_thresh: Double,
    /// The most patches of a point.
    pub max_obs_per_point: usize,
    /// The fewest patches among which a reference is chosen.
    pub min_obs_for_score: usize,
    /// The fewest patches with which a normal can settle.
    pub min_obs_for_converge: usize,
    /// Half the angle of view.
    pub fov: Double,
    /// Where rays begin (m).
    pub ray_depth_min: Double,
    /// Where rays end (m).
    pub ray_depth_max: Double,
}

impl Default for VoxelMapOptions {
    /// Rays from 0.5 m to 20 m, seventy degrees of view, a new patch after 20
    /// frames or 40 pixels, a settled normal below 0.0001.
    fn default() -> (o: Self)
        ensures
            o.root_size.bits == ROOT_SIZE,
            o.max_layer == MAX_LAYER,
            forall|i: int| 0 <= i < 5 ==> #[trigger] o.layer_init_num@[i] == 5,
            o.max_points_per_plane == MAX_POINTS_PER_PLANE,
            o.update_size_threshold == UPDATE_SIZE_THRESHOLD,
            o.planer_threshold.bits == PLANER_THRESHOLD,
            o.half_map_size == HALF_MAP_SIZE,
            o.sliding_thresh.bits == SLIDING_THRESH,
            o.grid_size == 30,
            o.patch_size == 11,
            o.patch_pyramid_level == 3,
            o.patch_add_frame_gap == 20,
            o.patch_add_pixel_dist.bits == 0x4044_0000_0000_0000,
            o.normal_converge_thresh.bits == 0x3F1A_36E2_EB1C_432D,
            o.max_obs_per_point == 30,
            o.min_obs_for_score == 5,
            o.min_obs_for_converge == 10,
            o.fov.bits == 0x3FF3_8C35_418A_5BF6,
            o.ray_depth_min.bits == 0x3FE0_0000_0000_0000,
            o.ray_depth_max.bits == 0x4034_0000_0000_0000,
    {
        VoxelMapOptions {
            root_size: Double { bits: ROOT_SIZE },
            max_layer: MAX_LAYER,
            layer_init_num: LAYER_INIT_NUM,
            max_points_per_plane: MAX_POINTS_PER_PLANE,
            update_size_threshold: UPDATE_SIZE_THRESHOLD,
            planer_threshold: Double { bits: PLANER_THRESHOLD },
            half_map_size: HALF_MAP_SIZE,
            sliding_thresh: Double { bits: SLIDING_THRESH },
            grid_size: 30,
            patch_size: 11,
            patch_pyramid_level: 3,
            patch_add_frame_gap: 20,
            patch_add_pixel_dist: Double { bits: 0x4044_0000_0000_0000 },
            normal_converge_thresh: Double { bits: 0x3F1A_36E2_EB1C_432D },
            max_obs_per_point: 30,
            min_obs_for_score: 5,
            min_obs_for_converge: 10,
            fov: Double { bits: 0x3FF3_8C35_418A_5BF6 },
            ray_depth_min: Double { bits: 0x3FE0_0000_0000_0000 },
            ray_depth_max: Double { bits: 0x4034_0000_0000_0000 },
        }
    }
}

/// Options of a plane fit.
#[derive(Clone, Copy, Debug, PartialEq, Eq, Structural)]
pub struct PlaneOptions {
    /// The least eigenvalue of points that are no plane.
    pub planer_threshold: Double,
}

/// How many cells of a size cover a length.
pub open spec fn cells_for(length: int, size: int) -> int {
    (length + size - 1) / size
}

/// How many cells of a size cover a length.
fn div_up(length: usize, size: usize) -> (n: usize)
    requires
        size > 0,
    ensures
        n == cells_for(length as int, size as int),
{
    let q: usize = length / size;
    proof {
        let (l, s) = (length as int, size as int);
        assert(l == s * (l / s) + l % s) by (nonlinear_arith)
            requires
                s > 0,
        ;
        if l % s == 0 {
            assert((l + s - 1) / s == l / s) by (nonlinear_arith)
                requires
                    s > 0,
                    l == s * (l / s),
            ;
        } else {
            assert((l + s - 1) / s == l / s + 1) by (nonlinear_arith)
                requires
                    s > 0,
                    l == s * (l / s) + l % s,
                    0 < l % s < s,
            ;
            assert(l / s + 1 <= l) by (nonlinear_arith)
                requires
                    s > 1,
                    l >= 1,
                    l == s * (l / s) + l % s,
                    0 < l % s < s,
            ;
        }
    }
    if length % size == 0 {
        q
    } else {
        q + 1
    }
}

impl VoxelMapOptions {
    /// What a plane fit needs of the options.
    pub open spec fn fit_options(self) -> PlaneOptions {
        PlaneOptions { planer_threshold: self.planer_threshold }
    }

    /// What a plane fit needs of the options.
    pub fn plane_options(&self) -> (p: PlaneOptions)
        ensures
            p == self.fit_options(),
    {
        PlaneOptions { planer_threshold: self.planer_threshold }
    }

    /// Columns and rows of the grid over an image.
    pub fn grid_dims(&self, width: usize, height: usize) -> (dims: (usize, usize))
        requires
            self.grid_size > 0,
        ensures
            dims.0 == cells_for(width as int, self.grid_size as int),
            dims.1 == cells_for(height as int, self.grid_size as int),
    {
        (div_up(width, self.grid_size), div_up(height, self.grid_size))
    }
}

} // verus!
