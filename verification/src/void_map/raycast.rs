//! Which visual points a camera sees: those in the voxels in view, and, where a
//! cell of the image shows none, the first on a ray through it.

use vstd::prelude::*;

use crate::algebra::HALF_BITS;
use crate::arith::{
    apply_count, apply_length, apply_two, binary, counted, counts, length_of, lengths, of_two,
};
use crate::double::{Double, ONE_BITS};
use crate::void_map::options::VoxelMapOptions;
use crate::void_map::plane::TINY;
use crate::void_map::voxel::{VoxelKey, VoxelMap};
use crate::void_types::so3::{divide3, divided};
use crate::void_types::visual::Intrinsics;

verus! {

/// A root voxel that may be in view.
#[derive(Clone, Copy, Debug, PartialEq, Eq, Structural)]
pub struct Probe {
    /// Its distance from the camera (m).
    pub distance: Double,
    /// The cosine of its angle to the line of sight.
    pub cosine: Double,
    /// The voxel.
    pub key: VoxelKey,
}

/// Whether a voxel is in view: within reach, not at the camera itself, and within
/// the angle of view.
pub open spec fn in_view(p: Probe, reach: Double, fov_cos: Double) -> bool {
    !reach.spec_lt(p.distance) && !p.distance.spec_lt(Double { bits: TINY }) && !p.cosine.spec_lt(
        fov_cos,
    )
}

/// How many points a ray has.
pub const RAY_POINTS: usize = 32;

/// The number of steps between them: 31.
pub const RAY_STEPS: u64 = 0x403F_0000_0000_0000;

/// A ray through the middle of a cell of the image, in the camera's frame.
#[derive(Clone, Debug)]
pub struct RaySample {
    /// The direction, at length one.
    pub dir_cam: [Double; 3],
    /// The points along it, from the nearest to the farthest.
    pub samples: Vec<[Double; 3]>,
}

/// The middle of a cell along an axis, from the principal point.
pub open spec fn cell_offset<
    N: Fn(usize) -> Double,
    P: Fn(Double, Double) -> Double,
    T: Fn(Double, Double) -> Double,
>(k: usize, size: usize, middle: Double, number: N, plus: P, times: T) -> Double {
    of_two(
        plus,
        of_two(
            times,
            of_two(plus, counted(number, k), Double { bits: HALF_BITS }),
            counted(number, size),
        ),
        middle.spec_neg(),
    )
}

/// The way to point `i` of a ray: the points are evenly spread.
pub open spec fn reach_at<
    N: Fn(usize) -> Double,
    P: Fn(Double, Double) -> Double,
    T: Fn(Double, Double) -> Double,
    V: Fn(Double, Double) -> Double,
>(i: usize, opts: &VoxelMapOptions, number: N, plus: P, times: T, divide: V) -> Double {
    let span = of_two(plus, opts.ray_depth_max, opts.ray_depth_min.spec_neg());
    of_two(
        plus,
        opts.ray_depth_min,
        of_two(divide, of_two(times, span, counted(number, i)), Double { bits: RAY_STEPS }),
    )
}

/// The middle of a cell along an axis, from the principal point.
fn cell_middle<
    N: Fn(usize) -> Double,
    P: Fn(Double, Double) -> Double,
    T: Fn(Double, Double) -> Double,
>(k: usize, size: usize, middle: Double, number: &N, plus: &P, times: &T) -> (x: Double)
    requires
        counts(*number),
        binary(*plus),
        binary(*times),
    ensures
        x == cell_offset(k, size, middle, *number, *plus, *times),
{
    let at = apply_two(plus, apply_count(number, k), Double { bits: HALF_BITS });
    let px = apply_two(times, at, apply_count(number, size));
    apply_two(plus, px, middle.neg())
}

/// The points along the ray through the middle of a cell.
pub fn build_ray_samples<
    N: Fn(usize) -> Double,
    L: Fn([Double; 3]) -> Double,
    P: Fn(Double, Double) -> Double,
    T: Fn(Double, Double) -> Double,
    V: Fn(Double, Double) -> Double,
>(
    col: usize,
    row: usize,
    intrinsics: &Intrinsics,
    opts: &VoxelMapOptions,
    number: &N,
    length: &L,
    plus: &P,
    times: &T,
    divide: &V,
) -> (ray: RaySample)
    requires
        counts(*number),
        lengths(*length),
        binary(*plus),
        binary(*times),
        binary(*divide),
    ensures
        ({
            let px = seq![
                cell_offset(col, opts.grid_size, intrinsics.cx, *number, *plus, *times),
                cell_offset(row, opts.grid_size, intrinsics.cy, *number, *plus, *times),
                Double { bits: ONE_BITS },
            ];
            &&& ray.dir_cam@ == divided(px, length_of(*length, px), *divide)
            &&& ray.samples@.len() == RAY_POINTS
            &&& forall|i: int, k: int|
                0 <= i < RAY_POINTS && 0 <= k < 3 ==> #[trigger] ray.samples@[i]@[k] == of_two(
                    *times,
                    ray.dir_cam@[k],
                    reach_at(i as usize, opts, *number, *plus, *times, *divide),
                )
        }),
{
    let px = [
        cell_middle(col, opts.grid_size, intrinsics.cx, number, plus, times),
        cell_middle(row, opts.grid_size, intrinsics.cy, number, plus, times),
        Double::one(),
    ];
    assert(px@ =~= seq![
        cell_offset(col, opts.grid_size, intrinsics.cx, *number, *plus, *times),
        cell_offset(row, opts.grid_size, intrinsics.cy, *number, *plus, *times),
        Double { bits: ONE_BITS },
    ]);
    let dir_cam = divide3(&px, apply_length(length, px), divide);
    let span = apply_two(plus, opts.ray_depth_max, opts.ray_depth_min.neg());
    let mut samples: Vec<[Double; 3]> = Vec::new();
    let mut i: usize = 0;
    while i < RAY_POINTS
        invariant
            i <= RAY_POINTS,
            counts(*number),
            binary(*plus),
            binary(*times),
            binary(*divide),
            span == of_two(*plus, opts.ray_depth_max, opts.ray_depth_min.spec_neg()),
            samples@.len() == i,
            forall|q: int, k: int|
                0 <= q < i && 0 <= k < 3 ==> #[trigger] samples@[q]@[k] == of_two(
                    *times,
                    dir_cam@[k],
                    reach_at(q as usize, opts, *number, *plus, *times, *divide),
                ),
        decreases RAY_POINTS - i,
    {
        let share = apply_two(times, span, apply_count(number, i));
        let steps = apply_two(divide, share, Double { bits: RAY_STEPS });
        let t = apply_two(plus, opts.ray_depth_min, steps);
        samples.push(
            [
                apply_two(times, dir_cam[0], t),
                apply_two(times, dir_cam[1], t),
                apply_two(times, dir_cam[2], t),
            ],
        );
        i += 1;
    }
    RaySample { dir_cam, samples }
}

/// Offsets along one axis, from the lowest up.
pub open spec fn offsets_x(dz: i64, dy: i64, span: int, n: int) -> Seq<(i64, i64, i64)>
    decreases n,
{
    if n <= 0 {
        seq![]
    } else {
        offsets_x(dz, dy, span, n - 1).push(((n - 1 - span) as i64, dy, dz))
    }
}

/// Offsets along two axes, the first axis fastest.
pub open spec fn offsets_y(dz: i64, span: int, n: int) -> Seq<(i64, i64, i64)>
    decreases n,
{
    if n <= 0 {
        seq![]
    } else {
        offsets_y(dz, span, n - 1) + offsets_x(dz, (n - 1 - span) as i64, span, 2 * span + 1)
    }
}

/// Offsets along three axes, the first axis fastest.
pub open spec fn offsets_z(span: int, n: int) -> Seq<(i64, i64, i64)>
    decreases n,
{
    if n <= 0 {
        seq![]
    } else {
        offsets_z(span, n - 1) + offsets_y((n - 1 - span) as i64, span, 2 * span + 1)
    }
}

/// The offsets of all voxels within a span along each axis, the first axis
/// fastest and the third slowest. None for a negative span.
pub fn probe_offsets(span: i64) -> (offsets: Vec<(i64, i64, i64)>)
    requires
        span < i64::MAX / 4,
    ensures
        offsets@ == (if span < 0 {
            seq![]
        } else {
            offsets_z(span as int, 2 * span + 1)
        }),
{
    let mut out: Vec<(i64, i64, i64)> = Vec::new();
    if span < 0 {
        return out;
    }
    let mut dz: i64 = -span;
    while dz <= span
        invariant
            0 <= span < i64::MAX / 4,
            -span <= dz <= span + 1,
            out@ == offsets_z(span as int, dz + span),
        decreases span + 1 - dz,
    {
        let ghost before_y = out@;
        assert(out@ =~= before_y + offsets_y(dz, span as int, 0));
        let mut dy: i64 = -span;
        while dy <= span
            invariant
                0 <= span < i64::MAX / 4,
                -span <= dz <= span,
                -span <= dy <= span + 1,
                out@ == before_y + offsets_y(dz, span as int, dy + span),
            decreases span + 1 - dy,
        {
            let ghost before_x = out@;
            assert(out@ =~= before_x + offsets_x(dz, dy, span as int, 0));
            let mut dx: i64 = -span;
            while dx <= span
                invariant
                    0 <= span < i64::MAX / 4,
                    -span <= dx <= span + 1,
                    out@ == before_x + offsets_x(dz, dy, span as int, dx + span),
                decreases span + 1 - dx,
            {
                out.push((dx, dy, dz));
                assert(out@ =~= before_x + offsets_x(dz, dy, span as int, dx + 1 + span));
                dx += 1;
            }
            assert(out@ =~= before_y + offsets_y(dz, span as int, dy + 1 + span));
            dy += 1;
        }
        dz += 1;
    }
    out
}

impl VoxelMap {
    /// The visual points of the first `n` voxels that are in view.
    pub open spec fn viewed(
        &self,
        probes: Seq<Probe>,
        reach: Double,
        fov_cos: Double,
        visible: Seq<bool>,
        n: int,
    ) -> Seq<(usize, usize)>
        decreases n,
    {
        if n <= 0 {
            seq![]
        } else {
            let rest = self.viewed(probes, reach, fov_cos, visible, n - 1);
            if in_view(probes[n - 1], reach, fov_cos) {
                rest + self.shown_in(probes[n - 1].key, visible)
            } else {
                rest
            }
        }
    }

    /// The visual points, with their reference patches, of the voxels in view.
    pub fn visible_map_points(
        &self,
        probes: &Vec<Probe>,
        reach: Double,
        fov_cos: Double,
        visible: &Vec<bool>,
    ) -> (out: Vec<(usize, usize)>)
        requires
            self.wf(),
            visible@.len() == self.pool().len(),
        ensures
            out@ == self.viewed(probes@, reach, fov_cos, visible@, probes@.len() as int),
    {
        let mut out: Vec<(usize, usize)> = Vec::new();
        let mut i: usize = 0;
        while i < probes.len()
            invariant
                i <= probes@.len(),
                self.wf(),
                visible@.len() == self.pool().len(),
                out@ == self.viewed(probes@, reach, fov_cos, visible@, i as int),
            decreases probes@.len() - i,
        {
            let p = probes[i];
            if !reach.lt(p.distance) && !p.distance.lt(Double { bits: TINY }) && !p.cosine.lt(
                fov_cos,
            ) {
                self.collect_visual_points(&p.key, visible, &mut out);
            }
            i += 1;
        }
        out
    }

    /// The visual points of the first voxel on a ray that has any, from place `i` on.
    pub open spec fn first_hit(&self, ray: Seq<VoxelKey>, visible: Seq<bool>, i: int) -> Seq<
        (usize, usize),
    >
        decreases ray.len() - i,
    {
        if i < 0 || i >= ray.len() {
            seq![]
        } else if self.shown_in(ray[i], visible).len() > 0 {
            self.shown_in(ray[i], visible)
        } else {
            self.first_hit(ray, visible, i + 1)
        }
    }

    /// The visual points on the rays through the first `n` cells that show none.
    pub open spec fn cast(
        &self,
        occupied: Seq<bool>,
        rays: Seq<Vec<VoxelKey>>,
        visible: Seq<bool>,
        n: int,
    ) -> Seq<(usize, usize)>
        decreases n,
    {
        if n <= 0 {
            seq![]
        } else if occupied[n - 1] {
            self.cast(occupied, rays, visible, n - 1)
        } else {
            self.cast(occupied, rays, visible, n - 1) + self.first_hit(rays[n - 1]@, visible, 0)
        }
    }

    /// Appends what the rays through cells without visual points hit; a ray stops
    /// at its first hit. `rays` lists the voxels along each ray.
    pub fn raycast_visual_points(
        &self,
        occupied_grid: &Vec<bool>,
        rays: &Vec<Vec<VoxelKey>>,
        visible: &Vec<bool>,
        out: &mut Vec<(usize, usize)>,
    )
        requires
            self.wf(),
            visible@.len() == self.pool().len(),
            rays@.len() == occupied_grid@.len(),
        ensures
            final(out)@ == old(out)@ + self.cast(
                occupied_grid@,
                rays@,
                visible@,
                occupied_grid@.len() as int,
            ),
    {
        let ghost first = out@;
        let mut i: usize = 0;
        assert(out@ =~= first + self.cast(occupied_grid@, rays@, visible@, 0));
        while i < occupied_grid.len()
            invariant
                i <= occupied_grid@.len(),
                self.wf(),
                visible@.len() == self.pool().len(),
                rays@.len() == occupied_grid@.len(),
                out@ == first + self.cast(occupied_grid@, rays@, visible@, i as int),
            decreases occupied_grid@.len() - i,
        {
            if !occupied_grid[i] {
                self.cast_ray(&rays[i], visible, out);
            }
            assert(out@ =~= first + self.cast(occupied_grid@, rays@, visible@, i + 1));
            i += 1;
        }
    }

    /// Appends the first hit of a ray.
    fn cast_ray(&self, ray: &Vec<VoxelKey>, visible: &Vec<bool>, out: &mut Vec<(usize, usize)>)
        requires
            self.wf(),
            visible@.len() == self.pool().len(),
        ensures
            final(out)@ == old(out)@ + self.first_hit(ray@, visible@, 0),
    {
        let ghost first = out@;
        let mut i: usize = 0;
        while i < ray.len()
            invariant
                i <= ray@.len(),
                self.wf(),
                visible@.len() == self.pool().len(),
                out@ == first,
                first == old(out)@,
                self.first_hit(ray@, visible@, 0) == self.first_hit(ray@, visible@, i as int),
            decreases ray@.len() - i,
        {
            let before: usize = out.len();
            self.collect_visual_points(&ray[i], visible, out);
            if out.len() > before {
                return;
            }
            assert(out@ =~= first);
            i += 1;
        }
        assert(out@ =~= first + self.first_hit(ray@, visible@, 0));
    }
}

/// A ray through an occupied cell adds nothing.
pub proof fn law_occupied_cells_are_skipped(
    map: &VoxelMap,
    occupied: Seq<bool>,
    rays: Seq<Vec<VoxelKey>>,
    visible: Seq<bool>,
    n: int,
)
    requires
        0 <= n <= occupied.len(),
        forall|i: int| 0 <= i < n ==> #[trigger] occupied[i],
    ensures
        map.cast(occupied, rays, visible, n).len() == 0,
    decreases n,
{
    if n > 0 {
        assert(occupied[n - 1]);
        law_occupied_cells_are_skipped(map, occupied, rays, visible, n - 1);
    }
}

} // verus!
