//! The cloud of a depth image: one point for each voxel.

use vstd::prelude::*;

use crate::arith::{apply_two, binary, of_two};
use crate::double::Double;
use crate::void_map::voxel::VoxelKey;
use crate::void_measure::visual_update::DepthImage;

verus! {

/// A depth (m) up to which there is nothing: 0.05.
pub const NEAR_LIMIT: u64 = 0x3FA9_9999_9999_999A;

/// A jump (m) to a neighbour at which a pixel is an edge: 0.15.
pub const EDGE_LIMIT: u64 = 0x3FC3_3333_3333_3333;

/// A point that a pixel was projected back to.
#[derive(Clone, Copy, Debug)]
pub struct CloudPoint {
    /// The position (m).
    pub position: [Double; 3],
    /// The covariance of the position, row by row.
    pub covariance: [Double; 9],
    /// The standard deviation of the distance.
    pub sigma: Double,
    /// The position in voxels.
    pub scaled: [Double; 3],
}

/// Whether pixels can be projected back, always in the same way.
pub open spec fn projects<B: Fn(usize, usize, Double) -> CloudPoint>(back: B) -> bool {
    &&& forall|x: usize, y: usize, z: Double| #[trigger] call_requires(back, (x, y, z))
    &&& forall|x: usize, y: usize, z: Double, a: CloudPoint, b: CloudPoint| #[trigger]
        call_ensures(back, (x, y, z), a) && #[trigger] call_ensures(back, (x, y, z), b) ==> a == b
}

/// The point of a pixel.
pub open spec fn projected<B: Fn(usize, usize, Double) -> CloudPoint>(
    back: B,
    x: usize,
    y: usize,
    z: Double,
) -> CloudPoint {
    choose|r: CloudPoint| call_ensures(back, (x, y, z), r)
}

/// Whether a depth can be used.
pub open spec fn in_range(z: Double, max_range: Double) -> bool {
    !z.spec_le(Double { bits: NEAR_LIMIT }) && !max_range.spec_lt(z) && z.spec_is_finite()
}

/// Whether a neighbour's depth jumps.
pub open spec fn edge_to<G: Fn(Double, Double) -> Double>(
    image: &DepthImage,
    z: Double,
    u: int,
    v: int,
    gap: G,
) -> bool {
    &&& image.has(u, v)
    &&& (Double { bits: NEAR_LIMIT }).spec_lt(image.at(u, v))
    &&& image.at(u, v).spec_is_finite()
    &&& (Double { bits: EDGE_LIMIT }).spec_lt(of_two(gap, z, image.at(u, v)))
}

/// Whether the depth jumps to one of the four neighbours.
pub open spec fn on_edge<G: Fn(Double, Double) -> Double>(
    image: &DepthImage,
    u: int,
    v: int,
    gap: G,
) -> bool {
    let z = image.at(u, v);
    edge_to(image, z, u - 1, v, gap) || edge_to(image, z, u + 1, v, gap) || edge_to(
        image,
        z,
        u,
        v - 1,
        gap,
    ) || edge_to(image, z, u, v + 1, gap)
}

/// The voxel of a point.
pub open spec fn voxel_of(p: CloudPoint) -> VoxelKey {
    VoxelKey {
        x: p.scaled@[0].floor_clamped() as i64,
        y: p.scaled@[1].floor_clamped() as i64,
        z: p.scaled@[2].floor_clamped() as i64,
    }
}

/// The place of the first point in a voxel, from place `i` on; the number of
/// points if there is none.
pub open spec fn place_of(cloud: Seq<CloudPoint>, key: VoxelKey, i: int) -> int
    decreases cloud.len() - i,
{
    if i >= cloud.len() {
        cloud.len() as int
    } else if voxel_of(cloud[i]) == key {
        i
    } else {
        place_of(cloud, key, i + 1)
    }
}

/// The cloud after another point: it takes the place of a less uncertain one in
/// its voxel.
pub open spec fn placed(cloud: Seq<CloudPoint>, p: CloudPoint) -> Seq<CloudPoint> {
    let i = place_of(cloud, voxel_of(p), 0);
    if i >= cloud.len() {
        cloud.push(p)
    } else if cloud[i].sigma.spec_lt(p.sigma) {
        cloud.update(i, p)
    } else {
        cloud
    }
}

/// The cloud of the first `n` pixels.
pub open spec fn cloud_of<
    G: Fn(Double, Double) -> Double,
    B: Fn(usize, usize, Double) -> CloudPoint,
>(image: &DepthImage, max_range: Double, gap: G, back: B, n: int) -> Seq<CloudPoint>
    decreases n,
{
    if n <= 0 {
        Seq::empty()
    } else {
        let rest = cloud_of(image, max_range, gap, back, n - 1);
        let (u, v) = ((n - 1) % image.width as int, (n - 1) / image.width as int);
        if in_range(image.at(u, v), max_range) && !on_edge(image, u, v, gap) {
            placed(rest, projected(back, u as usize, v as usize, image.at(u, v)))
        } else {
            rest
        }
    }
}

/// Whether the depth jumps from a pixel to a neighbour.
fn jumps_to<G: Fn(Double, Double) -> Double>(
    image: &DepthImage,
    z: Double,
    u: i128,
    v: i128,
    gap: &G,
) -> (yes: bool)
    requires
        image.wf(),
        binary(*gap),
    ensures
        yes == edge_to(image, z, u as int, v as int, *gap),
{
    if u < 0 || v < 0 || u >= image.width as i128 || v >= image.height as i128 {
        return false;
    }
    proof {
        crate::matrix::lemma_place_in_range(
            v as int,
            u as int,
            image.height as int,
            image.width as int,
        );
        assert(image.height * image.width == image.width * image.height) by (nonlinear_arith);
    }
    let nz = image.depth[v as usize * image.width + u as usize];
    Double { bits: NEAR_LIMIT }.lt(nz) && nz.is_finite() && Double { bits: EDGE_LIMIT }.lt(
        apply_two(gap, z, nz),
    )
}

/// The voxel of a point.
fn key_of(p: &CloudPoint) -> (key: VoxelKey)
    ensures
        key == voxel_of(*p),
{
    VoxelKey {
        x: p.scaled[0].floor_i64(),
        y: p.scaled[1].floor_i64(),
        z: p.scaled[2].floor_i64(),
    }
}

/// Adds a point to a cloud.
fn add_point(cloud: &mut Vec<CloudPoint>, p: CloudPoint)
    ensures
        final(cloud)@ == placed(old(cloud)@, p),
{
    let key = key_of(&p);
    let mut i: usize = 0;
    while i < cloud.len()
        invariant
            i <= cloud@.len(),
            cloud@ == old(cloud)@,
            key == voxel_of(p),
            place_of(cloud@, key, 0) == place_of(cloud@, key, i as int),
        decreases cloud@.len() - i,
    {
        let other = key_of(&cloud[i]);
        if other.x == key.x && other.y == key.y && other.z == key.z {
            if cloud[i].sigma.lt(p.sigma) {
                cloud.set(i, p);
            }
            return;
        }
        i += 1;
    }
    cloud.push(p);
}

/// The cloud of a depth image: of the pixels in each voxel the most uncertain
/// one, without depths out of range and without edges. `gap` gives the size of a
/// difference, `back` projects a pixel back.
pub fn build_downsampled_cloud<
    G: Fn(Double, Double) -> Double,
    B: Fn(usize, usize, Double) -> CloudPoint,
>(image: &DepthImage, max_range: Double, gap: &G, back: &B) -> (cloud: Vec<CloudPoint>)
    requires
        image.wf(),
        binary(*gap),
        projects(*back),
    ensures
        cloud@ == cloud_of(image, max_range, *gap, *back, image.depth@.len() as int),
{
    let mut cloud: Vec<CloudPoint> = Vec::new();
    let w: usize = image.width;
    let h: usize = image.height;
    let mut y: usize = 0;
    assert(0 * w == 0) by (nonlinear_arith);
    while y < h
        invariant
            y <= h,
            w == image.width,
            h == image.height,
            image.wf(),
            binary(*gap),
            projects(*back),
            cloud@ == cloud_of(image, max_range, *gap, *back, y * w),
        decreases h - y,
    {
        let mut x: usize = 0;
        while x < w
            invariant
                y < h,
                x <= w,
                w == image.width,
                h == image.height,
                image.wf(),
                binary(*gap),
                projects(*back),
                cloud@ == cloud_of(image, max_range, *gap, *back, y * w + x),
            decreases w - x,
        {
            proof {
                crate::matrix::lemma_place_in_range(y as int, x as int, h as int, w as int);
                assert(h * w == w * h) by (nonlinear_arith);
                vstd::arithmetic::div_mod::lemma_fundamental_div_mod_converse(
                    y * w + x,
                    w as int,
                    y as int,
                    x as int,
                );
            }
            let z = image.depth[y * w + x];
            assert(z == image.at(x as int, y as int));
            if !z.le(Double { bits: NEAR_LIMIT }) && !max_range.lt(z) && z.is_finite() {
                let (u, v): (i128, i128) = (x as i128, y as i128);
                let edge = jumps_to(image, z, u - 1, v, gap) || jumps_to(image, z, u + 1, v, gap)
                    || jumps_to(image, z, u, v - 1, gap) || jumps_to(image, z, u, v + 1, gap);
                if !edge {
                    let p = back(x, y, z);
                    assert(call_ensures(*back, (x, y, z), p));
                    assert(call_ensures(*back, (x, y, z), projected(*back, x, y, z)));
                    add_point(&mut cloud, p);
                }
            }
            x += 1;
        }
        y += 1;
        assert((y - 1) * w + w == y * w) by (nonlinear_arith)
            requires
                y >= 1,
        ;
    }
    assert(h * w == w * h) by (nonlinear_arith);
    cloud
}

/// No two points of a cloud lie in the same voxel.
pub proof fn law_one_point_per_voxel<
    G: Fn(Double, Double) -> Double,
    B: Fn(usize, usize, Double) -> CloudPoint,
>(image: &DepthImage, max_range: Double, gap: G, back: B, n: int, i: int, j: int)
    requires
        0 <= i < j < cloud_of(image, max_range, gap, back, n).len(),
    ensures
        voxel_of(cloud_of(image, max_range, gap, back, n)[i]) != voxel_of(
            cloud_of(image, max_range, gap, back, n)[j],
        ),
{
    lemma_voxels_differ(image, max_range, gap, back, n);
}

/// Whether no two points lie in the same voxel.
spec fn apart(cloud: Seq<CloudPoint>) -> bool {
    forall|i: int, j: int|
        0 <= i < j < cloud.len() ==> voxel_of(#[trigger] cloud[i]) != voxel_of(#[trigger] cloud[j])
}

/// Points stay in different voxels.
proof fn lemma_voxels_differ<
    G: Fn(Double, Double) -> Double,
    B: Fn(usize, usize, Double) -> CloudPoint,
>(image: &DepthImage, max_range: Double, gap: G, back: B, n: int)
    ensures
        apart(cloud_of(image, max_range, gap, back, n)),
    decreases n,
{
    if n > 0 {
        lemma_voxels_differ(image, max_range, gap, back, n - 1);
        let rest = cloud_of(image, max_range, gap, back, n - 1);
        let (u, v) = ((n - 1) % image.width as int, (n - 1) / image.width as int);
        let p = projected(back, u as usize, v as usize, image.at(u, v));
        lemma_place(rest, voxel_of(p), 0);
        assert(apart(placed(rest, p)));
    }
}

/// The place of a voxel holds a point of the voxel; before it there is none.
proof fn lemma_place(cloud: Seq<CloudPoint>, key: VoxelKey, i: int)
    requires
        0 <= i <= cloud.len(),
    ensures
        i <= place_of(cloud, key, i) <= cloud.len(),
        place_of(cloud, key, i) < cloud.len() ==> voxel_of(cloud[place_of(cloud, key, i)]) == key,
        forall|k: int|
            i <= k < place_of(cloud, key, i) ==> voxel_of(#[trigger] cloud[k]) != key,
    decreases cloud.len() - i,
{
    if i < cloud.len() && voxel_of(cloud[i]) != key {
        lemma_place(cloud, key, i + 1);
    }
}

} // verus!
