//! What frames are made of: which point of a voxel is kept, which measurements belong to
//! a frame, and over what steps and with what rates the state is moved.

use vstd::prelude::*;

use crate::algebra::{Ring, HALF_BITS};
use crate::double::Double;
use crate::void::cloud::{cloud_of, in_range, on_edge, place_of, placed, projected, voxel_of, CloudPoint};
use crate::void::odometry::{
    depth_accepted, due, mean3, occupied_cell, step_between, visual_accepted, Jump, SeenPoint,
    LEAST_STEP,
};
use crate::void::options::UpdateGateConfig;
use crate::void_measure::visual_update::DepthImage;
use crate::void_map::voxel::VoxelKey;
use crate::void_types::exact_motion::lemma_sum3;
use crate::void_types::motion::sum3;
use crate::void_types::sensor::ImuSample;
use crate::whole::{exact, halves, lemma_half, value, whole3, EXACT};

verus! {

/// Whether a cloud has, in the voxel of a point, one that is no less uncertain.
pub open spec fn stands_for(cloud: Seq<CloudPoint>, p: CloudPoint) -> bool {
    exists|i: int|
        0 <= i < cloud.len() && voxel_of(#[trigger] cloud[i]) == voxel_of(p) && !cloud[i].sigma.spec_lt(
            p.sigma,
        )
}

/// The place of a voxel in a cloud.
proof fn lemma_place_in(cloud: Seq<CloudPoint>, key: VoxelKey, i: int)
    requires
        0 <= i <= cloud.len(),
    ensures
        i <= place_of(cloud, key, i) <= cloud.len(),
        place_of(cloud, key, i) < cloud.len() ==> voxel_of(cloud[place_of(cloud, key, i)]) == key,
    decreases cloud.len() - i,
{
    if i < cloud.len() && voxel_of(cloud[i]) != key {
        lemma_place_in(cloud, key, i + 1);
    }
}

/// A point that is placed is stood for, and so is what was stood for before.
proof fn lemma_stands_on(cloud: Seq<CloudPoint>, q: CloudPoint, p: CloudPoint)
    requires
        p == q || stands_for(cloud, p),
        !q.sigma.spec_is_nan(),
    ensures
        stands_for(placed(cloud, q), p),
{
    let k = place_of(cloud, voxel_of(q), 0);
    lemma_place_in(cloud, voxel_of(q), 0);
    let after = placed(cloud, q);
    if p == q {
        if k >= cloud.len() {
            assert(after[cloud.len() as int] == q);
        } else {
            assert(voxel_of(after[k]) == voxel_of(p));
            assert(!after[k].sigma.spec_lt(p.sigma));
        }
    } else {
        let i = choose|i: int|
            0 <= i < cloud.len() && voxel_of(#[trigger] cloud[i]) == voxel_of(p)
                && !cloud[i].sigma.spec_lt(p.sigma);
        if i == k && cloud[i].sigma.spec_lt(q.sigma) {
            assert(after[i] == q);
            assert(voxel_of(after[i]) == voxel_of(p));
        } else {
            assert(after[i] == cloud[i]);
        }
    }
}

/// Every voxel keeps its most uncertain point: of each pixel whose depth is in range and
/// does not jump, the cloud has a point in the same voxel that is no less uncertain, and
/// it has no other points than those of such pixels.
pub proof fn law_voxels_keep_the_most_uncertain_point<
    G: Fn(Double, Double) -> Double,
    B: Fn(usize, usize, Double) -> CloudPoint,
>(image: &DepthImage, max_range: Double, gap: G, back: B, n: int, k: int)
    requires
        0 <= k < n,
        0 < image.width,
        forall|u: usize, v: usize, z: Double|
            !(#[trigger] projected(back, u, v, z)).sigma.spec_is_nan(),
    ensures
        ({
            let w = image.width as int;
            let (u, v) = (k % w, k / w);
            in_range(image.at(u, v), max_range) && !on_edge(image, u, v, gap) ==> stands_for(
                cloud_of(image, max_range, gap, back, n),
                projected(back, u as usize, v as usize, image.at(u, v)),
            )
        }),
    decreases n,
{
    let w = image.width as int;
    let (u, v) = (k % w, k / w);
    let p = projected(back, u as usize, v as usize, image.at(u, v));
    let rest = cloud_of(image, max_range, gap, back, n - 1);
    let (a, b) = ((n - 1) % w, (n - 1) / w);
    let q = projected(back, a as usize, b as usize, image.at(a, b));
    if in_range(image.at(u, v), max_range) && !on_edge(image, u, v, gap) {
        if k < n - 1 {
            law_voxels_keep_the_most_uncertain_point(image, max_range, gap, back, n - 1, k);
            if in_range(image.at(a, b), max_range) && !on_edge(image, a, b, gap) {
                lemma_stands_on(rest, q, p);
            }
        } else {
            lemma_stands_on(rest, q, p);
        }
    }
}

/// Every point of a cloud is that of a pixel whose depth is in range and does not jump.
pub proof fn law_clouds_hold_usable_pixels<
    G: Fn(Double, Double) -> Double,
    B: Fn(usize, usize, Double) -> CloudPoint,
>(image: &DepthImage, max_range: Double, gap: G, back: B, n: int, i: int)
    requires
        0 <= i < cloud_of(image, max_range, gap, back, n).len(),
        0 < image.width,
    ensures
        exists|k: int|
            0 <= k < n && #[trigger] is_pixel(
                image,
                max_range,
                gap,
                back,
                k,
                cloud_of(image, max_range, gap, back, n)[i],
            ),
    decreases n,
{
    if n > 0 {
        let w = image.width as int;
        let rest = cloud_of(image, max_range, gap, back, n - 1);
        let all = cloud_of(image, max_range, gap, back, n);
        let (a, b) = ((n - 1) % w, (n - 1) / w);
        let q = projected(back, a as usize, b as usize, image.at(a, b));
        lemma_place_in(rest, voxel_of(q), 0);
        if in_range(image.at(a, b), max_range) && !on_edge(image, a, b, gap) {
            assert(is_pixel(image, max_range, gap, back, n - 1, q));
        }
        if i < rest.len() && all[i] == rest[i] {
            law_clouds_hold_usable_pixels(image, max_range, gap, back, n - 1, i);
            let k = choose|k: int|
                0 <= k < n - 1 && #[trigger] is_pixel(image, max_range, gap, back, k, rest[i]);
            assert(is_pixel(image, max_range, gap, back, k, all[i]));
        } else {
            assert(all[i] == q);
        }
    }
}

/// Whether a point is that of pixel `k`, whose depth is in range and does not jump.
pub open spec fn is_pixel<
    G: Fn(Double, Double) -> Double,
    B: Fn(usize, usize, Double) -> CloudPoint,
>(image: &DepthImage, max_range: Double, gap: G, back: B, k: int, p: CloudPoint) -> bool {
    let w = image.width as int;
    let (u, v) = (k % w, k / w);
    &&& in_range(image.at(u, v), max_range)
    &&& !on_edge(image, u, v, gap)
    &&& p == projected(back, u as usize, v as usize, image.at(u, v))
}

/// A frame takes the measurements at the head of the queue that are not later than it,
/// and stops at the first that is.
pub proof fn law_frames_take_what_is_due(queue: Seq<ImuSample>, limit: Double, i: int)
    requires
        0 <= i <= queue.len(),
    ensures
        i <= due(queue, limit, i) <= queue.len(),
        forall|k: int| i <= k < due(queue, limit, i) ==> !limit.spec_lt((#[trigger] queue[k]).t),
        due(queue, limit, i) < queue.len() ==> limit.spec_lt(queue[due(queue, limit, i)].t),
    decreases queue.len() - i,
{
    if i < queue.len() && !limit.spec_lt(queue[i].t) {
        law_frames_take_what_is_due(queue, limit, i + 1);
    }
}

/// Every step lasts at least as long as the shortest, and a longer time as long as it is.
pub proof fn law_steps_are_not_too_short(from: Double, to: Double, op: Ring)
    ensures
        (Double { bits: LEAST_STEP }).spec_le(step_between(from, to, op)),
        (Double { bits: LEAST_STEP }).spec_le((op.plus)(to, from.spec_neg())) ==> step_between(
            from,
            to,
            op,
        ) == (op.plus)(to, from.spec_neg()),
{
}

/// The rates of a step are the mean of the two measurements: twice the rate is their sum,
/// so that equal measurements are their own mean, and which comes first does not matter.
pub proof fn law_rates_are_the_mean(a: Seq<Double>, b: Seq<Double>, op: Ring, m: int, i: int)
    requires
        exact(op),
        halves(op),
        forall|x: Double|
            #[trigger] (op.times)(x, Double { bits: HALF_BITS }) == (op.times)(
                Double { bits: HALF_BITS },
                x,
            ),
        whole3(a, m),
        whole3(b, m),
        0 <= m,
        2 * m <= EXACT,
        0 <= i < 3,
        (value(a[i]) + value(b[i])) % 2 == 0,
    ensures
        2 * value(mean3(a, b, op)[i]) == value(a[i]) + value(b[i]),
        value(mean3(a, b, op)[i]) == value(mean3(b, a, op)[i]),
{
    lemma_sum3(a, b, op, m, m);
    lemma_sum3(b, a, op, m, m);
    let s = sum3(a, b, op)[i];
    let t = sum3(b, a, op)[i];
    lemma_half(op, s, 2 * m);
    lemma_half(op, t, 2 * m);
    assert(mean3(a, b, op)[i] == (op.times)(s, Double { bits: HALF_BITS }));
    assert(mean3(b, a, op)[i] == (op.times)(t, Double { bits: HALF_BITS }));
}

/// Narrower gates let no more updates through, and an update at one of the limits is not
/// let through.
pub proof fn law_narrow_gates_accept_less(
    narrow: UpdateGateConfig,
    wide: UpdateGateConfig,
    j: Jump,
)
    requires
        narrow.max_pos_delta.spec_le(wide.max_pos_delta),
        narrow.max_rot_delta.spec_le(wide.max_rot_delta),
        narrow.max_vel_delta.spec_le(wide.max_vel_delta),
    ensures
        depth_accepted(narrow, j) ==> depth_accepted(wide, j),
        visual_accepted(narrow, j) ==> visual_accepted(wide, j),
        narrow.max_pos_delta.spec_le(j.dp) ==> !depth_accepted(narrow, j) && !visual_accepted(narrow, j),
        narrow.max_rot_delta.spec_le(j.drot) ==> !depth_accepted(narrow, j) && !visual_accepted(
            narrow,
            j,
        ),
        narrow.max_vel_delta.spec_le(j.dvel) ==> !visual_accepted(narrow, j),
        visual_accepted(narrow, j) ==> depth_accepted(narrow, j),
{
}

/// A point behind the camera or beside the image to the left or above occupies no cell,
/// and every other point one of the grid.
pub proof fn law_points_occupy_cells_of_the_grid(p: SeenPoint, cols: int, rows: int)
    requires
        0 < cols,
        0 < rows,
    ensures
        p.depth.spec_le(Double { bits: 0 }) ==> occupied_cell(p, cols, rows) is None,
        p.pixel@[0].spec_lt(Double { bits: 0 }) ==> occupied_cell(p, cols, rows) is None,
        p.pixel@[1].spec_lt(Double { bits: 0 }) ==> occupied_cell(p, cols, rows) is None,
        occupied_cell(p, cols, rows) matches Some(c) ==> 0 <= c.0 < cols && 0 <= c.1 < rows,
{
}

} // verus!
