//! The plane of a node: whether points make one, and which way it faces.

use vstd::prelude::*;

use crate::algebra::{dot, entries, list_of, nothing, ring, Ring};
use crate::arith::{apply_length, apply_two, binary, length_of, lengths};
use crate::double::{Double, ONE_BITS};
use crate::matrix::Matrix;
use crate::void_map::options::{PlaneOptions, MAX_POINTS_PER_PLANE};
use crate::void_types::motion::difference3;

verus! {

/// A distance below which a direction is not trusted: 1e-12.
pub const TINY: u64 = 0x3D71_9799_812D_EA11;

/// Six by six numbers, row by row.
#[derive(Clone, Copy, Debug)]
pub struct Six {
    /// The numbers.
    pub v: [Double; 36],
}

impl Six {
    /// The number in row `i` and column `j`.
    pub open spec fn at(&self, i: int, j: int) -> Double {
        self.v@[6 * i + j]
    }

    /// Whether the numbers are those of a formula.
    pub open spec fn holds(&self, f: spec_fn(int, int) -> Double) -> bool {
        forall|i: int, j: int|
            0 <= i < 6 && 0 <= j < 6 ==> #[trigger] self.at(i, j) == f(i, j)
    }

    /// The same number everywhere.
    pub fn filled(x: Double) -> (m: Six)
        ensures
            forall|i: int, j: int| 0 <= i < 6 && 0 <= j < 6 ==> #[trigger] m.at(i, j) == x,
    {
        Six { v: [x; 36] }
    }

    /// The number in row `i` and column `j`.
    pub fn get(&self, i: usize, j: usize) -> (x: Double)
        requires
            i < 6,
            j < 6,
        ensures
            x == self.at(i as int, j as int),
    {
        self.v[6 * i + j]
    }

    /// Sets the number in row `i` and column `j`.
    pub fn set(&mut self, i: usize, j: usize, x: Double)
        requires
            i < 6,
            j < 6,
        ensures
            forall|r: int, c: int|
                0 <= r < 6 && 0 <= c < 6 ==> #[trigger] final(self).at(r, c) == (if r == i && c == j {
                    x
                } else {
                    old(self).at(r, c)
                }),
    {
        self.v[6 * i + j] = x;
    }

    /// The numbers of a matrix.
    pub fn of(m: &Matrix) -> (s: Six)
        requires
            m.shaped(6, 6),
        ensures
            s.holds(entries(m)),
    {
        let mut s = Six::filled(Double::zero());
        let mut i: usize = 0;
        while i < 6
            invariant
                i <= 6,
                m.shaped(6, 6),
                forall|r: int, c: int|
                    0 <= r < i && 0 <= c < 6 ==> #[trigger] s.at(r, c) == m.at(r, c),
            decreases 6 - i,
        {
            let mut j: usize = 0;
            while j < 6
                invariant
                    i < 6,
                    j <= 6,
                    m.shaped(6, 6),
                    forall|r: int, c: int|
                        0 <= r < 6 && 0 <= c < 6 && (r < i || (r == i && c < j)) ==> #[trigger] s.at(
                            r,
                            c,
                        ) == m.at(r, c),
                decreases 6 - j,
            {
                s.set(i, j, m.get(i, j));
                j += 1;
            }
            i += 1;
        }
        s
    }
}

/// Numbers that are the same everywhere are equal.
pub proof fn lemma_six(a: Six, b: Six)
    requires
        forall|i: int, j: int| 0 <= i < 6 && 0 <= j < 6 ==> #[trigger] a.at(i, j) == b.at(i, j),
    ensures
        a == b,
{
    assert forall|k: int| 0 <= k < 36 implies #[trigger] a.v@[k] == b.v@[k] by {
        assert(6 * (k / 6) + k % 6 == k);
        assert(a.at(k / 6, k % 6) == b.at(k / 6, k % 6));
    }
    assert(a.v@ =~= b.v@);
    assert(a.v =~= b.v);
}

/// A plane, as points with normal `n` and offset `d` satisfy `n.x + d = 0`.
#[derive(Clone, Copy, Debug)]
pub struct VoxelPlane {
    /// The center (m).
    pub center: [Double; 3],
    /// The unit normal.
    pub normal: [Double; 3],
    /// The offset.
    pub d: Double,
    /// The covariance of normal and center.
    pub plane_var: Six,
    /// The covariance of the points, row by row.
    pub covariance: [Double; 9],
    /// The extent of the points.
    pub radius: Double,
    /// The least eigenvalue of the points' covariance.
    pub eigen_min: Double,
    /// The middle eigenvalue.
    pub eigen_mid: Double,
    /// The largest eigenvalue.
    pub eigen_max: Double,
    /// How many points were fitted.
    pub points_count: usize,
    /// Whether the points make a plane.
    pub is_plane: bool,
    /// Whether the plane no longer changes.
    pub is_mature: bool,
}

impl Default for VoxelPlane {
    /// No plane: zeros, and unit eigenvalues.
    fn default() -> (p: Self)
        ensures
            forall|i: int| 0 <= i < 3 ==> (#[trigger] p.center@[i]).bits == 0,
            forall|i: int| 0 <= i < 3 ==> (#[trigger] p.normal@[i]).bits == 0,
            p.d.bits == 0,
            p.plane_var.holds(nothing()),
            forall|i: int| 0 <= i < 9 ==> (#[trigger] p.covariance@[i]).bits == 0,
            p.radius.bits == 0,
            p.eigen_min.bits == ONE_BITS,
            p.eigen_mid.bits == ONE_BITS,
            p.eigen_max.bits == ONE_BITS,
            p.points_count == 0,
            !p.is_plane,
            !p.is_mature,
    {
        let z = Double::zero();
        VoxelPlane {
            center: [z, z, z],
            normal: [z, z, z],
            d: z,
            plane_var: Six::filled(z),
            covariance: [z, z, z, z, z, z, z, z, z],
            radius: z,
            eigen_min: Double::one(),
            eigen_mid: Double::one(),
            eigen_max: Double::one(),
            points_count: 0,
            is_plane: false,
            is_mature: false,
        }
    }
}

/// The place of the least of the first `n` numbers; the first of equal ones.
pub open spec fn least(v: Seq<Double>, n: int) -> int
    decreases n,
{
    if n <= 1 {
        0
    } else {
        let rest = least(v, n - 1);
        if v[n - 1].spec_lt(v[rest]) {
            n - 1
        } else {
            rest
        }
    }
}

/// The place of the largest of the first `n` numbers; the first of equal ones.
pub open spec fn largest(v: Seq<Double>, n: int) -> int
    decreases n,
{
    if n <= 1 {
        0
    } else {
        let rest = largest(v, n - 1);
        if v[rest].spec_lt(v[n - 1]) {
            n - 1
        } else {
            rest
        }
    }
}

/// The place between those of the least and the largest of three numbers; the
/// second where one is both.
pub open spec fn middle(low: int, high: int) -> int {
    if low == high {
        1
    } else {
        3 - low - high
    }
}

/// The places of the least, the middle and the largest of three eigenvalues.
pub fn order_eigenvalues(e: &[Double; 3]) -> (order: (usize, usize, usize))
    ensures
        order.0 == least(e@, 3),
        order.2 == largest(e@, 3),
        order.1 == middle(order.0 as int, order.2 as int),
        order.0 < 3,
        order.1 < 3,
        order.2 < 3,
        order.0 != order.1,
        order.1 != order.2,
{
    proof {
        reveal_with_fuel(least, 4);
        reveal_with_fuel(largest, 4);
    }
    let mut min_idx: usize = 0;
    let mut max_idx: usize = 0;
    if e[1].lt(e[min_idx]) {
        min_idx = 1;
    }
    if e[max_idx].lt(e[1]) {
        max_idx = 1;
    }
    if e[2].lt(e[min_idx]) {
        min_idx = 2;
    }
    if e[max_idx].lt(e[2]) {
        max_idx = 2;
    }
    let mid_idx: usize = if min_idx == max_idx {
        1
    } else {
        3 - min_idx - max_idx
    };
    (min_idx, mid_idx, max_idx)
}

/// What was computed from points that may make a plane.
#[derive(Clone, Debug)]
pub struct PlaneFit {
    /// The mean of the points.
    pub center: [Double; 3],
    /// The eigenvector of the least eigenvalue.
    pub normal: [Double; 3],
    /// The offset of the plane through the center.
    pub d: Double,
    /// The covariance of normal and center.
    pub plane_var: Six,
    /// The covariance of the points, row by row.
    pub covariance: [Double; 9],
    /// The root of the largest eigenvalue.
    pub radius: Double,
    /// The eigenvalues.
    pub eigenvalues: [Double; 3],
}

/// Whether points with these eigenvalues make a plane: the least stays below the
/// threshold.
pub open spec fn flat(eigenvalues: Seq<Double>, threshold: Double) -> bool {
    !threshold.spec_le(eigenvalues[least(eigenvalues, 3)])
}

/// The plane of `n` points, if they make one. It is mature once fifty points
/// were fitted.
pub fn judge_plane(fit: PlaneFit, n: usize, opts: &PlaneOptions) -> (plane: Option<VoxelPlane>)
    requires
        n >= 3,
    ensures
        plane is Some <==> flat(fit.eigenvalues@, opts.planer_threshold),
        plane matches Some(p) ==> {
            let e = fit.eigenvalues@;
            let (low, high) = (least(e, 3), largest(e, 3));
            &&& p.center == fit.center
            &&& p.normal == fit.normal
            &&& p.d == fit.d
            &&& p.plane_var == fit.plane_var
            &&& p.covariance == fit.covariance
            &&& p.radius == fit.radius
            &&& p.eigen_min == e[low]
            &&& p.eigen_mid == e[middle(low, high)]
            &&& p.eigen_max == e[high]
            &&& p.points_count == n
            &&& p.is_plane
            &&& p.is_mature == (n >= MAX_POINTS_PER_PLANE)
        },
{
    let (low, mid, high) = order_eigenvalues(&fit.eigenvalues);
    let eigen_min = fit.eigenvalues[low];
    if opts.planer_threshold.le(eigen_min) {
        return None;
    }
    Some(
        VoxelPlane {
            center: fit.center,
            normal: fit.normal,
            d: fit.d,
            plane_var: fit.plane_var,
            covariance: fit.covariance,
            radius: fit.radius,
            eigen_min,
            eigen_mid: fit.eigenvalues[mid],
            eigen_max: fit.eigenvalues[high],
            points_count: n,
            is_plane: true,
            is_mature: n >= MAX_POINTS_PER_PLANE,
        },
    )
}

/// Whether a plane faces away from a camera at a distance, where `dot` is the
/// product of its normal and the direction to the camera.
pub open spec fn faces_away(distance: Double, dot: Double) -> bool {
    (Double { bits: TINY }).spec_lt(distance) && dot.spec_lt(Double { bits: 0 })
}

/// The entry of the covariance of normal and center once the normal was turned:
/// where the two meet, the upper entry with its sign changed.
pub open spec fn turned_entry(var: &Six, i: int, j: int) -> Double {
    if i < 3 && j >= 3 {
        var.at(i, j).spec_neg()
    } else if i >= 3 && j < 3 {
        var.at(j, i).spec_neg()
    } else {
        var.at(i, j)
    }
}

/// Whether a plane was turned towards the camera, if it faced away.
pub open spec fn faced<L: Fn([Double; 3]) -> Double>(
    before: &VoxelPlane,
    after: &VoxelPlane,
    camera_pos: Seq<Double>,
    length: L,
    op: Ring,
) -> bool {
    let way = difference3(camera_pos, before.center@, op);
    let cosine = dot(list_of(before.normal@), list_of(way), op, 3);
    if faces_away(length_of(length, way), cosine) {
        is_turned(before, after)
    } else {
        *after == *before
    }
}

/// Turns a plane towards the camera, if it faces away.
pub fn align_normal_to_camera<
    L: Fn([Double; 3]) -> Double,
    P: Fn(Double, Double) -> Double,
    T: Fn(Double, Double) -> Double,
>(plane: &mut VoxelPlane, camera_pos: &[Double; 3], length: &L, plus: &P, times: &T)
    requires
        lengths(*length),
        binary(*plus),
        binary(*times),
    ensures
        faced(old(plane), final(plane), camera_pos@, *length, ring(*plus, *times)),
{
    let way = [
        apply_two(plus, camera_pos[0], plane.center[0].neg()),
        apply_two(plus, camera_pos[1], plane.center[1].neg()),
        apply_two(plus, camera_pos[2], plane.center[2].neg()),
    ];
    assert(way@ =~= difference3(camera_pos@, plane.center@, ring(*plus, *times)));
    let distance = apply_length(length, way);
    let x = apply_two(times, plane.normal[0], way[0]);
    let y = apply_two(times, plane.normal[1], way[1]);
    let z = apply_two(times, plane.normal[2], way[2]);
    let cosine = apply_two(plus, apply_two(plus, apply_two(plus, Double::zero(), x), y), z);
    proof {
        reveal_with_fuel(dot, 4);
    }
    turn_plane(plane, distance, cosine);
}

/// Whether a plane is another that faces the other way.
pub open spec fn is_turned(before: &VoxelPlane, after: &VoxelPlane) -> bool {
    &&& *after == (VoxelPlane {
        normal: after.normal,
        d: before.d.spec_neg(),
        plane_var: after.plane_var,
        ..*before
    })
    &&& forall|i: int|
        0 <= i < 3 ==> #[trigger] after.normal@[i] == before.normal@[i].spec_neg()
    &&& forall|i: int, j: int|
        0 <= i < 6 && 0 <= j < 6 ==> #[trigger] after.plane_var.at(i, j) == turned_entry(
            &before.plane_var,
            i,
            j,
        )
}

/// Turns a plane, if it faces away.
fn turn_plane(plane: &mut VoxelPlane, distance: Double, dot: Double)
    ensures
        !faces_away(distance, dot) ==> *final(plane) == *old(plane),
        faces_away(distance, dot) ==> is_turned(old(plane), final(plane)),
{
    if !(Double { bits: TINY }).lt(distance) || !dot.lt(Double::zero()) {
        return;
    }
    plane.normal = [plane.normal[0].neg(), plane.normal[1].neg(), plane.normal[2].neg()];
    plane.d = plane.d.neg();
    let ghost first = plane.plane_var;
    let mut i: usize = 0;
    while i < 3
        invariant
            i <= 3,
            *plane == (VoxelPlane {
                normal: plane.normal,
                d: old(plane).d.spec_neg(),
                plane_var: plane.plane_var,
                ..*old(plane)
            }),
            forall|q: int|
                0 <= q < 3 ==> #[trigger] plane.normal@[q] == old(plane).normal@[q].spec_neg(),
            forall|r: int, c: int|
                0 <= r < 6 && 0 <= c < 6 ==> #[trigger] plane.plane_var.at(r, c) == (if (r < i && c >= 3) || (c
                    < i && r >= 3) {
                    turned_entry(&first, r, c)
                } else {
                    first.at(r, c)
                }),
        decreases 3 - i,
    {
        let mut j: usize = 3;
        while j < 6
            invariant
                i < 3,
                3 <= j <= 6,
                    *plane == (VoxelPlane {
                    normal: plane.normal,
                    d: old(plane).d.spec_neg(),
                    plane_var: plane.plane_var,
                    ..*old(plane)
                }),
                forall|q: int|
                    0 <= q < 3 ==> #[trigger] plane.normal@[q] == old(plane).normal@[q].spec_neg(),
                    forall|r: int, c: int|
                    0 <= r < 6 && 0 <= c < 6 ==> #[trigger] plane.plane_var.at(r, c) == (if (r < i && c >= 3)
                        || (c < i && r >= 3) || (r == i && 3 <= c < j) || (c == i && 3 <= r < j) {
                        turned_entry(&first, r, c)
                    } else {
                        first.at(r, c)
                    }),
            decreases 6 - j,
        {
            let v = plane.plane_var.get(i, j).neg();
            plane.plane_var.set(i, j, v);
            plane.plane_var.set(j, i, v);
            j += 1;
        }
        i += 1;
    }
}

} // verus!
