//! What the map's geometry is for: planes face the camera and stay the same planes,
//! voxels lie about their centers, and of what falls into one place the nearest is
//! taken.

use vstd::prelude::*;

use crate::algebra::{dot, list_of, Ring, HALF_BITS};
use crate::arith::{length_of, number_of, of_two};
use crate::double::Double;
use crate::void_map::octree::{Geometry, MapPoint};
use crate::void_map::map_tools::Cube;
use crate::void_map::options::VoxelMapOptions;
use crate::void_map::plane::{
    faced, is_turned, largest, least, turned_entry, Six, VoxelPlane, TINY,
};
use crate::void_map::raycast::{in_view, offsets_x, offsets_y, offsets_z, Probe};
use crate::void_map::visual_point::VisualPoint;
use crate::void_map::voxel::{
    center_of, in_cell, middle, nearest_plane, nearest_point, registered, seen_cell, shown,
    voxel_of, Projection, RootView, VoxelKey, VoxelMap,
};
use crate::void_measure::distances::lemma_scalar;
use crate::void_types::exact_motion::lemma_difference3;
use crate::void_types::motion::difference3;
use crate::whole::{
    exact, lemma_neg, lemma_sign, lemma_sum_same, scalar, sum_to, value, values, whole, whole3, EXACT,
};

verus! {

/// The first place of the least number is that of one that no other is less than, and
/// the same of the largest.
pub proof fn law_least_and_largest_bound(v: Seq<Double>, n: int)
    requires
        1 <= n <= v.len(),
        forall|k: int| 0 <= k < n ==> !(#[trigger] v[k]).spec_is_nan(),
    ensures
        0 <= least(v, n) < n,
        0 <= largest(v, n) < n,
        forall|k: int| 0 <= k < n ==> v[least(v, n)].spec_le(#[trigger] v[k]),
        forall|k: int| 0 <= k < n ==> (#[trigger] v[k]).spec_le(v[largest(v, n)]),
    decreases n,
{
    if n > 1 {
        law_least_and_largest_bound(v, n - 1);
        assert(!v[n - 1].spec_is_nan());
        assert(!v[least(v, n - 1)].spec_is_nan());
        assert(!v[largest(v, n - 1)].spec_is_nan());
    }
}

/// How far a point lies to one side of a plane, times the length of its normal.
pub open spec fn side_of(plane: VoxelPlane, p: spec_fn(int) -> int) -> int {
    scalar(values(plane.normal@), p) + value(plane.d)
}

/// A plane that was turned towards a camera faces it: the product of its normal and the
/// way to the camera is not negative, unless the camera is at its center.
pub proof fn law_planes_face_the_camera<L: Fn([Double; 3]) -> Double>(
    before: &VoxelPlane,
    after: &VoxelPlane,
    camera: Seq<Double>,
    length: L,
    op: Ring,
    m: int,
)
    requires
        faced(before, after, camera, length, op),
        (Double { bits: TINY }).spec_lt(length_of(length, difference3(camera, before.center@, op))),
        exact(op),
        whole3(before.normal@, m),
        whole3(before.center@, m),
        whole3(camera, m),
        1 <= m,
        6 * (m * m) <= EXACT,
    ensures
        scalar(values(after.normal@), |i: int| value(camera[i]) - value(after.center@[i])) >= 0,
{
    assert(m <= m * m) by (nonlinear_arith)
        requires
            1 <= m,
    ;
    assert(m * (2 * m) == 2 * (m * m)) by (nonlinear_arith);
    let way = difference3(camera, before.center@, op);
    lemma_difference3(camera, before.center@, op, m, m);
    lemma_scalar(before.normal@, way, op, m, 2 * m);
    let c = dot(list_of(before.normal@), list_of(way), op, 3);
    lemma_sign(c, 6 * (m * m));
    let n = values(before.normal@);
    let w = |i: int| value(camera[i]) - value(before.center@[i]);
    assert(value(way[0]) == w(0) && value(way[1]) == w(1) && value(way[2]) == w(2));
    assert(value(c) == n(0) * w(0) + n(1) * w(1) + n(2) * w(2));
    if is_turned(before, after) && c.spec_lt(Double { bits: 0 }) {
        lemma_turned_normal(before, after, m);
        let k = values(after.normal@);
        assert((-n(0)) * w(0) == -(n(0) * w(0))) by (nonlinear_arith);
        assert((-n(1)) * w(1) == -(n(1) * w(1))) by (nonlinear_arith);
        assert((-n(2)) * w(2) == -(n(2) * w(2))) by (nonlinear_arith);
        assert(k(0) == -n(0) && k(1) == -n(1) && k(2) == -n(2));
    }
}

/// The normal of a turned plane.
proof fn lemma_turned_normal(before: &VoxelPlane, after: &VoxelPlane, m: int)
    requires
        is_turned(before, after),
        whole3(before.normal@, m),
    ensures
        forall|i: int| 0 <= i < 3 ==> value(#[trigger] after.normal@[i]) == -value(before.normal@[i]),
{
    assert forall|i: int| 0 <= i < 3 implies value(#[trigger] after.normal@[i]) == -value(
        before.normal@[i],
    ) by {
        lemma_neg(before.normal@[i], m);
    }
}

/// Facing a camera leaves a plane the same plane: the same points lie on it, as far to
/// one side or to the other, and center, extent and spread stay.
pub proof fn law_facing_keeps_the_plane<L: Fn([Double; 3]) -> Double>(
    before: &VoxelPlane,
    after: &VoxelPlane,
    camera: Seq<Double>,
    length: L,
    op: Ring,
    m: int,
    p: spec_fn(int) -> int,
)
    requires
        faced(before, after, camera, length, op),
        whole3(before.normal@, m),
        whole(before.d, m),
    ensures
        side_of(*after, p) == side_of(*before, p) || side_of(*after, p) == -side_of(*before, p),
        side_of(*after, p) == 0 <==> side_of(*before, p) == 0,
        after.center == before.center,
        after.radius == before.radius,
        after.covariance == before.covariance,
        after.is_plane == before.is_plane,
        after.points_count == before.points_count,
{
    if *after != *before {
        lemma_turned_normal(before, after, m);
        lemma_neg(before.d, m);
        let n = values(before.normal@);
        let k = values(after.normal@);
        assert(k(0) == -n(0) && k(1) == -n(1) && k(2) == -n(2));
        assert((-n(0)) * p(0) == -(n(0) * p(0))) by (nonlinear_arith);
        assert((-n(1)) * p(1) == -(n(1) * p(1))) by (nonlinear_arith);
        assert((-n(2)) * p(2) == -(n(2) * p(2))) by (nonlinear_arith);
    }
}

/// The values of a covariance of normal and center.
pub open spec fn six_values(v: &Six) -> spec_fn(int, int) -> int {
    |i: int, j: int| value(v.at(i, j))
}

/// The variance that normal and center give to a number with the given derivatives.
pub open spec fn variance_by(v: spec_fn(int, int) -> int, row: spec_fn(int) -> int) -> int {
    sum_to(|i: int| sum_to(|j: int| (row(i) * v(i, j)) * row(j), 6), 6)
}

/// The derivatives by normal and center of the opposite distance, of a plane that faces
/// the other way.
pub open spec fn other_way(row: spec_fn(int) -> int) -> spec_fn(int) -> int {
    |i: int|
        if i < 3 {
            row(i)
        } else {
            -row(i)
        }
}

/// Facing the other way leaves every distance as certain as it was: the normal's share
/// in the covariance changes its sign with the normal.
pub proof fn law_facing_keeps_the_variance(
    before: &VoxelPlane,
    after: &VoxelPlane,
    row: spec_fn(int) -> int,
    m: int,
)
    requires
        is_turned(before, after),
        forall|i: int, j: int|
            0 <= i < 6 && 0 <= j < 6 ==> whole(#[trigger] before.plane_var.at(i, j), m),
        forall|i: int, j: int|
            0 <= i < 6 && 0 <= j < 6 ==> #[trigger] before.plane_var.at(i, j) == before.plane_var.at(
                j,
                i,
            ),
    ensures
        variance_by(six_values(&after.plane_var), other_way(row)) == variance_by(
            six_values(&before.plane_var),
            row,
        ),
{
    let v = six_values(&before.plane_var);
    let w = six_values(&after.plane_var);
    let r = other_way(row);
    let a = |i: int| sum_to(|j: int| (r(i) * w(i, j)) * r(j), 6);
    let b = |i: int| sum_to(|j: int| (row(i) * v(i, j)) * row(j), 6);
    assert forall|i: int| 0 <= i < 6 implies #[trigger] a(i) == b(i) by {
        let x = |j: int| (r(i) * w(i, j)) * r(j);
        let y = |j: int| (row(i) * v(i, j)) * row(j);
        assert forall|j: int| 0 <= j < 6 implies #[trigger] x(j) == y(j) by {
            assert(before.plane_var.at(i, j) == before.plane_var.at(j, i));
            assert(after.plane_var.at(i, j) == turned_entry(&before.plane_var, i, j));
            assert(whole(before.plane_var.at(i, j), m) && whole(before.plane_var.at(j, i), m));
            lemma_neg(before.plane_var.at(i, j), m);
            let (p, q, s) = (row(i), v(i, j), row(j));
            assert((p * (-q)) * (-s) == (p * q) * s) by (nonlinear_arith);
            assert(((-p) * (-q)) * s == (p * q) * s) by (nonlinear_arith);
            assert(((-p) * q) * (-s) == (p * q) * s) by (nonlinear_arith);
        }
        lemma_sum_same(x, y, 6);
    }
    lemma_sum_same(a, b, 6);
}

/// The center of a root voxel lies in that voxel, where dividing by the size undoes
/// multiplying by it and a whole number and a half rounds down to the whole number.
pub proof fn law_center_lies_in_its_voxel<
    N: Fn(i64) -> Double,
    P: Fn(Double, Double) -> Double,
    T: Fn(Double, Double) -> Double,
    V: Fn(Double, Double) -> Double,
>(key: VoxelKey, size: Double, number: N, plus: P, times: T, divide: V)
    requires
        forall|i: i64|
            i == key.x || i == key.y || i == key.z ==> {
                let x = of_two(plus, #[trigger] number_of(number, i), Double { bits: HALF_BITS });
                &&& of_two(divide, of_two(times, x, size), size) == x
                &&& x.floor_clamped() == i
            },
    ensures
        voxel_of(center_of(key, size, number, plus, times), size, divide) == key,
{
    let c = center_of(key, size, number, plus, times);
    let x = number_of(number, key.x);
    let y = number_of(number, key.y);
    let z = number_of(number, key.z);
    assert(c[0] == middle(key.x, size, number, plus, times));
    assert(c[1] == middle(key.y, size, number, plus, times));
    assert(c[2] == middle(key.z, size, number, plus, times));
}

/// Voxels lie alike on both sides of zero: the center of the voxel as far below zero as
/// another is above it is the opposite number.
pub proof fn law_centers_mirror_at_zero<
    N: Fn(i64) -> Double,
    P: Fn(Double, Double) -> Double,
    T: Fn(Double, Double) -> Double,
>(i: i64, size: Double, number: N, plus: P, times: T)
    requires
        i64::MIN < i,
        ({
            let half = Double { bits: HALF_BITS };
            let above = of_two(plus, number_of(number, i), half);
            let below = of_two(plus, number_of(number, (-1 - i) as i64), half);
            &&& below == above.spec_neg()
            &&& of_two(times, above.spec_neg(), size) == of_two(times, above, size).spec_neg()
        }),
    ensures
        middle((-1 - i) as i64, size, number, plus, times) == middle(i, size, number, plus, times).spec_neg(),
{
}

/// Of the planes that fall into a cell the nearest is taken, and none only if none does.
pub proof fn law_nearest_plane_is_nearest(
    planes: Seq<Option<Projection>>,
    cell: int,
    width: int,
    height: int,
    size: int,
    n: int,
)
    requires
        0 <= n <= planes.len(),
    ensures
        match nearest_plane(planes, cell, width, height, size, n) {
            Some(k) => {
                &&& 0 <= k < n
                &&& seen_cell(planes[k], width, height, size) == Some(cell)
                &&& forall|i: int|
                    0 <= i < n && seen_cell(#[trigger] planes[i], width, height, size) == Some(cell)
                        ==> planes[k]->0.depth.spec_le(planes[i]->0.depth)
            },
            None => forall|i: int|
                0 <= i < n ==> seen_cell(#[trigger] planes[i], width, height, size) != Some(cell),
        },
    decreases n,
{
    if n > 0 {
        law_nearest_plane_is_nearest(planes, cell, width, height, size, n - 1);
    }
}

/// Of the visual points in a cell the nearest is taken, and none only if none is at a
/// finite depth there.
pub proof fn law_nearest_point_is_nearest(
    points: Seq<Option<Projection>>,
    col: int,
    row: int,
    size: int,
    n: int,
)
    requires
        0 <= n <= points.len(),
    ensures
        ({
            let near = nearest_point(points, col, row, size, n);
            &&& !near.1.spec_is_nan()
            &&& near.0 is None ==> near.1 == (Double { bits: crate::double::INFINITY_BITS })
            &&& forall|i: int|
                0 <= i < n && (#[trigger] points[i] matches Some(p) && in_cell(p.u, p.v, col, row, size)
                    && !p.depth.spec_is_nan()) ==> near.1.spec_le(points[i]->0.depth)
            &&& match near.0 {
                Some(k) => {
                    &&& 0 <= k < n
                    &&& points[k] is Some
                    &&& in_cell(points[k]->0.u, points[k]->0.v, col, row, size)
                    &&& points[k]->0.depth == near.1
                },
                None => true,
            }
        }),
    decreases n,
{
    if n > 0 {
        law_nearest_point_is_nearest(points, col, row, size, n - 1);
    }
}

/// Points change their own root voxels and no others: a voxel that none of them lies in
/// stays as it was, or stays absent.
pub proof fn law_points_change_their_own_voxels(
    roots: Map<VoxelKey, RootView>,
    points: Seq<MapPoint>,
    keys: Seq<VoxelKey>,
    n: int,
    o: VoxelMapOptions,
    g: Geometry,
    cube: spec_fn(VoxelKey) -> Cube,
    key: VoxelKey,
)
    requires
        0 <= n <= points.len(),
        points.len() == keys.len(),
    ensures
        ({
            let after = registered(roots, points, keys, n, o, g, cube);
            let met = exists|i: int| 0 <= i < n && #[trigger] keys[i] == key;
            &&& after.dom().contains(key) <==> roots.dom().contains(key) || met
            &&& !met && roots.dom().contains(key) ==> after[key] == roots[key]
            &&& roots.dom().contains(key) ==> after[key].visual_points == roots[key].visual_points
        }),
    decreases n,
{
    if n > 0 {
        law_points_change_their_own_voxels(roots, points, keys, n - 1, o, g, cube, key);
        assert(keys[n - 1] == key || keys[n - 1] != key);
    }
}

/// The offsets along the first axis.
proof fn lemma_offsets_x(dz: i64, dy: i64, span: int, n: int, o: (i64, i64, i64))
    requires
        0 <= n <= 2 * span + 1,
        0 <= span < i64::MAX,
    ensures
        offsets_x(dz, dy, span, n).contains(o) <==> -span <= o.0 < n - span && o.1 == dy && o.2 == dz,
    decreases n,
{
    if n > 0 {
        lemma_offsets_x(dz, dy, span, n - 1, o);
        lemma_pushed(offsets_x(dz, dy, span, n - 1), ((n - 1 - span) as i64, dy, dz), o);
    }
}

/// The offsets along the first two axes.
proof fn lemma_offsets_y(dz: i64, span: int, n: int, o: (i64, i64, i64))
    requires
        0 <= n <= 2 * span + 1,
        0 <= span < i64::MAX,
    ensures
        offsets_y(dz, span, n).contains(o) <==> -span <= o.0 <= span && -span <= o.1 < n - span && o.2
            == dz,
    decreases n,
{
    if n > 0 {
        lemma_offsets_y(dz, span, n - 1, o);
        lemma_offsets_x(dz, (n - 1 - span) as i64, span, 2 * span + 1, o);
        lemma_joined(
            offsets_y(dz, span, n - 1),
            offsets_x(dz, (n - 1 - span) as i64, span, 2 * span + 1),
            o,
        );
    }
}

/// All offsets within a span along each axis are probed, and no others.
pub proof fn law_all_offsets_are_probed(span: int, n: int, o: (i64, i64, i64))
    requires
        0 <= n <= 2 * span + 1,
        0 <= span < i64::MAX,
    ensures
        offsets_z(span, n).contains(o) <==> -span <= o.0 <= span && -span <= o.1 <= span && -span <= o.2
            < n - span,
    decreases n,
{
    if n > 0 {
        law_all_offsets_are_probed(span, n - 1, o);
        lemma_offsets_y((n - 1 - span) as i64, span, 2 * span + 1, o);
        lemma_joined(
            offsets_z(span, n - 1),
            offsets_y((n - 1 - span) as i64, span, 2 * span + 1),
            o,
        );
    }
}

/// What a list holds with one more item.
proof fn lemma_pushed<T>(s: Seq<T>, a: T, x: T)
    ensures
        s.push(a).contains(x) <==> s.contains(x) || x == a,
{
    let t = s.push(a);
    if s.contains(x) {
        let i = choose|i: int| 0 <= i < s.len() && s[i] == x;
        assert(t[i] == x);
    }
    if x == a {
        assert(t[s.len() as int] == x);
    }
    if t.contains(x) {
        let i = choose|i: int| 0 <= i < t.len() && t[i] == x;
        if i < s.len() {
            assert(s[i] == x);
        }
    }
}

/// What two lists hold together.
proof fn lemma_joined<T>(s: Seq<T>, t: Seq<T>, x: T)
    ensures
        (s + t).contains(x) <==> s.contains(x) || t.contains(x),
{
    let u = s + t;
    if s.contains(x) {
        let i = choose|i: int| 0 <= i < s.len() && s[i] == x;
        assert(u[i] == x);
    }
    if t.contains(x) {
        let i = choose|i: int| 0 <= i < t.len() && t[i] == x;
        assert(u[s.len() + i] == x);
    }
    if u.contains(x) {
        let i = choose|i: int| 0 <= i < u.len() && u[i] == x;
        if i < s.len() {
            assert(s[i] == x);
        } else {
            assert(t[i - s.len()] == x);
        }
    }
}

/// A ray shows the visual points of the first voxel on it that has any to show, and of no
/// voxel behind it; it shows none only if no voxel on it has any.
pub proof fn law_rays_stop_at_the_first_voxel(
    map: &VoxelMap,
    ray: Seq<VoxelKey>,
    visible: Seq<bool>,
    i: int,
)
    requires
        0 <= i <= ray.len(),
    ensures
        map.first_hit(ray, visible, i).len() == 0 ==> forall|k: int|
            i <= k < ray.len() ==> map.shown_in(#[trigger] ray[k], visible).len() == 0,
        map.first_hit(ray, visible, i).len() > 0 ==> exists|k: int|
            i <= k < ray.len() && map.first_hit(ray, visible, i) == map.shown_in(
                #[trigger] ray[k],
                visible,
            ) && forall|l: int| i <= l < k ==> map.shown_in(#[trigger] ray[l], visible).len() == 0,
    decreases ray.len() - i,
{
    if i < ray.len() {
        if map.shown_in(ray[i], visible).len() > 0 {
            assert(map.first_hit(ray, visible, i) == map.shown_in(ray[i], visible));
        } else {
            law_rays_stop_at_the_first_voxel(map, ray, visible, i + 1);
            if map.first_hit(ray, visible, i + 1).len() > 0 {
                let k = choose|k: int|
                    i + 1 <= k < ray.len() && map.first_hit(ray, visible, i + 1) == map.shown_in(
                        #[trigger] ray[k],
                        visible,
                    ) && forall|l: int|
                        i + 1 <= l < k ==> map.shown_in(#[trigger] ray[l], visible).len() == 0;
                assert(map.first_hit(ray, visible, i) == map.shown_in(ray[k], visible));
            }
        }
    }
}

/// The visual points that are shown are those that are visible and have a reference
/// patch, each with the place of that patch.
pub proof fn law_visible_points_are_shown(
    pool: Seq<VisualPoint>,
    visible: Seq<bool>,
    ids: Seq<usize>,
    n: int,
    id: usize,
    r: usize,
)
    requires
        0 <= n <= ids.len(),
    ensures
        shown(pool, visible, ids, n).contains((id, r)) <==> visible[id as int]
            && pool[id as int].ref_patch == Some(r) && exists|k: int| 0 <= k < n && #[trigger] ids[k] == id,
    decreases n,
{
    if n > 0 {
        law_visible_points_are_shown(pool, visible, ids, n - 1, id, r);
        let last = ids[n - 1];
        if let Some(q) = pool[last as int].ref_patch {
            if visible[last as int] {
                lemma_pushed(shown(pool, visible, ids, n - 1), (last, q), (id, r));
            }
        }
        assert(ids[n - 1] == id || ids[n - 1] != id);
    }
}

/// A voxel beyond the reach, at the camera itself, or off the line of sight by more than
/// the angle of view is not in view, and a nearer one in the same direction is if it is.
pub proof fn law_view_ends_at_the_reach(p: Probe, q: Probe, reach: Double, fov_cos: Double)
    ensures
        reach.spec_lt(p.distance) ==> !in_view(p, reach, fov_cos),
        p.distance.spec_lt(Double { bits: TINY }) ==> !in_view(p, reach, fov_cos),
        p.cosine.spec_lt(fov_cos) ==> !in_view(p, reach, fov_cos),
        in_view(p, reach, fov_cos) && q.cosine == p.cosine && q.distance.spec_le(p.distance)
            && !q.distance.spec_lt(Double { bits: TINY }) ==> in_view(q, reach, fov_cos),
{
}

} // verus!
