//! Planes that are known beforehand.
//!
//! Large planes are candidates everywhere, small ones in the root voxels that
//! their extent touches.

use vstd::prelude::*;

use crate::arith::{apply_two, binary, of_two};
use crate::double::{law_rounding_down_is_monotone, Double};
use crate::table::Table;
use crate::void_map::options::ROOT_SIZE;
use crate::void_map::plane::VoxelPlane;
use crate::void_map::voxel::{axis_index, voxel_of, VoxelKey};

verus! {

/// The extent above which a plane is large: that of a root voxel.
pub const LARGE_PLANE_RADIUS: u64 = 0x3FE0_0000_0000_0000;

/// Planes that are known beforehand.
#[derive(Debug)]
pub struct PriorPlaneMap {
    roots: Table<VoxelKey, Vec<usize>>,
    planes: Vec<VoxelPlane>,
    global: Vec<usize>,
}

/// Whether a plane is large.
pub open spec fn large(p: VoxelPlane) -> bool {
    (Double { bits: LARGE_PLANE_RADIUS }).spec_lt(p.radius)
}

/// Whether a root voxel lies between two others, along each axis.
pub open spec fn covers(span: (VoxelKey, VoxelKey), key: VoxelKey) -> bool {
    &&& span.0.x <= key.x <= span.1.x
    &&& span.0.y <= key.y <= span.1.y
    &&& span.0.z <= key.z <= span.1.z
}

/// The large ones of the first `n` planes.
pub open spec fn large_planes(planes: Seq<VoxelPlane>, n: int) -> Seq<usize>
    decreases n,
{
    if n <= 0 {
        seq![]
    } else if large(planes[n - 1]) {
        large_planes(planes, n - 1).push((n - 1) as usize)
    } else {
        large_planes(planes, n - 1)
    }
}

/// The small ones of the first `n` planes that touch a root voxel.
pub open spec fn touching(
    planes: Seq<VoxelPlane>,
    spans: Seq<(VoxelKey, VoxelKey)>,
    key: VoxelKey,
    n: int,
) -> Seq<usize>
    decreases n,
{
    if n <= 0 {
        seq![]
    } else if !large(planes[n - 1]) && covers(spans[n - 1], key) {
        touching(planes, spans, key, n - 1).push((n - 1) as usize)
    } else {
        touching(planes, spans, key, n - 1)
    }
}

/// The planes that are listed for a root voxel.
pub open spec fn listed(roots: Map<VoxelKey, Vec<usize>>, key: VoxelKey) -> Seq<usize> {
    if roots.dom().contains(key) {
        roots[key]@
    } else {
        seq![]
    }
}

/// Whether a root voxel of a span comes before the place `(x, y, z)`, the first
/// axis slowest.
pub open spec fn passed(
    span: (VoxelKey, VoxelKey),
    key: VoxelKey,
    x: int,
    y: int,
    z: int,
) -> bool {
    covers(span, key) && (key.x < x || (key.x == x && (key.y < y || (key.y == y && key.z < z))))
}

/// Whether the lists are those of `first`, with a plane added for the root voxels
/// before the place `(x, y, z)`.
pub open spec fn listed_up_to(
    roots: Map<VoxelKey, Vec<usize>>,
    first: Map<VoxelKey, Vec<usize>>,
    span: (VoxelKey, VoxelKey),
    idx: usize,
    x: int,
    y: int,
    z: int,
) -> bool {
    forall|k: VoxelKey| #[trigger]
        listed(roots, k) == (if passed(span, k, x, y, z) {
            listed(first, k).push(idx)
        } else {
            listed(first, k)
        })
}

/// Lists a plane for one root voxel.
fn list_plane(roots: &mut Table<VoxelKey, Vec<usize>>, key: VoxelKey, idx: usize)
    requires
        old(roots).wf(),
    ensures
        final(roots).wf(),
        forall|k: VoxelKey| #[trigger]
            listed(final(roots)@, k) == (if k == key {
                listed(old(roots)@, k).push(idx)
            } else {
                listed(old(roots)@, k)
            }),
{
    match roots.find(&key) {
        Some(place) => {
            roots.at_mut(place).push(idx);
        },
        None => {
            let mut list: Vec<usize> = Vec::new();
            list.push(idx);
            assert(list@ =~= listed(old(roots)@, key).push(idx));
            roots.push(key, list);
        },
    }
}

/// Lists a plane for all root voxels of a span.
fn list_span(roots: &mut Table<VoxelKey, Vec<usize>>, span: (VoxelKey, VoxelKey), idx: usize)
    requires
        old(roots).wf(),
    ensures
        final(roots).wf(),
        forall|k: VoxelKey| #[trigger]
            listed(final(roots)@, k) == (if covers(span, k) {
                listed(old(roots)@, k).push(idx)
            } else {
                listed(old(roots)@, k)
            }),
{
    let ghost first = roots@;
    let (lo, hi) = span;
    let mut x: i128 = lo.x as i128;
    while x <= hi.x as i128
        invariant
            roots.wf(),
            span == (lo, hi),
            lo.x <= x,
            x <= hi.x + 1 || x == lo.x,
            listed_up_to(roots@, first, span, idx, x as int, lo.y as int, lo.z as int),
        decreases hi.x + 1 - x,
    {
        let mut y: i128 = lo.y as i128;
        while y <= hi.y as i128
            invariant
                roots.wf(),
                span == (lo, hi),
                lo.x <= x <= hi.x,
                lo.y <= y,
                y <= hi.y + 1 || y == lo.y,
                listed_up_to(roots@, first, span, idx, x as int, y as int, lo.z as int),
            decreases hi.y + 1 - y,
        {
            let mut z: i128 = lo.z as i128;
            while z <= hi.z as i128
                invariant
                    roots.wf(),
                    span == (lo, hi),
                    lo.x <= x <= hi.x,
                    lo.y <= y <= hi.y,
                    lo.z <= z,
                    z <= hi.z + 1 || z == lo.z,
                    listed_up_to(roots@, first, span, idx, x as int, y as int, z as int),
                decreases hi.z + 1 - z,
            {
                let key = VoxelKey { x: x as i64, y: y as i64, z: z as i64 };
                let ghost before = roots@;
                list_plane(roots, key, idx);
                proof {
                    assert forall|k: VoxelKey| #[trigger] listed(roots@, k) == (if passed(
                        span,
                        k,
                        x as int,
                        y as int,
                        z + 1,
                    ) {
                        listed(first, k).push(idx)
                    } else {
                        listed(first, k)
                    }) by {
                        assert(listed(before, k) == (if passed(
                            span,
                            k,
                            x as int,
                            y as int,
                            z as int,
                        ) {
                            listed(first, k).push(idx)
                        } else {
                            listed(first, k)
                        }));
                    }
                }
                z += 1;
            }
            proof {
                assert forall|k: VoxelKey| #[trigger] listed(roots@, k) == (if passed(
                    span,
                    k,
                    x as int,
                    y + 1,
                    lo.z as int,
                ) {
                    listed(first, k).push(idx)
                } else {
                    listed(first, k)
                }) by {}
            }
            y += 1;
        }
        proof {
            assert forall|k: VoxelKey| #[trigger] listed(roots@, k) == (if passed(
                span,
                k,
                x + 1,
                lo.y as int,
                lo.z as int,
            ) {
                listed(first, k).push(idx)
            } else {
                listed(first, k)
            }) by {}
        }
        x += 1;
    }
}

/// The root voxel of a point in the grid of these maps.
pub open spec fn prior_voxel<V: Fn(Double, Double) -> Double>(
    p: Seq<Double>,
    divide: V,
) -> VoxelKey {
    voxel_of(p, Double { bits: ROOT_SIZE }, divide)
}

/// A point moved by the same along every axis.
pub open spec fn shifted<P: Fn(Double, Double) -> Double>(p: Seq<Double>, by: Double, plus: P) -> Seq<
    Double,
> {
    seq![of_two(plus, p[0], by), of_two(plus, p[1], by), of_two(plus, p[2], by)]
}

/// The first and the last root voxel that the cube around a plane touches.
pub open spec fn extent<P: Fn(Double, Double) -> Double, V: Fn(Double, Double) -> Double>(
    plane: VoxelPlane,
    plus: P,
    divide: V,
) -> (VoxelKey, VoxelKey) {
    (
        prior_voxel(shifted(plane.center@, plane.radius.spec_neg(), plus), divide),
        prior_voxel(shifted(plane.center@, plane.radius, plus), divide),
    )
}

/// The root voxels that planes touch.
pub open spec fn extents<P: Fn(Double, Double) -> Double, V: Fn(Double, Double) -> Double>(
    planes: Seq<VoxelPlane>,
    plus: P,
    divide: V,
) -> Seq<(VoxelKey, VoxelKey)> {
    Seq::new(planes.len(), |i: int| extent(planes[i], plus, divide))
}

/// The root voxel of a point that is moved by the same along every axis.
fn corner_voxel<P: Fn(Double, Double) -> Double, V: Fn(Double, Double) -> Double>(
    p: &[Double; 3],
    by: Double,
    plus: &P,
    divide: &V,
) -> (key: VoxelKey)
    requires
        binary(*plus),
        binary(*divide),
    ensures
        key == prior_voxel(shifted(p@, by, *plus), *divide),
{
    let q = [apply_two(plus, p[0], by), apply_two(plus, p[1], by), apply_two(plus, p[2], by)];
    assert(q@ =~= shifted(p@, by, *plus));
    VoxelKey::from_point(&q, Double { bits: ROOT_SIZE }, divide)
}

/// The first and the last root voxel that the cube around a plane touches.
fn plane_extent<P: Fn(Double, Double) -> Double, V: Fn(Double, Double) -> Double>(
    plane: &VoxelPlane,
    plus: &P,
    divide: &V,
) -> (span: (VoxelKey, VoxelKey))
    requires
        binary(*plus),
        binary(*divide),
    ensures
        span == extent(*plane, *plus, *divide),
{
    (
        corner_voxel(&plane.center, plane.radius.neg(), plus, divide),
        corner_voxel(&plane.center, plane.radius, plus, divide),
    )
}

impl PriorPlaneMap {
    /// The planes.
    pub closed spec fn all(&self) -> Seq<VoxelPlane> {
        self.planes@
    }

    /// The planes that are candidates everywhere.
    pub closed spec fn everywhere(&self) -> Seq<usize> {
        self.global@
    }

    /// The planes that are candidates in a root voxel beside those.
    pub closed spec fn local(&self, key: VoxelKey) -> Seq<usize> {
        listed(self.roots@, key)
    }

    /// Whether the lists are in order, and name planes of the map.
    pub closed spec fn wf(&self) -> bool {
        &&& self.roots.wf()
        &&& forall|i: int|
            0 <= i < self.global@.len() ==> #[trigger] self.global@[i] < self.planes@.len()
        &&& forall|k: VoxelKey, i: int|
            0 <= i < listed(self.roots@, k).len() ==> #[trigger] listed(self.roots@, k)[i]
                < self.planes@.len()
    }

    /// A map of planes. A plane that is not large is listed in all root voxels that
    /// the cube around it touches.
    pub fn from_planes<P: Fn(Double, Double) -> Double, V: Fn(Double, Double) -> Double>(
        planes: Vec<VoxelPlane>,
        plus: &P,
        divide: &V,
    ) -> (m: PriorPlaneMap)
        requires
            binary(*plus),
            binary(*divide),
        ensures
            m.wf(),
            m.all() == planes@,
            m.everywhere() == large_planes(planes@, planes@.len() as int),
            forall|k: VoxelKey| #[trigger]
                m.local(k) == touching(
                    planes@,
                    extents(planes@, *plus, *divide),
                    k,
                    planes@.len() as int,
                ),
    {
        let mut spans: Vec<(VoxelKey, VoxelKey)> = Vec::new();
        let mut i: usize = 0;
        while i < planes.len()
            invariant
                i <= planes@.len(),
                binary(*plus),
                binary(*divide),
                spans@ == extents(planes@, *plus, *divide).take(i as int),
            decreases planes@.len() - i,
        {
            spans.push(plane_extent(&planes[i], plus, divide));
            assert(spans@ =~= extents(planes@, *plus, *divide).take(i + 1));
            i += 1;
        }
        assert(spans@ =~= extents(planes@, *plus, *divide));
        PriorPlaneMap::with_spans(planes, &spans)
    }

    /// A map of planes; `spans` holds for each the first and the last root voxel
    /// that it touches.
    fn with_spans(planes: Vec<VoxelPlane>, spans: &Vec<(VoxelKey, VoxelKey)>) -> (m: PriorPlaneMap)
        requires
            spans@.len() == planes@.len(),
        ensures
            m.wf(),
            m.all() == planes@,
            m.everywhere() == large_planes(planes@, planes@.len() as int),
            forall|k: VoxelKey| #[trigger]
                m.local(k) == touching(planes@, spans@, k, planes@.len() as int),
    {
        let mut roots: Table<VoxelKey, Vec<usize>> = Table::new();
        let mut global: Vec<usize> = Vec::new();
        let mut i: usize = 0;
        while i < planes.len()
            invariant
                i <= planes@.len(),
                spans@.len() == planes@.len(),
                roots.wf(),
                global@ == large_planes(planes@, i as int),
                forall|k: VoxelKey| #[trigger]
                    listed(roots@, k) == touching(planes@, spans@, k, i as int),
            decreases planes@.len() - i,
        {
            let ghost before = roots@;
            if (Double { bits: LARGE_PLANE_RADIUS }).lt(planes[i].radius) {
                global.push(i);
            } else {
                list_span(&mut roots, spans[i], i);
            }
            assert forall|k: VoxelKey| #[trigger] listed(roots@, k) == touching(
                planes@,
                spans@,
                k,
                i + 1,
            ) by {
                assert(listed(before, k) == touching(planes@, spans@, k, i as int));
            }
            i += 1;
        }
        proof {
            let n = planes@.len() as int;
            assert(planes.len() == n);
            lemma_large_in_range(planes@, n);
            assert forall|k: VoxelKey, q: int| 0 <= q < listed(roots@, k).len() implies #[trigger] listed(
                roots@,
                k,
            )[q] < n by {
                assert(listed(roots@, k) == touching(planes@, spans@, k, n));
                lemma_touching_in_range(planes@, spans@, k, n);
            }
        }
        PriorPlaneMap { roots, planes, global }
    }

    /// The number of planes.
    pub fn len(&self) -> (n: usize)
        ensures
            n == self.all().len(),
    {
        self.planes.len()
    }

    /// Whether there are no planes.
    pub fn is_empty(&self) -> (yes: bool)
        ensures
            yes == (self.all().len() == 0),
    {
        self.planes.len() == 0
    }

    /// The planes.
    pub fn planes(&self) -> (planes: &Vec<VoxelPlane>)
        ensures
            planes@ == self.all(),
    {
        &self.planes
    }

    /// The planes that a point may lie on: the large ones, then those that touch
    /// its root voxel.
    pub fn candidate_indices<V: Fn(Double, Double) -> Double>(
        &self,
        p: &[Double; 3],
        divide: &V,
    ) -> (list: Vec<usize>)
        requires
            self.wf(),
            binary(*divide),
        ensures
            list@ == self.everywhere() + self.local(prior_voxel(p@, *divide)),
            forall|i: int| 0 <= i < list@.len() ==> #[trigger] list@[i] < self.all().len(),
    {
        let key = VoxelKey::from_point(p, Double { bits: ROOT_SIZE }, divide);
        self.indices_in(&key)
    }

    /// The candidates themselves.
    pub fn candidates_at<V: Fn(Double, Double) -> Double>(
        &self,
        p: &[Double; 3],
        divide: &V,
    ) -> (list: Vec<&VoxelPlane>)
        requires
            self.wf(),
            binary(*divide),
        ensures
            ({
                let places = self.everywhere() + self.local(prior_voxel(p@, *divide));
                &&& list@.len() == places.len()
                &&& forall|i: int|
                    0 <= i < list@.len() ==> *(#[trigger] list@[i]) == self.all()[places[i] as int]
            }),
    {
        let key = VoxelKey::from_point(p, Double { bits: ROOT_SIZE }, divide);
        self.planes_in(&key)
    }

    /// The planes that a point in a root voxel may lie on: the large ones, then
    /// those that touch the voxel.
    pub fn indices_in(&self, key: &VoxelKey) -> (list: Vec<usize>)
        requires
            self.wf(),
        ensures
            list@ == self.everywhere() + self.local(*key),
            forall|i: int| 0 <= i < list@.len() ==> #[trigger] list@[i] < self.all().len(),
    {
        let mut list: Vec<usize> = Vec::new();
        let mut i: usize = 0;
        while i < self.global.len()
            invariant
                i <= self.global@.len(),
                list@ == self.global@.take(i as int),
            decreases self.global@.len() - i,
        {
            list.push(self.global[i]);
            assert(list@ =~= self.global@.take(i + 1));
            i += 1;
        }
        let ghost first = list@;
        assert(first =~= self.global@);
        if let Some(local) = self.roots.get(key) {
            let mut j: usize = 0;
            assert(list@ =~= first + local@.take(0));
            while j < local.len()
                invariant
                    j <= local@.len(),
                    list@ == first + local@.take(j as int),
                decreases local@.len() - j,
            {
                list.push(local[j]);
                assert(list@ =~= first + local@.take(j + 1));
                j += 1;
            }
            assert(local@.take(j as int) =~= local@);
        }
        assert(list@ =~= self.everywhere() + self.local(*key));
        proof {
            assert forall|k: int| 0 <= k < list@.len() implies #[trigger] list@[k] < self.all().len() by {
                if k < first.len() {
                    assert(self.global@[k] < self.planes@.len());
                } else {
                    assert(listed(self.roots@, *key)[k - first.len()] < self.planes@.len());
                }
            }
        }
        list
    }

    /// The planes that a point in a root voxel may lie on.
    pub fn planes_in(&self, key: &VoxelKey) -> (list: Vec<&VoxelPlane>)
        requires
            self.wf(),
        ensures
            list@.len() == self.everywhere().len() + self.local(*key).len(),
            forall|i: int|
                0 <= i < list@.len() ==> *(#[trigger] list@[i]) == self.all()[(self.everywhere()
                    + self.local(*key))[i] as int],
    {
        let places = self.indices_in(key);
        let mut list: Vec<&VoxelPlane> = Vec::new();
        let mut i: usize = 0;
        while i < places.len()
            invariant
                i <= places@.len(),
                list@.len() == i,
                forall|k: int| 0 <= k < places@.len() ==> #[trigger] places@[k] < self.all().len(),
                forall|k: int|
                    0 <= k < i ==> *(#[trigger] list@[k]) == self.all()[places@[k] as int],
            decreases places@.len() - i,
        {
            list.push(&self.planes[places[i]]);
            i += 1;
        }
        list
    }
}

/// Large planes are planes of the list.
proof fn lemma_large_in_range(planes: Seq<VoxelPlane>, n: int)
    requires
        0 <= n <= planes.len() <= usize::MAX,
    ensures
        forall|i: int|
            0 <= i < large_planes(planes, n).len() ==> #[trigger] large_planes(planes, n)[i] < n
                && large(planes[large_planes(planes, n)[i] as int]),
        forall|p: int| 0 <= p < n && large(planes[p]) ==> large_planes(planes, n).contains(p as usize),
    decreases n,
{
    if n > 0 {
        lemma_large_in_range(planes, n - 1);
        let rest = large_planes(planes, n - 1);
        let all = large_planes(planes, n);
        assert forall|i: int| 0 <= i < all.len() implies #[trigger] all[i] < n && large(
            planes[all[i] as int],
        ) by {
            if i < rest.len() {
                assert(all[i] == rest[i]);
            }
        }
        assert forall|p: int| 0 <= p < n && large(planes[p]) implies all.contains(p as usize) by {
            if p < n - 1 {
                assert(rest.contains(p as usize));
                let w = rest.index_of(p as usize);
                assert(all[w] == p as usize);
            } else {
                assert(all[all.len() - 1] == p as usize);
            }
        }
    }
}

/// Touching planes are small planes of the list whose spans cover the voxel.
proof fn lemma_touching_in_range(
    planes: Seq<VoxelPlane>,
    spans: Seq<(VoxelKey, VoxelKey)>,
    key: VoxelKey,
    n: int,
)
    requires
        0 <= n <= planes.len() <= usize::MAX,
        spans.len() == planes.len(),
    ensures
        forall|i: int|
            0 <= i < touching(planes, spans, key, n).len() ==> #[trigger] touching(
                planes,
                spans,
                key,
                n,
            )[i] < n && !large(planes[touching(planes, spans, key, n)[i] as int]) && covers(
                spans[touching(planes, spans, key, n)[i] as int],
                key,
            ),
        forall|p: int|
            0 <= p < n && !large(planes[p]) && covers(spans[p], key) ==> touching(
                planes,
                spans,
                key,
                n,
            ).contains(p as usize),
    decreases n,
{
    if n > 0 {
        lemma_touching_in_range(planes, spans, key, n - 1);
        let rest = touching(planes, spans, key, n - 1);
        let all = touching(planes, spans, key, n);
        assert forall|i: int| 0 <= i < all.len() implies #[trigger] all[i] < n && !large(
            planes[all[i] as int],
        ) && covers(spans[all[i] as int], key) by {
            if i < rest.len() {
                assert(all[i] == rest[i]);
            }
        }
        assert forall|p: int| 0 <= p < n && !large(planes[p]) && covers(spans[p], key) implies all.contains(
            p as usize,
        ) by {
            if p < n - 1 {
                assert(rest.contains(p as usize));
                let w = rest.index_of(p as usize);
                assert(all[w] == p as usize);
            } else {
                assert(all[all.len() - 1] == p as usize);
            }
        }
    }
}

/// A plane is a candidate in a root voxel exactly if it is large or touches the
/// voxel.
pub proof fn law_candidates_are_complete(
    planes: Seq<VoxelPlane>,
    spans: Seq<(VoxelKey, VoxelKey)>,
    key: VoxelKey,
    p: int,
)
    requires
        0 <= p < planes.len() <= usize::MAX,
        spans.len() == planes.len(),
    ensures
        (large_planes(planes, planes.len() as int) + touching(
            planes,
            spans,
            key,
            planes.len() as int,
        )).contains(p as usize) <==> large(planes[p]) || covers(spans[p], key),
{
    let n = planes.len() as int;
    let a = large_planes(planes, n);
    let b = touching(planes, spans, key, n);
    lemma_large_in_range(planes, n);
    lemma_touching_in_range(planes, spans, key, n);
    let c = a + b;
    if c.contains(p as usize) {
        let w = c.index_of(p as usize);
        if w < a.len() {
            assert(a[w] == p as usize);
        } else {
            assert(b[w - a.len()] == p as usize);
        }
    }
    if large(planes[p]) {
        assert(a.contains(p as usize));
        let w = a.index_of(p as usize);
        assert(c[w] == p as usize);
    } else if covers(spans[p], key) {
        assert(b.contains(p as usize));
        let w = b.index_of(p as usize);
        assert(c[a.len() + w] == p as usize);
    }
}

/// The large planes come in order.
proof fn lemma_large_ascends(planes: Seq<VoxelPlane>, n: int)
    requires
        0 <= n <= planes.len() <= usize::MAX,
    ensures
        large_planes(planes, n).no_duplicates(),
    decreases n,
{
    if n > 0 {
        lemma_large_ascends(planes, n - 1);
        lemma_large_in_range(planes, n - 1);
    }
}

/// The planes that touch a root voxel come in order.
proof fn lemma_touching_ascends(
    planes: Seq<VoxelPlane>,
    spans: Seq<(VoxelKey, VoxelKey)>,
    key: VoxelKey,
    n: int,
)
    requires
        0 <= n <= planes.len() <= usize::MAX,
        spans.len() == planes.len(),
    ensures
        touching(planes, spans, key, n).no_duplicates(),
    decreases n,
{
    if n > 0 {
        lemma_touching_ascends(planes, spans, key, n - 1);
        lemma_touching_in_range(planes, spans, key, n - 1);
    }
}

/// No plane is a candidate twice.
pub proof fn law_candidates_do_not_repeat(
    planes: Seq<VoxelPlane>,
    spans: Seq<(VoxelKey, VoxelKey)>,
    key: VoxelKey,
)
    requires
        planes.len() <= usize::MAX,
        spans.len() == planes.len(),
    ensures
        (large_planes(planes, planes.len() as int) + touching(
            planes,
            spans,
            key,
            planes.len() as int,
        )).no_duplicates(),
{
    let n = planes.len() as int;
    let a = large_planes(planes, n);
    let b = touching(planes, spans, key, n);
    lemma_large_ascends(planes, n);
    lemma_touching_ascends(planes, spans, key, n);
    lemma_large_in_range(planes, n);
    lemma_touching_in_range(planes, spans, key, n);
    let c = a + b;
    assert forall|i: int, j: int| 0 <= i < c.len() && 0 <= j < c.len() && i != j implies c[i] != c[j] by {
        if i < a.len() && j < a.len() {
            assert(a[i] != a[j]);
        } else if i >= a.len() && j >= a.len() {
            assert(b[i - a.len()] != b[j - a.len()]);
        } else if i < a.len() {
            assert(large(planes[a[i] as int]) && !large(planes[b[j - a.len()] as int]));
        } else {
            assert(large(planes[a[j] as int]) && !large(planes[b[i - a.len()] as int]));
        }
    }
}

/// A plane's span covers the root voxel of every point whose coordinates, divided by the
/// size of a voxel, lie between those of the ends of the span.
pub proof fn law_span_covers_its_points<
    P: Fn(Double, Double) -> Double,
    V: Fn(Double, Double) -> Double,
>(plane: VoxelPlane, p: Seq<Double>, plus: P, divide: V)
    requires
        forall|i: int|
            0 <= i < 3 ==> divides_in_order(
                of_two(plus, plane.center@[i], plane.radius.spec_neg()),
                #[trigger] p[i],
                divide,
            ) && divides_in_order(p[i], of_two(plus, plane.center@[i], plane.radius), divide),
    ensures
        covers(extent(plane, plus, divide), prior_voxel(p, divide)),
{
    let low = shifted(plane.center@, plane.radius.spec_neg(), plus);
    let high = shifted(plane.center@, plane.radius, plus);
    let size = Double { bits: ROOT_SIZE };
    assert forall|i: int| 0 <= i < 3 implies axis_index(low[i], size, divide) <= axis_index(
        #[trigger] p[i],
        size,
        divide,
    ) && axis_index(p[i], size, divide) <= axis_index(high[i], size, divide) by {
        assert(divides_in_order(low[i], p[i], divide));
        assert(divides_in_order(p[i], high[i], divide));
        law_rounding_down_is_monotone(of_two(divide, low[i], size), of_two(divide, p[i], size));
        law_rounding_down_is_monotone(of_two(divide, p[i], size), of_two(divide, high[i], size));
    }
    assert(p[0] == p[0] && p[1] == p[1] && p[2] == p[2]);
}

/// Whether two coordinates are in order once divided by the size of a root voxel.
pub open spec fn divides_in_order<V: Fn(Double, Double) -> Double>(
    a: Double,
    b: Double,
    divide: V,
) -> bool {
    of_two(divide, a, Double { bits: ROOT_SIZE }).spec_le(
        of_two(divide, b, Double { bits: ROOT_SIZE }),
    )
}

} // verus!
