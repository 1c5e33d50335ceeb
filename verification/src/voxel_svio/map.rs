//! The voxel map: which feature lies in which voxel, and when a voxel was last
//! in view.

use std::collections::HashMap;

use vstd::prelude::*;

use crate::arith::{apply_gauge, apply_two, binary, gauged, gauges, of_two};
use crate::double::{Double, MINUS_ONE_BITS};
use crate::table::{Key, Table};
use crate::voxel_svio::options::VoxelOptions;

verus! {

/// A voxel: the position in units of the voxel size, rounded towards zero.
#[derive(Clone, Copy, Debug, PartialEq, Eq, Structural)]
pub struct VoxelKey(pub i32, pub i32, pub i32);

impl Key for VoxelKey {
    fn same(&self, other: &VoxelKey) -> (yes: bool) {
        self.0 == other.0 && self.1 == other.1 && self.2 == other.2
    }
}

/// A point in a voxel.
#[derive(Clone, Copy, Debug)]
pub struct VoxelPoint {
    /// The feature's number.
    pub featid: usize,
    /// The position.
    pub position: [Double; 3],
}

/// The points of a voxel, and when it was last in view.
#[derive(Debug)]
pub struct VoxelBlock {
    /// The points, in the order in which they came.
    pub points: Vec<VoxelPoint>,
    /// The time of the last view; minus one before.
    pub last_visit: Double,
}

/// Why a change was refused.
#[derive(Clone, Copy, Debug, PartialEq, Eq, Structural)]
pub enum VoxelError {
    /// The map does not hold the feature.
    NotFound(usize),
}

/// The voxel map.
#[derive(Debug)]
pub struct VoxelMap {
    options: VoxelOptions,
    blocks: Table<VoxelKey, VoxelBlock>,
    index: HashMap<usize, VoxelKey>,
}

/// Whether a feature is among the points.
pub open spec fn holds(points: Seq<VoxelPoint>, featid: usize) -> bool {
    exists|i: int| 0 <= i < points.len() && (#[trigger] points[i]).featid == featid
}

/// Whether no feature occurs twice.
pub open spec fn unique_points(points: Seq<VoxelPoint>) -> bool {
    forall|i: int, j: int|
        0 <= i < j < points.len() ==> (#[trigger] points[i]).featid != (#[trigger] points[j]).featid
}

/// The points without a feature.
pub open spec fn without(points: Seq<VoxelPoint>, featid: usize) -> Seq<VoxelPoint>
    decreases points.len(),
{
    if points.len() == 0 {
        points
    } else if points.last().featid == featid {
        without(points.drop_last(), featid)
    } else {
        without(points.drop_last(), featid).push(points.last())
    }
}

/// The points with a feature at a new position.
pub open spec fn repositioned(
    points: Seq<VoxelPoint>,
    featid: usize,
    position: [Double; 3],
) -> Seq<VoxelPoint> {
    Seq::new(
        points.len(),
        |i: int|
            if points[i].featid == featid {
                VoxelPoint { featid, position }
            } else {
                points[i]
            },
    )
}

/// What is left without a feature is the rest, and nothing else.
proof fn lemma_without(points: Seq<VoxelPoint>, featid: usize)
    ensures
        without(points, featid).len() <= points.len(),
        !holds(without(points, featid), featid),
        forall|f: usize| f != featid ==> (holds(points, f) <==> holds(without(points, featid), f)),
        unique_points(points) ==> unique_points(without(points, featid)),
        forall|i: int|
            0 <= i < without(points, featid).len() ==> holds(
                points,
                (#[trigger] without(points, featid)[i]).featid,
            ),
    decreases points.len(),
{
    if points.len() > 0 {
        let head = points.drop_last();
        let last = points.last();
        let rest = without(head, featid);
        let all = without(points, featid);
        lemma_without(head, featid);
        assert forall|f: usize| f != featid implies (holds(points, f) <==> holds(all, f)) by {
            if holds(points, f) {
                let i = choose|i: int| 0 <= i < points.len() && (#[trigger] points[i]).featid == f;
                if i < head.len() {
                    assert(head[i].featid == f);
                    assert(holds(head, f));
                    assert(holds(rest, f));
                    let j = choose|j: int| 0 <= j < rest.len() && (#[trigger] rest[j]).featid == f;
                    assert(all[j] == rest[j]);
                } else {
                    assert(all[all.len() - 1].featid == f);
                }
            }
            if holds(all, f) {
                let j = choose|j: int| 0 <= j < all.len() && (#[trigger] all[j]).featid == f;
                if j < rest.len() {
                    assert(rest[j].featid == f);
                    assert(holds(head, f));
                    let i = choose|i: int| 0 <= i < head.len() && (#[trigger] head[i]).featid == f;
                    assert(points[i] == head[i]);
                } else {
                    assert(points[points.len() - 1].featid == f);
                }
            }
        }
        if holds(all, featid) {
            let j = choose|j: int| 0 <= j < all.len() && (#[trigger] all[j]).featid == featid;
            assert(j < rest.len());
            assert(rest[j].featid == featid);
        }
        if unique_points(points) {
            assert(unique_points(head)) by {
                assert forall|i: int, j: int| 0 <= i < j < head.len() implies (#[trigger] head[i]).featid
                    != (#[trigger] head[j]).featid by {
                    assert(points[i].featid != points[j].featid);
                }
            }
            assert forall|i: int, j: int| 0 <= i < j < all.len() implies (#[trigger] all[i]).featid
                != (#[trigger] all[j]).featid by {
                if j == rest.len() {
                    assert(rest[i] == all[i]);
                    assert(holds(head, rest[i].featid));
                    let q = choose|q: int|
                        0 <= q < head.len() && (#[trigger] head[q]).featid == rest[i].featid;
                    assert(points[q] == head[q]);
                    assert(points[q].featid != points[points.len() - 1].featid);
                } else {
                    assert(rest[i].featid != rest[j].featid);
                }
            }
        }
        assert forall|i: int| 0 <= i < all.len() implies holds(points, (#[trigger] all[i]).featid) by {
            if i < rest.len() {
                assert(holds(head, rest[i].featid));
                let q = choose|q: int|
                    0 <= q < head.len() && (#[trigger] head[q]).featid == rest[i].featid;
                assert(points[q] == head[q]);
            } else {
                assert(points[points.len() - 1] == last);
            }
        }
    }
}

/// Moving a point keeps the features.
proof fn lemma_repositioned(points: Seq<VoxelPoint>, featid: usize, position: [Double; 3])
    ensures
        forall|f: usize| holds(points, f) <==> holds(repositioned(points, featid, position), f),
        unique_points(points) ==> unique_points(repositioned(points, featid, position)),
{
    let after = repositioned(points, featid, position);
    assert(forall|i: int|
        0 <= i < points.len() ==> (#[trigger] after[i]).featid == points[i].featid);
    assert forall|f: usize| holds(points, f) <==> holds(after, f) by {
        if holds(points, f) {
            let i = choose|i: int| 0 <= i < points.len() && (#[trigger] points[i]).featid == f;
            assert(after[i].featid == f);
        }
        if holds(after, f) {
            let i = choose|i: int| 0 <= i < after.len() && (#[trigger] after[i]).featid == f;
            assert(points[i].featid == f);
        }
    }
}

/// The voxel of a position.
pub open spec fn cell<V: Fn(Double, Double) -> Double>(p: Seq<Double>, size: Double, divide: V) -> VoxelKey {
    VoxelKey(
        of_two(divide, p[0], size).i32_clamped() as i32,
        of_two(divide, p[1], size).i32_clamped() as i32,
        of_two(divide, p[2], size).i32_clamped() as i32,
    )
}

/// The voxels of positions.
pub open spec fn cells_of<V: Fn(Double, Double) -> Double>(
    positions: Seq<[Double; 3]>,
    size: Double,
    divide: V,
) -> Seq<VoxelKey> {
    Seq::new(positions.len(), |i: int| cell(positions[i]@, size, divide))
}

impl VoxelMap {
    /// The options.
    pub closed spec fn settings(&self) -> VoxelOptions {
        self.options
    }

    /// The voxels that have a block.
    pub closed spec fn voxels(&self) -> Set<VoxelKey> {
        self.blocks@.dom()
    }

    /// The voxel of each feature.
    pub closed spec fn hosts(&self) -> Map<usize, VoxelKey> {
        self.index@
    }

    /// The points of a voxel; none without a block.
    pub closed spec fn points(&self, key: VoxelKey) -> Seq<VoxelPoint> {
        if self.blocks@.dom().contains(key) {
            self.blocks@[key].points@
        } else {
            seq![]
        }
    }

    /// When a voxel was last in view.
    pub closed spec fn last_visit(&self, key: VoxelKey) -> Double {
        if self.blocks@.dom().contains(key) {
            self.blocks@[key].last_visit
        } else {
            Double { bits: MINUS_ONE_BITS }
        }
    }

    /// Whether options and tables are in order.
    closed spec fn tables_wf(&self) -> bool {
        self.options.neighbor_radius >= 0 && self.blocks.wf()
    }

    /// Whether each point lies in the voxel that the index gives for it, once, and
    /// each entry of the index has its point.
    pub closed spec fn wf(&self) -> bool {
        &&& self.tables_wf()
        &&& self.indexed()
    }

    /// Whether index and voxels agree.
    pub open spec fn indexed(&self) -> bool {
        &&& forall|f: usize|
            #![trigger self.hosts()[f]]
            self.hosts().dom().contains(f) ==> holds(self.points(self.hosts()[f]), f)
        &&& forall|k: VoxelKey, i: int|
            0 <= i < self.points(k).len() ==> self.hosts().dom().contains(
                (#[trigger] self.points(k)[i]).featid,
            ) && self.hosts()[self.points(k)[i].featid] == k
        &&& forall|k: VoxelKey| unique_points(#[trigger] self.points(k))
    }

    /// A map without points. A voxel size that is not positive and finite becomes
    /// 0.1, a negative radius zero.
    pub fn new(options: VoxelOptions) -> (m: VoxelMap)
        ensures
            m.wf(),
            m.hosts() == Map::<usize, VoxelKey>::empty(),
            m.voxels() == Set::<VoxelKey>::empty(),
            m.settings() == (VoxelOptions {
                voxel_size: if !options.voxel_size.spec_is_finite() || options.voxel_size.spec_le(
                    Double { bits: 0 },
                ) {
                    Double { bits: 0x3FB9_9999_9999_999A }
                } else {
                    options.voxel_size
                },
                neighbor_radius: if options.neighbor_radius < 0 {
                    0
                } else {
                    options.neighbor_radius
                },
                ..options
            }),
    {
        let mut options = options;
        if !options.voxel_size.is_finite() || options.voxel_size.le(Double::zero()) {
            options.voxel_size = VoxelOptions::default().voxel_size;
        }
        if options.neighbor_radius < 0 {
            options.neighbor_radius = 0;
        }
        VoxelMap { options, blocks: Table::new(), index: HashMap::new() }
    }

    /// The options.
    pub fn options(&self) -> (o: &VoxelOptions)
        ensures
            *o == self.settings(),
    {
        &self.options
    }

    /// The voxel of a position.
    pub fn key_of<V: Fn(Double, Double) -> Double>(&self, position: &[Double; 3], divide: &V) -> (key:
        VoxelKey)
        requires
            binary(*divide),
        ensures
            key == cell(position@, self.settings().voxel_size, *divide),
    {
        let size = self.options.voxel_size;
        VoxelKey(
            apply_two(divide, position[0], size).to_i32(),
            apply_two(divide, position[1], size).to_i32(),
            apply_two(divide, position[2], size).to_i32(),
        )
    }

    /// The number of features.
    pub fn num_points(&self) -> (n: usize)
        requires
            self.wf(),
        ensures
            self.hosts().dom().finite(),
            n == self.hosts().dom().len(),
    {
        self.index.len()
    }

    /// The number of voxels that hold a point.
    pub fn num_voxels(&self) -> (n: usize)
        requires
            self.wf(),
        ensures
            n == self.voxels().filter(|k: VoxelKey| self.points(k).len() > 0).len(),
    {
        let mut n: usize = 0;
        let mut i: usize = 0;
        let ghost mut seen: Set<VoxelKey> = Set::empty();
        let ghost keys = self.blocks.keys();
        let total: usize = self.blocks.len();
        while i < total
            invariant
                self.wf(),
                i <= total,
                total == keys.len(),
                keys == self.blocks.keys(),
                n <= i,
                n == seen.len(),
                seen.finite(),
                forall|k: VoxelKey|
                    seen.contains(k) <==> (exists|q: int|
                        0 <= q < i && #[trigger] keys[q] == k && self.points(k).len() > 0),
            decreases total - i,
        {
            let ghost key = keys[i as int];
            proof {
                self.blocks.lemma_row(i as int);
            }
            let ghost before = seen;
            if self.blocks.at(i).points.len() > 0 {
                proof {
                    assert(!seen.contains(key));
                    seen = seen.insert(key);
                }
                n += 1;
            }
            assert forall|k: VoxelKey|
                seen.contains(k) <==> (exists|q: int|
                    0 <= q < i + 1 && #[trigger] keys[q] == k && self.points(k).len() > 0) by {
                if seen.contains(k) {
                    if before.contains(k) {
                        let q = choose|q: int|
                            0 <= q < i && #[trigger] keys[q] == k && self.points(k).len() > 0;
                        assert(keys[q] == k);
                    } else {
                        assert(keys[i as int] == k);
                    }
                }
            }
            i += 1;
        }
        proof {
            let all = self.voxels().filter(|k: VoxelKey| self.points(k).len() > 0);
            assert forall|k: VoxelKey| seen.contains(k) <==> all.contains(k) by {
                if all.contains(k) {
                    assert(keys.contains(k));
                    let q = keys.index_of(k);
                    assert(keys[q] == k);
                }
                if seen.contains(k) {
                    let q = choose|q: int|
                        0 <= q < total && #[trigger] keys[q] == k && self.points(k).len() > 0;
                    self.blocks.lemma_row(q);
                }
            }
            assert(seen =~= all);
        }
        n
    }

    /// Whether the map holds a feature.
    pub fn contains(&self, featid: usize) -> (yes: bool)
        requires
            self.wf(),
        ensures
            yes == self.hosts().dom().contains(featid),
    {
        self.index.contains_key(&featid)
    }

    /// The points of a voxel.
    pub fn block_points(&self, key: VoxelKey) -> (points: Vec<VoxelPoint>)
        requires
            self.wf(),
        ensures
            points@ == self.points(key),
    {
        let mut points: Vec<VoxelPoint> = Vec::new();
        if let Some(block) = self.blocks.get(&key) {
            let mut i: usize = 0;
            while i < block.points.len()
                invariant
                    i <= block.points@.len(),
                    points@ == block.points@.take(i as int),
                decreases block.points@.len() - i,
            {
                points.push(block.points[i]);
                assert(points@ =~= block.points@.take(i + 1));
                i += 1;
            }
            assert(points@ =~= block.points@);
        }
        points
    }

    /// The place of a voxel's block, which is made where there is none.
    fn block_place(&mut self, key: VoxelKey) -> (i: usize)
        requires
            old(self).tables_wf(),
        ensures
            final(self).tables_wf(),
            final(self).options == old(self).options,
            final(self).index == old(self).index,
            i < final(self).blocks.keys().len(),
            final(self).blocks.keys()[i as int] == key,
            final(self).voxels() == old(self).voxels().insert(key),
            forall|k: VoxelKey| #[trigger] final(self).points(k) == old(self).points(k),
            forall|k: VoxelKey| #[trigger] final(self).last_visit(k) == old(self).last_visit(k),
    {
        match self.blocks.find(&key) {
            Some(i) => {
                assert(self.voxels() =~= old(self).voxels().insert(key));
                i
            },
            None => {
                let i: usize = self.blocks.len();
                self.blocks.push(
                    key,
                    VoxelBlock { points: Vec::new(), last_visit: Double::minus_one() },
                );
                assert(self.voxels() =~= old(self).voxels().insert(key));
                assert forall|k: VoxelKey| #[trigger] self.points(k) == old(self).points(k) by {
                    assert(self.points(k) =~= old(self).points(k));
                }
                i
            },
        }
    }

    /// Takes in a point, unless its voxel is full or a point of it is closer than
    /// allowed. A feature that the map holds already is moved instead. Tells
    /// whether the map holds the feature now. `square` gives the squared distance
    /// of two points.
    pub fn add_point<
        V: Fn(Double, Double) -> Double,
        T: Fn(Double, Double) -> Double,
        D: Fn([Double; 3], [Double; 3]) -> Double,
    >(&mut self, featid: usize, position: &[Double; 3], divide: &V, times: &T, square: &D) -> (held:
        bool)
        requires
            old(self).wf(),
            binary(*divide),
            binary(*times),
            gauges(*square),
        ensures
            final(self).wf(),
            final(self).settings() == old(self).settings(),
            ({
                let key = cell(position@, old(self).settings().voxel_size, *divide);
                let least = old(self).settings().min_point_distance;
                held == (old(self).hosts().dom().contains(featid) || (old(self).points(key).len()
                    < old(self).settings().max_points_per_voxel && forall|i: int|
                    0 <= i < old(self).points(key).len() ==> !gauged(
                        *square,
                        (#[trigger] old(self).points(key)[i]).position,
                        *position,
                    ).spec_lt(of_two(*times, least, least))))
            }),
            ({
                let key = cell(position@, old(self).settings().voxel_size, *divide);
                old(self).hosts().dom().contains(featid) ==> relocated(
                    old(self),
                    final(self),
                    featid,
                    *position,
                    key,
                )
            }),
            ({
                let key = cell(position@, old(self).settings().voxel_size, *divide);
                !old(self).hosts().dom().contains(featid) ==> {
                    &&& final(self).voxels() == old(self).voxels().insert(key)
                    &&& forall|k: VoxelKey| #[trigger]
                        final(self).last_visit(k) == old(self).last_visit(k)
                    &&& final(self).hosts() == (if held {
                        old(self).hosts().insert(featid, key)
                    } else {
                        old(self).hosts()
                    })
                    &&& forall|k: VoxelKey| #[trigger]
                        final(self).points(k) == (if held && k == key {
                            old(self).points(k).push(VoxelPoint { featid, position: *position })
                        } else {
                            old(self).points(k)
                        })
                }
            }),
    {
        let key = self.key_of(position, divide);
        let points = self.block_points(key);
        let mut near: Vec<Double> = Vec::new();
        let mut i: usize = 0;
        while i < points.len()
            invariant
                i <= points@.len(),
                gauges(*square),
                near@.len() == i,
                forall|k: int|
                    0 <= k < i ==> #[trigger] near@[k] == gauged(
                        *square,
                        points@[k].position,
                        *position,
                    ),
            decreases points@.len() - i,
        {
            near.push(apply_gauge(square, points[i].position, *position));
            i += 1;
        }
        let least = self.options.min_point_distance;
        let min_sq = apply_two(times, least, least);
        let ghost first = *self;
        let held = self.add_to(featid, *position, key, &near, min_sq);
        proof {
            let close = forall|i: int| 0 <= i < near@.len() ==> !(#[trigger] near@[i]).spec_lt(min_sq);
            let apart = forall|i: int|
                0 <= i < first.points(key).len() ==> !gauged(
                    *square,
                    (#[trigger] first.points(key)[i]).position,
                    *position,
                ).spec_lt(min_sq);
            if close {
                assert forall|i: int| 0 <= i < first.points(key).len() implies !gauged(
                    *square,
                    (#[trigger] first.points(key)[i]).position,
                    *position,
                ).spec_lt(min_sq) by {
                    assert(!near@[i].spec_lt(min_sq));
                }
            }
            if apart {
                assert forall|i: int| 0 <= i < near@.len() implies !(
                #[trigger] near@[i]).spec_lt(min_sq) by {
                    assert(near@[i] == gauged(*square, first.points(key)[i].position, *position));
                }
            }
            assert(close == apart);
        }
        held
    }

    /// Takes in a point of voxel `key`, unless the voxel is full or a point of it
    /// is closer than allowed. `near` holds the squared distances to the voxel's
    /// points, `min_sq` the least of them that is allowed. A feature that the map
    /// holds already is moved instead. Tells whether the map holds the feature now.
    fn add_to(
        &mut self,
        featid: usize,
        position: [Double; 3],
        key: VoxelKey,
        near: &Vec<Double>,
        min_sq: Double,
    ) -> (held: bool)
        requires
            old(self).wf(),
            near@.len() == old(self).points(key).len(),
        ensures
            final(self).wf(),
            final(self).settings() == old(self).settings(),
            held == (old(self).hosts().dom().contains(featid) || (old(self).points(key).len() < old(
                self,
            ).settings().max_points_per_voxel && forall|i: int|
                0 <= i < near@.len() ==> !(#[trigger] near@[i]).spec_lt(min_sq))),
            old(self).hosts().dom().contains(featid) ==> relocated(
                old(self),
                final(self),
                featid,
                position,
                key,
            ),
            !old(self).hosts().dom().contains(featid) ==> {
                &&& final(self).voxels() == old(self).voxels().insert(key)
                &&& forall|k: VoxelKey| #[trigger]
                    final(self).last_visit(k) == old(self).last_visit(k)
                &&& final(self).hosts() == (if held {
                    old(self).hosts().insert(featid, key)
                } else {
                    old(self).hosts()
                })
                &&& forall|k: VoxelKey| #[trigger]
                    final(self).points(k) == (if held && k == key {
                        old(self).points(k).push(VoxelPoint { featid, position })
                    } else {
                        old(self).points(k)
                    })
            },
    {
        if self.index.contains_key(&featid) {
            let _moved = self.move_to(featid, position, key);
            return true;
        }
        let ghost first = *self;
        let max: usize = self.options.max_points_per_voxel;
        let place: usize = self.block_place(key);
        let ghost mid = *self;
        proof {
            assert(self.points(key) == first.points(key));
            lemma_same_points(&first, &mid);
        }
        let block = self.blocks.at(place);
        if block.points.len() >= max || !all_apart(near, min_sq) {
            return false;
        }
        let point = VoxelPoint { featid, position };
        self.blocks.at_mut(place).points.push(point);
        self.index.insert(featid, key);
        proof {
            assert forall|k: VoxelKey| #[trigger] self.points(k) == (if k == key {
                first.points(k).push(point)
            } else {
                first.points(k)
            }) by {
                assert(mid.points(k) == first.points(k));
            }
            assert forall|k: VoxelKey| #[trigger] self.last_visit(k) == first.last_visit(k) by {
                assert(mid.last_visit(k) == first.last_visit(k));
            }
            assert(self.voxels() =~= first.voxels().insert(key));
            lemma_added(&first, self, featid, position, key);
        }
        true
    }

    /// Moves a feature to a position. In another voxel it comes last, however full
    /// that voxel is; a voxel without points loses its block.
    pub fn update_point<V: Fn(Double, Double) -> Double>(
        &mut self,
        featid: usize,
        position: &[Double; 3],
        divide: &V,
    ) -> (res: Result<(), VoxelError>)
        requires
            old(self).wf(),
            binary(*divide),
        ensures
            final(self).wf(),
            final(self).settings() == old(self).settings(),
            match res {
                Ok(_) => old(self).hosts().dom().contains(featid) && relocated(
                    old(self),
                    final(self),
                    featid,
                    *position,
                    cell(position@, old(self).settings().voxel_size, *divide),
                ),
                Err(e) => !old(self).hosts().dom().contains(featid) && e == VoxelError::NotFound(
                    featid,
                ) && *final(self) == *old(self),
            },
    {
        let key = self.key_of(position, divide);
        self.move_to(featid, *position, key)
    }

    /// Moves a feature to a position in voxel `key`.
    fn move_to(&mut self, featid: usize, position: [Double; 3], key: VoxelKey) -> (res:
        Result<(), VoxelError>)
        requires
            old(self).wf(),
        ensures
            final(self).wf(),
            final(self).settings() == old(self).settings(),
            match res {
                Ok(_) => old(self).hosts().dom().contains(featid) && relocated(
                    old(self),
                    final(self),
                    featid,
                    position,
                    key,
                ),
                Err(e) => !old(self).hosts().dom().contains(featid) && e == VoxelError::NotFound(
                    featid,
                ) && *final(self) == *old(self),
            },
    {
        let host: VoxelKey = match self.index.get(&featid) {
            Some(h) => *h,
            None => {
                return Err(VoxelError::NotFound(featid));
            },
        };
        let ghost first = *self;
        proof {
            assert(holds(first.points(first.hosts()[featid]), featid));
        }
        if host.same(&key) {
            let place: usize = match self.blocks.find(&host) {
                Some(place) => place,
                None => {
                    return Ok(());
                },
            };
            set_position(&mut self.blocks.at_mut(place).points, featid, position);
            proof {
                assert forall|k: VoxelKey| #[trigger] self.points(k) == (if k == key {
                    repositioned(first.points(k), featid, position)
                } else {
                    first.points(k)
                }) by {}
                assert(self.voxels() =~= first.voxels());
                assert(self.hosts() =~= first.hosts());
                lemma_moved_inside(&first, self, featid, position, key);
            }
            return Ok(());
        }
        self.take_out(featid, host);
        let ghost mid = *self;
        let place: usize = self.block_place(key);
        let ghost made = *self;
        let point = VoxelPoint { featid, position };
        self.blocks.at_mut(place).points.push(point);
        self.index.insert(featid, key);
        proof {
            assert forall|k: VoxelKey| #[trigger] self.points(k) == (if k == key {
                first.points(k).push(point)
            } else if k == host {
                without(first.points(k), featid)
            } else {
                first.points(k)
            }) by {
                assert(made.points(k) == mid.points(k));
            }
            assert forall|k: VoxelKey| #[trigger] self.last_visit(k) == (if k == host && without(
                first.points(k),
                featid,
            ).len() == 0 {
                Double { bits: MINUS_ONE_BITS }
            } else {
                first.last_visit(k)
            }) by {
                assert(made.last_visit(k) == mid.last_visit(k));
            }
            assert(self.hosts() =~= first.hosts().insert(featid, key));
            assert(self.voxels() =~= mid.voxels().insert(key));
            lemma_moved_across(&first, self, featid, position, host, key);
        }
        Ok(())
    }

    /// Takes a feature out of its voxel, and a block without points out of the map.
    fn take_out(&mut self, featid: usize, host: VoxelKey)
        requires
            old(self).tables_wf(),
        ensures
            final(self).tables_wf(),
            final(self).options == old(self).options,
            final(self).index == old(self).index,
            forall|k: VoxelKey| #[trigger]
                final(self).points(k) == (if k == host {
                    without(old(self).points(k), featid)
                } else {
                    old(self).points(k)
                }),
            forall|k: VoxelKey| #[trigger]
                final(self).last_visit(k) == (if k == host && without(
                    old(self).points(k),
                    featid,
                ).len() == 0 {
                    Double { bits: MINUS_ONE_BITS }
                } else {
                    old(self).last_visit(k)
                }),
            final(self).voxels() == (if without(old(self).points(host), featid).len() == 0 {
                old(self).voxels().remove(host)
            } else {
                old(self).voxels()
            }),
    {
        let ghost first = *self;
        if let Some(place) = self.blocks.find(&host) {
            retain_others(&mut self.blocks.at_mut(place).points, featid);
            let ghost mid = *self;
            assert(mid.blocks@.dom() =~= first.blocks@.dom());
            assert(mid.blocks@[host].points@ == without(first.points(host), featid));
            assert(mid.blocks@[host].last_visit == first.blocks@[host].last_visit);
            if self.blocks.at(place).points.len() == 0 {
                let _gone = self.blocks.remove_at(place);
                assert(self.blocks@ == mid.blocks@.remove(host));
                assert forall|k: VoxelKey| #[trigger] self.points(k) == (if k == host {
                    without(first.points(k), featid)
                } else {
                    first.points(k)
                }) by {
                    if k == host {
                        assert(self.points(k) =~= without(first.points(k), featid));
                    }
                }
                assert(self.voxels() =~= first.voxels().remove(host));
            } else {
                assert(self.voxels() =~= first.voxels());
            }
        } else {
            assert(self.points(host) =~= without(first.points(host), featid));
            assert(self.voxels() =~= first.voxels().remove(host));
        }
    }

    /// Removes a feature; a voxel without points loses its block.
    pub fn remove_point(&mut self, featid: usize) -> (res: Result<(), VoxelError>)
        requires
            old(self).wf(),
        ensures
            final(self).wf(),
            final(self).settings() == old(self).settings(),
            match res {
                Ok(_) => {
                    let host = old(self).hosts()[featid];
                    let rest = without(old(self).points(host), featid);
                    &&& old(self).hosts().dom().contains(featid)
                    &&& final(self).hosts() == old(self).hosts().remove(featid)
                    &&& final(self).voxels() == (if rest.len() == 0 {
                        old(self).voxels().remove(host)
                    } else {
                        old(self).voxels()
                    })
                    &&& forall|k: VoxelKey| #[trigger]
                        final(self).points(k) == (if k == host {
                            rest
                        } else {
                            old(self).points(k)
                        })
                    &&& forall|k: VoxelKey| #[trigger]
                        final(self).last_visit(k) == (if k == host && rest.len() == 0 {
                            Double { bits: MINUS_ONE_BITS }
                        } else {
                            old(self).last_visit(k)
                        })
                },
                Err(e) => !old(self).hosts().dom().contains(featid) && e == VoxelError::NotFound(
                    featid,
                ) && *final(self) == *old(self),
            },
    {
        let host: VoxelKey = match self.index.get(&featid) {
            Some(h) => *h,
            None => {
                return Err(VoxelError::NotFound(featid));
            },
        };
        let ghost first = *self;
        self.index.remove(&featid);
        self.take_out(featid, host);
        proof {
            assert(self.hosts() =~= first.hosts().remove(featid));
            lemma_removed(&first, self, featid);
        }
        Ok(())
    }

    /// The features of the listed voxels: the first of each, or all of them.
    pub fn select(&self, recent: &Vec<VoxelKey>) -> (ids: Vec<usize>)
        requires
            self.wf(),
        ensures
            ids@ == self.selected(recent@),
    {
        let mut ids: Vec<usize> = Vec::new();
        let mut i: usize = 0;
        assert(recent@.take(0) =~= Seq::<VoxelKey>::empty());
        while i < recent.len()
            invariant
                self.wf(),
                i <= recent@.len(),
                ids@ == self.selected(recent@.take(i as int)),
            decreases recent@.len() - i,
        {
            let ghost start = ids@;
            let ghost key = recent@[i as int];
            assert(recent@.take(i + 1).drop_last() =~= recent@.take(i as int));
            if let Some(block) = self.blocks.get(&recent[i]) {
                if self.options.use_all_points {
                    let mut j: usize = 0;
                    assert(ids@ =~= start + numbers(block.points@.take(0)));
                    while j < block.points.len()
                        invariant
                            j <= block.points@.len(),
                            ids@ == start + numbers(block.points@.take(j as int)),
                        decreases block.points@.len() - j,
                    {
                        ids.push(block.points[j].featid);
                        assert(ids@ =~= start + numbers(block.points@.take(j + 1)));
                        j += 1;
                    }
                    assert(block.points@.take(j as int) =~= self.points(key));
                } else if block.points.len() > 0 {
                    ids.push(block.points[0].featid);
                    assert(ids@ =~= start + numbers(self.points(key).take(1)));
                } else {
                    assert(ids@ =~= start + numbers(self.points(key)));
                }
            } else {
                assert(ids@ =~= start + numbers(self.points(key)));
            }
            assert(ids@ =~= start + self.chosen(key));
            i += 1;
        }
        assert(recent@.take(i as int) =~= recent@);
        ids
    }

    /// The features that one voxel gives.
    pub open spec fn chosen(&self, key: VoxelKey) -> Seq<usize> {
        if self.settings().use_all_points || self.points(key).len() == 0 {
            numbers(self.points(key))
        } else {
            numbers(self.points(key).take(1))
        }
    }

    /// The features that a list of voxels gives.
    pub open spec fn selected(&self, recent: Seq<VoxelKey>) -> Seq<usize>
        decreases recent.len(),
    {
        if recent.len() == 0 {
            seq![]
        } else {
            self.selected(recent.drop_last()) + self.chosen(recent.last())
        }
    }

    /// The voxels of a list that come into view at a time: those with points that
    /// were last in view earlier, each where it is first met.
    pub open spec fn hits(&self, keys: Seq<VoxelKey>, t: Double) -> Seq<VoxelKey>
        decreases keys.len(),
    {
        if keys.len() == 0 {
            seq![]
        } else {
            let rest = self.hits(keys.drop_last(), t);
            let key = keys.last();
            let visit = if rest.contains(key) {
                t
            } else {
                self.last_visit(key)
            };
            if self.points(key).len() > 0 && !t.spec_le(visit) {
                rest.push(key)
            } else {
                rest
            }
        }
    }

    /// The voxels around the given positions that come into view at `timestamp`.
    /// From then on they were last in view at that time.
    pub fn recent_voxels<V: Fn(Double, Double) -> Double>(
        &mut self,
        queries: &Vec<[Double; 3]>,
        timestamp: Double,
        divide: &V,
    ) -> (recent: Vec<VoxelKey>)
        requires
            old(self).wf(),
            binary(*divide),
        ensures
            final(self).wf(),
            final(self).settings() == old(self).settings(),
            final(self).hosts() == old(self).hosts(),
            final(self).voxels() == old(self).voxels(),
            forall|k: VoxelKey| #[trigger] final(self).points(k) == old(self).points(k),
            recent@ == old(self).hits(
                surroundings(
                    cells_of(queries@, old(self).settings().voxel_size, *divide),
                    old(self).settings().neighbor_radius as int,
                ),
                timestamp,
            ),
            forall|k: VoxelKey| #[trigger]
                final(self).last_visit(k) == (if recent@.contains(k) {
                    timestamp
                } else {
                    old(self).last_visit(k)
                }),
    {
        let mut centers: Vec<VoxelKey> = Vec::new();
        let mut i: usize = 0;
        while i < queries.len()
            invariant
                i <= queries@.len(),
                binary(*divide),
                centers@ == cells_of(queries@, self.settings().voxel_size, *divide).take(i as int),
            decreases queries@.len() - i,
        {
            centers.push(self.key_of(&queries[i], divide));
            assert(centers@ =~= cells_of(queries@, self.settings().voxel_size, *divide).take(i + 1));
            i += 1;
        }
        assert(centers@ =~= cells_of(queries@, self.settings().voxel_size, *divide));
        self.look_around(&centers, timestamp)
    }

    /// The voxels around the given ones that come into view at `timestamp`.
    fn look_around(&mut self, centers: &Vec<VoxelKey>, timestamp: Double) -> (recent: Vec<
        VoxelKey,
    >)
        requires
            old(self).wf(),
        ensures
            final(self).wf(),
            final(self).settings() == old(self).settings(),
            final(self).hosts() == old(self).hosts(),
            final(self).voxels() == old(self).voxels(),
            forall|k: VoxelKey| #[trigger] final(self).points(k) == old(self).points(k),
            recent@ == old(self).hits(
                surroundings(centers@, old(self).settings().neighbor_radius as int),
                timestamp,
            ),
            forall|k: VoxelKey| #[trigger]
                final(self).last_visit(k) == (if recent@.contains(k) {
                    timestamp
                } else {
                    old(self).last_visit(k)
                }),
    {
        let mut recent: Vec<VoxelKey> = Vec::new();
        let r: i64 = self.options.neighbor_radius as i64;
        let ghost radius = r as int;
        let ghost mut done: Seq<VoxelKey> = Seq::empty();
        let mut q: usize = 0;
        assert(centers@.take(0) =~= Seq::<VoxelKey>::empty());
        while q < centers.len()
            invariant
                q <= centers@.len(),
                0 <= r <= i32::MAX,
                radius == r,
                done == surroundings(centers@.take(q as int), radius),
                self.viewed(old(self), recent@, done, timestamp),
            decreases centers@.len() - q,
        {
            let center = centers[q];
            let ghost before_x = done;
            assert(done =~= before_x + slabs(center, radius, 0));
            let mut dx: i64 = -r;
            while dx <= r
                invariant
                    0 <= r <= i32::MAX,
                    radius == r,
                    -r <= dx <= r + 1,
                    done == before_x + slabs(center, radius, dx + r),
                    self.viewed(old(self), recent@, done, timestamp),
                decreases r + 1 - dx,
            {
                let ghost before_y = done;
                assert(done =~= before_y + columns(center, radius, dx as int, 0));
                let mut dy: i64 = -r;
                while dy <= r
                    invariant
                        0 <= r <= i32::MAX,
                        radius == r,
                        -r <= dx <= r,
                        -r <= dy <= r + 1,
                        done == before_y + columns(center, radius, dx as int, dy + r),
                        self.viewed(old(self), recent@, done, timestamp),
                    decreases r + 1 - dy,
                {
                    let ghost before_z = done;
                    assert(done =~= before_z + cells(center, radius, dx as int, dy as int, 0));
                    let mut dz: i64 = -r;
                    while dz <= r
                        invariant
                            0 <= r <= i32::MAX,
                            radius == r,
                            -r <= dx <= r,
                            -r <= dy <= r,
                            -r <= dz <= r + 1,
                            done == before_z + cells(center, radius, dx as int, dy as int, dz + r),
                            self.viewed(old(self), recent@, done, timestamp),
                        decreases r + 1 - dz,
                    {
                        let key = VoxelKey(
                            offset(center.0, dx),
                            offset(center.1, dy),
                            offset(center.2, dz),
                        );
                        self.visit(&mut recent, key, timestamp, Ghost(*old(self)), Ghost(done));
                        proof {
                            done = done.push(key);
                            assert(done =~= before_z + cells(
                                center,
                                radius,
                                dx as int,
                                dy as int,
                                dz + 1 + r,
                            ));
                        }
                        dz += 1;
                    }
                    assert(done =~= before_y + columns(center, radius, dx as int, dy + 1 + r));
                    dy += 1;
                }
                assert(done =~= before_x + slabs(center, radius, dx + 1 + r));
                dx += 1;
            }
            assert(centers@.take(q + 1).drop_last() =~= centers@.take(q as int));
            q += 1;
        }
        assert(centers@.take(q as int) =~= centers@);
        recent
    }

    /// Whether the map is `first` after the listed voxels were looked at.
    closed spec fn viewed(
        &self,
        first: &VoxelMap,
        recent: Seq<VoxelKey>,
        done: Seq<VoxelKey>,
        t: Double,
    ) -> bool {
        &&& self.wf()
        &&& self.options == first.options
        &&& self.index == first.index
        &&& self.voxels() == first.voxels()
        &&& forall|k: VoxelKey| #[trigger] self.points(k) == first.points(k)
        &&& recent == first.hits(done, t)
        &&& forall|k: VoxelKey| #[trigger]
            self.last_visit(k) == (if recent.contains(k) {
                t
            } else {
                first.last_visit(k)
            })
    }

    /// Looks at one voxel.
    fn visit(
        &mut self,
        recent: &mut Vec<VoxelKey>,
        key: VoxelKey,
        t: Double,
        Ghost(first): Ghost<VoxelMap>,
        Ghost(done): Ghost<Seq<VoxelKey>>,
    )
        requires
            old(self).viewed(&first, old(recent)@, done, t),
        ensures
            final(self).viewed(&first, final(recent)@, done.push(key), t),
    {
        let ghost before = *self;
        assert(done.push(key).drop_last() =~= done);
        let place: usize = match self.blocks.find(&key) {
            Some(place) => place,
            None => {
                assert(before.points(key) == first.points(key));
                return;
            },
        };
        proof {
            assert(before.points(key) == first.points(key));
            assert(before.last_visit(key) == (if recent@.contains(key) {
                t
            } else {
                first.last_visit(key)
            }));
        }
        let block = self.blocks.at(place);
        if block.points.len() == 0 || t.le(block.last_visit) {
            return;
        }
        self.blocks.at_mut(place).last_visit = t;
        recent.push(key);
        proof {
            assert(self.voxels() =~= before.voxels());
            assert forall|k: VoxelKey| #[trigger] self.points(k) == before.points(k) by {}
            lemma_same_points(&before, self);
            let now = old(recent)@.push(key);
            assert forall|k: VoxelKey| #[trigger] self.last_visit(k) == (if now.contains(k) {
                t
            } else {
                first.last_visit(k)
            }) by {
                assert(before.last_visit(k) == (if old(recent)@.contains(k) {
                    t
                } else {
                    first.last_visit(k)
                }));
                assert(now[now.len() - 1] == key);
                if old(recent)@.contains(k) {
                    let w = old(recent)@.index_of(k);
                    assert(now[w] == k);
                }
            }
        }
    }
}

/// The features' numbers.
pub open spec fn numbers(points: Seq<VoxelPoint>) -> Seq<usize> {
    Seq::new(points.len(), |i: int| points[i].featid)
}

/// A coordinate moved by an offset, within its type.
pub open spec fn moved(c: i32, d: int) -> i32 {
    if c + d > i32::MAX {
        i32::MAX
    } else if c + d < i32::MIN {
        i32::MIN
    } else {
        (c + d) as i32
    }
}

/// A coordinate moved by an offset, within its type.
fn offset(c: i32, d: i64) -> (m: i32)
    requires
        -0x8000_0000 <= d <= 0x7FFF_FFFF,
    ensures
        m == moved(c, d as int),
{
    let sum: i64 = c as i64 + d;
    if sum > i32::MAX as i64 {
        i32::MAX
    } else if sum < i32::MIN as i64 {
        i32::MIN
    } else {
        sum as i32
    }
}

/// The first `n` cells of a column of the neighbourhood, from the lowest up.
pub open spec fn cells(center: VoxelKey, r: int, dx: int, dy: int, n: int) -> Seq<VoxelKey>
    decreases n,
{
    if n <= 0 {
        seq![]
    } else {
        cells(center, r, dx, dy, n - 1).push(
            VoxelKey(moved(center.0, dx), moved(center.1, dy), moved(center.2, n - 1 - r)),
        )
    }
}

/// The first `n` columns of a slab of the neighbourhood.
pub open spec fn columns(center: VoxelKey, r: int, dx: int, n: int) -> Seq<VoxelKey>
    decreases n,
{
    if n <= 0 {
        seq![]
    } else {
        columns(center, r, dx, n - 1) + cells(center, r, dx, n - 1 - r, 2 * r + 1)
    }
}

/// The first `n` slabs of the neighbourhood of a voxel.
pub open spec fn slabs(center: VoxelKey, r: int, n: int) -> Seq<VoxelKey>
    decreases n,
{
    if n <= 0 {
        seq![]
    } else {
        slabs(center, r, n - 1) + columns(center, r, n - 1 - r, 2 * r + 1)
    }
}

/// The neighbourhoods of the given voxels, one after another.
pub open spec fn surroundings(centers: Seq<VoxelKey>, r: int) -> Seq<VoxelKey>
    decreases centers.len(),
{
    if centers.len() == 0 {
        seq![]
    } else {
        surroundings(centers.drop_last(), r) + slabs(centers.last(), r, 2 * r + 1)
    }
}

/// Whether `after` is `before` with a feature moved to a position in voxel `key`.
pub open spec fn relocated(
    before: &VoxelMap,
    after: &VoxelMap,
    featid: usize,
    position: [Double; 3],
    key: VoxelKey,
) -> bool {
    let host = before.hosts()[featid];
    let rest = without(before.points(host), featid);
    &&& after.hosts() == before.hosts().insert(featid, key)
    &&& forall|k: VoxelKey| #[trigger]
        after.points(k) == (if host == key {
            if k == key {
                repositioned(before.points(k), featid, position)
            } else {
                before.points(k)
            }
        } else if k == key {
            before.points(k).push(VoxelPoint { featid, position })
        } else if k == host {
            rest
        } else {
            before.points(k)
        })
    &&& after.voxels() == (if host == key {
        before.voxels()
    } else if rest.len() == 0 {
        before.voxels().remove(host).insert(key)
    } else {
        before.voxels().insert(key)
    })
    &&& forall|k: VoxelKey| #[trigger]
        after.last_visit(k) == (if k == host && host != key && rest.len() == 0 {
            Double { bits: MINUS_ONE_BITS }
        } else {
            before.last_visit(k)
        })
}

/// Gives a feature among the points a new position.
fn set_position(points: &mut Vec<VoxelPoint>, featid: usize, position: [Double; 3])
    requires
        unique_points(old(points)@),
    ensures
        final(points)@ == repositioned(old(points)@, featid, position),
{
    let ghost first = points@;
    let mut i: usize = 0;
    while i < points.len()
        invariant
            i <= points@.len(),
            points@ == first,
            unique_points(first),
            first == old(points)@,
            forall|k: int| 0 <= k < i ==> (#[trigger] first[k]).featid != featid,
        decreases points@.len() - i,
    {
        if points[i].featid == featid {
            points.set(i, VoxelPoint { featid, position });
            assert(points@ =~= repositioned(first, featid, position)) by {
                assert forall|k: int| i < k < first.len() implies (#[trigger] first[k]).featid
                    != featid by {
                    assert(first[i as int].featid != first[k].featid);
                }
            }
            return;
        }
        i += 1;
    }
    assert(points@ =~= repositioned(first, featid, position));
}

/// Drops a feature from the points.
fn retain_others(points: &mut Vec<VoxelPoint>, featid: usize)
    ensures
        final(points)@ == without(old(points)@, featid),
{
    let n: usize = points.len();
    let ghost first = points@;
    let mut i: usize = 0;
    let mut k: usize = 0;
    assert(points@ =~= without(first.take(0), featid) + first.skip(0));
    while k < n
        invariant
            k <= n,
            n == first.len(),
            i <= k,
            i == without(first.take(k as int), featid).len(),
            points@ == without(first.take(k as int), featid) + first.skip(k as int),
        decreases n - k,
    {
        let ghost done = without(first.take(k as int), featid);
        let ghost rest = first.skip(k as int);
        assert(rest[0] == first[k as int]);
        assert(rest.skip(1) =~= first.skip(k + 1));
        assert(first.take(k + 1).drop_last() =~= first.take(k as int));
        assert(points@[i as int] == first[k as int]);
        if points[i].featid == featid {
            let _gone = points.remove(i);
            assert(points@ =~= done + rest.skip(1));
        } else {
            assert(points@ =~= done.push(rest[0]) + rest.skip(1));
            i += 1;
        }
        k += 1;
    }
    assert(first.take(n as int) =~= first);
    assert(points@ =~= without(first, featid));
}

/// Whether no squared distance is less than `min_sq`.
fn all_apart(near: &Vec<Double>, min_sq: Double) -> (yes: bool)
    ensures
        yes == (forall|i: int| 0 <= i < near@.len() ==> !(#[trigger] near@[i]).spec_lt(min_sq)),
{
    let mut i: usize = 0;
    while i < near.len()
        invariant
            i <= near@.len(),
            forall|k: int| 0 <= k < i ==> !(#[trigger] near@[k]).spec_lt(min_sq),
        decreases near@.len() - i,
    {
        if near[i].lt(min_sq) {
            assert(near@[i as int].spec_lt(min_sq));
            return false;
        }
        i += 1;
    }
    true
}

/// Index and voxels agree as long as neither changes.
proof fn lemma_same_points(before: &VoxelMap, after: &VoxelMap)
    requires
        before.indexed(),
        after.hosts() == before.hosts(),
        forall|k: VoxelKey| #[trigger] after.points(k) == before.points(k),
    ensures
        after.indexed(),
{
    assert forall|f: usize|
        #![trigger after.hosts()[f]]
        after.hosts().dom().contains(f) implies holds(after.points(after.hosts()[f]), f) by {
        assert(holds(before.points(before.hosts()[f]), f));
    }
    assert forall|k: VoxelKey, i: int| 0 <= i < after.points(k).len() implies after.hosts().dom().contains(
        (#[trigger] after.points(k)[i]).featid,
    ) && after.hosts()[after.points(k)[i].featid] == k by {
        assert(after.points(k)[i] == before.points(k)[i]);
    }
    assert forall|k: VoxelKey| unique_points(#[trigger] after.points(k)) by {
        assert(unique_points(before.points(k)));
    }
}

/// Index and voxels agree after a point was added.
proof fn lemma_added(
    before: &VoxelMap,
    after: &VoxelMap,
    featid: usize,
    position: [Double; 3],
    key: VoxelKey,
)
    requires
        before.indexed(),
        !before.hosts().dom().contains(featid),
        after.hosts() == before.hosts().insert(featid, key),
        forall|k: VoxelKey| #[trigger]
            after.points(k) == (if k == key {
                before.points(k).push(VoxelPoint { featid, position })
            } else {
                before.points(k)
            }),
    ensures
        after.indexed(),
{
    let old_points = before.points(key);
    assert forall|f: usize|
        #![trigger after.hosts()[f]]
        after.hosts().dom().contains(f) implies holds(after.points(after.hosts()[f]), f) by {
        let k = after.hosts()[f];
        if f == featid {
            assert(after.points(k)[old_points.len() as int].featid == f);
        } else {
            assert(holds(before.points(before.hosts()[f]), f));
            let i = choose|i: int|
                0 <= i < before.points(k).len() && (#[trigger] before.points(k)[i]).featid == f;
            assert(after.points(k)[i].featid == f);
        }
    }
    assert forall|k: VoxelKey, i: int| 0 <= i < after.points(k).len() implies after.hosts().dom().contains(
        (#[trigger] after.points(k)[i]).featid,
    ) && after.hosts()[after.points(k)[i].featid] == k by {
        if i < before.points(k).len() {
            assert(after.points(k)[i] == before.points(k)[i]);
        }
    }
    assert forall|k: VoxelKey| unique_points(#[trigger] after.points(k)) by {
        assert(unique_points(before.points(k)));
        if k == key {
            assert forall|i: int, j: int| 0 <= i < j < after.points(k).len() implies (
            #[trigger] after.points(k)[i]).featid != (#[trigger] after.points(k)[j]).featid by {
                assert(before.points(k)[i] == after.points(k)[i]);
                assert(before.hosts().dom().contains(before.points(k)[i].featid));
                if j < before.points(k).len() {
                    assert(before.points(k)[j] == after.points(k)[j]);
                }
            }
        }
    }
}

/// Index and voxels agree after a point was moved inside its voxel.
proof fn lemma_moved_inside(
    before: &VoxelMap,
    after: &VoxelMap,
    featid: usize,
    position: [Double; 3],
    key: VoxelKey,
)
    requires
        before.indexed(),
        before.hosts().dom().contains(featid),
        before.hosts()[featid] == key,
        after.hosts() == before.hosts(),
        forall|k: VoxelKey| #[trigger]
            after.points(k) == (if k == key {
                repositioned(before.points(k), featid, position)
            } else {
                before.points(k)
            }),
    ensures
        after.indexed(),
        after.hosts() == before.hosts().insert(featid, key),
{
    lemma_repositioned(before.points(key), featid, position);
    assert(after.hosts() =~= before.hosts().insert(featid, key));
    assert forall|f: usize|
        #![trigger after.hosts()[f]]
        after.hosts().dom().contains(f) implies holds(after.points(after.hosts()[f]), f) by {
        assert(holds(before.points(before.hosts()[f]), f));
    }
    assert forall|k: VoxelKey, i: int| 0 <= i < after.points(k).len() implies after.hosts().dom().contains(
        (#[trigger] after.points(k)[i]).featid,
    ) && after.hosts()[after.points(k)[i].featid] == k by {
        assert(after.points(k)[i].featid == before.points(k)[i].featid);
    }
    assert forall|k: VoxelKey| unique_points(#[trigger] after.points(k)) by {
        assert(unique_points(before.points(k)));
    }
}

/// Index and voxels agree after a point was moved to another voxel.
proof fn lemma_moved_across(
    before: &VoxelMap,
    after: &VoxelMap,
    featid: usize,
    position: [Double; 3],
    host: VoxelKey,
    key: VoxelKey,
)
    requires
        before.indexed(),
        before.hosts().dom().contains(featid),
        before.hosts()[featid] == host,
        host != key,
        after.hosts() == before.hosts().insert(featid, key),
        forall|k: VoxelKey| #[trigger]
            after.points(k) == (if k == key {
                before.points(k).push(VoxelPoint { featid, position })
            } else if k == host {
                without(before.points(k), featid)
            } else {
                before.points(k)
            }),
    ensures
        after.indexed(),
{
    lemma_without(before.points(host), featid);
    assert forall|f: usize|
        #![trigger after.hosts()[f]]
        after.hosts().dom().contains(f) implies holds(after.points(after.hosts()[f]), f) by {
        let k = after.hosts()[f];
        if f == featid {
            assert(after.points(k)[before.points(k).len() as int].featid == f);
        } else {
            assert(holds(before.points(before.hosts()[f]), f));
            if k == key {
                let i = choose|i: int|
                    0 <= i < before.points(k).len() && (#[trigger] before.points(k)[i]).featid == f;
                assert(after.points(k)[i].featid == f);
            }
        }
    }
    assert forall|k: VoxelKey, i: int| 0 <= i < after.points(k).len() implies after.hosts().dom().contains(
        (#[trigger] after.points(k)[i]).featid,
    ) && after.hosts()[after.points(k)[i].featid] == k by {
        let f = after.points(k)[i].featid;
        if k == host {
            assert(holds(before.points(host), without(before.points(host), featid)[i].featid));
            let q = choose|q: int|
                0 <= q < before.points(host).len() && (#[trigger] before.points(host)[q]).featid == f;
            assert(before.hosts()[before.points(host)[q].featid] == host);
            if f == featid {
                assert(holds(without(before.points(host), featid), featid));
            }
        } else if i < before.points(k).len() {
            assert(after.points(k)[i] == before.points(k)[i]);
            assert(before.hosts()[before.points(k)[i].featid] == k);
        }
    }
    assert forall|k: VoxelKey| unique_points(#[trigger] after.points(k)) by {
        assert(unique_points(before.points(k)));
        if k == key {
            assert forall|i: int, j: int| 0 <= i < j < after.points(k).len() implies (
            #[trigger] after.points(k)[i]).featid != (#[trigger] after.points(k)[j]).featid by {
                assert(before.points(k)[i] == after.points(k)[i]);
                assert(before.hosts()[before.points(k)[i].featid] == k);
                if j < before.points(k).len() {
                    assert(before.points(k)[j] == after.points(k)[j]);
                }
            }
        }
    }
}

/// Index and voxels agree after a feature was removed.
proof fn lemma_removed(before: &VoxelMap, after: &VoxelMap, featid: usize)
    requires
        before.indexed(),
        before.hosts().dom().contains(featid),
        after.hosts() == before.hosts().remove(featid),
        forall|k: VoxelKey| #[trigger]
            after.points(k) == (if k == before.hosts()[featid] {
                without(before.points(k), featid)
            } else {
                before.points(k)
            }),
    ensures
        after.indexed(),
{
    let host = before.hosts()[featid];
    lemma_without(before.points(host), featid);
    assert forall|f: usize|
        #![trigger after.hosts()[f]]
        after.hosts().dom().contains(f) implies holds(after.points(after.hosts()[f]), f) by {
        assert(holds(before.points(before.hosts()[f]), f));
    }
    assert forall|k: VoxelKey, i: int| 0 <= i < after.points(k).len() implies after.hosts().dom().contains(
        (#[trigger] after.points(k)[i]).featid,
    ) && after.hosts()[after.points(k)[i].featid] == k by {
        let f = after.points(k)[i].featid;
        if k == host {
            assert(holds(before.points(host), without(before.points(host), featid)[i].featid));
            let q = choose|q: int|
                0 <= q < before.points(host).len() && (#[trigger] before.points(host)[q]).featid == f;
            assert(before.hosts()[before.points(host)[q].featid] == host);
            if f == featid {
                assert(holds(without(before.points(host), featid), featid));
            }
        } else {
            assert(before.hosts()[before.points(k)[i].featid] == k);
        }
    }
    assert forall|k: VoxelKey| unique_points(#[trigger] after.points(k)) by {
        assert(unique_points(before.points(k)));
    }
}

/// A feature lies in one voxel at most.
pub proof fn law_feature_lies_in_one_voxel(m: &VoxelMap, featid: usize, a: VoxelKey, b: VoxelKey)
    requires
        m.wf(),
        holds(m.points(a), featid),
        holds(m.points(b), featid),
    ensures
        a == b,
        m.hosts().dom().contains(featid),
        m.hosts()[featid] == a,
{
    let i = choose|i: int| 0 <= i < m.points(a).len() && (#[trigger] m.points(a)[i]).featid == featid;
    let j = choose|j: int| 0 <= j < m.points(b).len() && (#[trigger] m.points(b)[j]).featid == featid;
    assert(m.hosts()[m.points(a)[i].featid] == a);
    assert(m.hosts()[m.points(b)[j].featid] == b);
}

/// At one time no voxel comes into view twice.
pub proof fn law_hits_do_not_repeat(m: &VoxelMap, keys: Seq<VoxelKey>, t: Double)
    requires
        !t.spec_is_nan(),
    ensures
        m.hits(keys, t).no_duplicates(),
    decreases keys.len(),
{
    if keys.len() > 0 {
        law_hits_do_not_repeat(m, keys.drop_last(), t);
    }
}

/// Looking again at the same time shows nothing: every voxel with points that a
/// list names has been in view.
pub proof fn law_second_look_is_empty(
    before: &VoxelMap,
    after: &VoxelMap,
    keys: Seq<VoxelKey>,
    t: Double,
)
    requires
        !t.spec_is_nan(),
        forall|k: VoxelKey| #[trigger] after.points(k) == before.points(k),
        forall|k: VoxelKey| #[trigger]
            after.last_visit(k) == (if before.hits(keys, t).contains(k) {
                t
            } else {
                before.last_visit(k)
            }),
    ensures
        after.hits(keys, t).len() == 0,
{
    lemma_hits_complete(before, keys, t);
    lemma_no_hits(before, after, keys, keys.len() as int, t);
}

/// A voxel of the list that is not hit has no points or was in view already.
proof fn lemma_hits_complete(m: &VoxelMap, keys: Seq<VoxelKey>, t: Double)
    ensures
        forall|i: int|
            0 <= i < keys.len() ==> m.hits(keys, t).contains(#[trigger] keys[i]) || m.points(
                keys[i],
            ).len() == 0 || t.spec_le(m.last_visit(keys[i])),
    decreases keys.len(),
{
    if keys.len() > 0 {
        let head = keys.drop_last();
        let rest = m.hits(head, t);
        let all = m.hits(keys, t);
        lemma_hits_complete(m, head, t);
        assert forall|i: int| 0 <= i < keys.len() implies all.contains(#[trigger] keys[i]) || m.points(
            keys[i],
        ).len() == 0 || t.spec_le(m.last_visit(keys[i])) by {
            if i < head.len() {
                assert(head[i] == keys[i]);
                if rest.contains(keys[i]) {
                    let w = rest.index_of(keys[i]);
                    assert(all[w] == keys[i]);
                }
            } else if rest.contains(keys[i]) {
                let w = rest.index_of(keys[i]);
                assert(all[w] == keys[i]);
            } else if m.points(keys[i]).len() > 0 && !t.spec_le(m.last_visit(keys[i])) {
                assert(all[all.len() - 1] == keys[i]);
            }
        }
    }
}

/// After a look the first `n` voxels show nothing new.
proof fn lemma_no_hits(before: &VoxelMap, after: &VoxelMap, keys: Seq<VoxelKey>, n: int, t: Double)
    requires
        !t.spec_is_nan(),
        0 <= n <= keys.len(),
        forall|k: VoxelKey| #[trigger] after.points(k) == before.points(k),
        forall|k: VoxelKey| #[trigger]
            after.last_visit(k) == (if before.hits(keys, t).contains(k) {
                t
            } else {
                before.last_visit(k)
            }),
        forall|i: int|
            0 <= i < keys.len() ==> before.hits(keys, t).contains(#[trigger] keys[i])
                || before.points(keys[i]).len() == 0 || t.spec_le(before.last_visit(keys[i])),
    ensures
        after.hits(keys.take(n), t).len() == 0,
        n == keys.len() ==> after.hits(keys, t).len() == 0,
    decreases n,
{
    if n > 0 {
        lemma_no_hits(before, after, keys, n - 1, t);
        assert(keys.take(n).drop_last() =~= keys.take(n - 1));
        let key = keys[n - 1];
        assert(after.points(key) == before.points(key));
        assert(after.last_visit(key) == (if before.hits(keys, t).contains(key) {
            t
        } else {
            before.last_visit(key)
        }));
    }
    if n == keys.len() {
        assert(keys.take(n) =~= keys);
    }
}

/// In a map that is in order each indexed feature is held by its voxel, each point is
/// indexed with the voxel that it lies in, and no voxel holds a feature twice.
pub proof fn law_index_and_voxels_agree(m: &VoxelMap)
    requires
        m.wf(),
    ensures
        m.indexed(),
{
}

/// A new feature is counted as one more, and the count goes back as it leaves.
pub proof fn law_features_are_counted_once(before: &VoxelMap, featid: usize, key: VoxelKey)
    requires
        before.hosts().dom().finite(),
        !before.hosts().dom().contains(featid),
    ensures
        before.hosts().insert(featid, key).dom().len() == before.hosts().dom().len() + 1,
        before.hosts().insert(featid, key).remove(featid).dom().len() == before.hosts().dom().len(),
{
    assert(before.hosts().insert(featid, key).dom() =~= before.hosts().dom().insert(featid));
    assert(before.hosts().insert(featid, key).remove(featid).dom() =~= before.hosts().dom());
}

/// A voxel with points has a block.
pub proof fn law_points_lie_in_voxels(m: &VoxelMap, key: VoxelKey)
    ensures
        m.points(key).len() > 0 ==> m.voxels().contains(key),
{
}

/// Points without a feature stay as they are when it is taken out.
proof fn lemma_without_absent(points: Seq<VoxelPoint>, featid: usize)
    requires
        !holds(points, featid),
    ensures
        without(points, featid) == points,
    decreases points.len(),
{
    if points.len() > 0 {
        let head = points.drop_last();
        assert(points[points.len() - 1].featid != featid);
        assert(!holds(head, featid)) by {
            if holds(head, featid) {
                let i = choose|i: int| 0 <= i < head.len() && (#[trigger] head[i]).featid == featid;
                assert(points[i].featid == featid);
            }
        }
        lemma_without_absent(head, featid);
        assert(head.push(points.last()) =~= points);
    }
}

/// Removing a feature that was just added gives back what was there: the voxel of
/// each feature, the points of each voxel, the voxels and when they were in view. Only
/// a voxel that was there without points is gone.
pub proof fn law_removal_undoes_addition(
    before: &VoxelMap,
    added: &VoxelMap,
    after: &VoxelMap,
    point: VoxelPoint,
    key: VoxelKey,
)
    requires
        before.wf(),
        !before.hosts().dom().contains(point.featid),
        added.voxels() == before.voxels().insert(key),
        added.hosts() == before.hosts().insert(point.featid, key),
        forall|k: VoxelKey| #[trigger] added.last_visit(k) == before.last_visit(k),
        forall|k: VoxelKey| #[trigger]
            added.points(k) == (if k == key {
                before.points(k).push(point)
            } else {
                before.points(k)
            }),
        after.hosts() == added.hosts().remove(point.featid),
        after.voxels() == (if without(added.points(key), point.featid).len() == 0 {
            added.voxels().remove(key)
        } else {
            added.voxels()
        }),
        forall|k: VoxelKey| #[trigger]
            after.points(k) == (if k == key {
                without(added.points(key), point.featid)
            } else {
                added.points(k)
            }),
        forall|k: VoxelKey| #[trigger]
            after.last_visit(k) == (if k == key && without(added.points(key), point.featid).len()
                == 0 {
                Double { bits: MINUS_ONE_BITS }
            } else {
                added.last_visit(k)
            }),
    ensures
        after.hosts() == before.hosts(),
        forall|k: VoxelKey| #[trigger] after.points(k) == before.points(k),
        before.points(key).len() > 0 || !before.voxels().contains(key) ==> after.voxels()
            == before.voxels() && forall|k: VoxelKey| #[trigger]
            after.last_visit(k) == before.last_visit(k),
        before.points(key).len() == 0 && before.voxels().contains(key) ==> after.voxels()
            == before.voxels().remove(key) && forall|k: VoxelKey|
            k != key ==> #[trigger] after.last_visit(k) == before.last_visit(k),
{
    let featid = point.featid;
    let here = before.points(key);
    assert(!holds(here, featid)) by {
        if holds(here, featid) {
            let i = choose|i: int| 0 <= i < here.len() && (#[trigger] here[i]).featid == featid;
            assert(before.hosts().dom().contains(before.points(key)[i].featid));
        }
    }
    let more = here.push(point);
    assert(added.points(key) == more);
    assert(more.drop_last() =~= here);
    lemma_without_absent(here, featid);
    assert(without(more, featid) == here);
    assert(after.hosts() =~= before.hosts());
    if before.points(key).len() > 0 || !before.voxels().contains(key) {
        assert(after.voxels() =~= before.voxels());
    } else {
        assert(after.voxels() =~= before.voxels().remove(key));
    }
}

/// The voxels that come into view are exactly the listed ones that have points and
/// were not in view since.
pub proof fn law_recent_voxels_are_exact(m: &VoxelMap, keys: Seq<VoxelKey>, t: Double, key: VoxelKey)
    ensures
        m.hits(keys, t).contains(key) <==> keys.contains(key) && m.points(key).len() > 0 && !t.spec_le(
            m.last_visit(key),
        ),
    decreases keys.len(),
{
    if keys.len() > 0 {
        let head = keys.drop_last();
        law_recent_voxels_are_exact(m, head, t, key);
        let rest = m.hits(head, t);
        let all = m.hits(keys, t);
        if rest.contains(key) {
            let w = rest.index_of(key);
            assert(all[w] == key);
        }
        if all.contains(key) && !rest.contains(key) {
            let w = all.index_of(key);
            assert(w == rest.len());
            assert(keys[keys.len() - 1] == key);
        }
        if head.contains(key) {
            let w = head.index_of(key);
            assert(keys[w] == key);
        }
        if keys.contains(key) && !head.contains(key) {
            let w = keys.index_of(key);
            if w < head.len() {
                assert(head[w] == key);
            }
            assert(key == keys.last());
            if m.points(key).len() > 0 && !t.spec_le(m.last_visit(key)) {
                assert(!rest.contains(key));
                assert(all[all.len() - 1] == key);
            }
        }
    } else {
        assert(m.hits(keys, t).len() == 0);
    }
}

/// The voxel at an offset from another, within the type of the coordinates.
pub open spec fn beside(center: VoxelKey, dx: int, dy: int, dz: int) -> VoxelKey {
    VoxelKey(moved(center.0, dx), moved(center.1, dy), moved(center.2, dz))
}

/// Whether a voxel lies within `r` voxels of another along each axis.
pub open spec fn is_near(center: VoxelKey, r: int, key: VoxelKey) -> bool {
    exists|dx: int, dy: int, dz: int|
        -r <= dx <= r && -r <= dy <= r && -r <= dz <= r && key == #[trigger] beside(
            center,
            dx,
            dy,
            dz,
        )
}

/// What a joined list holds.
proof fn lemma_either(a: Seq<VoxelKey>, b: Seq<VoxelKey>, key: VoxelKey)
    ensures
        (a + b).contains(key) <==> a.contains(key) || b.contains(key),
{
    let c = a + b;
    if a.contains(key) {
        assert(c[a.index_of(key)] == key);
    }
    if b.contains(key) {
        assert(c[a.len() + b.index_of(key)] == key);
    }
    if c.contains(key) {
        let w = c.index_of(key);
        if w < a.len() {
            assert(a[w] == key);
        } else {
            assert(b[w - a.len()] == key);
        }
    }
}

/// What a column of a neighbourhood holds.
proof fn lemma_cells(center: VoxelKey, r: int, dx: int, dy: int, n: int, key: VoxelKey)
    ensures
        cells(center, r, dx, dy, n).contains(key) <==> exists|dz: int|
            -r <= dz < n - r && key == #[trigger] beside(center, dx, dy, dz),
    decreases n,
{
    if n > 0 {
        lemma_cells(center, r, dx, dy, n - 1, key);
        let rest = cells(center, r, dx, dy, n - 1);
        let last = beside(center, dx, dy, n - 1 - r);
        assert(cells(center, r, dx, dy, n) =~= rest + seq![last]);
        lemma_either(rest, seq![last], key);
        assert(seq![last].contains(key) <==> key == last) by {
            assert(seq![last][0] == last);
        }
    }
}

/// What a slab of a neighbourhood holds.
proof fn lemma_columns(center: VoxelKey, r: int, dx: int, n: int, key: VoxelKey)
    ensures
        columns(center, r, dx, n).contains(key) <==> exists|dy: int, dz: int|
            -r <= dy < n - r && -r <= dz <= r && key == #[trigger] beside(center, dx, dy, dz),
    decreases n,
{
    if n > 0 {
        lemma_columns(center, r, dx, n - 1, key);
        lemma_cells(center, r, dx, n - 1 - r, 2 * r + 1, key);
        lemma_either(
            columns(center, r, dx, n - 1),
            cells(center, r, dx, n - 1 - r, 2 * r + 1),
            key,
        );
    }
}

/// What the slabs of a neighbourhood hold.
proof fn lemma_slabs(center: VoxelKey, r: int, n: int, key: VoxelKey)
    ensures
        slabs(center, r, n).contains(key) <==> exists|dx: int, dy: int, dz: int|
            -r <= dx < n - r && -r <= dy <= r && -r <= dz <= r && key == #[trigger] beside(
                center,
                dx,
                dy,
                dz,
            ),
    decreases n,
{
    if n > 0 {
        lemma_slabs(center, r, n - 1, key);
        lemma_columns(center, r, n - 1 - r, 2 * r + 1, key);
        lemma_either(slabs(center, r, n - 1), columns(center, r, n - 1 - r, 2 * r + 1), key);
    }
}

/// The surroundings of some voxels are exactly the voxels within `r` of one of them
/// along each axis.
pub proof fn law_surroundings_are_what_is_near(centers: Seq<VoxelKey>, r: int, key: VoxelKey)
    ensures
        surroundings(centers, r).contains(key) <==> exists|i: int|
            0 <= i < centers.len() && is_near(#[trigger] centers[i], r, key),
    decreases centers.len(),
{
    if centers.len() > 0 {
        let head = centers.drop_last();
        let last = centers.last();
        law_surroundings_are_what_is_near(head, r, key);
        lemma_slabs(last, r, 2 * r + 1, key);
        lemma_either(surroundings(head, r), slabs(last, r, 2 * r + 1), key);
        assert(slabs(last, r, 2 * r + 1).contains(key) <==> is_near(last, r, key));
        if surroundings(head, r).contains(key) {
            let i = choose|i: int| 0 <= i < head.len() && is_near(#[trigger] head[i], r, key);
            assert(is_near(centers[i], r, key));
        }
        if is_near(last, r, key) {
            assert(is_near(centers[centers.len() - 1], r, key));
        }
        if exists|i: int| 0 <= i < centers.len() && is_near(#[trigger] centers[i], r, key) {
            let i = choose|i: int| 0 <= i < centers.len() && is_near(#[trigger] centers[i], r, key);
            if i < head.len() {
                assert(is_near(head[i], r, key));
            }
        }
    }
}

} // verus!
