//! The voxel map: root voxels, their octrees and the visual points.

use vstd::prelude::*;

use crate::algebra::HALF_BITS;
use crate::arith::{
    apply_gauge, apply_number, apply_two, binary, gauged, gauges, number_of, numbers, of_two,
};
use crate::double::{Double, INFINITY_BITS};
use crate::table::{Key, Table};
use crate::void_map::map_tools::{Cube, MapTools};
use crate::void_map::octree::{
    appended, fresh, inserted, planes_of, Geometry, MapPoint, NodeView, OctoNode,
};
use crate::void_map::options::{cells_for, VoxelMapOptions};
use crate::void_map::plane::VoxelPlane;
use crate::void_map::plane_fit::Eigen;
use crate::void_map::visual_point::{rescored, VisualPoint};

verus! {

/// The place of a root voxel on the grid.
#[derive(Clone, Copy, Debug, PartialEq, Eq, Hash, Structural)]
pub struct VoxelKey {
    /// Index along the first axis.
    pub x: i64,
    /// Index along the second axis.
    pub y: i64,
    /// Index along the third axis.
    pub z: i64,
}

impl Key for VoxelKey {
    fn same(&self, other: &VoxelKey) -> (yes: bool) {
        self.x == other.x && self.y == other.y && self.z == other.z
    }
}

/// The index along an axis of a coordinate: its quotient by the voxel size, rounded
/// down.
pub open spec fn axis_index<V: Fn(Double, Double) -> Double>(x: Double, size: Double, divide: V) -> int {
    of_two(divide, x, size).floor_clamped()
}

/// The root voxel of a point.
pub open spec fn voxel_of<V: Fn(Double, Double) -> Double>(
    p: Seq<Double>,
    size: Double,
    divide: V,
) -> VoxelKey {
    VoxelKey {
        x: axis_index(p[0], size, divide) as i64,
        y: axis_index(p[1], size, divide) as i64,
        z: axis_index(p[2], size, divide) as i64,
    }
}

/// The index along an axis of a coordinate.
fn index_of<V: Fn(Double, Double) -> Double>(x: Double, size: Double, divide: &V) -> (i: i64)
    requires
        binary(*divide),
    ensures
        i == axis_index(x, size, *divide),
{
    apply_two(divide, x, size).floor_i64()
}

/// The center of a root voxel.
pub open spec fn center_of<
    N: Fn(i64) -> Double,
    P: Fn(Double, Double) -> Double,
    T: Fn(Double, Double) -> Double,
>(key: VoxelKey, root_size: Double, number: N, plus: P, times: T) -> Seq<Double> {
    seq![
        middle(key.x, root_size, number, plus, times),
        middle(key.y, root_size, number, plus, times),
        middle(key.z, root_size, number, plus, times),
    ]
}

impl VoxelKey {
    /// The root voxel of a point.
    pub fn from_point<V: Fn(Double, Double) -> Double>(
        p: &[Double; 3],
        root_size: Double,
        divide: &V,
    ) -> (key: VoxelKey)
        requires
            binary(*divide),
        ensures
            key == voxel_of(p@, root_size, *divide),
            key.x == axis_index(p@[0], root_size, *divide),
            key.y == axis_index(p@[1], root_size, *divide),
            key.z == axis_index(p@[2], root_size, *divide),
    {
        VoxelKey {
            x: index_of(p[0], root_size, divide),
            y: index_of(p[1], root_size, divide),
            z: index_of(p[2], root_size, divide),
        }
    }

    /// The center of the root voxel. `number` gives an index as a number.
    pub fn center<
        N: Fn(i64) -> Double,
        P: Fn(Double, Double) -> Double,
        T: Fn(Double, Double) -> Double,
    >(&self, root_size: Double, number: &N, plus: &P, times: &T) -> (c: [Double; 3])
        requires
            numbers(*number),
            binary(*plus),
            binary(*times),
        ensures
            c@ == center_of(*self, root_size, *number, *plus, *times),
    {
        let c = [
            middle_of(self.x, root_size, number, plus, times),
            middle_of(self.y, root_size, number, plus, times),
            middle_of(self.z, root_size, number, plus, times),
        ];
        assert(c@ =~= center_of(*self, root_size, *number, *plus, *times));
        c
    }
}

/// The middle of the voxels with an index along an axis.
pub open spec fn middle<
    N: Fn(i64) -> Double,
    P: Fn(Double, Double) -> Double,
    T: Fn(Double, Double) -> Double,
>(i: i64, size: Double, number: N, plus: P, times: T) -> Double {
    of_two(times, of_two(plus, number_of(number, i), Double { bits: HALF_BITS }), size)
}

/// The middle of the voxels with an index along an axis.
fn middle_of<
    N: Fn(i64) -> Double,
    P: Fn(Double, Double) -> Double,
    T: Fn(Double, Double) -> Double,
>(i: i64, size: Double, number: &N, plus: &P, times: &T) -> (m: Double)
    requires
        numbers(*number),
        binary(*plus),
        binary(*times),
    ensures
        m == middle(i, size, *number, *plus, *times),
{
    let x = apply_number(number, i);
    apply_two(times, apply_two(plus, x, Double { bits: HALF_BITS }), size)
}

/// A root voxel.
#[derive(Debug)]
pub struct RootVoxel {
    /// The octree.
    pub octo: OctoNode,
    /// The visual points in the voxel, by their places in the pool.
    pub visual_points: Vec<usize>,
}

/// What a root voxel holds.
pub struct RootView {
    /// The octree.
    pub octo: NodeView,
    /// The visual points.
    pub visual_points: Seq<usize>,
}

impl RootVoxel {
    /// What the voxel holds.
    pub open spec fn view(&self) -> RootView {
        RootView { octo: self.octo@, visual_points: self.visual_points@ }
    }
}

/// The root voxels of points.
pub open spec fn voxels_of<V: Fn(Double, Double) -> Double>(
    points: Seq<MapPoint>,
    size: Double,
    divide: V,
) -> Seq<VoxelKey> {
    Seq::new(points.len(), |i: int| voxel_of(points[i].position@, size, divide))
}

/// Whether the window around a root voxel stays within the indices.
pub open spec fn window_fits(center: VoxelKey, half: int) -> bool {
    &&& i64::MIN <= center.x - half <= i64::MAX
    &&& i64::MIN <= center.y - half <= i64::MAX
    &&& i64::MIN <= center.z - half <= i64::MAX
    &&& i64::MIN <= center.x + half <= i64::MAX
    &&& i64::MIN <= center.y + half <= i64::MAX
    &&& i64::MIN <= center.z + half <= i64::MAX
}

/// The planes of the root voxels with the given keys.
pub open spec fn planes_along(voxels: Map<VoxelKey, RootView>, keys: Seq<VoxelKey>) -> Seq<
    VoxelPlane,
>
    decreases keys.len(),
{
    if keys.len() == 0 {
        seq![]
    } else {
        planes_along(voxels, keys.drop_last()) + planes_of(voxels[keys.last()].octo)
    }
}

/// Where a point is seen: its pixel and its depth.
#[derive(Clone, Copy, Debug, PartialEq, Eq, Structural)]
pub struct Projection {
    /// The pixel's column.
    pub u: Double,
    /// The pixel's row.
    pub v: Double,
    /// The depth (m).
    pub depth: Double,
}

/// What an image update does in one cell of the grid.
#[derive(Clone, Copy, Debug, PartialEq, Eq, Structural)]
pub enum CellAction {
    /// A visual point is made from a plane.
    Create {
        /// The cell.
        cell: usize,
        /// The plane.
        plane: usize,
    },
    /// A visual point may get another patch.
    Append(usize),
}

/// The voxel map.
#[derive(Debug)]
pub struct VoxelMap {
    opts: VoxelMapOptions,
    roots: Table<VoxelKey, RootVoxel>,
    visual_pool: Vec<VisualPoint>,
    last_slide_pos: [Double; 3],
    frame_id: u32,
}

/// A map of root voxels as a map of what they hold.
pub open spec fn root_views(roots: Map<VoxelKey, RootVoxel>) -> Map<VoxelKey, RootView> {
    Map::new(|k: VoxelKey| roots.dom().contains(k), |k: VoxelKey| roots[k]@)
}

/// The cubes of root voxels.
pub open spec fn root_cubes<
    E: Fn([Double; 9]) -> Eigen,
    N: Fn(usize) -> Double,
    W: Fn(i64) -> Double,
    L: Fn([Double; 3]) -> Double,
    P: Fn(Double, Double) -> Double,
    T: Fn(Double, Double) -> Double,
    V: Fn(Double, Double) -> Double,
    R: Fn(Double) -> Double,
>(tools: &MapTools<E, N, W, L, P, T, V, R>, size: Double) -> spec_fn(VoxelKey) -> Cube {
    |key: VoxelKey| tools.root_of(key, size)
}

/// The root voxels after the first `n` points were registered, each in its own.
pub open spec fn registered(
    roots: Map<VoxelKey, RootView>,
    points: Seq<MapPoint>,
    keys: Seq<VoxelKey>,
    n: int,
    o: VoxelMapOptions,
    g: Geometry,
    cube: spec_fn(VoxelKey) -> Cube,
) -> Map<VoxelKey, RootView>
    decreases n,
{
    if n <= 0 {
        roots
    } else {
        let rest = registered(roots, points, keys, n - 1, o, g, cube);
        let key = keys[n - 1];
        let root = if rest.dom().contains(key) {
            rest[key]
        } else {
            let c = cube(key);
            RootView { octo: fresh(0, o.max_layer as int, c.0, c.1), visual_points: seq![] }
        };
        rest.insert(
            key,
            RootView {
                octo: inserted(
                    root.octo,
                    points[n - 1],
                    o.max_layer as nat,
                    o,
                    g,
                ),
                ..root
            },
        )
    }
}

/// Whether a root voxel lies within `half` of another, along each axis.
pub open spec fn in_window(key: VoxelKey, center: VoxelKey, half: int) -> bool {
    &&& center.x - half <= key.x <= center.x + half
    &&& center.y - half <= key.y <= center.y + half
    &&& center.z - half <= key.z <= center.z + half
}

/// Whether a pixel lies in an image.
pub open spec fn in_image(u: Double, v: Double, width: int, height: int) -> bool {
    &&& (Double { bits: 0 }).spec_le(u)
    &&& (Double { bits: 0 }).spec_le(v)
    &&& u.truncated() < width
    &&& v.truncated() < height
}

/// The column and row of the cell of a pixel.
pub open spec fn cell_of(u: Double, v: Double, size: int) -> (int, int) {
    (u.truncated() / size, v.truncated() / size)
}

/// The cell that a plane's center falls into, if it is seen in front.
pub open spec fn seen_cell(
    p: Option<Projection>,
    width: int,
    height: int,
    size: int,
) -> Option<int> {
    match p {
        Some(q) => if in_image(q.u, q.v, width, height) && (Double { bits: 0 }).spec_lt(q.depth) {
            let c = cell_of(q.u, q.v, size);
            Some(c.1 * cells_for(width, size) + c.0)
        } else {
            None
        },
        None => None,
    }
}

/// The nearest of the first `n` planes whose centers fall into a cell; the first
/// of equally near ones.
pub open spec fn nearest_plane(
    planes: Seq<Option<Projection>>,
    cell: int,
    width: int,
    height: int,
    size: int,
    n: int,
) -> Option<int>
    decreases n,
{
    if n <= 0 {
        None
    } else {
        let rest = nearest_plane(planes, cell, width, height, size, n - 1);
        if seen_cell(planes[n - 1], width, height, size) == Some(cell) && (match rest {
            Some(k) => planes[n - 1]->0.depth.spec_lt(planes[k]->0.depth),
            None => true,
        }) {
            Some(n - 1)
        } else {
            rest
        }
    }
}

/// Whether a pixel lies in the cell at a column and a row.
pub open spec fn in_cell(u: Double, v: Double, col: int, row: int, size: int) -> bool {
    &&& (Double { bits: 0 }).spec_le(u)
    &&& (Double { bits: 0 }).spec_le(v)
    &&& u.truncated() < usize::MAX
    &&& v.truncated() < usize::MAX
    &&& cell_of(u, v, size) == (col, row)
}

/// The nearest of the first `n` visual points in a cell, and its depth; the first
/// of equally near ones. One at no finite depth does not count.
pub open spec fn nearest_point(
    points: Seq<Option<Projection>>,
    col: int,
    row: int,
    size: int,
    n: int,
) -> (Option<int>, Double)
    decreases n,
{
    if n <= 0 {
        (None, Double { bits: INFINITY_BITS })
    } else {
        let rest = nearest_point(points, col, row, size, n - 1);
        match points[n - 1] {
            Some(p) => if in_cell(p.u, p.v, col, row, size) && p.depth.spec_lt(rest.1) {
                (Some(n - 1), p.depth)
            } else {
                rest
            },
            None => rest,
        }
    }
}

/// The visual points and what is done, once the first `k` cells were looked at: a
/// cell with a visual point may add to it, one without makes a point from its
/// nearest plane. New points are looked at as well.
pub open spec fn planned(
    planes: Seq<Option<Projection>>,
    points: Seq<Option<Projection>>,
    width: int,
    height: int,
    size: int,
    k: int,
) -> (Seq<Option<Projection>>, Seq<CellAction>)
    decreases k,
{
    if k <= 0 {
        (points, seq![])
    } else {
        let rest = planned(planes, points, width, height, size, k - 1);
        let cell = k - 1;
        let cols = cells_for(width, size);
        let own = nearest_point(rest.0, cell % cols, cell / cols, size, rest.0.len() as int).0;
        match own {
            Some(id) => (rest.0, rest.1.push(CellAction::Append(id as usize))),
            None => match nearest_plane(planes, cell, width, height, size, planes.len() as int) {
                Some(p) => (
                    rest.0.push(planes[p]),
                    rest.1.push(CellAction::Create { cell: cell as usize, plane: p as usize }),
                ),
                None => rest,
            },
        }
    }
}

/// The visual points of a list that can be shown: each with the place of its
/// reference patch.
pub open spec fn shown(
    pool: Seq<VisualPoint>,
    visible: Seq<bool>,
    ids: Seq<usize>,
    n: int,
) -> Seq<(usize, usize)>
    decreases n,
{
    if n <= 0 {
        seq![]
    } else {
        let rest = shown(pool, visible, ids, n - 1);
        let id = ids[n - 1];
        match pool[id as int].ref_patch {
            Some(r) => if visible[id as int] {
                rest.push((id, r))
            } else {
                rest
            },
            None => rest,
        }
    }
}

impl VoxelMap {
    /// The options.
    pub closed spec fn settings(&self) -> VoxelMapOptions {
        self.opts
    }

    /// The keys of the root voxels, in the order in which they came.
    pub closed spec fn order(&self) -> Seq<VoxelKey> {
        self.roots.keys()
    }

    /// What the root voxels hold.
    pub closed spec fn voxels(&self) -> Map<VoxelKey, RootView> {
        root_views(self.roots@)
    }

    /// The visual points.
    pub closed spec fn pool(&self) -> Seq<VisualPoint> {
        self.visual_pool@
    }

    /// Where the map last followed the platform.
    pub closed spec fn slide_position(&self) -> [Double; 3] {
        self.last_slide_pos
    }

    /// The number of the last frame.
    pub closed spec fn frame(&self) -> u32 {
        self.frame_id
    }

    /// Whether the trees are in order, and every voxel names points of the pool.
    pub closed spec fn wf(&self) -> bool {
        &&& self.roots.wf()
        &&& self.opts.max_layer < usize::MAX
        &&& forall|k: VoxelKey|
            self.roots@.dom().contains(k) ==> root_wf(
                #[trigger] self.roots@[k],
                self.opts.max_layer,
                self.visual_pool@.len() as int,
            )
    }

    /// A map without voxels.
    pub fn new(opts: VoxelMapOptions) -> (m: VoxelMap)
        requires
            opts.max_layer < usize::MAX,
        ensures
            m.wf(),
            m.settings() == opts,
            m.voxels() == Map::<VoxelKey, RootView>::empty(),
            m.pool().len() == 0,
            forall|i: int| 0 <= i < 3 ==> (#[trigger] m.slide_position()@[i]).bits == 0,
            m.frame() == 0,
    {
        let z = Double::zero();
        let m = VoxelMap {
            opts,
            roots: Table::new(),
            visual_pool: Vec::new(),
            last_slide_pos: [z, z, z],
            frame_id: 0,
        };
        assert(m.voxels() =~= Map::<VoxelKey, RootView>::empty());
        m
    }

    /// Registers points, each in the root voxel that it lies in; planes are turned
    /// towards the camera.
    pub fn register_points<
        E: Fn([Double; 9]) -> Eigen,
        N: Fn(usize) -> Double,
        W: Fn(i64) -> Double,
        L: Fn([Double; 3]) -> Double,
        P: Fn(Double, Double) -> Double,
        T: Fn(Double, Double) -> Double,
        V: Fn(Double, Double) -> Double,
        R: Fn(Double) -> Double,
    >(
        &mut self,
        points: &Vec<MapPoint>,
        camera: &[Double; 3],
        tools: &MapTools<E, N, W, L, P, T, V, R>,
    )
        requires
            old(self).wf(),
            forall|i: int| 0 <= i < 5 ==> #[trigger] old(self).settings().layer_init_num@[i] >= 2,
            tools.wf(),
        ensures
            final(self).wf(),
            final(self).settings() == old(self).settings(),
            final(self).pool() == old(self).pool(),
            final(self).slide_position() == old(self).slide_position(),
            final(self).frame() == old(self).frame(),
            final(self).voxels() == registered(
                old(self).voxels(),
                points@,
                voxels_of(points@, old(self).settings().root_size, tools.divide),
                points@.len() as int,
                old(self).settings(),
                tools.geometry(old(self).settings().fit_options(), camera@),
                root_cubes(tools, old(self).settings().root_size),
            ),
    {
        let mut keys: Vec<VoxelKey> = Vec::new();
        let mut i: usize = 0;
        while i < points.len()
            invariant
                i <= points@.len(),
                keys@.len() == i,
                tools.wf(),
                forall|k: int|
                    0 <= k < i ==> #[trigger] keys@[k] == voxel_of(
                        points@[k].position@,
                        self.opts.root_size,
                        tools.divide,
                    ),
            decreases points@.len() - i,
        {
            let p = points[i].position;
            keys.push(VoxelKey::from_point(&p, self.opts.root_size, &tools.divide));
            i += 1;
        }
        assert(keys@ =~= voxels_of(points@, self.opts.root_size, tools.divide));
        self.register_at(points, &keys, camera, tools);
    }

    /// Registers points, each in the root voxel at its key.
    fn register_at<
        E: Fn([Double; 9]) -> Eigen,
        N: Fn(usize) -> Double,
        W: Fn(i64) -> Double,
        L: Fn([Double; 3]) -> Double,
        P: Fn(Double, Double) -> Double,
        T: Fn(Double, Double) -> Double,
        V: Fn(Double, Double) -> Double,
        R: Fn(Double) -> Double,
    >(
        &mut self,
        points: &Vec<MapPoint>,
        keys: &Vec<VoxelKey>,
        camera: &[Double; 3],
        tools: &MapTools<E, N, W, L, P, T, V, R>,
    )
        requires
            old(self).wf(),
            points@.len() == keys@.len(),
            forall|i: int| 0 <= i < 5 ==> #[trigger] old(self).settings().layer_init_num@[i] >= 2,
            tools.wf(),
        ensures
            final(self).wf(),
            final(self).settings() == old(self).settings(),
            final(self).pool() == old(self).pool(),
            final(self).slide_position() == old(self).slide_position(),
            final(self).frame() == old(self).frame(),
            final(self).voxels() == registered(
                old(self).voxels(),
                points@,
                keys@,
                points@.len() as int,
                old(self).settings(),
                tools.geometry(old(self).settings().fit_options(), camera@),
                root_cubes(tools, old(self).settings().root_size),
            ),
    {
        let opts = self.opts;
        let mut i: usize = 0;
        while i < points.len()
            invariant
                i <= points@.len(),
                points@.len() == keys@.len(),
                self.wf(),
                opts == self.opts,
                opts == old(self).settings(),
                self.visual_pool == old(self).visual_pool,
                self.last_slide_pos == old(self).last_slide_pos,
                self.frame_id == old(self).frame_id,
                forall|k: int| 0 <= k < 5 ==> #[trigger] opts.layer_init_num@[k] >= 2,
                tools.wf(),
                self.voxels() == registered(
                    old(self).voxels(),
                    points@,
                    keys@,
                    i as int,
                    opts,
                    tools.geometry(old(self).settings().fit_options(), camera@),
                    root_cubes(tools, old(self).settings().root_size),
                ),
            decreases points@.len() - i,
        {
            let ghost before = *self;
            let key = keys[i];
            let place: usize = match self.roots.find(&key) {
                Some(place) => place,
                None => {
                    let c = tools.root_cube(&key, opts.root_size);
                    let place: usize = self.roots.len();
                    let root = RootVoxel {
                        octo: OctoNode::new_root(c.0, c.1, &opts),
                        visual_points: Vec::new(),
                    };
                    assert(root_cubes(tools, opts.root_size)(key) == c);
                    assert(root.visual_points@ =~= seq![]);
                    self.roots.push(key, root);
                    place
                },
            };
            let ghost mid = self.roots@;
            assert(root_wf(mid[key], opts.max_layer, self.visual_pool@.len() as int));
            self.roots.at_mut(place).octo.insert(points[i], &opts, camera, tools);
            proof {
                let next = registered(
                    old(self).voxels(),
                    points@,
                    keys@,
                    i + 1,
                    opts,
                    tools.geometry(old(self).settings().fit_options(), camera@),
                    root_cubes(tools, old(self).settings().root_size),
                );
                assert(self.roots@ == mid.insert(key, self.roots@[key]));
                assert(self.roots@[key].visual_points == mid[key].visual_points);
                assert forall|k: VoxelKey| self.roots@.dom().contains(k) implies root_wf(
                    #[trigger] self.roots@[k],
                    opts.max_layer,
                    self.visual_pool@.len() as int,
                ) by {
                    if k != key {
                        assert(self.roots@[k] == before.roots@[k]);
                    }
                }
                assert(self.voxels() =~= next);
            }
            i += 1;
        }
    }

    /// Lets the map follow the platform, once it has moved far enough since the
    /// last time: only the root voxels around it stay.
    pub fn on_update_end<
        D: Fn([Double; 3], [Double; 3]) -> Double,
        V: Fn(Double, Double) -> Double,
    >(&mut self, pos: [Double; 3], distance: &D, divide: &V)
        requires
            old(self).wf(),
            gauges(*distance),
            binary(*divide),
            window_fits(
                voxel_of(pos@, old(self).settings().root_size, *divide),
                old(self).settings().half_map_size as int,
            ),
        ensures
            final(self).wf(),
            final(self).settings() == old(self).settings(),
            final(self).pool() == old(self).pool(),
            final(self).frame() == old(self).frame(),
            gauged(*distance, pos, old(self).slide_position()).spec_lt(
                old(self).settings().sliding_thresh,
            ) ==> *final(self) == *old(self),
            !gauged(*distance, pos, old(self).slide_position()).spec_lt(
                old(self).settings().sliding_thresh,
            ) ==> {
                let center = voxel_of(pos@, old(self).settings().root_size, *divide);
                &&& final(self).slide_position() == pos
                &&& forall|k: VoxelKey| #[trigger]
                    final(self).voxels().dom().contains(k) <==> old(self).voxels().dom().contains(k)
                        && in_window(k, center, old(self).settings().half_map_size as int)
                &&& forall|k: VoxelKey|
                    final(self).voxels().dom().contains(k) ==> #[trigger] final(self).voxels()[k]
                        == old(self).voxels()[k]
            },
    {
        let center = VoxelKey::from_point(&pos, self.opts.root_size, divide);
        let moved = apply_gauge(distance, pos, self.last_slide_pos);
        if moved.lt(self.opts.sliding_thresh) {
            return;
        }
        self.last_slide_pos = pos;
        let half: i64 = self.opts.half_map_size;
        let (x0, x1) = (center.x - half, center.x + half);
        let (y0, y1) = (center.y - half, center.y + half);
        let (z0, z1) = (center.z - half, center.z + half);
        let ghost first = self.roots@;
        let ghost keys = self.roots.keys();
        let mut i: usize = 0;
        let mut n: usize = self.roots.len();
        proof {
            assert forall|k: VoxelKey| first.dom().contains(k) implies exists|q: int|
                0 <= q < keys.len() && #[trigger] keys[q] == k by {
                assert(keys.contains(k));
            }
        }
        while i < n
            invariant
                self.wf(),
                i <= n,
                n == self.roots.keys().len(),
                self.opts == old(self).opts,
                self.visual_pool == old(self).visual_pool,
                self.frame_id == old(self).frame_id,
                self.last_slide_pos == pos,
                half == self.opts.half_map_size,
                x0 == center.x - half,
                x1 == center.x + half,
                y0 == center.y - half,
                y1 == center.y + half,
                z0 == center.z - half,
                z1 == center.z + half,
                first == old(self).roots@,
                forall|k: VoxelKey| #[trigger]
                    self.roots@.dom().contains(k) ==> first.dom().contains(k),
                forall|k: VoxelKey|
                    self.roots@.dom().contains(k) ==> #[trigger] self.roots@[k] == first[k],
                forall|k: VoxelKey|
                    first.dom().contains(k) && !(#[trigger] self.roots@.dom().contains(k))
                        ==> !in_window(k, center, half as int),
                forall|q: int|
                    0 <= q < i ==> in_window(#[trigger] self.roots.keys()[q], center, half as int),
            decreases n - i,
        {
            let key = self.roots.key_at(i);
            if key.x >= x0 && key.x <= x1 && key.y >= y0 && key.y <= y1 && key.z >= z0 && key.z <= z1 {
                i += 1;
            } else {
                let ghost before = self.roots@;
                let _gone = self.roots.remove_at(i);
                n -= 1;
                assert(self.roots@ == before.remove(key));
                assert forall|k: VoxelKey| self.roots@.dom().contains(k) implies #[trigger] self.roots@[k]
                    == first[k] by {
                    assert(before.dom().contains(k));
                    assert(before[k] == first[k]);
                }
            }
        }
        proof {
            assert forall|k: VoxelKey| #[trigger] self.voxels().dom().contains(k) implies in_window(
                k,
                center,
                half as int,
            ) by {
                assert(self.roots@.dom().contains(k));
                assert(self.roots.keys().contains(k));
                let q = self.roots.keys().index_of(k);
                assert(in_window(self.roots.keys()[q], center, half as int));
            }
            assert forall|k: VoxelKey| self.voxels().dom().contains(k) implies #[trigger] self.voxels()[k]
                == old(self).voxels()[k] by {
                assert(self.roots@[k] == first[k]);
            }
            assert forall|k: VoxelKey| #[trigger] self.voxels().dom().contains(k) <==> old(
                self,
            ).voxels().dom().contains(k) && in_window(k, center, half as int) by {
                if self.roots@.dom().contains(k) {
                    assert(self.roots@[k] == first[k]);
                }
            }
        }
    }

    /// The octree of the root voxel that a point lies in.
    pub fn root_at<V: Fn(Double, Double) -> Double>(
        &self,
        p: &[Double; 3],
        divide: &V,
    ) -> (octo: Option<&OctoNode>)
        requires
            self.wf(),
            binary(*divide),
        ensures
            ({
                let key = voxel_of(p@, self.settings().root_size, *divide);
                match octo {
                    Some(n) => self.voxels().dom().contains(key) && n@ == self.voxels()[key].octo
                        && n.wf(),
                    None => !self.voxels().dom().contains(key),
                }
            }),
    {
        let key = VoxelKey::from_point(p, self.opts.root_size, divide);
        self.root_at_key(&key)
    }

    /// The octree of the root voxel at a key.
    pub fn root_at_key(&self, key: &VoxelKey) -> (octo: Option<&OctoNode>)
        requires
            self.wf(),
        ensures
            match octo {
                Some(n) => self.voxels().dom().contains(*key) && n@ == self.voxels()[*key].octo
                    && n.wf(),
                None => !self.voxels().dom().contains(*key),
            },
    {
        match self.roots.get(key) {
            Some(root) => {
                assert(root_wf(
                    self.roots@[*key],
                    self.opts.max_layer,
                    self.visual_pool@.len() as int,
                ));
                Some(&root.octo)
            },
            None => None,
        }
    }

    /// The keys of all root voxels, in the order in which they came.
    pub fn root_keys(&self) -> (keys: Vec<VoxelKey>)
        requires
            self.wf(),
        ensures
            keys@ == self.order(),
            keys@.no_duplicates(),
            forall|k: VoxelKey| keys@.contains(k) <==> self.voxels().dom().contains(k),
    {
        let mut keys: Vec<VoxelKey> = Vec::new();
        let n: usize = self.roots.len();
        let mut i: usize = 0;
        while i < n
            invariant
                i <= n,
                n == self.roots.keys().len(),
                keys@ == self.roots.keys().take(i as int),
            decreases n - i,
        {
            keys.push(self.roots.key_at(i));
            assert(keys@ =~= self.roots.keys().take(i + 1));
            i += 1;
        }
        assert(keys@ =~= self.roots.keys());
        keys
    }

    /// All planes, root voxel by root voxel, in the order in which these came.
    pub fn planes(&self) -> (planes: Vec<&VoxelPlane>)
        requires
            self.wf(),
        ensures
            self.order().no_duplicates(),
            forall|k: VoxelKey| self.order().contains(k) <==> self.voxels().dom().contains(k),
            planes@.len() == planes_along(self.voxels(), self.order()).len(),
            forall|i: int|
                0 <= i < planes@.len() ==> *(#[trigger] planes@[i]) == planes_along(
                    self.voxels(),
                    self.order(),
                )[i],
    {
        let mut planes: Vec<&VoxelPlane> = Vec::new();
        let n: usize = self.roots.len();
        let ghost keys = self.roots.keys();
        let mut i: usize = 0;
        while i < n
            invariant
                i <= n,
                self.wf(),
                keys == self.roots.keys(),
                n == keys.len(),
                planes@.len() == planes_along(self.voxels(), keys.take(i as int)).len(),
                forall|j: int|
                    0 <= j < planes@.len() ==> *(#[trigger] planes@[j]) == planes_along(
                        self.voxels(),
                        keys.take(i as int),
                    )[j],
            decreases n - i,
        {
            let ghost before = planes@;
            let ghost rest = planes_along(self.voxels(), keys.take(i as int));
            let root = self.roots.at(i);
            assert(keys.contains(keys[i as int]));
            assert(self.roots@[keys[i as int]] == *root);
            assert(root_wf(*root, self.opts.max_layer, self.visual_pool@.len() as int));
            root.octo.collect_planes(&mut planes);
            proof {
                let whole = keys.take(i + 1);
                assert(whole.drop_last() =~= keys.take(i as int));
                assert(whole.last() == keys[i as int]);
                assert(self.voxels()[keys[i as int]].octo == root.octo@);
                let own = planes_of(root.octo@);
                assert forall|j: int| 0 <= j < planes@.len() implies *(#[trigger] planes@[j])
                    == planes_along(self.voxels(), whole)[j] by {
                    if j < before.len() {
                        assert(planes@[j] == before[j]);
                    } else {
                        assert(*appended(planes@, before.len() as int, j - before.len()) == own[j
                            - before.len()]);
                    }
                }
            }
            i += 1;
        }
        assert(keys.take(n as int) =~= keys);
        planes
    }

    /// The number of root voxels.
    pub fn root_count(&self) -> (n: usize)
        requires
            self.wf(),
        ensures
            n == self.voxels().dom().len(),
    {
        let n: usize = self.roots.len();
        assert(self.voxels().dom() =~= self.roots@.dom());
        n
    }

    /// The number of visual points.
    pub fn visual_point_count(&self) -> (n: usize)
        ensures
            n == self.pool().len(),
    {
        self.visual_pool.len()
    }

    /// The visual points.
    pub fn visual_points(&self) -> (points: &Vec<VisualPoint>)
        ensures
            points@ == self.pool(),
    {
        &self.visual_pool
    }

    /// The options.
    pub fn options(&self) -> (o: &VoxelMapOptions)
        ensures
            *o == self.settings(),
    {
        &self.opts
    }

    /// Plans an image update of frame `frame_id`. `planes` are the centers of the
    /// planes and `points` the visual points, as the camera sees them.
    pub fn update_visual(
        &mut self,
        frame_id: u32,
        width: usize,
        height: usize,
        planes: &Vec<Option<Projection>>,
        points: &Vec<Option<Projection>>,
    ) -> (actions: Vec<CellAction>)
        requires
            old(self).settings().grid_size > 0,
            cells_for(width as int, old(self).settings().grid_size as int) * cells_for(
                height as int,
                old(self).settings().grid_size as int,
            ) <= usize::MAX,
            points@.len() == old(self).pool().len(),
            old(self).wf(),
        ensures
            final(self).wf(),
            final(self).frame() == frame_id,
            final(self).settings() == old(self).settings(),
            final(self).voxels() == old(self).voxels(),
            final(self).pool() == old(self).pool(),
            final(self).slide_position() == old(self).slide_position(),
            actions@ == planned(
                planes@,
                points@,
                width as int,
                height as int,
                old(self).settings().grid_size as int,
                cells_for(width as int, old(self).settings().grid_size as int) * cells_for(
                    height as int,
                    old(self).settings().grid_size as int,
                ),
            ).1,
    {
        self.frame_id = frame_id;
        plan_cells(planes, points, width, height, &self.opts)
    }

    /// Adds a visual point with its first patch to the root voxel that it lies in,
    /// if there is one. While a point has too few patches to compare, the first is
    /// its reference; else `scores` decide.
    pub fn create_visual_point<V: Fn(Double, Double) -> Double>(
        &mut self,
        point: VisualPoint,
        scores: &Vec<Double>,
        divide: &V,
    )
        requires
            old(self).wf(),
            point.obs@.len() > 0,
            scores@.len() == point.obs@.len(),
            binary(*divide),
        ensures
            final(self).wf(),
            final(self).settings() == old(self).settings(),
            final(self).frame() == old(self).frame(),
            final(self).slide_position() == old(self).slide_position(),
            final(self).pool().len() == old(self).pool().len() + 1,
            forall|i: int|
                0 <= i < old(self).pool().len() ==> #[trigger] final(self).pool()[i] == old(
                    self,
                ).pool()[i],
            point.obs@.len() < old(self).settings().min_obs_for_score ==> final(self).pool().last()
                == (VisualPoint { ref_patch: Some(0), ..point }),
            point.obs@.len() >= old(self).settings().min_obs_for_score ==> rescored(
                point,
                final(self).pool().last(),
                scores@,
            ),
            ({
                let key = voxel_of(point.pos@, old(self).settings().root_size, *divide);
                final(self).voxels() == (if old(self).voxels().dom().contains(key) {
                    let root = old(self).voxels()[key];
                    old(self).voxels().insert(
                        key,
                        RootView {
                            visual_points: root.visual_points.push(old(self).pool().len() as usize),
                            ..root
                        },
                    )
                } else {
                    old(self).voxels()
                })
            }),
    {
        let key = VoxelKey::from_point(&point.pos, self.opts.root_size, divide);
        let mut point = point;
        if point.obs.len() < self.opts.min_obs_for_score {
            point.ref_patch = Some(0);
        } else {
            point.update_reference_patch(scores, &self.opts);
        }
        let id: usize = self.visual_pool.len();
        self.visual_pool.push(point);
        let ghost before = self.roots@;
        proof {
            assert forall|k: VoxelKey| before.dom().contains(k) implies root_wf(
                #[trigger] before[k],
                self.opts.max_layer,
                self.visual_pool@.len() as int,
            ) by {
                assert(root_wf(
                    old(self).roots@[k],
                    self.opts.max_layer,
                    old(self).visual_pool@.len() as int,
                ));
            }
        }
        if let Some(place) = self.roots.find(&key) {
            self.roots.at_mut(place).visual_points.push(id);
            proof {
                assert(self.roots@ == before.insert(key, self.roots@[key]));
                assert forall|k: VoxelKey| self.roots@.dom().contains(k) implies root_wf(
                    #[trigger] self.roots@[k],
                    self.opts.max_layer,
                    self.visual_pool@.len() as int,
                ) by {
                    if k == key {
                        assert(root_wf(
                            before[key],
                            self.opts.max_layer,
                            self.visual_pool@.len() as int,
                        ));
                    } else {
                        assert(self.roots@[k] == before[k]);
                    }
                }
                let root = old(self).voxels()[key];
                assert(self.voxels() =~= old(self).voxels().insert(
                    key,
                    RootView { visual_points: root.visual_points.push(id), ..root },
                ));
            }
        } else {
            assert(self.voxels() =~= old(self).voxels());
        }
    }

    /// Whether a visual point gets a patch from a frame: its pixel lies in the
    /// image, and the last patch is old or `distance` pixels away.
    pub fn append_patch_if_needed(
        &self,
        id: usize,
        projection: Option<Projection>,
        width: usize,
        height: usize,
        frame_id: u32,
        distance: Double,
    ) -> (yes: bool)
        requires
            id < self.pool().len(),
        ensures
            yes == (projection is Some && in_image(
                projection->0.u,
                projection->0.v,
                width as int,
                height as int,
            ) && {
                let obs = self.pool()[id as int].obs@;
                obs.len() == 0 || frame_id - obs.last().frame_id
                    > self.settings().patch_add_frame_gap
                    || self.settings().patch_add_pixel_dist.spec_lt(distance)
            }),
    {
        match projection {
            None => false,
            Some(p) => pixel_in_image(p.u, p.v, width, height) && self.visual_pool[id].wants_patch(
                frame_id,
                distance,
                &self.opts,
            ),
        }
    }

    /// A visual point, to be changed.
    pub fn visual_point_mut(&mut self, id: usize) -> (point: &mut VisualPoint)
        requires
            old(self).wf(),
            id < old(self).pool().len(),
        ensures
            *point == old(self).pool()[id as int],
            final(self).wf(),
            final(self).settings() == old(self).settings(),
            final(self).voxels() == old(self).voxels(),
            final(self).frame() == old(self).frame(),
            final(self).slide_position() == old(self).slide_position(),
            final(self).pool() == old(self).pool().update(id as int, *final(point)),
    {
        &mut self.visual_pool[id]
    }

    /// Appends the visual points of a root voxel that can be shown: those that
    /// the camera can project and that have a reference patch, which comes along.
    pub fn collect_visual_points(
        &self,
        key: &VoxelKey,
        visible: &Vec<bool>,
        out: &mut Vec<(usize, usize)>,
    )
        requires
            self.wf(),
            visible@.len() == self.pool().len(),
        ensures
            final(out)@ == old(out)@ + self.shown_in(*key, visible@),
    {
        let ghost first = out@;
        let root = match self.roots.get(key) {
            Some(root) => root,
            None => {
                assert(out@ =~= first + self.shown_in(*key, visible@));
                return;
            },
        };
        let ids = &root.visual_points;
        let ghost pool = self.visual_pool@;
        proof {
            assert(root_wf(self.roots@[*key], self.opts.max_layer, pool.len() as int));
            assert(out@ =~= first + shown(pool, visible@, ids@, 0));
        }
        let mut i: usize = 0;
        while i < ids.len()
            invariant
                i <= ids@.len(),
                pool == self.visual_pool@,
                visible@.len() == pool.len(),
                forall|k: int| 0 <= k < ids@.len() ==> #[trigger] ids@[k] < pool.len(),
                out@ == first + shown(pool, visible@, ids@, i as int),
            decreases ids@.len() - i,
        {
            let id: usize = ids[i];
            if let Some(r) = self.visual_pool[id].ref_patch {
                if visible[id] {
                    out.push((id, r));
                }
            }
            assert(out@ =~= first + shown(pool, visible@, ids@, i + 1));
            i += 1;
        }
    }

    /// The visual points of a root voxel that can be shown.
    pub open spec fn shown_in(&self, key: VoxelKey, visible: Seq<bool>) -> Seq<(usize, usize)> {
        if self.voxels().dom().contains(key) {
            let ids = self.voxels()[key].visual_points;
            shown(self.pool(), visible, ids, ids.len() as int)
        } else {
            seq![]
        }
    }
}

/// Whether a root voxel is in order.
pub open spec fn root_wf(root: RootVoxel, max_layer: usize, pool: int) -> bool {
    &&& root.octo.wf()
    &&& root.octo.layer == 0
    &&& root.octo.max_layer == max_layer
    &&& forall|k: int|
        0 <= k < root.visual_points@.len() ==> #[trigger] root.visual_points@[k] < pool
}

/// Whether a pixel lies in an image.
fn pixel_in_image(u: Double, v: Double, width: usize, height: usize) -> (yes: bool)
    ensures
        yes == in_image(u, v, width as int, height as int),
{
    Double::zero().le(u) && Double::zero().le(v) && below_size(u, width) && below_size(v, height)
}

/// Whether a coordinate that is not negative stays below a size.
fn below_size(c: Double, size: usize) -> (yes: bool)
    requires
        (Double { bits: 0 }).spec_le(c),
    ensures
        yes == (c.truncated() < size),
{
    let k: usize = c.to_usize();
    proof {
        lemma_not_negative(c);
    }
    k < size && k < usize::MAX
}

/// What is not negative is not rounded to something negative.
proof fn lemma_not_negative(c: Double)
    requires
        (Double { bits: 0 }).spec_le(c),
    ensures
        c.truncated() >= 0,
        !c.spec_is_nan(),
{
    if c.bits >= crate::double::SIGN_BIT {
        assert(c.exponent() == 0);
    } else {
        crate::double::lemma_whole_not_negative(c);
    }
}

/// Plans what happens in the cells of the grid.
fn plan_cells(
    planes: &Vec<Option<Projection>>,
    points: &Vec<Option<Projection>>,
    width: usize,
    height: usize,
    opts: &VoxelMapOptions,
) -> (actions: Vec<CellAction>)
    requires
        opts.grid_size > 0,
        cells_for(width as int, opts.grid_size as int) * cells_for(
            height as int,
            opts.grid_size as int,
        ) <= usize::MAX,
    ensures
        actions@ == planned(
            planes@,
            points@,
            width as int,
            height as int,
            opts.grid_size as int,
            cells_for(width as int, opts.grid_size as int) * cells_for(
                height as int,
                opts.grid_size as int,
            ),
        ).1,
{
    let size: usize = opts.grid_size;
    let (cols, rows) = opts.grid_dims(width, height);
    let total: usize = cols * rows;
    let best = best_planes(planes, width, height, size, cols, total);
    let mut pool: Vec<Option<Projection>> = Vec::new();
    let mut q: usize = 0;
    while q < points.len()
        invariant
            q <= points@.len(),
            pool@ == points@.take(q as int),
        decreases points@.len() - q,
    {
        pool.push(points[q]);
        assert(pool@ =~= points@.take(q + 1));
        q += 1;
    }
    assert(pool@ =~= points@);
    let mut actions: Vec<CellAction> = Vec::new();
    let mut k: usize = 0;
    while k < total
        invariant
            k <= total,
            size > 0,
            size == opts.grid_size,
            cols == cells_for(width as int, size as int),
            total == cols * rows,
            best@.len() == total,
            forall|c: int|
                0 <= c < total ==> as_place(#[trigger] best@[c]) == nearest_plane(
                    planes@,
                    c,
                    width as int,
                    height as int,
                    size as int,
                    planes@.len() as int,
                ),
            forall|c: int|
                0 <= c < total ==> (#[trigger] best@[c] matches Some(p) ==> p < planes@.len()),
            (pool@, actions@) == planned(
                planes@,
                points@,
                width as int,
                height as int,
                size as int,
                k as int,
            ),
        decreases total - k,
    {
        assert(cols > 0) by {
            if cols == 0 {
                assert(cols * rows == 0) by (nonlinear_arith)
                    requires
                        cols == 0,
                ;
            }
        }
        let col: usize = k % cols;
        let row: usize = k / cols;
        match grid_visual_point_id(&pool, col, row, size) {
            Some(id) => {
                actions.push(CellAction::Append(id));
            },
            None => {
                assert(as_place(best@[k as int]) == nearest_plane(
                    planes@,
                    k as int,
                    width as int,
                    height as int,
                    size as int,
                    planes@.len() as int,
                ));
                if let Some(p) = best[k] {
                    pool.push(planes[p]);
                    actions.push(CellAction::Create { cell: k, plane: p });
                }
            },
        }
        k += 1;
    }
    actions
}

/// A place as an unbounded number.
pub open spec fn as_place(p: Option<usize>) -> Option<int> {
    match p {
        Some(k) => Some(k as int),
        None => None,
    }
}

/// The cell that a plane's center falls into, if it is seen in front.
fn plane_cell(
    p: Option<Projection>,
    width: usize,
    height: usize,
    size: usize,
    cols: usize,
    total: usize,
) -> (cell: Option<usize>)
    requires
        size > 0,
        cols == cells_for(width as int, size as int),
        total == cols * cells_for(height as int, size as int),
    ensures
        as_place(cell) == seen_cell(p, width as int, height as int, size as int),
        cell matches Some(c) ==> c < total,
{
    let q = match p {
        Some(q) => q,
        None => {
            return None;
        },
    };
    if !pixel_in_image(q.u, q.v, width, height) || !Double::zero().lt(q.depth) {
        return None;
    }
    let gx: usize = q.u.to_usize();
    let gy: usize = q.v.to_usize();
    let col: usize = gx / size;
    let row: usize = gy / size;
    proof {
        lemma_not_negative(q.u);
        lemma_not_negative(q.v);
        lemma_cell_in_grid(gx as int, width as int, size as int);
        lemma_cell_in_grid(gy as int, height as int, size as int);
        let rows = cells_for(height as int, size as int);
        assert(row * cols + col < cols * rows) by (nonlinear_arith)
            requires
                0 <= row < rows,
                0 <= col < cols,
        ;
        assert(row * cols <= row * cols + col);
    }
    Some(row * cols + col)
}

/// A pixel of an image lies in one of the cells that cover it.
proof fn lemma_cell_in_grid(k: int, length: int, size: int)
    requires
        0 <= k < length,
        size > 0,
    ensures
        0 <= k / size < cells_for(length, size),
{
    assert(0 <= k / size < (length + size - 1) / size) by (nonlinear_arith)
        requires
            0 <= k < length,
            size > 0,
    ;
}

/// For each cell the nearest plane whose center falls into it.
fn best_planes(
    planes: &Vec<Option<Projection>>,
    width: usize,
    height: usize,
    size: usize,
    cols: usize,
    total: usize,
) -> (best: Vec<Option<usize>>)
    requires
        size > 0,
        cols == cells_for(width as int, size as int),
        total == cols * cells_for(height as int, size as int),
    ensures
        best@.len() == total,
        forall|c: int|
            0 <= c < total ==> as_place(#[trigger] best@[c]) == nearest_plane(
                planes@,
                c,
                width as int,
                height as int,
                size as int,
                planes@.len() as int,
            ),
        forall|c: int|
            0 <= c < total ==> (#[trigger] best@[c] matches Some(p) ==> p < planes@.len()),
{
    let mut best: Vec<Option<usize>> = Vec::new();
    let mut c: usize = 0;
    while c < total
        invariant
            c <= total,
            best@.len() == c,
            forall|k: int| 0 <= k < c ==> #[trigger] best@[k] is None,
        decreases total - c,
    {
        best.push(None);
        c += 1;
    }
    let mut i: usize = 0;
    while i < planes.len()
        invariant
            i <= planes@.len(),
            size > 0,
            cols == cells_for(width as int, size as int),
            total == cols * cells_for(height as int, size as int),
            best@.len() == total,
            forall|k: int|
                0 <= k < total ==> as_place(#[trigger] best@[k]) == nearest_plane(
                    planes@,
                    k,
                    width as int,
                    height as int,
                    size as int,
                    i as int,
                ),
            forall|k: int| 0 <= k < total ==> (#[trigger] best@[k] matches Some(p) ==> p < i),
            forall|k: int|
                0 <= k < total ==> (#[trigger] best@[k] matches Some(p) ==> planes@[p as int] is Some),
        decreases planes@.len() - i,
    {
        let ghost before = best@;
        if let Some(cell) = plane_cell(planes[i], width, height, size, cols, total) {
            if let Some(q) = planes[i] {
                let nearer = match best[cell] {
                    Some(k) => match planes[k] {
                        Some(p) => q.depth.lt(p.depth),
                        None => false,
                    },
                    None => true,
                };
                if nearer {
                    best.set(cell, Some(i));
                }
                assert(as_place(before[cell as int]) == nearest_plane(
                    planes@,
                    cell as int,
                    width as int,
                    height as int,
                    size as int,
                    i as int,
                ));
            }
        }
        proof {
            assert forall|k: int| 0 <= k < total implies as_place(#[trigger] best@[k])
                == nearest_plane(
                planes@,
                k,
                width as int,
                height as int,
                size as int,
                i + 1,
            ) by {
                assert(as_place(before[k]) == nearest_plane(
                    planes@,
                    k,
                    width as int,
                    height as int,
                    size as int,
                    i as int,
                ));
            }
        }
        i += 1;
    }
    best
}

/// The nearest visual point in a cell.
fn grid_visual_point_id(points: &Vec<Option<Projection>>, col: usize, row: usize, size: usize) -> (
    id: Option<usize>)
    requires
        size > 0,
    ensures
        as_place(id) == nearest_point(
            points@,
            col as int,
            row as int,
            size as int,
            points@.len() as int,
        ).0,
        id matches Some(k) ==> k < points@.len(),
{
    let mut best: Option<usize> = None;
    let mut depth = Double { bits: INFINITY_BITS };
    let mut i: usize = 0;
    while i < points.len()
        invariant
            i <= points@.len(),
            size > 0,
            (as_place(best), depth) == nearest_point(
                points@,
                col as int,
                row as int,
                size as int,
                i as int,
            ),
            best matches Some(k) ==> k < i,
        decreases points@.len() - i,
    {
        if let Some(p) = points[i] {
            if pixel_in_cell(p.u, p.v, col, row, size) && p.depth.lt(depth) {
                depth = p.depth;
                best = Some(i);
            }
        }
        i += 1;
    }
    best
}

/// Whether a pixel lies in a cell.
fn pixel_in_cell(u: Double, v: Double, col: usize, row: usize, size: usize) -> (yes: bool)
    requires
        size > 0,
    ensures
        yes == in_cell(u, v, col as int, row as int, size as int),
{
    if !Double::zero().le(u) || !Double::zero().le(v) {
        return false;
    }
    cell_matches(u, col, size) && cell_matches(v, row, size)
}

/// Whether a coordinate that is not negative lies in a cell of the grid.
fn cell_matches(c: Double, cell: usize, size: usize) -> (yes: bool)
    requires
        (Double { bits: 0 }).spec_le(c),
        size > 0,
    ensures
        yes == (c.truncated() < usize::MAX && c.truncated() / size as int == cell),
{
    let k: usize = c.to_usize();
    proof {
        lemma_not_negative(c);
    }
    k < usize::MAX && k / size == cell
}

/// The window around a place holds no more root voxels than fit.
pub proof fn law_window_is_bounded(keys: Set<VoxelKey>, center: VoxelKey, half: int)
    requires
        half >= 0,
        keys.finite(),
        forall|k: VoxelKey| keys.contains(k) ==> in_window(k, center, half),
    ensures
        keys.len() <= (2 * half + 1) * (2 * half + 1) * (2 * half + 1),
{
    let w = 2 * half + 1;
    let code = |k: VoxelKey|
        ((k.x - center.x + half) * w + (k.y - center.y + half)) * w + (k.z - center.z + half);
    let codes = keys.map(code);
    assert forall|a: VoxelKey, b: VoxelKey|
        keys.contains(a) && keys.contains(b) && #[trigger] code(a) == #[trigger] code(b) implies a
        == b by {
        lemma_codes_differ(
            a.x - center.x + half,
            a.y - center.y + half,
            a.z - center.z + half,
            b.x - center.x + half,
            b.y - center.y + half,
            b.z - center.z + half,
            w,
        );
    }
    vstd::set_lib::lemma_map_size(keys, codes, code);
    vstd::set_lib::lemma_int_range(0, w * w * w);
    let all = vstd::set_lib::set_int_range(0, w * w * w);
    assert forall|c: int| codes.contains(c) implies all.contains(c) by {
        let k = choose|k: VoxelKey| keys.contains(k) && code(k) == c;
        lemma_code_in_range(k.x - center.x + half, k.y - center.y + half, k.z - center.z + half, w);
    }
    vstd::set_lib::lemma_len_subset(codes, all);
}

/// Numbers of three digits differ where a digit does.
proof fn lemma_codes_differ(a: int, b: int, c: int, d: int, e: int, f: int, w: int)
    requires
        0 <= a < w,
        0 <= b < w,
        0 <= c < w,
        0 <= d < w,
        0 <= e < w,
        0 <= f < w,
        (a * w + b) * w + c == (d * w + e) * w + f,
    ensures
        a == d,
        b == e,
        c == f,
{
    vstd::arithmetic::div_mod::lemma_fundamental_div_mod_converse(
        (a * w + b) * w + c,
        w,
        a * w + b,
        c,
    );
    vstd::arithmetic::div_mod::lemma_fundamental_div_mod_converse(
        (d * w + e) * w + f,
        w,
        d * w + e,
        f,
    );
    vstd::arithmetic::div_mod::lemma_fundamental_div_mod_converse(a * w + b, w, a, b);
    vstd::arithmetic::div_mod::lemma_fundamental_div_mod_converse(d * w + e, w, d, e);
}

/// Numbers of three digits stay below the cube of the base.
proof fn lemma_code_in_range(a: int, b: int, c: int, w: int)
    requires
        0 <= a < w,
        0 <= b < w,
        0 <= c < w,
    ensures
        0 <= (a * w + b) * w + c < w * w * w,
{
    assert(0 <= a * w + b <= w * w - 1) by (nonlinear_arith)
        requires
            0 <= a < w,
            0 <= b < w,
    ;
    let t = a * w + b;
    assert(0 <= t * w + c < w * w * w) by (nonlinear_arith)
        requires
            0 <= t <= w * w - 1,
            0 <= c < w,
    ;
}

} // verus!
