//! The octree of a root voxel.
//!
//! A node gathers points until there are enough to try a plane. If they make
//! one, the node keeps it and refines it with later points until it is mature.
//! If not, the node is split and hands its points, then and later, to its
//! children; in the last layer it goes on trying.

use vstd::prelude::*;

use crate::algebra::HALF_BITS;
use crate::arith::{apply_two, binary, of_two};
use crate::double::Double;
use crate::void_map::map_tools::MapTools;
use crate::void_map::options::VoxelMapOptions;
use crate::void_map::plane::VoxelPlane;
use crate::void_map::plane_fit::Eigen;

verus! {

/// A measured point with its covariance (row by row).
#[derive(Clone, Copy, Debug)]
pub struct MapPoint {
    /// The position (m).
    pub position: [Double; 3],
    /// The covariance of the position.
    pub covariance: [Double; 9],
}

/// A node of the tree.
#[derive(Debug)]
pub struct OctoNode {
    /// The layer; zero for the root.
    pub layer: usize,
    /// The last layer.
    pub max_layer: usize,
    /// The center of the node's cube (m).
    pub center: [Double; 3],
    /// Half the edge length of the cube (m).
    pub half_len: Double,
    /// The points that were gathered.
    pub temp_points: Vec<MapPoint>,
    /// The plane, once points made one.
    pub plane: Option<VoxelPlane>,
    /// The eight children.
    pub leaves: Vec<Option<Box<OctoNode>>>,
    /// Whether a plane was tried.
    pub init: bool,
    /// Whether further points are taken.
    pub update_enable: bool,
    /// Points since the last fit.
    pub new_points: usize,
}

/// What a node holds.
pub struct NodeView {
    /// The layer.
    pub layer: int,
    /// The last layer.
    pub max_layer: int,
    /// The center of the cube.
    pub center: [Double; 3],
    /// Half the edge length.
    pub half_len: Double,
    /// The points that were gathered.
    pub points: Seq<MapPoint>,
    /// The plane.
    pub plane: Option<VoxelPlane>,
    /// The children.
    pub leaves: Seq<Option<NodeView>>,
    /// Whether a plane was tried.
    pub init: bool,
    /// Whether further points are taken.
    pub update_enable: bool,
    /// Points since the last fit.
    pub new_points: int,
}

/// How planes are fitted, and where the cubes of children lie.
pub struct Geometry {
    /// The plane that points make, if they do.
    pub plane_of: spec_fn(Seq<MapPoint>) -> Option<VoxelPlane>,
    /// Center and half edge length of a child's cube.
    pub child_of: spec_fn([Double; 3], Double, usize) -> ([Double; 3], Double),
}

/// What child `i` holds.
pub open spec fn leaf_view(leaves: Seq<Option<Box<OctoNode>>>, i: int) -> Option<NodeView>
    decreases leaves,
{
    if 0 <= i < leaves.len() {
        match leaves[i] {
            Some(b) => Some((*b).view()),
            None => None,
        }
    } else {
        None
    }
}

/// The child that a point belongs to: one bit for each axis, set where the point
/// lies beyond the center.
pub open spec fn leaf_of(center: [Double; 3], p: [Double; 3]) -> int {
    (if center@[0].spec_lt(p@[0]) {
        4int
    } else {
        0
    }) + (if center@[1].spec_lt(p@[1]) {
        2int
    } else {
        0
    }) + (if center@[2].spec_lt(p@[2]) {
        1int
    } else {
        0
    })
}

/// How many points a node of a layer gathers before a plane is tried.
pub open spec fn enough(o: VoxelMapOptions, layer: int) -> int {
    o.layer_init_num@[if layer < 4 {
        layer
    } else {
        4
    }] as int
}

/// A node that has not seen a point.
pub open spec fn fresh(layer: int, max_layer: int, center: [Double; 3], half_len: Double) -> NodeView {
    NodeView {
        layer,
        max_layer,
        center,
        half_len,
        points: seq![],
        plane: None,
        leaves: Seq::new(8, |i: int| None),
        init: false,
        update_enable: true,
        new_points: 0,
    }
}

/// A new child of a node.
pub open spec fn fresh_child(n: NodeView, leaf: int, g: Geometry) -> NodeView {
    let cube = (g.child_of)(n.center, n.half_len, leaf as usize);
    fresh(n.layer + 1, n.max_layer, cube.0, cube.1)
}

/// A node with one more point.
pub open spec fn gathered(n: NodeView, p: MapPoint) -> NodeView {
    NodeView { points: n.points.push(p), new_points: n.new_points + 1, ..n }
}

/// A node that keeps a plane; with a mature one it needs no more points.
pub open spec fn with_plane(n: NodeView, plane: VoxelPlane) -> NodeView {
    if plane.is_mature {
        NodeView { plane: Some(plane), update_enable: false, points: seq![], ..n }
    } else {
        NodeView { plane: Some(plane), ..n }
    }
}

/// A node whose plane was fitted again; it stays where the points make none.
pub open spec fn refitted(n: NodeView, g: Geometry) -> NodeView {
    match (g.plane_of)(n.points) {
        Some(plane) => with_plane(n, plane),
        None => n,
    }
}

/// A node with a plane, or in the last layer, with one more point: every few
/// points the plane is fitted again, and a full node takes no more.
pub open spec fn refined(n: NodeView, p: MapPoint, o: VoxelMapOptions, g: Geometry) -> NodeView {
    let a = gathered(n, p);
    let b = if a.new_points > o.update_size_threshold {
        NodeView { new_points: 0, ..refitted(a, g) }
    } else {
        a
    };
    if b.points.len() >= o.max_points_per_plane {
        NodeView { update_enable: false, points: seq![], new_points: 0, ..b }
    } else {
        b
    }
}

/// A node with `d` layers below it after a point was inserted.
pub open spec fn inserted(
    n: NodeView,
    p: MapPoint,
    d: nat,
    o: VoxelMapOptions,
    g: Geometry,
) -> NodeView
    decreases d, 3nat, 0nat,
{
    if !n.init {
        let a = gathered(n, p);
        if a.points.len() > enough(o, n.layer) {
            settled(a, d, o, g)
        } else {
            a
        }
    } else if n.plane is Some || d == 0 {
        if n.update_enable {
            refined(n, p, o, g)
        } else {
            n
        }
    } else {
        passed_down(n, p, d, o, g)
    }
}

/// A node that has gathered enough points: it keeps their plane or is split.
pub open spec fn settled(n: NodeView, d: nat, o: VoxelMapOptions, g: Geometry) -> NodeView
    decreases d, 2nat, 0nat,
{
    let s = match (g.plane_of)(n.points) {
        Some(plane) => with_plane(n, plane),
        None => if d == 0 {
            n
        } else {
            cut(NodeView { points: seq![], ..n }, n.points, n.points.len(), d, o, g)
        },
    };
    NodeView { init: true, new_points: 0, ..s }
}

/// A node that has handed the first `k` points to its children.
pub open spec fn cut(
    n: NodeView,
    points: Seq<MapPoint>,
    k: nat,
    d: nat,
    o: VoxelMapOptions,
    g: Geometry,
) -> NodeView
    decreases d, 1nat, k,
{
    if k == 0 {
        n
    } else {
        passed_down(
            cut(n, points, (k - 1) as nat, d, o, g),
            points[k - 1],
            d,
            o,
            g,
        )
    }
}

/// A node that has handed a point to the child that it belongs to.
pub open spec fn passed_down(
    n: NodeView,
    p: MapPoint,
    d: nat,
    o: VoxelMapOptions,
    g: Geometry,
) -> NodeView
    decreases d, 0nat, 0nat,
{
    if d == 0 {
        n
    } else {
        let leaf = leaf_of(n.center, p.position);
        let child = match n.leaves[leaf] {
            Some(c) => c,
            None => fresh_child(n, leaf, g),
        };
        NodeView {
            leaves: n.leaves.update(leaf, Some(inserted(child, p, (d - 1) as nat, o, g))),
            ..n
        }
    }
}

/// The planes of a node: its own, or those of its children.
pub open spec fn planes_of(n: NodeView) -> Seq<VoxelPlane>
    decreases n, 0nat,
{
    match n.plane {
        Some(plane) => if plane.is_plane {
            seq![plane]
        } else {
            leaf_planes(n.leaves, n.leaves.len())
        },
        None => leaf_planes(n.leaves, n.leaves.len()),
    }
}

/// The planes of the first `k` children.
pub open spec fn leaf_planes(leaves: Seq<Option<NodeView>>, k: nat) -> Seq<VoxelPlane>
    decreases leaves, k,
{
    if k == 0 || k > leaves.len() {
        seq![]
    } else {
        let rest = leaf_planes(leaves, (k - 1) as nat);
        match leaves[k - 1] {
            Some(c) => rest + planes_of(c),
            None => rest,
        }
    }
}

/// The last layer that a node reaches.
pub open spec fn depth_of(n: NodeView) -> int
    decreases n, 0nat,
{
    leaf_depth(n.leaves, n.leaves.len(), n.layer)
}

/// The last layer that the first `k` children reach, at least `layer`.
pub open spec fn leaf_depth(leaves: Seq<Option<NodeView>>, k: nat, layer: int) -> int
    decreases leaves, k,
{
    if k == 0 || k > leaves.len() {
        layer
    } else {
        let rest = leaf_depth(leaves, (k - 1) as nat, layer);
        match leaves[k - 1] {
            Some(c) => if depth_of(c) > rest {
                depth_of(c)
            } else {
                rest
            },
            None => rest,
        }
    }
}

/// The node that a point belongs to: the first on the way down that has not tried
/// a plane, has one, is in the last layer or has no child for the point.
pub open spec fn corresponding(n: NodeView, p: [Double; 3]) -> NodeView
    decreases n,
{
    if !n.init || n.plane is Some || n.layer >= n.max_layer {
        n
    } else {
        let leaf = leaf_of(n.center, p);
        if 0 <= leaf < n.leaves.len() {
            match n.leaves[leaf] {
                Some(c) => corresponding(c, p),
                None => n,
            }
        } else {
            n
        }
    }
}

/// The distance to a child's center along an axis.
pub open spec fn side(up: bool, half: Double) -> Double {
    if up {
        half
    } else {
        half.spec_neg()
    }
}

/// How far the center of a child lies from that of its parent.
pub open spec fn offset_of(leaf: int, half: Double) -> Seq<Double> {
    seq![side(leaf >= 4, half), side(leaf % 4 >= 2, half), side(leaf % 2 == 1, half)]
}

/// The distance to a child's center along an axis.
fn along(up: bool, half: Double) -> (d: Double)
    ensures
        d == side(up, half),
{
    if up {
        half
    } else {
        half.neg()
    }
}

/// How far the center of a child lies from that of its parent, for a child with
/// the given half edge.
pub fn leaf_offset(leaf: usize, half: Double) -> (o: [Double; 3])
    ensures
        o@ == offset_of(leaf as int, half),
{
    let o = [along(leaf >= 4, half), along(leaf % 4 >= 2, half), along(leaf % 2 == 1, half)];
    assert(o@ =~= offset_of(leaf as int, half));
    o
}

/// The cube of a child: its center, and half its edge.
pub fn child_cube<P: Fn(Double, Double) -> Double, T: Fn(Double, Double) -> Double>(
    center: &[Double; 3],
    half_len: Double,
    leaf: usize,
    plus: &P,
    times: &T,
) -> (cube: ([Double; 3], Double))
    requires
        binary(*plus),
        binary(*times),
    ensures
        cube.1 == of_two(*times, half_len, Double { bits: HALF_BITS }),
        forall|i: int|
            0 <= i < 3 ==> #[trigger] cube.0@[i] == of_two(
                *plus,
                center@[i],
                offset_of(leaf as int, cube.1)[i],
            ),
{
    let half = apply_two(times, half_len, Double { bits: HALF_BITS });
    let o = leaf_offset(leaf, half);
    let moved = [
        apply_two(plus, center[0], o[0]),
        apply_two(plus, center[1], o[1]),
        apply_two(plus, center[2], o[2]),
    ];
    (moved, half)
}

impl OctoNode {
    /// What the node holds.
    pub open spec fn view(&self) -> NodeView
        decreases *self,
    {
        NodeView {
            layer: self.layer as int,
            max_layer: self.max_layer as int,
            center: self.center,
            half_len: self.half_len,
            points: self.temp_points@,
            plane: self.plane,
            leaves: Seq::new(self.leaves@.len(), |i: int| leaf_view(self.leaves@, i)),
            init: self.init,
            update_enable: self.update_enable,
            new_points: self.new_points as int,
        }
    }

    /// Whether the node is in order: eight children one layer below, planes only
    /// after a try, and enough points wherever one is fitted again.
    pub open spec fn wf(&self) -> bool
        decreases *self,
    {
        &&& self.layer <= self.max_layer < usize::MAX
        &&& self.leaves@.len() == 8
        &&& forall|i: int|
            0 <= i < self.leaves@.len() ==> match #[trigger] self.leaves@[i] {
                Some(b) => (*b).layer == self.layer + 1 && (*b).max_layer == self.max_layer && (
                *b).wf(),
                None => true,
            }
        &&& self.layer == self.max_layer ==> forall|i: int|
            0 <= i < 8 ==> (#[trigger] self.leaves@[i]) is None
        &&& self.new_points <= self.temp_points@.len()
        &&& self.plane is Some ==> self.init
        &&& self.init && self.update_enable && (self.plane is Some || self.layer == self.max_layer)
            ==> self.temp_points@.len() >= 3
    }

    /// The layers below.
    pub open spec fn below(&self) -> nat {
        (self.max_layer - self.layer) as nat
    }

    /// A node without points.
    pub fn new(layer: usize, max_layer: usize, center: [Double; 3], half_len: Double) -> (n: OctoNode)
        requires
            layer <= max_layer < usize::MAX,
        ensures
            n.wf(),
            n@ == fresh(layer as int, max_layer as int, center, half_len),
    {
        let mut leaves: Vec<Option<Box<OctoNode>>> = Vec::new();
        let mut i: usize = 0;
        while i < 8
            invariant
                i <= 8,
                leaves@.len() == i,
                forall|k: int| 0 <= k < i ==> #[trigger] leaves@[k] is None,
            decreases 8 - i,
        {
            leaves.push(None);
            i += 1;
        }
        let n = OctoNode {
            layer,
            max_layer,
            center,
            half_len,
            temp_points: Vec::new(),
            plane: None,
            leaves,
            init: false,
            update_enable: true,
            new_points: 0,
        };
        assert(n@.leaves =~= Seq::new(8, |i: int| None::<NodeView>)) by {
            assert forall|i: int| 0 <= i < 8 implies n@.leaves[i] is None by {
                assert(leaves@[i] is None);
            }
        }
        assert(n@.points =~= seq![]);
        n
    }

    /// A root node; `half_len` is half the size of a root voxel.
    pub fn new_root(center: [Double; 3], half_len: Double, opts: &VoxelMapOptions) -> (n: OctoNode)
        requires
            opts.max_layer < usize::MAX,
        ensures
            n.wf(),
            n@ == fresh(0, opts.max_layer as int, center, half_len),
    {
        OctoNode::new(0, opts.max_layer, center, half_len)
    }

    /// The child that a point belongs to.
    fn leaf_index(center: &[Double; 3], p: &[Double; 3]) -> (leaf: usize)
        ensures
            leaf == leaf_of(*center, *p),
            leaf < 8,
    {
        let dx: usize = if center[0].lt(p[0]) {
            4
        } else {
            0
        };
        let dy: usize = if center[1].lt(p[1]) {
            2
        } else {
            0
        };
        let dz: usize = if center[2].lt(p[2]) {
            1
        } else {
            0
        };
        dx + dy + dz
    }

    /// Inserts a point: it is gathered until there are enough for a plane, which faces
    /// the camera, or handed to the child that it lies in.
    pub fn insert<
        E: Fn([Double; 9]) -> Eigen,
        N: Fn(usize) -> Double,
        W: Fn(i64) -> Double,
        L: Fn([Double; 3]) -> Double,
        P: Fn(Double, Double) -> Double,
        T: Fn(Double, Double) -> Double,
        V: Fn(Double, Double) -> Double,
        R: Fn(Double) -> Double,
    >(
        &mut self,
        p: MapPoint,
        opts: &VoxelMapOptions,
        camera: &[Double; 3],
        tools: &MapTools<E, N, W, L, P, T, V, R>,
    )
        requires
            old(self).wf(),
            forall|i: int| 0 <= i < 5 ==> #[trigger] opts.layer_init_num@[i] >= 2,
            tools.wf(),
        ensures
            final(self).wf(),
            final(self).layer == old(self).layer,
            final(self).max_layer == old(self).max_layer,
            final(self)@ == inserted(
                old(self)@,
                p,
                old(self).below(),
                *opts,
                tools.geometry(opts.fit_options(), camera@),
            ),
        decreases old(self).below(), 3nat,
    {
        let ghost g = tools.geometry(opts.fit_options(), camera@);
        if !self.init {
            self.temp_points.push(p);
            assert(self.new_points < self.temp_points.len());
            self.new_points += 1;
            let slot: usize = if self.layer < 4 {
                self.layer
            } else {
                4
            };
            assert(self@.leaves =~= old(self)@.leaves);
            assert(self@ == gathered(old(self)@, p));
            if self.temp_points.len() > opts.layer_init_num[slot] {
                self.init_octo_tree(opts, camera, tools);
            }
            return;
        }
        if self.plane.is_some() || self.layer >= self.max_layer {
            if self.update_enable {
                self.temp_points.push(p);
                assert(self.new_points < self.temp_points.len());
                self.new_points += 1;
                assert(self@.leaves =~= old(self)@.leaves);
                assert(self@ == gathered(old(self)@, p));
                let ghost a = self@;
                if self.new_points > opts.update_size_threshold {
                    self.refit_plane(opts, camera, tools);
                    self.new_points = 0;
                    assert(self@.leaves =~= a.leaves);
                    assert(self@ == (NodeView { new_points: 0, ..refitted(a, g) }));
                }
                let ghost b = self@;
                if self.temp_points.len() >= opts.max_points_per_plane {
                    self.update_enable = false;
                    self.temp_points.clear();
                    self.new_points = 0;
                    assert(self@.leaves =~= b.leaves);
                    assert(self@.points =~= seq![]);
                }
            }
            return;
        }
        self.pass_down(p, opts, camera, tools);
    }

    /// Keeps the plane of the gathered points, or splits the node.
    fn init_octo_tree<
        E: Fn([Double; 9]) -> Eigen,
        N: Fn(usize) -> Double,
        W: Fn(i64) -> Double,
        L: Fn([Double; 3]) -> Double,
        P: Fn(Double, Double) -> Double,
        T: Fn(Double, Double) -> Double,
        V: Fn(Double, Double) -> Double,
        R: Fn(Double) -> Double,
    >(
        &mut self,
        opts: &VoxelMapOptions,
        camera: &[Double; 3],
        tools: &MapTools<E, N, W, L, P, T, V, R>,
    )
        requires
            old(self).wf(),
            !old(self).init,
            old(self).temp_points@.len() >= 3,
            forall|i: int| 0 <= i < 5 ==> #[trigger] opts.layer_init_num@[i] >= 2,
            tools.wf(),
        ensures
            final(self).wf(),
            final(self).layer == old(self).layer,
            final(self).max_layer == old(self).max_layer,
            final(self)@ == settled(
                old(self)@,
                old(self).below(),
                *opts,
                tools.geometry(opts.fit_options(), camera@),
            ),
        decreases old(self).below(), 2nat,
    {
        let ghost g = tools.geometry(opts.fit_options(), camera@);
        let found = tools.fit(&self.temp_points, &opts.plane_options(), camera);
        assert((g.plane_of)(self.temp_points@) == found);
        match found {
            Some(plane) => {
                let mature = plane.is_mature;
                self.plane = Some(plane);
                if mature {
                    self.update_enable = false;
                    self.temp_points.clear();
                    assert(self@.points =~= seq![]);
                }
                self.init = true;
                self.new_points = 0;
                assert(self@.leaves =~= old(self)@.leaves);
            },
            None => {
                if self.layer < self.max_layer {
                    self.cut_octo_tree(opts, camera, tools);
                }
                let ghost s = self@;
                self.init = true;
                self.new_points = 0;
                assert(self@.leaves =~= s.leaves);
            },
        }
    }

    /// Hands all gathered points to the children.
    fn cut_octo_tree<
        E: Fn([Double; 9]) -> Eigen,
        N: Fn(usize) -> Double,
        W: Fn(i64) -> Double,
        L: Fn([Double; 3]) -> Double,
        P: Fn(Double, Double) -> Double,
        T: Fn(Double, Double) -> Double,
        V: Fn(Double, Double) -> Double,
        R: Fn(Double) -> Double,
    >(
        &mut self,
        opts: &VoxelMapOptions,
        camera: &[Double; 3],
        tools: &MapTools<E, N, W, L, P, T, V, R>,
    )
        requires
            old(self).wf(),
            !old(self).init,
            old(self).layer < old(self).max_layer,
            forall|i: int| 0 <= i < 5 ==> #[trigger] opts.layer_init_num@[i] >= 2,
            tools.wf(),
        ensures
            final(self).wf_but_count(),
            final(self).temp_points@.len() == 0,
            final(self).plane is None,
            final(self).layer == old(self).layer,
            final(self).max_layer == old(self).max_layer,
            final(self)@ == cut(
                NodeView { points: seq![], ..old(self)@ },
                old(self)@.points,
                old(self)@.points.len(),
                old(self).below(),
                *opts,
                tools.geometry(opts.fit_options(), camera@),
            ),
        decreases old(self).below(), 1nat,
    {
        let ghost g = tools.geometry(opts.fit_options(), camera@);
        let mut points: Vec<MapPoint> = Vec::new();
        std::mem::swap(&mut points, &mut self.temp_points);
        let ghost start = self@;
        assert(start.leaves =~= old(self)@.leaves);
        assert(start.points =~= seq![]);
        assert(start == (NodeView { points: seq![], ..old(self)@ }));
        let mut k: usize = 0;
        while k < points.len()
            invariant
                k <= points@.len(),
                points@ == old(self)@.points,
                self.wf_but_count(),
                !self.init,
                self.temp_points@.len() == 0,
                self.plane is None,
                self.layer == old(self).layer,
                self.max_layer == old(self).max_layer,
                self.layer < self.max_layer,
                forall|i: int| 0 <= i < 5 ==> #[trigger] opts.layer_init_num@[i] >= 2,
                tools.wf(),
                g == tools.geometry(opts.fit_options(), camera@),
                start == (NodeView { points: seq![], ..old(self)@ }),
                self@ == cut(start, points@, k as nat, old(self).below(), *opts, g),
            decreases points@.len() - k,
        {
            self.pass_down(points[k], opts, camera, tools);
            k += 1;
        }
    }

    /// Whether the node is in order but for the count of new points.
    pub open spec fn wf_but_count(&self) -> bool {
        &&& self.layer <= self.max_layer < usize::MAX
        &&& self.leaves@.len() == 8
        &&& forall|i: int|
            0 <= i < self.leaves@.len() ==> match #[trigger] self.leaves@[i] {
                Some(b) => (*b).layer == self.layer + 1 && (*b).max_layer == self.max_layer && (
                *b).wf(),
                None => true,
            }
        &&& self.layer == self.max_layer ==> forall|i: int|
            0 <= i < 8 ==> (#[trigger] self.leaves@[i]) is None
    }

    /// Hands a point to the child that it belongs to, which is made if need be.
    fn pass_down<
        E: Fn([Double; 9]) -> Eigen,
        N: Fn(usize) -> Double,
        W: Fn(i64) -> Double,
        L: Fn([Double; 3]) -> Double,
        P: Fn(Double, Double) -> Double,
        T: Fn(Double, Double) -> Double,
        V: Fn(Double, Double) -> Double,
        R: Fn(Double) -> Double,
    >(
        &mut self,
        p: MapPoint,
        opts: &VoxelMapOptions,
        camera: &[Double; 3],
        tools: &MapTools<E, N, W, L, P, T, V, R>,
    )
        requires
            old(self).wf_but_count(),
            old(self).layer < old(self).max_layer,
            forall|i: int| 0 <= i < 5 ==> #[trigger] opts.layer_init_num@[i] >= 2,
            tools.wf(),
        ensures
            final(self).wf_but_count(),
            *final(self) == (OctoNode { leaves: final(self).leaves, ..*old(self) }),
            final(self)@ == passed_down(
                old(self)@,
                p,
                old(self).below(),
                *opts,
                tools.geometry(opts.fit_options(), camera@),
            ),
        decreases old(self).below(), 0nat,
    {
        let ghost g = tools.geometry(opts.fit_options(), camera@);
        let leaf: usize = OctoNode::leaf_index(&self.center, &p.position);
        let mut slot: Option<Box<OctoNode>> = None;
        std::mem::swap(&mut slot, &mut self.leaves[leaf]);
        let mut node: Box<OctoNode> = match slot {
            Some(node) => node,
            None => {
                let cube = tools.child(
                    self.center,
                    self.half_len,
                    leaf,
                    Ghost(opts.fit_options()),
                    Ghost(camera@),
                );
                let node = OctoNode::new(self.layer + 1, self.max_layer, cube.0, cube.1);
                assert((g.child_of)(self.center, self.half_len, leaf) == cube);
                Box::new(node)
            },
        };
        let ghost first = old(self)@.leaves;
        assert(first[leaf as int] == leaf_view(old(self).leaves@, leaf as int));
        (&mut *node).insert(p, opts, camera, tools);
        self.leaves.set(leaf, Some(node));
        proof {
            let after = passed_down(old(self)@, p, old(self).below(), *opts, g);
            assert forall|i: int| 0 <= i < 8 implies self@.leaves[i] == after.leaves[i] by {
                assert(self@.leaves[i] == leaf_view(self.leaves@, i));
                assert(first[i] == leaf_view(old(self).leaves@, i));
            }
            assert(self@.leaves =~= after.leaves);
        }
    }

    /// Fits the plane again; it stays where the points make none.
    fn refit_plane<
        E: Fn([Double; 9]) -> Eigen,
        N: Fn(usize) -> Double,
        W: Fn(i64) -> Double,
        L: Fn([Double; 3]) -> Double,
        P: Fn(Double, Double) -> Double,
        T: Fn(Double, Double) -> Double,
        V: Fn(Double, Double) -> Double,
        R: Fn(Double) -> Double,
    >(
        &mut self,
        opts: &VoxelMapOptions,
        camera: &[Double; 3],
        tools: &MapTools<E, N, W, L, P, T, V, R>,
    )
        requires
            tools.wf(),
            old(self).temp_points@.len() >= 3,
        ensures
            *final(self) == (OctoNode {
                plane: final(self).plane,
                update_enable: final(self).update_enable,
                temp_points: final(self).temp_points,
                ..*old(self)
            }),
            final(self)@ == refitted(old(self)@, tools.geometry(opts.fit_options(), camera@)),
    {
        let found = tools.fit(&self.temp_points, &opts.plane_options(), camera);
        if let Some(plane) = found {
            let mature = plane.is_mature;
            self.plane = Some(plane);
            if mature {
                self.update_enable = false;
                self.temp_points.clear();
                assert(self@.points =~= seq![]);
            }
        }
        assert(self@.leaves =~= old(self)@.leaves);
    }

    /// The node that a point belongs to.
    pub fn find_correspond(&self, p: &[Double; 3]) -> (n: &OctoNode)
        requires
            self.wf(),
        ensures
            n@ == corresponding(self@, *p),
            n.wf(),
        decreases self.below(),
    {
        if !self.init || self.plane.is_some() || self.layer >= self.max_layer {
            return self;
        }
        let leaf: usize = OctoNode::leaf_index(&self.center, p);
        assert(self@.leaves[leaf as int] == leaf_view(self.leaves@, leaf as int));
        match &self.leaves[leaf] {
            Some(child) => child.find_correspond(p),
            None => self,
        }
    }

    /// Appends the planes of the node.
    pub fn collect_planes<'a>(&'a self, out: &mut Vec<&'a VoxelPlane>)
        requires
            self.wf(),
        ensures
            final(out)@.len() == old(out)@.len() + planes_of(self@).len(),
            forall|i: int| 0 <= i < old(out)@.len() ==> #[trigger] final(out)@[i] == old(out)@[i],
            forall|i: int|
                0 <= i < planes_of(self@).len() ==> *(#[trigger] appended(
                    final(out)@,
                    old(out)@.len() as int,
                    i,
                )) == planes_of(self@)[i],
        decreases self.below(),
    {
        if let Some(plane) = &self.plane {
            if plane.is_plane {
                out.push(plane);
                return;
            }
        }
        let ghost first = out@;
        let ghost leaves = self@.leaves;
        let mut k: usize = 0;
        while k < 8
            invariant
                k <= 8,
                self.wf(),
                leaves == self@.leaves,
                out@.len() == first.len() + leaf_planes(leaves, k as nat).len(),
                forall|i: int| 0 <= i < first.len() ==> #[trigger] out@[i] == first[i],
                forall|i: int|
                    0 <= i < leaf_planes(leaves, k as nat).len() ==> *(#[trigger] appended(
                        out@,
                        first.len() as int,
                        i,
                    )) == leaf_planes(leaves, k as nat)[i],
            decreases 8 - k,
        {
            assert(leaves[k as int] == leaf_view(self.leaves@, k as int));
            let ghost before = out@;
            let ghost rest = leaf_planes(leaves, k as nat);
            if let Some(child) = &self.leaves[k] {
                child.collect_planes(out);
                proof {
                    let all = leaf_planes(leaves, (k + 1) as nat);
                    let own = planes_of(child@);
                    assert(all == rest + own);
                    assert forall|i: int| 0 <= i < all.len() implies *(#[trigger] appended(
                        out@,
                        first.len() as int,
                        i,
                    )) == all[i] by {
                        if i < rest.len() {
                            assert(*appended(before, first.len() as int, i) == rest[i]);
                            assert(out@[first.len() + i] == before[first.len() + i]);
                        } else {
                            assert(*appended(out@, before.len() as int, i - rest.len())
                                == own[i - rest.len()]);
                        }
                    }
                    assert forall|i: int| 0 <= i < first.len() implies #[trigger] out@[i]
                        == first[i] by {
                        assert(out@[i] == before[i]);
                    }
                }
            }
            k += 1;
        }
    }

    /// How many planes the node has.
    pub fn plane_count(&self) -> (n: usize)
        requires
            self.wf(),
            planes_of(self@).len() <= usize::MAX,
        ensures
            n == planes_of(self@).len(),
        decreases self.below(),
    {
        if let Some(plane) = &self.plane {
            if plane.is_plane {
                return 1;
            }
        }
        let ghost leaves = self@.leaves;
        let mut n: usize = 0;
        let mut k: usize = 0;
        while k < 8
            invariant
                k <= 8,
                self.wf(),
                leaves == self@.leaves,
                leaves.len() == 8,
                leaf_planes(leaves, 8).len() <= usize::MAX,
                n == leaf_planes(leaves, k as nat).len(),
            decreases 8 - k,
        {
            assert(leaves[k as int] == leaf_view(self.leaves@, k as int));
            proof {
                lemma_leaf_planes_monotonic(leaves, (k + 1) as nat, 8);
            }
            if let Some(child) = &self.leaves[k] {
                n += child.plane_count();
            }
            k += 1;
        }
        n
    }

    /// The last layer that the node reaches.
    pub fn depth(&self) -> (d: usize)
        requires
            self.wf(),
        ensures
            d == depth_of(self@),
            d <= self.max_layer,
        decreases self.below(),
    {
        let ghost leaves = self@.leaves;
        let mut d: usize = self.layer;
        let mut k: usize = 0;
        while k < 8
            invariant
                k <= 8,
                self.wf(),
                leaves == self@.leaves,
                d <= self.max_layer,
                d == leaf_depth(leaves, k as nat, self.layer as int),
            decreases 8 - k,
        {
            assert(leaves[k as int] == leaf_view(self.leaves@, k as int));
            if let Some(child) = &self.leaves[k] {
                let c: usize = child.depth();
                if c > d {
                    d = c;
                }
            }
            k += 1;
        }
        d
    }
}

/// What lies `i` places behind the first `n`.
pub open spec fn appended<T>(items: Seq<T>, n: int, i: int) -> T {
    items[n + i]
}

/// More children have no fewer planes.
proof fn lemma_leaf_planes_monotonic(leaves: Seq<Option<NodeView>>, i: nat, j: nat)
    requires
        i <= j <= leaves.len(),
    ensures
        leaf_planes(leaves, i).len() <= leaf_planes(leaves, j).len(),
    decreases j,
{
    if i < j {
        lemma_leaf_planes_monotonic(leaves, i, (j - 1) as nat);
    }
}

/// No node lies below the last layer.
pub proof fn law_depth_is_bounded(n: &OctoNode)
    requires
        n.wf(),
    ensures
        n.layer <= depth_of(n@) <= n.max_layer,
    decreases n.below(), 9nat,
{
    lemma_leaf_depth(n, 8);
}

/// No child lies below the last layer.
proof fn lemma_leaf_depth(n: &OctoNode, k: nat)
    requires
        n.wf(),
        k <= 8,
    ensures
        n.layer <= leaf_depth(n@.leaves, k, n.layer as int) <= n.max_layer,
    decreases n.below(), k,
{
    if k > 0 {
        lemma_leaf_depth(n, (k - 1) as nat);
        assert(n@.leaves[k - 1] == leaf_view(n.leaves@, k - 1));
        if let Some(b) = n.leaves@[k - 1] {
            law_depth_is_bounded(&*b);
        }
    }
}

/// A node that takes no more points does not change, wherever it keeps a plane or
/// has no layer below it.
pub proof fn law_mature_planes_stay(
    n: NodeView,
    p: MapPoint,
    d: nat,
    o: VoxelMapOptions,
    g: Geometry,
)
    requires
        n.init,
        n.plane is Some || d == 0,
        !n.update_enable,
    ensures
        inserted(n, p, d, o, g) == n,
{
}

/// A plane that was found is never lost: a node with one keeps one.
pub proof fn law_planes_are_kept(
    n: NodeView,
    p: MapPoint,
    d: nat,
    o: VoxelMapOptions,
    g: Geometry,
)
    requires
        n.init,
        n.plane is Some,
    ensures
        inserted(n, p, d, o, g).plane is Some,
        inserted(n, p, d, o, g).leaves == n.leaves,
{
}

/// Whether two points lie on the same side of a center, along each of the axes.
pub open spec fn same_side(center: [Double; 3], p: [Double; 3], q: [Double; 3]) -> bool {
    forall|i: int|
        0 <= i < 3 ==> (#[trigger] center@[i].spec_lt(p@[i]) <==> center@[i].spec_lt(q@[i]))
}

/// Whether a node or one of those below it holds a point.
pub open spec fn holds(n: NodeView, p: MapPoint) -> bool
    decreases n,
{
    n.points.contains(p) || exists|k: int|
        0 <= k < n.leaves.len() && match #[trigger] n.leaves[k] {
            Some(c) => holds(c, p),
            None => false,
        }
}

/// Whether every point below a node with `d` layers under it lies where the node
/// hands it on.
pub open spec fn routed(n: NodeView, d: nat) -> bool
    decreases d,
{
    &&& n.layer + d == n.max_layer
    &&& n.leaves.len() == 8
    &&& d == 0 ==> forall|k: int| 0 <= k < 8 ==> #[trigger] n.leaves[k] is None
    &&& d > 0 ==> forall|k: int|
        0 <= k < 8 && (#[trigger] n.leaves[k]) is Some ==> {
            let c = n.leaves[k]->0;
            &&& routed(c, (d - 1) as nat)
            &&& c.layer == n.layer + 1
            &&& forall|p: MapPoint| #[trigger] holds(c, p) ==> leaf_of(n.center, p.position) == k
        }
}

/// Two points are handed to the same child exactly where they lie on the same side
/// of the center along each of the axes.
pub proof fn law_children_part_at_the_center(center: [Double; 3], p: [Double; 3], q: [Double; 3])
    ensures
        0 <= leaf_of(center, p) < 8,
        leaf_of(center, p) == leaf_of(center, q) <==> same_side(center, p, q),
{
    if same_side(center, p, q) {
        assert(center@[0].spec_lt(p@[0]) <==> center@[0].spec_lt(q@[0]));
        assert(center@[1].spec_lt(p@[1]) <==> center@[1].spec_lt(q@[1]));
        assert(center@[2].spec_lt(p@[2]) <==> center@[2].spec_lt(q@[2]));
    }
}

/// A point that is handed to a child lies from the parent's center to the side of
/// the child's: along each axis the offset to the child's center is half the
/// child's edge, upwards where the point lies beyond the center and downwards
/// elsewhere.
pub proof fn law_child_lies_where_the_point_does(
    center: [Double; 3],
    p: [Double; 3],
    half: Double,
    i: int,
)
    requires
        0 <= i < 3,
    ensures
        offset_of(leaf_of(center, p), half).len() == 3,
        center@[i].spec_lt(p@[i]) ==> offset_of(leaf_of(center, p), half)[i] == half,
        !center@[i].spec_lt(p@[i]) ==> offset_of(leaf_of(center, p), half)[i] == half.spec_neg(),
{
}

/// What was inserted stays sorted, and nothing else comes to be held.
proof fn lemma_inserted_is_routed(
    n: NodeView,
    p: MapPoint,
    d: nat,
    o: VoxelMapOptions,
    g: Geometry,
)
    requires
        routed(n, d),
    ensures
        routed(inserted(n, p, d, o, g), d),
        inserted(n, p, d, o, g).center == n.center,
        inserted(n, p, d, o, g).layer == n.layer,
        forall|q: MapPoint| #[trigger] holds(inserted(n, p, d, o, g), q) ==> holds(n, q) || q == p,
    decreases d, 3nat, 0nat,
{
    let after = inserted(n, p, d, o, g);
    if !n.init {
        let a = gathered(n, p);
        assert(routed(a, d));
        lemma_fewer_points(n, a, p);
        if a.points.len() > enough(o, n.layer) {
            lemma_settled_is_routed(a, d, o, g);
        }
    } else if n.plane is Some || d == 0 {
        assert(after.leaves == n.leaves);
        lemma_fewer_points(n, after, p);
    } else {
        lemma_passed_is_routed(n, p, d, o, g);
    }
}

/// A node with the children of another and no point of its own but those of the
/// other and one more holds no others.
proof fn lemma_fewer_points(n: NodeView, a: NodeView, p: MapPoint)
    requires
        a.leaves == n.leaves,
        forall|q: MapPoint| #[trigger] a.points.contains(q) ==> n.points.contains(q) || q == p,
    ensures
        forall|q: MapPoint| #[trigger] holds(a, q) ==> holds(n, q) || q == p,
{
    assert forall|q: MapPoint| #[trigger] holds(a, q) implies holds(n, q) || q == p by {
        if !a.points.contains(q) {
            let k = choose|k: int|
                0 <= k < a.leaves.len() && match #[trigger] a.leaves[k] {
                    Some(c) => holds(c, q),
                    None => false,
                };
            assert(n.leaves[k] == a.leaves[k]);
        }
    }
}

/// What is settled stays sorted, and nothing else comes to be held.
proof fn lemma_settled_is_routed(n: NodeView, d: nat, o: VoxelMapOptions, g: Geometry)
    requires
        routed(n, d),
    ensures
        routed(settled(n, d, o, g), d),
        settled(n, d, o, g).center == n.center,
        settled(n, d, o, g).layer == n.layer,
        forall|q: MapPoint| #[trigger] holds(settled(n, d, o, g), q) ==> holds(n, q),
    decreases d, 2nat, 0nat,
{
    let after = settled(n, d, o, g);
    if (g.plane_of)(n.points) is None && d > 0 {
        let bare = NodeView { points: seq![], ..n };
        lemma_cut_is_routed(bare, n.points, n.points.len(), d, o, g);
        let s = cut(bare, n.points, n.points.len(), d, o, g);
        assert forall|q: MapPoint| #[trigger] holds(after, q) implies holds(n, q) by {
            lemma_fewer_points(s, after, q);
            lemma_held_by_same(s, after, q);
            if holds(bare, q) {
                lemma_held_by_more(bare, n, q);
            }
        }
    } else {
        assert forall|q: MapPoint| #[trigger] holds(after, q) implies holds(n, q) by {
            lemma_held_by_more(after, n, q);
        }
    }
}

/// A node with the children of another and no more points holds no more.
proof fn lemma_held_by_more(a: NodeView, b: NodeView, q: MapPoint)
    requires
        a.leaves == b.leaves,
        a.points.contains(q) ==> b.points.contains(q),
        holds(a, q),
    ensures
        holds(b, q),
{
    if !a.points.contains(q) {
        let k = choose|k: int|
            0 <= k < a.leaves.len() && match #[trigger] a.leaves[k] {
                Some(c) => holds(c, q),
                None => false,
            };
        assert(b.leaves[k] == a.leaves[k]);
    }
}

/// Nodes with the same children and points hold the same.
proof fn lemma_held_by_same(a: NodeView, b: NodeView, q: MapPoint)
    requires
        a.leaves == b.leaves,
        a.points == b.points,
    ensures
        holds(a, q) == holds(b, q),
{
    if holds(a, q) {
        lemma_held_by_more(a, b, q);
    }
    if holds(b, q) {
        lemma_held_by_more(b, a, q);
    }
}

/// What is split stays sorted, and nothing else comes to be held.
proof fn lemma_cut_is_routed(
    n: NodeView,
    points: Seq<MapPoint>,
    k: nat,
    d: nat,
    o: VoxelMapOptions,
    g: Geometry,
)
    requires
        routed(n, d),
        d > 0,
        k <= points.len(),
    ensures
        routed(cut(n, points, k, d, o, g), d),
        cut(n, points, k, d, o, g).center == n.center,
        cut(n, points, k, d, o, g).layer == n.layer,
        cut(n, points, k, d, o, g).points == n.points,
        forall|q: MapPoint|
            #[trigger] holds(cut(n, points, k, d, o, g), q) ==> holds(n, q) || points.contains(q),
    decreases d, 1nat, k,
{
    if k > 0 {
        let m = (k - 1) as nat;
        lemma_cut_is_routed(n, points, m, d, o, g);
        lemma_passed_is_routed(cut(n, points, m, d, o, g), points[k - 1], d, o, g);
        assert(points.contains(points[k - 1]));
    }
}

/// What is handed on stays sorted, and nothing else comes to be held.
proof fn lemma_passed_is_routed(n: NodeView, p: MapPoint, d: nat, o: VoxelMapOptions, g: Geometry)
    requires
        routed(n, d),
        d > 0,
    ensures
        routed(passed_down(n, p, d, o, g), d),
        passed_down(n, p, d, o, g).center == n.center,
        passed_down(n, p, d, o, g).layer == n.layer,
        passed_down(n, p, d, o, g).points == n.points,
        forall|q: MapPoint|
            #[trigger] holds(passed_down(n, p, d, o, g), q) ==> holds(n, q) || q == p,
    decreases d, 0nat, 0nat,
{
    let after = passed_down(n, p, d, o, g);
    let leaf = leaf_of(n.center, p.position);
    let child = match n.leaves[leaf] {
        Some(c) => c,
        None => fresh_child(n, leaf, g),
    };
    let e = (d - 1) as nat;
    if n.leaves[leaf] is None {
        assert(routed(child, e));
        assert forall|q: MapPoint| !#[trigger] holds(child, q) by {
            if holds(child, q) {
                let k = choose|k: int|
                    0 <= k < child.leaves.len() && match #[trigger] child.leaves[k] {
                        Some(c) => holds(c, q),
                        None => false,
                    };
                assert(child.leaves[k] is None);
            }
        }
    }
    lemma_inserted_is_routed(child, p, e, o, g);
    let now = inserted(child, p, e, o, g);
    assert forall|k: int| 0 <= k < 8 && (#[trigger] after.leaves[k]) is Some implies {
        let c = after.leaves[k]->0;
        &&& routed(c, e)
        &&& c.layer == n.layer + 1
        &&& forall|q: MapPoint| #[trigger] holds(c, q) ==> leaf_of(n.center, q.position) == k
    } by {
        if k == leaf {
            assert(after.leaves[k]->0 == now);
        } else {
            assert(after.leaves[k] == n.leaves[k]);
        }
    }
    assert forall|q: MapPoint| #[trigger] holds(after, q) implies holds(n, q) || q == p by {
        if !after.points.contains(q) {
            let k = choose|k: int|
                0 <= k < after.leaves.len() && match #[trigger] after.leaves[k] {
                    Some(c) => holds(c, q),
                    None => false,
                };
            if k == leaf {
                assert(holds(now, q));
                if holds(child, q) {
                    assert(n.leaves[leaf] == Some(child));
                }
            } else {
                assert(after.leaves[k] == n.leaves[k]);
            }
        }
    }
}

/// A root that has not seen a point holds none, and points stay sorted: however
/// many are inserted, all that a child holds lie on one side of the center along
/// each of the axes, and two children hold no points that lie on the same side
/// along all of them.
pub proof fn law_children_divide_the_points(
    n: NodeView,
    p: MapPoint,
    d: nat,
    o: VoxelMapOptions,
    g: Geometry,
)
    requires
        routed(n, d),
    ensures
        routed(inserted(n, p, d, o, g), d),
        forall|j: int, k: int, a: MapPoint, b: MapPoint|
            0 <= j < 8 && 0 <= k < 8 && inserted(n, p, d, o, g).leaves[j] is Some && inserted(
                n,
                p,
                d,
                o,
                g,
            ).leaves[k] is Some && #[trigger] holds(inserted(n, p, d, o, g).leaves[j]->0, a)
                && #[trigger] holds(inserted(n, p, d, o, g).leaves[k]->0, b) ==> (j == k
                <==> same_side(n.center, a.position, b.position)),
{
    lemma_inserted_is_routed(n, p, d, o, g);
    let after = inserted(n, p, d, o, g);
    assert forall|j: int, k: int, a: MapPoint, b: MapPoint|
        0 <= j < 8 && 0 <= k < 8 && after.leaves[j] is Some && after.leaves[k] is Some
            && #[trigger] holds(after.leaves[j]->0, a) && #[trigger] holds(
            after.leaves[k]->0,
            b,
        ) implies (j == k <==> same_side(n.center, a.position, b.position)) by {
        law_children_part_at_the_center(n.center, a.position, b.position);
    }
}

/// A root that has not seen a point is sorted, and holds none.
pub proof fn law_new_roots_hold_nothing(
    center: [Double; 3],
    half_len: Double,
    max_layer: nat,
    p: MapPoint,
)
    ensures
        routed(fresh(0, max_layer as int, center, half_len), max_layer),
        !holds(fresh(0, max_layer as int, center, half_len), p),
{
    let n = fresh(0, max_layer as int, center, half_len);
    if holds(n, p) {
        let k = choose|k: int|
            0 <= k < n.leaves.len() && match #[trigger] n.leaves[k] {
                Some(c) => holds(c, p),
                None => false,
            };
        assert(n.leaves[k] is None);
    }
}

/// Whether a node has a point as its last, or needs no points of its own.
pub open spec fn has_seen(n: NodeView, p: MapPoint) -> bool {
    (n.points.len() > 0 && n.points.last() == p) || n.plane is Some || !n.update_enable
}

/// A point that was inserted is found where it is looked up: the node that is found
/// has the point as its last, has a plane, or takes no more points.
pub proof fn law_inserted_points_are_found(
    n: NodeView,
    p: MapPoint,
    d: nat,
    o: VoxelMapOptions,
    g: Geometry,
)
    requires
        routed(n, d),
    ensures
        has_seen(corresponding(inserted(n, p, d, o, g), p.position), p),
    decreases d, 1nat,
{
    if !n.init {
        let a = gathered(n, p);
        assert(routed(a, d));
        if a.points.len() > enough(o, n.layer) && (g.plane_of)(a.points) is None && d > 0 {
            let bare = NodeView { points: seq![], ..a };
            let m = (a.points.len() - 1) as nat;
            lemma_cut_is_routed(bare, a.points, m, d, o, g);
            lemma_kept_by_cut(bare, a.points, m, d, o, g);
            lemma_kept_by_cut(bare, a.points, a.points.len(), d, o, g);
            assert(a.points[m as int] == p);
            lemma_handed_on_is_found(cut(bare, a.points, m, d, o, g), p, d, o, g);
        }
    } else if n.plane is None && d > 0 {
        lemma_handed_on_is_found(n, p, d, o, g);
    }
}

/// A node that is split stays what it is but for its children.
proof fn lemma_kept_by_cut(
    n: NodeView,
    points: Seq<MapPoint>,
    k: nat,
    d: nat,
    o: VoxelMapOptions,
    g: Geometry,
)
    ensures
        cut(n, points, k, d, o, g) == (NodeView {
            leaves: cut(n, points, k, d, o, g).leaves,
            ..n
        }),
    decreases k,
{
    if k > 0 {
        lemma_kept_by_cut(n, points, (k - 1) as nat, d, o, g);
        let m = cut(n, points, (k - 1) as nat, d, o, g);
        let next = passed_down(m, points[k - 1], d, o, g);
        assert(next == NodeView { leaves: next.leaves, ..m });
    }
}

/// A point that was handed to a child is found there.
proof fn lemma_handed_on_is_found(n: NodeView, p: MapPoint, d: nat, o: VoxelMapOptions, g: Geometry)
    requires
        routed(n, d),
        d > 0,
    ensures
        ({
            let leaf = leaf_of(n.center, p.position);
            let c = passed_down(n, p, d, o, g).leaves[leaf];
            c is Some && has_seen(corresponding(c->0, p.position), p)
        }),
    decreases d, 0nat,
{
    let leaf = leaf_of(n.center, p.position);
    let child = match n.leaves[leaf] {
        Some(c) => c,
        None => fresh_child(n, leaf, g),
    };
    assert(routed(child, (d - 1) as nat));
    law_inserted_points_are_found(child, p, (d - 1) as nat, o, g);
}

} // verus!
