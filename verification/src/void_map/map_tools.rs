//! The functions that a map is made with: how planes are fitted and where cubes lie.

use vstd::prelude::*;

use crate::algebra::HALF_BITS;
use crate::arith::{apply_two, binary, counts, lengths, numbers, of_two, unary};
use crate::double::Double;
use crate::void_map::octree::{
    child_cube, fresh_child, law_child_lies_where_the_point_does, leaf_of, offset_of, Geometry, MapPoint,
    NodeView,
};
use crate::void_map::options::PlaneOptions;
use crate::void_map::plane::{lemma_six, VoxelPlane};
use crate::void_map::plane_fit::{decomposes, faces, fit_facing_plane, fitted, Eigen};
use crate::void_map::voxel::{center_of, VoxelKey};

verus! {

/// The functions that a map is made with.
pub struct MapTools<E, N, W, L, P, T, V, R> {
    /// Eigenvalues and eigenvectors.
    pub decompose: E,
    /// A count as a number.
    pub number: N,
    /// An index as a number.
    pub whole: W,
    /// The length of a vector.
    pub length: L,
    /// Addition.
    pub plus: P,
    /// Multiplication.
    pub times: T,
    /// Division.
    pub divide: V,
    /// The square root.
    pub root: R,
}

/// A cube by its center and half its edge.
pub type Cube = ([Double; 3], Double);

impl<
    E: Fn([Double; 9]) -> Eigen,
    N: Fn(usize) -> Double,
    W: Fn(i64) -> Double,
    L: Fn([Double; 3]) -> Double,
    P: Fn(Double, Double) -> Double,
    T: Fn(Double, Double) -> Double,
    V: Fn(Double, Double) -> Double,
    R: Fn(Double) -> Double,
> MapTools<E, N, W, L, P, T, V, R> {
    /// Whether the functions always have one result.
    pub open spec fn wf(&self) -> bool {
        &&& decomposes(self.decompose)
        &&& counts(self.number)
        &&& numbers(self.whole)
        &&& lengths(self.length)
        &&& binary(self.plus)
        &&& binary(self.times)
        &&& binary(self.divide)
        &&& unary(self.root)
    }

    /// Whether a plane is that of points, turned towards the camera; none if they make
    /// none.
    pub open spec fn fits(
        &self,
        plane: Option<VoxelPlane>,
        points: Seq<MapPoint>,
        opts: PlaneOptions,
        camera: Seq<Double>,
    ) -> bool {
        faces(
            plane,
            points,
            opts,
            camera,
            self.decompose,
            self.number,
            self.length,
            self.plus,
            self.times,
            self.divide,
            self.root,
        )
    }

    /// Whether a cube is that of a child: half as large, and off the center by half its
    /// edge along each axis.
    pub open spec fn is_child(&self, cube: Cube, center: [Double; 3], half_len: Double, leaf: usize) -> bool {
        &&& cube.1 == of_two(self.times, half_len, Double { bits: HALF_BITS })
        &&& forall|i: int|
            0 <= i < 3 ==> #[trigger] cube.0@[i] == of_two(
                self.plus,
                center@[i],
                offset_of(leaf as int, cube.1)[i],
            )
    }

    /// Whether a cube is that of a root voxel.
    pub open spec fn is_root(&self, cube: Cube, key: VoxelKey, size: Double) -> bool {
        &&& cube.0@ == center_of(key, size, self.whole, self.plus, self.times)
        &&& cube.1 == of_two(self.times, size, Double { bits: HALF_BITS })
    }

    /// How planes are fitted for a camera, and where the cubes of children lie.
    pub open spec fn geometry(&self, opts: PlaneOptions, camera: Seq<Double>) -> Geometry {
        Geometry {
            plane_of: |points: Seq<MapPoint>|
                choose|plane: Option<VoxelPlane>| self.fits(plane, points, opts, camera),
            child_of: |center: [Double; 3], half_len: Double, leaf: usize|
                choose|cube: Cube| self.is_child(cube, center, half_len, leaf),
        }
    }

    /// The cube of a root voxel.
    pub open spec fn root_of(&self, key: VoxelKey, size: Double) -> Cube {
        choose|cube: Cube| self.is_root(cube, key, size)
    }

    /// Points have one plane.
    proof fn lemma_one_fit(
        &self,
        a: Option<VoxelPlane>,
        b: Option<VoxelPlane>,
        points: Seq<MapPoint>,
        opts: PlaneOptions,
    )
        requires
            fitted(
                a,
                points,
                opts,
                self.decompose,
                self.number,
                self.plus,
                self.times,
                self.divide,
                self.root,
            ),
            fitted(
                b,
                points,
                opts,
                self.decompose,
                self.number,
                self.plus,
                self.times,
                self.divide,
                self.root,
            ),
        ensures
            a == b,
    {
        if let (Some(p), Some(q)) = (a, b) {
            assert(p.center@ =~= q.center@);
            assert(p.normal@ =~= q.normal@);
            lemma_six(p.plane_var, q.plane_var);
            assert(p.covariance@ =~= q.covariance@) by {
                assert forall|k: int| 0 <= k < 9 implies p.covariance@[k] == q.covariance@[k] by {
                    let (i, j) = (k / 3, k % 3);
                    assert(3 * i + j == k);
                    let f = crate::algebra::three_by_three(p.covariance@);
                    let g = crate::algebra::three_by_three(q.covariance@);
                    assert(f(i, j) == g(i, j));
                }
            }
            assert(p.center =~= q.center && p.normal =~= q.normal && p.covariance =~= q.covariance);
        }
    }

    /// Points have one plane that is turned towards a camera.
    proof fn lemma_one_plane(
        &self,
        a: Option<VoxelPlane>,
        b: Option<VoxelPlane>,
        points: Seq<MapPoint>,
        opts: PlaneOptions,
        camera: Seq<Double>,
    )
        requires
            self.fits(a, points, opts, camera),
            self.fits(b, points, opts, camera),
        ensures
            a == b,
    {
        let x = choose|x: Option<VoxelPlane>| #[trigger]
            fitted(
                x,
                points,
                opts,
                self.decompose,
                self.number,
                self.plus,
                self.times,
                self.divide,
                self.root,
            ) && crate::void_map::plane_fit::turned_to(
                x,
                a,
                camera,
                self.length,
                crate::algebra::ring(self.plus, self.times),
            );
        let y = choose|y: Option<VoxelPlane>| #[trigger]
            fitted(
                y,
                points,
                opts,
                self.decompose,
                self.number,
                self.plus,
                self.times,
                self.divide,
                self.root,
            ) && crate::void_map::plane_fit::turned_to(
                y,
                b,
                camera,
                self.length,
                crate::algebra::ring(self.plus, self.times),
            );
        self.lemma_one_fit(x, y, points, opts);
        if let (Some(p), Some(q)) = (a, b) {
            if p != x->0 || q != x->0 {
                assert(p.normal@ =~= q.normal@);
                assert(p.normal =~= q.normal);
                lemma_six(p.plane_var, q.plane_var);
            }
        }
    }

    /// The plane of points, turned towards a camera.
    pub(crate) fn fit(&self, points: &Vec<MapPoint>, opts: &PlaneOptions, camera: &[Double; 3]) -> (plane:
        Option<VoxelPlane>)
        requires
            self.wf(),
            points@.len() >= 3,
        ensures
            plane == (self.geometry(*opts, camera@).plane_of)(points@),
    {
        let plane = fit_facing_plane(
            points,
            opts,
            camera,
            &self.decompose,
            &self.number,
            &self.length,
            &self.plus,
            &self.times,
            &self.divide,
            &self.root,
        );
        proof {
            assert(self.fits(plane, points@, *opts, camera@));
            let chosen = choose|r: Option<VoxelPlane>| self.fits(r, points@, *opts, camera@);
            self.lemma_one_plane(plane, chosen, points@, *opts, camera@);
        }
        plane
    }

    /// The cube of a child.
    pub(crate) fn child(
        &self,
        center: [Double; 3],
        half_len: Double,
        leaf: usize,
        Ghost(opts): Ghost<PlaneOptions>,
        Ghost(camera): Ghost<Seq<Double>>,
    ) -> (cube: ([Double; 3], Double))
        requires
            self.wf(),
            leaf < 8,
        ensures
            cube == (self.geometry(opts, camera).child_of)(center, half_len, leaf),
    {
        let cube = child_cube(&center, half_len, leaf, &self.plus, &self.times);
        proof {
            assert(self.is_child(cube, center, half_len, leaf));
            let chosen = choose|c: Cube| self.is_child(c, center, half_len, leaf);
            assert(chosen.0@ =~= cube.0@);
            assert(chosen.0 =~= cube.0);
        }
        cube
    }

    /// The cube of a root voxel.
    pub(crate) fn root_cube(&self, key: &VoxelKey, size: Double) -> (cube: ([Double; 3], Double))
        requires
            self.wf(),
        ensures
            cube == self.root_of(*key, size),
    {
        let cube = (
            key.center(size, &self.whole, &self.plus, &self.times),
            apply_two(&self.times, size, Double { bits: HALF_BITS }),
        );
        proof {
            assert(self.is_root(cube, *key, size));
            let chosen = choose|c: Cube| self.is_root(c, *key, size);
            assert(chosen.0 =~= cube.0);
        }
        cube
    }
}

/// A point lies on the same side of a node's center as the center of the child that
/// is made for it, along each axis along which half the child's edge is enough to
/// move the center: the child's edge is half the parent's, and its center lies half
/// of its own edge to the side of the point.
pub proof fn law_new_child_lies_on_the_side_of_its_point<
    E: Fn([Double; 9]) -> Eigen,
    N: Fn(usize) -> Double,
    W: Fn(i64) -> Double,
    L: Fn([Double; 3]) -> Double,
    P: Fn(Double, Double) -> Double,
    T: Fn(Double, Double) -> Double,
    V: Fn(Double, Double) -> Double,
    R: Fn(Double) -> Double,
>(
    tools: MapTools<E, N, W, L, P, T, V, R>,
    n: NodeView,
    p: [Double; 3],
    opts: PlaneOptions,
    camera: Seq<Double>,
    i: int,
)
    requires
        0 <= i < 3,
    ensures
        ({
            let c = fresh_child(n, leaf_of(n.center, p), tools.geometry(opts, camera));
            let half = of_two(tools.times, n.half_len, Double { bits: HALF_BITS });
            let above = of_two(tools.plus, n.center@[i], half);
            let below = of_two(tools.plus, n.center@[i], half.spec_neg());
            &&& c.half_len == half
            &&& c.layer == n.layer + 1
            &&& n.center@[i].spec_lt(p@[i]) ==> c.center@[i] == above
            &&& !n.center@[i].spec_lt(p@[i]) ==> c.center@[i] == below
            &&& n.center@[i].spec_lt(above) && below.spec_lt(n.center@[i]) ==> (n.center@[i].spec_lt(
                p@[i],
            ) <==> n.center@[i].spec_lt(c.center@[i]))
        }),
{
    let leaf = leaf_of(n.center, p) as usize;
    let half = of_two(tools.times, n.half_len, Double { bits: HALF_BITS });
    let o = offset_of(leaf as int, half);
    let moved = [
        of_two(tools.plus, n.center@[0], o[0]),
        of_two(tools.plus, n.center@[1], o[1]),
        of_two(tools.plus, n.center@[2], o[2]),
    ];
    let cube: Cube = (moved, half);
    assert(tools.is_child(cube, n.center, n.half_len, leaf));
    law_child_lies_where_the_point_does(n.center, p, half, i);
    let c = fresh_child(n, leaf_of(n.center, p), tools.geometry(opts, camera));
    assert(c.center@[i] == of_two(tools.plus, n.center@[i], o[i]));
    let below = of_two(tools.plus, n.center@[i], half.spec_neg());
    lemma_lt_is_strict(below, n.center@[i]);
}

/// Of two numbers at most one is less than the other.
proof fn lemma_lt_is_strict(a: Double, b: Double)
    ensures
        !(a.spec_lt(b) && b.spec_lt(a)),
{
}

} // verus!
