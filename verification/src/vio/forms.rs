//! In what ways points and calibrations are written down, and what is read back.

use vstd::prelude::*;

use crate::algebra::Ring;
use crate::arith::{length_of, of_one, of_two};
use crate::double::{Double, ONE_BITS};
use crate::vio::estimates::{by_rows, plain_scale, scale_matrix, upright};
use crate::vio::jacobian::Angles;
use crate::vio::landmark::{source_of, PointForms};
use crate::vio::options::{FeatRepresentation, ImuModel};
use crate::vio::reanchor::{coordinates, is_written};

verus! {

/// Whether dividing by a number's inverse undoes dividing by the number, and the inverse
/// of the inverse is the number, for the coordinates of a point and its depth.
pub open spec fn inverse_undone<V: Fn(Double, Double) -> Double>(
    p: Seq<Double>,
    divide: V,
    op: Ring,
) -> bool {
    let one = Double { bits: ONE_BITS };
    let rho = of_two(divide, one, p[2]);
    &&& of_two(divide, one, rho) == p[2]
    &&& of_two(divide, of_two(divide, p[0], p[2]), rho) == p[0]
    &&& of_two(divide, of_two(divide, p[1], p[2]), rho) == p[1]
    &&& forall|k: int|
        0 <= k < 3 ==> (op.times)((op.times)(#[trigger] p[k], rho), p[2]) == p[k]
}

/// Whether a point is its length in the direction that its two angles tell.
pub open spec fn angles_undone<
    L: Fn([Double; 3]) -> Double,
    A: Fn(Double, Double) -> Double,
    C: Fn(Double) -> Double,
    S: Fn(Double) -> Double,
    K: Fn(Double) -> Double,
    V: Fn(Double, Double) -> Double,
>(p: Seq<Double>, angles: Angles<L, A, C, S, K>, divide: V, op: Ring) -> bool {
    let one = Double { bits: ONE_BITS };
    let size = length_of(angles.length, p);
    let about = of_two(angles.atan2, p[1], p[0]);
    let off = of_one(angles.acos, (op.times)(of_two(divide, one, size), p[2]));
    &&& of_two(divide, one, of_two(divide, one, size)) == size
    &&& (op.times)((op.times)(size, of_one(angles.cos, about)), of_one(angles.sin, off)) == p[0]
    &&& (op.times)((op.times)(size, of_one(angles.sin, about)), of_one(angles.sin, off)) == p[1]
    &&& (op.times)(size, of_one(angles.cos, off)) == p[2]
}

/// A point reads back as it was written down, in every representation: where inverses are
/// undone for inverse depths, and where the angles tell the direction for the full one.
pub proof fn law_written_points_read_back<
    L: Fn([Double; 3]) -> Double,
    A: Fn(Double, Double) -> Double,
    C: Fn(Double) -> Double,
    S: Fn(Double) -> Double,
    K: Fn(Double) -> Double,
    V: Fn(Double, Double) -> Double,
>(
    forms: PointForms,
    rep: FeatRepresentation,
    p: Seq<Double>,
    angles: Angles<L, A, C, S, K>,
    divide: V,
    op: Ring,
)
    requires
        p.len() == 3,
        is_written(forms, p, angles, divide, op),
        rep is AnchoredMsckfInverseDepth || rep is AnchoredInverseDepthSingle ==> inverse_undone(
            p,
            divide,
            op,
        ),
        rep is GlobalFullInverseDepth || rep is AnchoredFullInverseDepth ==> angles_undone(
            p,
            angles,
            divide,
            op,
        ),
    ensures
        coordinates(source_of(rep, forms), angles, divide, op) == p,
{
    let q = coordinates(source_of(rep, forms), angles, divide, op);
    assert(q =~= p);
}

/// Scale and skew fill one half of a matrix: what is below the diagonal for one model and
/// above it for the other, with the scales on it, and nothing in the other half. What
/// calibration starts from is the unit matrix where the lower half is filled.
pub proof fn law_scales_fill_one_half(v: Seq<Double>, i: int, j: int)
    requires
        v.len() == 6,
        0 <= i < j < 3,
    ensures
        scale_matrix(ImuModel::Kalibr, v)[3 * i + j] == (Double { bits: 0 }),
        scale_matrix(ImuModel::Rpng, v)[3 * j + i] == (Double { bits: 0 }),
        scale_matrix(ImuModel::Kalibr, v).contains(v[0]) && scale_matrix(ImuModel::Rpng, v).contains(v[0]),
        scale_matrix(ImuModel::Kalibr, v)[0] == v[0] && scale_matrix(ImuModel::Kalibr, v)[4] == v[3]
            && scale_matrix(ImuModel::Kalibr, v)[8] == v[5],
        scale_matrix(ImuModel::Rpng, v)[0] == v[0] && scale_matrix(ImuModel::Rpng, v)[4] == v[2]
            && scale_matrix(ImuModel::Rpng, v)[8] == v[5],
        scale_matrix(ImuModel::Kalibr, plain_scale()) == upright(),
{
    assert(scale_matrix(ImuModel::Kalibr, v)[0] == v[0]);
    assert(scale_matrix(ImuModel::Rpng, v)[0] == v[0]);
    assert(scale_matrix(ImuModel::Kalibr, plain_scale()) =~= upright());
}

/// Exchanging rows and columns twice changes nothing, and once takes each number to the
/// other side of the diagonal.
pub proof fn law_rows_and_columns_exchange(v: Seq<Double>, i: int, j: int)
    requires
        v.len() == 9,
        0 <= i < 3,
        0 <= j < 3,
    ensures
        by_rows(by_rows(v)) == v,
        by_rows(v)[3 * i + j] == v[3 * j + i],
{
    assert(by_rows(by_rows(v)) =~= v);
}

} // verus!
