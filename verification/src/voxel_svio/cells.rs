//! Which voxel a position lies in.

use vstd::prelude::*;

use crate::arith::of_two;
use crate::double::Double;
use crate::voxel_svio::map::cell;

verus! {

/// A voxel is told axis by axis: along each axis its index is that of the position's
/// coordinate, whatever the others are, and positions whose coordinates round to
/// different indices along any axis lie in different voxels.
pub proof fn law_voxels_are_told_by_axis<V: Fn(Double, Double) -> Double>(
    p: Seq<Double>,
    q: Seq<Double>,
    size: Double,
    divide: V,
)
    ensures
        p[0] == q[0] ==> cell(p, size, divide).0 == cell(q, size, divide).0,
        p[1] == q[1] ==> cell(p, size, divide).1 == cell(q, size, divide).1,
        p[2] == q[2] ==> cell(p, size, divide).2 == cell(q, size, divide).2,
        cell(p, size, divide) == cell(q, size, divide) <==> forall|i: int|
            0 <= i < 3 ==> of_two(divide, #[trigger] p[i], size).i32_clamped() == of_two(
                divide,
                q[i],
                size,
            ).i32_clamped(),
{
    let (a, b) = (cell(p, size, divide), cell(q, size, divide));
    if a == b {
        assert(a.0 == b.0 && a.1 == b.1 && a.2 == b.2);
    }
    if forall|i: int|
        0 <= i < 3 ==> of_two(divide, #[trigger] p[i], size).i32_clamped() == of_two(
            divide,
            q[i],
            size,
        ).i32_clamped() {
        assert(of_two(divide, p[0], size).i32_clamped() == of_two(divide, q[0], size).i32_clamped());
        assert(of_two(divide, p[1], size).i32_clamped() == of_two(divide, q[1], size).i32_clamped());
        assert(of_two(divide, p[2], size).i32_clamped() == of_two(divide, q[2], size).i32_clamped());
    }
}

} // verus!
