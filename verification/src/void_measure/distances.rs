//! What distances from planes are: how they change with the point, the plane and the
//! orientation, and with what variance they are known.

use vstd::prelude::*;

use crate::algebra::{dot, list_of, Ring};
use crate::arith::of_one;
use crate::double::Double;
use crate::void_map::plane::VoxelPlane;
use crate::void_measure::noise::{crossed, point_spread, sweep};
use crate::void_measure::outlier::gate;
use crate::void_measure::planar::{off_plane, plane_row, point_judgement, spread_along};
use crate::void_measure::plane_update::{turned_back, turning};
use crate::void_types::exact_motion::lemma_difference3;
use crate::void_types::motion::difference3;
use crate::void_types::so3::skew_entry;
use crate::whole::{
    along, applied, exact, exchanged, lemma_dot, lemma_exchange, lemma_neg, lemma_plus, lemma_sign,
    lemma_times, lemma_widened, lemma_zero, scalar, square, value, values, whole, whole3, whole9, EXACT,
};

verus! {

/// The scalar product of two vectors of whole numbers.
pub proof fn lemma_scalar(a: Seq<Double>, b: Seq<Double>, op: Ring, m: int, n: int)
    requires
        exact(op),
        whole3(a, m),
        whole3(b, n),
        0 <= m <= EXACT,
        0 <= n <= EXACT,
        3 * (m * n) <= EXACT,
    ensures
        whole(dot(list_of(a), list_of(b), op, 3), 3 * (m * n)),
        value(dot(list_of(a), list_of(b), op, 3)) == scalar(values(a), values(b)),
{
    let f = list_of(a);
    let g = list_of(b);
    assert forall|k: int| 0 <= k < 3 implies whole(#[trigger] f(k), m) by {
        assert(whole(a[k], m));
    }
    assert forall|k: int| 0 <= k < 3 implies whole(#[trigger] g(k), n) by {
        assert(whole(b[k], n));
    }
    lemma_dot(f, g, op, m, n);
}

/// The distance of a point from a plane in whole numbers.
proof fn lemma_off_plane(normal: Seq<Double>, p: Seq<Double>, center: Seq<Double>, op: Ring, m: int)
    requires
        exact(op),
        whole3(normal, m),
        whole3(p, m),
        whole3(center, m),
        1 <= m,
        6 * (m * m) <= EXACT,
    ensures
        whole(off_plane(normal, p, center, op), 6 * (m * m)),
        value(off_plane(normal, p, center, op)) == value(normal[0]) * (value(p[0]) - value(center[0]))
            + value(normal[1]) * (value(p[1]) - value(center[1])) + value(normal[2]) * (value(p[2])
            - value(center[2])),
{
    assert(m <= m * m) by (nonlinear_arith)
        requires
            1 <= m,
    ;
    assert(m * (2 * m) == 2 * (m * m)) by (nonlinear_arith);
    let d = difference3(p, center, op);
    lemma_difference3(p, center, op, m, m);
    lemma_scalar(normal, d, op, m, 2 * m);
    assert(value(d[0]) == value(p[0]) - value(center[0]));
    assert(value(d[1]) == value(p[1]) - value(center[1]));
    assert(value(d[2]) == value(p[2]) - value(center[2]));
}

/// The center of a plane lies on it, and a point's distance changes by the product of
/// the normal with the way that the point moves: along the plane it does not change.
pub proof fn law_distance_grows_along_the_normal(
    normal: Seq<Double>,
    p: Seq<Double>,
    q: Seq<Double>,
    center: Seq<Double>,
    op: Ring,
    m: int,
)
    requires
        exact(op),
        whole3(normal, m),
        whole3(p, m),
        whole3(q, m),
        whole3(center, m),
        1 <= m,
        6 * (m * m) <= EXACT,
    ensures
        value(off_plane(normal, center, center, op)) == 0,
        value(off_plane(normal, p, center, op)) - value(off_plane(normal, q, center, op)) == scalar(
            values(normal),
            |i: int| value(p[i]) - value(q[i]),
        ),
{
    lemma_off_plane(normal, center, center, op, m);
    lemma_off_plane(normal, p, center, op, m);
    lemma_off_plane(normal, q, center, op, m);
    lemma_step(value(normal[0]), value(p[0]), value(q[0]), value(center[0]));
    lemma_step(value(normal[1]), value(p[1]), value(q[1]), value(center[1]));
    lemma_step(value(normal[2]), value(p[2]), value(q[2]), value(center[2]));
}

/// A product changes with one of its factors.
proof fn lemma_step(n: int, p: int, q: int, c: int)
    ensures
        n * (p - c) - n * (q - c) == n * (p - q),
        n * (p - p) == 0,
{
    assert(n * (p - c) - n * (q - c) == n * (p - q)) by (nonlinear_arith);
    assert(n * (p - p) == 0) by (nonlinear_arith);
}

/// A plane that faces the other way has the same points: every distance changes its
/// sign and nothing else.
pub proof fn law_distance_turns_with_the_plane(
    normal: Seq<Double>,
    turned: Seq<Double>,
    p: Seq<Double>,
    center: Seq<Double>,
    op: Ring,
    m: int,
)
    requires
        exact(op),
        whole3(normal, m),
        whole3(p, m),
        whole3(center, m),
        turned.len() == 3,
        forall|i: int| 0 <= i < 3 ==> #[trigger] turned[i] == normal[i].spec_neg(),
        1 <= m,
        6 * (m * m) <= EXACT,
    ensures
        value(off_plane(turned, p, center, op)) == -value(off_plane(normal, p, center, op)),
{
    assert forall|i: int| 0 <= i < 3 implies whole(#[trigger] turned[i], m) && value(turned[i])
        == -value(normal[i]) by {
        lemma_neg(normal[i], m);
    }
    lemma_off_plane(normal, p, center, op, m);
    lemma_off_plane(turned, p, center, op, m);
    lemma_opposite(value(normal[0]), value(p[0]) - value(center[0]));
    lemma_opposite(value(normal[1]), value(p[1]) - value(center[1]));
    lemma_opposite(value(normal[2]), value(p[2]) - value(center[2]));
    assert(value(turned[0]) == -value(normal[0]));
    assert(value(turned[1]) == -value(normal[1]));
    assert(value(turned[2]) == -value(normal[2]));
}

/// A product with the opposite factor.
proof fn lemma_opposite(a: int, b: int)
    ensures
        (-a) * b == -(a * b),
        a * (-b) == -(a * b),
{
    assert((-a) * b == -(a * b)) by (nonlinear_arith);
    assert(a * (-b) == -(a * b)) by (nonlinear_arith);
}

/// The row of a plane holds the derivatives of the distance by normal and center: as
/// the normal changes the distance changes by the product with the first three entries,
/// and as the center moves by the product with the last three.
pub proof fn law_plane_row_is_the_derivative(
    plane: VoxelPlane,
    normal: Seq<Double>,
    center: Seq<Double>,
    p: Seq<Double>,
    op: Ring,
    m: int,
)
    requires
        exact(op),
        whole3(plane.normal@, m),
        whole3(plane.center@, m),
        whole3(normal, m),
        whole3(center, m),
        whole3(p, m),
        1 <= m,
        6 * (m * m) <= EXACT,
    ensures
        ({
            let row = plane_row(plane, p, op);
            let here = value(off_plane(plane.normal@, p, plane.center@, op));
            &&& row.len() == 6
            &&& value(off_plane(normal, p, plane.center@, op)) - here == scalar(
                |i: int| value(row[i]),
                |i: int| value(normal[i]) - value(plane.normal@[i]),
            )
            &&& value(off_plane(plane.normal@, p, center, op)) - here == scalar(
                |i: int| value(row[3 + i]),
                |i: int| value(center[i]) - value(plane.center@[i]),
            )
        }),
{
    assert(m <= m * m) by (nonlinear_arith)
        requires
            1 <= m,
    ;
    let row = plane_row(plane, p, op);
    let n = plane.normal@;
    let c = plane.center@;
    lemma_off_plane(n, p, c, op, m);
    lemma_off_plane(normal, p, c, op, m);
    lemma_off_plane(n, p, center, op, m);
    lemma_difference3(p, c, op, m, m);
    assert forall|i: int| 0 <= i < 3 implies value(#[trigger] row[i]) == value(p[i]) - value(c[i]) by {
        assert(row[i] == difference3(p, c, op)[i]);
    }
    assert forall|i: int| 0 <= i < 3 implies value(row[3 + i]) == -value(#[trigger] n[i]) by {
        lemma_neg(n[i], m);
        assert(row[3 + i] == n[i].spec_neg());
    }
    assert(value(row[0]) == value(p[0]) - value(c[0]));
    assert(value(row[1]) == value(p[1]) - value(c[1]));
    assert(value(row[2]) == value(p[2]) - value(c[2]));
    lemma_by_normal(value(normal[0]), value(n[0]), value(row[0]));
    lemma_by_normal(value(normal[1]), value(n[1]), value(row[1]));
    lemma_by_normal(value(normal[2]), value(n[2]), value(row[2]));
    assert(value(row[3]) == -value(n[0]) && value(row[4]) == -value(n[1]) && value(row[5]) == -value(
        n[2],
    ));
    lemma_by_center(value(n[0]), value(p[0]), value(c[0]), value(center[0]));
    lemma_by_center(value(n[1]), value(p[1]), value(c[1]), value(center[1]));
    lemma_by_center(value(n[2]), value(p[2]), value(c[2]), value(center[2]));
}

/// A product as its first factor changes.
proof fn lemma_by_normal(a: int, b: int, r: int)
    ensures
        a * r - b * r == r * (a - b),
{
    assert(a * r - b * r == r * (a - b)) by (nonlinear_arith);
}

/// A product as what is taken off its second factor changes.
proof fn lemma_by_center(n: int, p: int, c: int, d: int)
    ensures
        n * (p - d) - n * (p - c) == (-n) * (d - c),
{
    assert(n * (p - d) - n * (p - c) == (-n) * (d - c)) by (nonlinear_arith);
}

/// The cross product of two vectors.
pub open spec fn cross_of(a: spec_fn(int) -> int, b: spec_fn(int) -> int) -> spec_fn(int) -> int {
    |i: int|
        if i == 0 {
            a(1) * b(2) - a(2) * b(1)
        } else if i == 1 {
            a(2) * b(0) - a(0) * b(2)
        } else {
            a(0) * b(1) - a(1) * b(0)
        }
}

/// A matrix that multiplies as a cross product, applied to a vector.
pub proof fn lemma_skew(p: Seq<Double>, v: Seq<Double>, op: Ring, m: int, n: int, i: int)
    requires
        exact(op),
        whole3(p, m),
        whole3(v, n),
        0 <= m <= EXACT,
        0 <= n <= EXACT,
        3 * (m * n) <= EXACT,
        0 <= i < 3,
    ensures
        whole(dot(|k: int| skew_entry(p, i, k), list_of(v), op, 3), 3 * (m * n)),
        value(dot(|k: int| skew_entry(p, i, k), list_of(v), op, 3)) == cross_of(values(p), values(v))(i),
{
    let f = |k: int| skew_entry(p, i, k);
    let g = list_of(v);
    lemma_zero();
    lemma_widened(Double { bits: 0 }, 0, m);
    lemma_neg(p[0], m);
    lemma_neg(p[1], m);
    lemma_neg(p[2], m);
    assert(whole(p[0], m) && whole(p[1], m) && whole(p[2], m));
    assert forall|k: int| 0 <= k < 3 implies whole(#[trigger] f(k), m) by {}
    assert forall|k: int| 0 <= k < 3 implies whole(#[trigger] g(k), n) by {
        assert(whole(v[k], n));
    }
    lemma_dot(f, g, op, m, n);
    lemma_opposite(value(p[0]), value(v[2]));
    lemma_opposite(value(p[1]), value(v[0]));
    lemma_opposite(value(p[2]), value(v[1]));
}

/// The lever of a point is the derivative of its distance by the orientation: for every
/// small turn, given as a vector in the body, the product with the lever is what the
/// point, turned by that vector in the body, moves along the normal in the world.
pub proof fn law_lever_is_the_derivative_by_a_turn(
    p: Seq<Double>,
    rot: Seq<Double>,
    normal: Seq<Double>,
    turn: spec_fn(int) -> int,
    op: Ring,
    m: int,
)
    requires
        exact(op),
        whole3(p, m),
        whole9(rot, m),
        whole3(normal, m),
        1 <= m,
        9 * (m * m * m) <= EXACT,
    ensures
        scalar(values(turning(p, rot, normal, op)), turn) == scalar(
            values(normal),
            applied(square(rot), cross_of(turn, values(p))),
        ),
{
    assert(m <= m * m <= m * m * m) by (nonlinear_arith)
        requires
            1 <= m,
    ;
    assert(m * (3 * (m * m)) == 3 * (m * m * m)) by (nonlinear_arith);
    let r = square(rot);
    let back = turned_back(rot, normal, op);
    let seen = applied(exchanged(r), values(normal));
    assert forall|k: int| 0 <= k < 3 implies whole(#[trigger] back[k], 3 * (m * m)) && value(back[k])
        == seen(k) by {
        let f = |a: int| rot[3 * a + k];
        let g = list_of(normal);
        assert forall|a: int| 0 <= a < 3 implies whole(#[trigger] f(a), m) by {
            assert(whole(rot[3 * a + k], m));
        }
        assert forall|a: int| 0 <= a < 3 implies whole(#[trigger] g(a), m) by {
            assert(whole(normal[a], m));
        }
        lemma_dot(f, g, op, m, m);
        assert(back[k] == dot(f, g, op, 3));
        assert(f(0) == rot[k]);
    }
    let t = turning(p, rot, normal, op);
    let x = values(p);
    let b = values(back);
    assert forall|i: int| 0 <= i < 3 implies value(#[trigger] t[i]) == cross_of(x, b)(i) by {
        lemma_skew(p, back, op, m, 3 * (m * m), i);
        assert(t[i] == dot(|k: int| skew_entry(p, i, k), list_of(back), op, 3));
    }
    assert(value(t[0]) == cross_of(x, b)(0) && value(t[1]) == cross_of(x, b)(1) && value(t[2])
        == cross_of(x, b)(2));
    assert(b(0) == seen(0) && b(1) == seen(1) && b(2) == seen(2));
    lemma_exchange(values(normal), r, cross_of(turn, x));
    lemma_triple_product(x(0), x(1), x(2), b(0), b(1), b(2), turn(0), turn(1), turn(2));
}

/// A product of three vectors may be taken in turn.
proof fn lemma_triple_product(
    x: int,
    y: int,
    z: int,
    a: int,
    b: int,
    c: int,
    u: int,
    v: int,
    w: int,
)
    ensures
        (y * c - z * b) * u + (z * a - x * c) * v + (x * b - y * a) * w == a * (v * z - w * y) + b * (w
            * x - u * z) + c * (u * y - v * x),
{
    lemma_three(y, c, z, b, u);
    lemma_three(z, a, x, c, v);
    lemma_three(x, b, y, a, w);
    lemma_into(a, v, z, w, y);
    lemma_into(b, w, x, u, z);
    lemma_into(c, u, y, v, x);
    assert((y * c) * u == c * (u * y)) by (nonlinear_arith);
    assert((z * b) * u == b * (u * z)) by (nonlinear_arith);
    assert((z * a) * v == a * (v * z)) by (nonlinear_arith);
    assert((x * c) * v == c * (v * x)) by (nonlinear_arith);
    assert((x * b) * w == b * (w * x)) by (nonlinear_arith);
    assert((y * a) * w == a * (w * y)) by (nonlinear_arith);
}

/// A difference of products times a number.
proof fn lemma_three(a: int, b: int, c: int, d: int, u: int)
    ensures
        (a * b - c * d) * u == (a * b) * u - (c * d) * u,
{
    assert((a * b - c * d) * u == (a * b) * u - (c * d) * u) by (nonlinear_arith);
}

/// A number times a difference of products.
proof fn lemma_into(a: int, v: int, z: int, w: int, y: int)
    ensures
        a * (v * z - w * y) == a * (v * z) - a * (w * y),
{
    assert(a * (v * z - w * y) == a * (v * z) - a * (w * y)) by (nonlinear_arith);
}

/// A turn about the ray to a point does not move the point: its lever is at right
/// angles to the point.
pub proof fn law_lever_is_across_the_point(
    p: Seq<Double>,
    rot: Seq<Double>,
    normal: Seq<Double>,
    op: Ring,
    m: int,
)
    requires
        exact(op),
        whole3(p, m),
        whole9(rot, m),
        whole3(normal, m),
        1 <= m,
        9 * (m * m * m) <= EXACT,
    ensures
        scalar(values(turning(p, rot, normal, op)), values(p)) == 0,
{
    let x = values(p);
    law_lever_is_the_derivative_by_a_turn(p, rot, normal, x, op, m);
    let c = cross_of(x, x);
    let r = square(rot);
    lemma_either(x(0), x(1));
    lemma_either(x(1), x(2));
    lemma_either(x(0), x(2));
    assert(c(0) == 0 && c(1) == 0 && c(2) == 0);
    let a = applied(r, c);
    assert(a(0) == 0 && a(1) == 0 && a(2) == 0);
    let n = values(normal);
    lemma_no_factor(n(0), a(0));
    lemma_no_factor(n(1), a(1));
    lemma_no_factor(n(2), a(2));
}

/// A product with zero.
proof fn lemma_no_factor(a: int, z: int)
    requires
        z == 0,
    ensures
        a * z == 0,
{
}

/// A product may be taken either way.
proof fn lemma_either(a: int, b: int)
    ensures
        a * b == b * a,
{
    assert(a * b == b * a) by (nonlinear_arith);
}

/// What a point's covariance adds to the variance of its distance is its variance
/// along the normal.
pub proof fn law_distance_varies_along_the_normal(
    normal: Seq<Double>,
    cov: Seq<Double>,
    op: Ring,
    m: int,
)
    requires
        exact(op),
        whole3(normal, m),
        whole9(cov, m),
        1 <= m,
        9 * (m * m * m) <= EXACT,
    ensures
        value(dot(list_of(normal), list_of(spread_along(cov, normal, op)), op, 3)) == along(
            square(cov),
            values(normal),
        ),
{
    assert(m <= m * m <= m * m * m) by (nonlinear_arith)
        requires
            1 <= m,
    ;
    assert(m * (3 * (m * m)) == 3 * (m * m * m)) by (nonlinear_arith);
    let s = spread_along(cov, normal, op);
    let c = square(cov);
    let n = values(normal);
    assert forall|a: int| 0 <= a < 3 implies whole(#[trigger] s[a], 3 * (m * m)) && value(s[a])
        == applied(c, n)(a) by {
        let f = |b: int| cov[3 * a + b];
        let g = list_of(normal);
        assert forall|b: int| 0 <= b < 3 implies whole(#[trigger] f(b), m) by {
            assert(whole(cov[3 * a + b], m));
        }
        assert forall|b: int| 0 <= b < 3 implies whole(#[trigger] g(b), m) by {
            assert(whole(normal[b], m));
        }
        lemma_dot(f, g, op, m, m);
        assert(s[a] == dot(f, g, op, 3));
        assert(f(0) == cov[3 * a]);
    }
    lemma_scalar(normal, s, op, m, 3 * (m * m));
    assert(value(s[0]) == applied(c, n)(0) && value(s[1]) == applied(c, n)(1) && value(s[2]) == applied(
        c,
        n,
    )(2));
}

/// A wider gate lets more through, and one at a distance within the bound lets it
/// through whatever the variance.
pub proof fn law_wider_gates_let_more_through(abs_z: Double, r: Double, narrow: Double, wide: Double)
    requires
        narrow.spec_le(wide),
    ensures
        gate(abs_z, r, narrow) is Inlier ==> gate(abs_z, r, wide) is Inlier,
        abs_z.spec_le(narrow) ==> gate(abs_z, r, narrow) is Inlier,
        narrow.spec_lt(abs_z) && (Double { bits: 0 }).spec_lt(r) ==> gate(abs_z, r, narrow) is Outlier,
{
}

/// The cross product of two vectors is at right angles to both, and turns its sign
/// where they are exchanged.
pub proof fn law_cross_product_is_across(a: Seq<Double>, b: Seq<Double>, op: Ring, m: int)
    requires
        exact(op),
        whole3(a, m),
        whole3(b, m),
        0 <= m <= EXACT,
        2 * (m * m) <= EXACT,
    ensures
        scalar(values(crossed(a, b, op)), values(a)) == 0,
        scalar(values(crossed(a, b, op)), values(b)) == 0,
        forall|i: int|
            0 <= i < 3 ==> value(#[trigger] crossed(a, b, op)[i]) == cross_of(values(a), values(b))(i),
{
    let x = values(a);
    let y = values(b);
    let c = crossed(a, b, op);
    let p = m * m;
    lemma_entry(a[1], b[2], a[2], b[1], op, m);
    lemma_entry(a[2], b[0], a[0], b[2], op, m);
    lemma_entry(a[0], b[1], a[1], b[0], op, m);
    assert(value(c[0]) == x(1) * y(2) - x(2) * y(1));
    assert(value(c[1]) == x(2) * y(0) - x(0) * y(2));
    assert(value(c[2]) == x(0) * y(1) - x(1) * y(0));
    lemma_triple_product(x(0), x(1), x(2), y(0), y(1), y(2), x(0), x(1), x(2));
    lemma_triple_product(x(0), x(1), x(2), y(0), y(1), y(2), y(0), y(1), y(2));
    lemma_either(x(0), x(1));
    lemma_either(x(1), x(2));
    lemma_either(x(0), x(2));
    lemma_flat_product(x(0), x(1), x(2), y(0), y(1), y(2));
    lemma_no_factor(y(0), x(1) * x(2) - x(2) * x(1));
    lemma_no_factor(y(1), x(2) * x(0) - x(0) * x(2));
    lemma_no_factor(y(2), x(0) * x(1) - x(1) * x(0));
}

/// A product of three vectors two of which are the same.
proof fn lemma_flat_product(x: int, y: int, z: int, a: int, b: int, c: int)
    ensures
        a * (b * z - c * y) + b * (c * x - a * z) + c * (a * y - b * x) == 0,
{
    lemma_into(a, b, z, c, y);
    lemma_into(b, c, x, a, z);
    lemma_into(c, a, y, b, x);
    assert(a * (b * z) == b * (a * z)) by (nonlinear_arith);
    assert(a * (c * y) == c * (a * y)) by (nonlinear_arith);
    assert(b * (c * x) == c * (b * x)) by (nonlinear_arith);
}

/// A difference of two products.
proof fn lemma_entry(a: Double, b: Double, c: Double, d: Double, op: Ring, m: int)
    requires
        exact(op),
        whole(a, m),
        whole(b, m),
        whole(c, m),
        whole(d, m),
        0 <= m <= EXACT,
        2 * (m * m) <= EXACT,
    ensures
        whole((op.plus)((op.times)(a, b), (op.times)(c, d).spec_neg()), 2 * (m * m)),
        value((op.plus)((op.times)(a, b), (op.times)(c, d).spec_neg())) == value(a) * value(b) - value(c)
            * value(d),
{
    assert(0 <= m * m) by (nonlinear_arith)
        requires
            0 <= m,
    ;
    lemma_times(op, a, b, m, m);
    lemma_times(op, c, d, m, m);
    lemma_neg((op.times)(c, d), m * m);
    lemma_plus(op, (op.times)(a, b), (op.times)(c, d).spec_neg(), m * m, m * m);
}

/// The distance along a plane, the distance from it and the distance to its center make
/// a right triangle, where roots of squares are exact.
pub proof fn law_distances_make_a_right_triangle<
    V: Fn(Double, Double) -> Double,
    R: Fn(Double) -> Double,
    X: Fn(Double) -> Double,
>(
    plane: VoxelPlane,
    p: Seq<Double>,
    cov: Seq<Double>,
    radius_k: Double,
    sigma_num: Double,
    var_scale: Double,
    divide: V,
    root: R,
    exp: X,
    op: Ring,
    m: int,
)
    requires
        exact(op),
        whole3(plane.normal@, m),
        whole3(plane.center@, m),
        whole3(p, m),
        1 <= m,
        48 * (m * m * m * m) <= EXACT,
        ({
            let d = |i: int| value(plane.center@[i]) - value(p[i]);
            let off = value(off_plane(plane.normal@, p, plane.center@, op));
            &&& off * off <= scalar(d, d)
            &&& forall|x: Double|
                whole(x, EXACT as int) && value(x) == scalar(d, d) - off * off ==> value(
                    #[trigger] of_one(root, x),
                ) * value(of_one(root, x)) == value(x)
        }),
    ensures
        ({
            let j = point_judgement(
                plane,
                p,
                cov,
                radius_k,
                sigma_num,
                var_scale,
                divide,
                root,
                exp,
                op,
            );
            let d = |i: int| value(plane.center@[i]) - value(p[i]);
            &&& value(j.range) * value(j.range) + value(j.distance) * value(j.distance) == scalar(d, d)
            &&& j.range_limit == (op.times)(radius_k, plane.radius)
            &&& !j.abs_distance.spec_lt(Double { bits: 0 })
        }),
{
    let m2 = m * m;
    let m4 = m * m * m * m;
    assert(m <= m2 <= m4 && m2 * m2 == m4) by (nonlinear_arith)
        requires
            1 <= m,
            m2 == m * m,
            m4 == m * m * m * m,
    ;
    let dis = off_plane(plane.normal@, p, plane.center@, op);
    lemma_off_plane(plane.normal@, p, plane.center@, op, m);
    let e = difference3(plane.center@, p, op);
    lemma_difference3(plane.center@, p, op, m, m);
    assert((2 * m) * (2 * m) == 4 * m2) by (nonlinear_arith)
        requires
            m2 == m * m,
    ;
    lemma_scalar(e, e, op, 2 * m, 2 * m);
    let far = dot(list_of(e), list_of(e), op, 3);
    assert((6 * m2) * (6 * m2) == 36 * m4) by (nonlinear_arith)
        requires
            m2 * m2 == m4,
    ;
    lemma_times(op, dis, dis, 6 * m2, 6 * m2);
    let sq = (op.times)(dis, dis);
    lemma_neg(sq, 36 * m4);
    lemma_plus(op, far, sq.spec_neg(), 12 * m2, 36 * m4);
    let along = (op.plus)(far, sq.spec_neg());
    lemma_widened(along, 12 * m2 + 36 * m4, EXACT as int);
    lemma_sign(along, EXACT as int);
    let d = |i: int| value(plane.center@[i]) - value(p[i]);
    assert(value(e[0]) == d(0) && value(e[1]) == d(1) && value(e[2]) == d(2));
    assert(value(far) == scalar(d, d));
    assert(!along.spec_is_nan()) by {
        reveal(whole);
    }
    assert(along.greater(Double { bits: 0 }) == along);
}

/// The covariance of a point on a ray: its variance along a direction is the share of the
/// ray, and the shares of the two directions across it, each by the square of the
/// product with the direction.
pub proof fn law_point_varies_along_and_across(
    dir: Seq<Double>,
    along_ray: Double,
    a: Seq<Double>,
    b: Seq<Double>,
    across: Double,
    op: Ring,
    v: spec_fn(int) -> int,
    m: int,
)
    requires
        exact(op),
        whole3(dir, m),
        whole3(a, m),
        whole3(b, m),
        whole(along_ray, m),
        whole(across, m),
        1 <= m,
        3 * (m * m * m) <= EXACT,
    ensures
        ({
            let f = point_spread(dir, along_ray, a, b, across, op);
            let x = scalar(values(dir), v);
            let y = scalar(values(a), v);
            let z = scalar(values(b), v);
            along(|i: int, j: int| value(f(i, j)), v) == value(along_ray) * (x * x) + value(across) * (y
                * y) + value(across) * (z * z)
        }),
{
    assert(m <= m * m <= m * m * m) by (nonlinear_arith)
        requires
            1 <= m,
    ;
    assert((m * m) * m == m * m * m);
    let f = point_spread(dir, along_ray, a, b, across, op);
    let g = |i: int, j: int| value(f(i, j));
    let (k, l) = (value(along_ray), value(across));
    let (p, q, r) = (values(dir), values(a), values(b));
    assert forall|i: int, j: int| 0 <= i < 3 && 0 <= j < 3 implies #[trigger] g(i, j) == (p(i) * k) * p(
        j,
    ) + ((q(i) * l) * q(j) + (r(i) * l) * r(j)) by {
        let n = m * m * m;
        lemma_part(dir[i], along_ray, dir[j], op, m);
        lemma_part(a[i], across, a[j], op, m);
        lemma_part(b[i], across, b[j], op, m);
        let s = (op.times)((op.times)(dir[i], along_ray), dir[j]);
        let t = (op.times)((op.times)(a[i], across), a[j]);
        let u = (op.times)((op.times)(b[i], across), b[j]);
        lemma_plus(op, t, u, n, n);
        lemma_plus(op, s, (op.plus)(t, u), n, 2 * n);
    }
    let (x, y, z) = (scalar(p, v), scalar(q, v), scalar(r, v));
    assert forall|i: int| 0 <= i < 3 implies #[trigger] applied(g, v)(i) == (p(i) * k) * x + ((q(i) * l)
        * y + (r(i) * l) * z) by {
        assert(g(i, 0) == (p(i) * k) * p(0) + ((q(i) * l) * q(0) + (r(i) * l) * r(0)));
        assert(g(i, 1) == (p(i) * k) * p(1) + ((q(i) * l) * q(1) + (r(i) * l) * r(1)));
        assert(g(i, 2) == (p(i) * k) * p(2) + ((q(i) * l) * q(2) + (r(i) * l) * r(2)));
        lemma_outer_row(p(i) * k, q(i) * l, r(i) * l, p(0), q(0), r(0), v(0));
        lemma_outer_row(p(i) * k, q(i) * l, r(i) * l, p(1), q(1), r(1), v(1));
        lemma_outer_row(p(i) * k, q(i) * l, r(i) * l, p(2), q(2), r(2), v(2));
        lemma_three_of(p(i) * k, p(0) * v(0), p(1) * v(1), p(2) * v(2));
        lemma_three_of(q(i) * l, q(0) * v(0), q(1) * v(1), q(2) * v(2));
        lemma_three_of(r(i) * l, r(0) * v(0), r(1) * v(1), r(2) * v(2));
    }
    let w = applied(g, v);
    assert(w(0) == (p(0) * k) * x + ((q(0) * l) * y + (r(0) * l) * z));
    assert(w(1) == (p(1) * k) * x + ((q(1) * l) * y + (r(1) * l) * z));
    assert(w(2) == (p(2) * k) * x + ((q(2) * l) * y + (r(2) * l) * z));
    lemma_outer_column(v(0), p(0), q(0), r(0), k, l, x, y, z);
    lemma_outer_column(v(1), p(1), q(1), r(1), k, l, x, y, z);
    lemma_outer_column(v(2), p(2), q(2), r(2), k, l, x, y, z);
    lemma_three_of(k * x, p(0) * v(0), p(1) * v(1), p(2) * v(2));
    lemma_three_of(l * y, q(0) * v(0), q(1) * v(1), q(2) * v(2));
    lemma_three_of(l * z, r(0) * v(0), r(1) * v(1), r(2) * v(2));
    assert((k * x) * x == k * (x * x)) by (nonlinear_arith);
    assert((l * y) * y == l * (y * y)) by (nonlinear_arith);
    assert((l * z) * z == l * (z * z)) by (nonlinear_arith);
}

/// A product of three whole numbers.
proof fn lemma_part(a: Double, k: Double, b: Double, op: Ring, m: int)
    requires
        exact(op),
        whole(a, m),
        whole(k, m),
        whole(b, m),
        1 <= m,
        3 * (m * m * m) <= EXACT,
    ensures
        whole((op.times)((op.times)(a, k), b), m * m * m),
        value((op.times)((op.times)(a, k), b)) == (value(a) * value(k)) * value(b),
{
    assert(m <= m * m <= m * m * m) by (nonlinear_arith)
        requires
            1 <= m,
    ;
    lemma_times(op, a, k, m, m);
    lemma_times(op, (op.times)(a, k), b, m * m, m);
}

/// An entry of three outer products, times a number.
proof fn lemma_outer_row(a: int, b: int, c: int, p: int, q: int, r: int, v: int)
    ensures
        (a * p + (b * q + c * r)) * v == a * (p * v) + (b * (q * v) + c * (r * v)),
{
    assert((a * p + (b * q + c * r)) * v == (a * p) * v + (b * q) * v + (c * r) * v)
        by (nonlinear_arith);
    assert((a * p) * v == a * (p * v)) by (nonlinear_arith);
    assert((b * q) * v == b * (q * v)) by (nonlinear_arith);
    assert((c * r) * v == c * (r * v)) by (nonlinear_arith);
}

/// A number times an entry of three outer products.
proof fn lemma_outer_column(
    v: int,
    p: int,
    q: int,
    r: int,
    k: int,
    l: int,
    x: int,
    y: int,
    z: int,
)
    ensures
        v * ((p * k) * x + ((q * l) * y + (r * l) * z)) == (k * x) * (p * v) + ((l * y) * (q * v) + (l
            * z) * (r * v)),
{
    let (a, b, c) = ((p * k) * x, (q * l) * y, (r * l) * z);
    assert(v * (a + (b + c)) == v * a + v * b + v * c) by (nonlinear_arith);
    assert(v * ((p * k) * x) == (k * x) * (p * v)) by (nonlinear_arith);
    assert(v * ((q * l) * y) == (l * y) * (q * v)) by (nonlinear_arith);
    assert(v * ((r * l) * z) == (l * z) * (r * v)) by (nonlinear_arith);
}

/// A number times a sum of three.
proof fn lemma_three_of(a: int, x: int, y: int, z: int)
    ensures
        a * x + a * y + a * z == a * (x + y + z),
{
    assert(a * x + a * y + a * z == a * (x + y + z)) by (nonlinear_arith);
}

/// A turn of a ray about a direction across it moves its point by the cross product of
/// the ray and the direction, times the distance.
pub proof fn law_sweep_is_across_the_ray(
    r: Double,
    dir: Seq<Double>,
    across: Seq<Double>,
    op: Ring,
    m: int,
)
    requires
        exact(op),
        whole(r, m),
        whole3(dir, m),
        whole3(across, m),
        1 <= m,
        3 * (m * m * m) <= EXACT,
    ensures
        forall|i: int|
            0 <= i < 3 ==> value(#[trigger] sweep(r, dir, across, op)[i]) == value(r) * cross_of(
                values(dir),
                values(across),
            )(i),
{
    assert(m <= m * m <= m * m * m) by (nonlinear_arith)
        requires
            1 <= m,
    ;
    let k = value(r);
    let (x, y) = (values(dir), values(across));
    lemma_zero();
    lemma_widened(Double { bits: 0 }, 0, m);
    assert(whole(dir[0], m) && whole(dir[1], m) && whole(dir[2], m));
    lemma_neg(dir[0], m);
    lemma_neg(dir[1], m);
    lemma_neg(dir[2], m);
    assert forall|i: int| 0 <= i < 3 implies value(#[trigger] sweep(r, dir, across, op)[i]) == k
        * cross_of(x, y)(i) by {
        let f = |c: int| (op.times)(r, skew_entry(dir, i, c));
        let g = list_of(across);
        assert forall|c: int| 0 <= c < 3 implies whole(#[trigger] f(c), m * m) && value(f(c)) == k * value(
            skew_entry(dir, i, c),
        ) by {
            lemma_times(op, r, skew_entry(dir, i, c), m, m);
        }
        assert forall|c: int| 0 <= c < 3 implies whole(#[trigger] g(c), m) by {
            assert(whole(across[c], m));
        }
        lemma_dot(f, g, op, m * m, m);
        assert(sweep(r, dir, across, op)[i] == dot(f, g, op, 3));
        assert(value(f(0)) == k * value(skew_entry(dir, i, 0)));
        assert(value(f(1)) == k * value(skew_entry(dir, i, 1)));
        assert(value(f(2)) == k * value(skew_entry(dir, i, 2)));
        lemma_swept(k, x(0), x(1), x(2), y(0), y(1), y(2));
    }
}

/// A cross product times a number, row by row.
proof fn lemma_swept(k: int, a: int, b: int, c: int, x: int, y: int, z: int)
    ensures
        (k * 0) * x + (k * (-c)) * y + (k * b) * z == k * (b * z - c * y),
        (k * c) * x + (k * 0) * y + (k * (-a)) * z == k * (c * x - a * z),
        (k * (-b)) * x + (k * a) * y + (k * 0) * z == k * (a * y - b * x),
{
    lemma_swept_pair(k, c, y, b, z);
    lemma_swept_pair(k, a, z, c, x);
    lemma_swept_pair(k, b, x, a, y);
}

/// Two terms of a cross product times a number.
proof fn lemma_swept_pair(k: int, c: int, y: int, b: int, z: int)
    ensures
        (k * (-c)) * y + (k * b) * z == k * (b * z - c * y),
{
    assert((k * (-c)) * y == -(k * (c * y))) by (nonlinear_arith);
    assert((k * b) * z == k * (b * z)) by (nonlinear_arith);
    assert(k * (b * z - c * y) == k * (b * z) - k * (c * y)) by (nonlinear_arith);
}

} // verus!
