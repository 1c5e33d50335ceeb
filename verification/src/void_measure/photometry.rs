//! What grey values say: interpolation keeps what it lies between, a pixel that looks as
//! expected leaves no residual, and its derivatives say how the residual changes.

use vstd::prelude::*;

use crate::algebra::{dot, list_of, Ring};
use crate::arith::{of_one, of_two};
use crate::double::{Double, ONE_BITS};
use crate::void_esikf::steps::{is_zero, knows_zero};
use crate::void_measure::distances::cross_of;
use crate::void_measure::visual_update::{
    between_four, between_two, is_term, level_order, pixel_by_point, pixel_entry, plane_map,
    row_through, row_times, PixelTerm,
};
use crate::void_measure::visual_read::{ReadTools, Shot};
use crate::void_types::so3::skew_entry;
use crate::whole::{
    applied, exact, lemma_dot, lemma_neg, lemma_one, lemma_plus, lemma_times, lemma_widened,
    lemma_zero, scalar, square, value, values, whole, whole3, whole9, EXACT,
};

verus! {

/// The share of a corner in whole numbers.
proof fn lemma_share(f: Double, g: Double, v: Double, op: Ring, m: int)
    requires
        exact(op),
        whole(f, 2 * m),
        whole(g, 2 * m),
        whole(v, m),
        1 <= m,
        16 * (m * m * m) <= EXACT,
    ensures
        whole((op.times)((op.times)(f, g), v), 4 * (m * m * m)),
        value((op.times)((op.times)(f, g), v)) == (value(f) * value(g)) * value(v),
{
    assert(m <= m * m <= m * m * m) by (nonlinear_arith)
        requires
            1 <= m,
    ;
    assert((2 * m) * (2 * m) == 4 * (m * m)) by (nonlinear_arith);
    assert((4 * (m * m)) * m == 4 * (m * m * m)) by (nonlinear_arith);
    lemma_times(op, f, g, 2 * m, 2 * m);
    lemma_times(op, (op.times)(f, g), v, 4 * (m * m), m);
}

/// One less a number.
proof fn lemma_rest(f: Double, op: Ring, m: int)
    requires
        exact(op),
        whole(f, m),
        1 <= m,
        2 * m <= EXACT,
    ensures
        whole((op.plus)(Double { bits: ONE_BITS }, f.spec_neg()), 2 * m),
        value((op.plus)(Double { bits: ONE_BITS }, f.spec_neg())) == 1 - value(f),
{
    lemma_one();
    lemma_neg(f, m);
    lemma_plus(op, Double { bits: ONE_BITS }, f.spec_neg(), 1, m);
    lemma_widened((op.plus)(Double { bits: ONE_BITS }, f.spec_neg()), 1 + m, 2 * m);
}

/// What lies between four values is each of them at its own corner, changes in
/// proportion along the rows and along the columns, and is their common value where
/// they have one.
pub proof fn law_between_four_meets_the_corners(
    fx: Double,
    fy: Double,
    v: Seq<Double>,
    op: Ring,
    m: int,
)
    requires
        exact(op),
        whole(fx, m),
        whole(fy, m),
        v.len() == 4,
        forall|k: int| 0 <= k < 4 ==> whole(#[trigger] v[k], m),
        1 <= m,
        16 * (m * m * m) <= EXACT,
    ensures
        value(fx) == 0 && value(fy) == 0 ==> value(between_four(fx, fy, v, op)) == value(v[0]),
        value(fx) == 1 && value(fy) == 0 ==> value(between_four(fx, fy, v, op)) == value(v[1]),
        value(fx) == 0 && value(fy) == 1 ==> value(between_four(fx, fy, v, op)) == value(v[2]),
        value(fx) == 1 && value(fy) == 1 ==> value(between_four(fx, fy, v, op)) == value(v[3]),
        value(fy) == 0 ==> value(between_four(fx, fy, v, op)) - value(v[0]) == value(fx) * (value(v[1])
            - value(v[0])),
        value(fx) == 0 ==> value(between_four(fx, fy, v, op)) - value(v[0]) == value(fy) * (value(v[2])
            - value(v[0])),
        value(v[0]) == value(v[1]) && value(v[0]) == value(v[2]) && value(v[0]) == value(v[3]) ==> value(
            between_four(fx, fy, v, op),
        ) == value(v[0]),
{
    assert(m <= m * m <= m * m * m) by (nonlinear_arith)
        requires
            1 <= m,
    ;
    let gx = (op.plus)(Double { bits: ONE_BITS }, fx.spec_neg());
    let gy = (op.plus)(Double { bits: ONE_BITS }, fy.spec_neg());
    lemma_rest(fx, op, m);
    lemma_rest(fy, op, m);
    lemma_widened(fx, m, 2 * m);
    lemma_widened(fy, m, 2 * m);
    lemma_share(gx, gy, v[0], op, m);
    lemma_share(fx, gy, v[1], op, m);
    lemma_share(gx, fy, v[2], op, m);
    lemma_share(fx, fy, v[3], op, m);
    let n = 4 * (m * m * m);
    let a = (op.times)((op.times)(gx, gy), v[0]);
    let b = (op.times)((op.times)(fx, gy), v[1]);
    let c = (op.times)((op.times)(gx, fy), v[2]);
    let d = (op.times)((op.times)(fx, fy), v[3]);
    lemma_plus(op, a, b, n, n);
    lemma_plus(op, (op.plus)(a, b), c, 2 * n, n);
    lemma_plus(op, (op.plus)((op.plus)(a, b), c), d, 3 * n, n);
    let (x, y) = (value(fx), value(fy));
    let (p, q, r, s) = (value(v[0]), value(v[1]), value(v[2]), value(v[3]));
    let all = value(between_four(fx, fy, v, op));
    assert(all == ((1 - x) * (1 - y)) * p + (x * (1 - y)) * q + ((1 - x) * y) * r + (x * y) * s);
    if y == 0 {
        assert(((1 - x) * (1 - y)) * p == p - x * p) by (nonlinear_arith)
            requires
                y == 0,
        ;
        assert((x * (1 - y)) * q == x * q) by (nonlinear_arith)
            requires
                y == 0,
        ;
        assert(((1 - x) * y) * r == 0 && (x * y) * s == 0) by (nonlinear_arith)
            requires
                y == 0,
        ;
        assert(x * (q - p) == x * q - x * p) by (nonlinear_arith);
    }
    if x == 0 {
        assert(((1 - x) * (1 - y)) * p == p - y * p) by (nonlinear_arith)
            requires
                x == 0,
        ;
        assert(((1 - x) * y) * r == y * r) by (nonlinear_arith)
            requires
                x == 0,
        ;
        assert((x * (1 - y)) * q == 0 && (x * y) * s == 0) by (nonlinear_arith)
            requires
                x == 0,
        ;
        assert(y * (r - p) == y * r - y * p) by (nonlinear_arith);
    }
    if x == 1 && y == 1 {
        assert(((1 - x) * (1 - y)) * p == 0 && (x * (1 - y)) * q == 0 && ((1 - x) * y) * r == 0 && (x
            * y) * s == s) by (nonlinear_arith)
            requires
                x == 1,
                y == 1,
        ;
    }
    if p == q && p == r && p == s {
        let (e, f, g, h) = ((1 - x) * (1 - y), x * (1 - y), (1 - x) * y, x * y);
        assert(e + f + g + h == 1) by (nonlinear_arith)
            requires
                e == (1 - x) * (1 - y),
                f == x * (1 - y),
                g == (1 - x) * y,
                h == x * y,
        ;
        assert(e * p + f * p + g * p + h * p == (e + f + g + h) * p) by (nonlinear_arith);
        assert((e + f + g + h) * p == p) by (nonlinear_arith)
            requires
                e + f + g + h == 1,
        ;
    }
}

/// What lies between two values is each of them at its end, and changes in proportion.
pub proof fn law_between_two_meets_the_ends(f: Double, near: Double, far: Double, op: Ring, m: int)
    requires
        exact(op),
        whole(f, m),
        whole(near, m),
        whole(far, m),
        1 <= m,
        3 * (m * m) <= EXACT,
    ensures
        value(between_two(f, near, far, op)) - value(near) == value(f) * (value(far) - value(near)),
{
    assert(m <= m * m) by (nonlinear_arith)
        requires
            1 <= m,
    ;
    assert((2 * m) * m == 2 * (m * m)) by (nonlinear_arith);
    let g = (op.plus)(Double { bits: ONE_BITS }, f.spec_neg());
    lemma_rest(f, op, m);
    lemma_times(op, g, near, 2 * m, m);
    lemma_times(op, f, far, m, m);
    lemma_plus(op, (op.times)(g, near), (op.times)(f, far), 2 * (m * m), m * m);
    let (x, a, b) = (value(f), value(near), value(far));
    assert((1 - x) * a + x * b - a == x * (b - a)) by (nonlinear_arith);
}

/// A pixel whose exposed grey value is that of the reference leaves no residual.
pub proof fn law_pixels_as_expected_leave_no_residual(
    term: PixelTerm,
    grey: Double,
    reference: Double,
    exposure: Double,
    reference_exposure: Double,
    gradient: Seq<Double>,
    j: Seq<Double>,
    p_cam: Seq<Double>,
    r_cw: Seq<Double>,
    op: Ring,
)
    requires
        is_term(
            term,
            grey,
            reference,
            exposure,
            reference_exposure,
            gradient,
            j,
            p_cam,
            r_cw,
            op,
        ),
        knows_zero(op),
        (op.times)(exposure, grey) == (op.times)(reference_exposure, reference),
        (op.times)(exposure, grey).spec_is_finite(),
    ensures
        is_zero(term.residual),
{
}

/// How much brighter, once exposed, a pixel becomes as its point moves in the camera:
/// the slope of the image times the way of the pixel.
pub open spec fn brightening(
    gradient: Seq<Double>,
    exposure: Double,
    j: Seq<Double>,
    way: spec_fn(int) -> int,
) -> int {
    value(exposure) * (value(gradient[0]) * scalar(|k: int| value(j[k]), way) + value(gradient[1])
        * scalar(|k: int| value(j[3 + k]), way))
}

/// The derivatives of a pixel say how its residual changes: by the orientation as its
/// point moves by the cross product with the turn, by the position as its point moves
/// against it, and by the exposure in proportion to its grey value.
pub proof fn law_pixels_respond_by_their_derivatives(
    term: PixelTerm,
    other: PixelTerm,
    grey: Double,
    reference: Double,
    exposure: Double,
    other_exposure: Double,
    reference_exposure: Double,
    gradient: Seq<Double>,
    j: Seq<Double>,
    p_cam: Seq<Double>,
    r_cw: Seq<Double>,
    way: spec_fn(int) -> int,
    op: Ring,
    m: int,
)
    requires
        is_term(
            term,
            grey,
            reference,
            exposure,
            reference_exposure,
            gradient,
            j,
            p_cam,
            r_cw,
            op,
        ),
        is_term(
            other,
            grey,
            reference,
            other_exposure,
            reference_exposure,
            gradient,
            j,
            p_cam,
            r_cw,
            op,
        ),
        exact(op),
        whole(grey, m),
        whole(reference, m),
        whole(exposure, m),
        whole(other_exposure, m),
        whole(reference_exposure, m),
        gradient.len() == 2,
        whole(gradient[0], m),
        whole(gradient[1], m),
        j.len() == 6,
        forall|k: int| 0 <= k < 6 ==> whole(#[trigger] j[k], m),
        whole3(p_cam, m),
        whole9(r_cw, m),
        1 <= m,
        6 * (m * m * m * m) <= EXACT,
    ensures
        scalar(values(term.rotation@), way) == brightening(
            gradient,
            exposure,
            j,
            cross_of(values(p_cam), way),
        ),
        scalar(values(term.position@), way) == -brightening(
            gradient,
            exposure,
            j,
            applied(square(r_cw), way),
        ),
        value(other.residual) - value(term.residual) == (value(other_exposure) - value(exposure)) * value(
            pixel_entry(term, 6, true),
        ),
{
    let m2 = m * m;
    let m3 = m * m * m;
    let m4 = m * m * m * m;
    assert(m <= m2 <= m3 <= m4) by (nonlinear_arith)
        requires
            1 <= m,
            m2 == m * m,
            m3 == m * m * m,
            m4 == m * m * m * m,
    ;
    assert(m2 * m == m3 && (2 * m3) * m == 2 * m4) by (nonlinear_arith)
        requires
            m2 == m * m,
            m3 == m * m * m,
            m4 == m * m * m * m,
    ;
    lemma_times(op, gradient[0], exposure, m, m);
    lemma_times(op, gradient[1], exposure, m, m);
    let g = seq![(op.times)(gradient[0], exposure), (op.times)(gradient[1], exposure)];
    let slope = row_times(g, j, op);
    let back = Seq::new(3, |k: int| slope[k].spec_neg());
    let e = value(exposure);
    let (a, b) = (value(gradient[0]), value(gradient[1]));
    assert forall|k: int| 0 <= k < 3 implies whole(#[trigger] slope[k], 2 * m3) && value(slope[k]) == (a
        * e) * value(j[k]) + (b * e) * value(j[3 + k]) by {
        assert(whole(j[k], m) && whole(j[3 + k], m));
        lemma_times(op, g[0], j[k], m2, m);
        lemma_times(op, g[1], j[3 + k], m2, m);
        lemma_plus(op, (op.times)(g[0], j[k]), (op.times)(g[1], j[3 + k]), m3, m3);
    }
    assert forall|k: int| 0 <= k < 3 implies whole(#[trigger] back[k], 2 * m3) && value(back[k])
        == -value(slope[k]) by {
        lemma_neg(slope[k], 2 * m3);
    }
    let turn = |k: int, c: int| skew_entry(p_cam, k, c);
    let rows = |k: int, c: int| r_cw[3 * k + c];
    lemma_zero();
    lemma_widened(Double { bits: 0 }, 0, m);
    assert(whole(p_cam[0], m) && whole(p_cam[1], m) && whole(p_cam[2], m));
    lemma_neg(p_cam[0], m);
    lemma_neg(p_cam[1], m);
    lemma_neg(p_cam[2], m);
    assert forall|k: int, c: int| 0 <= k < 3 && 0 <= c < 3 implies whole(#[trigger] turn(k, c), m) by {}
    assert forall|k: int, c: int| 0 <= k < 3 && 0 <= c < 3 implies whole(#[trigger] rows(k, c), m) by {
        assert(whole(r_cw[3 * k + c], m));
    }
    lemma_row_through(slope, turn, op, 2 * m3, m);
    lemma_row_through(back, rows, op, 2 * m3, m);
    let x = values(p_cam);
    let s = values(slope);
    let t = values(back);
    lemma_pulled(s, |k: int, c: int| value(turn(k, c)), values(term.rotation@), way);
    lemma_pulled(t, |k: int, c: int| value(rows(k, c)), values(term.position@), way);
    let moved = applied(|k: int, c: int| value(turn(k, c)), way);
    let c = cross_of(x, way);
    assert(moved(0) == c(0)) by {
        assert((-x(2)) * way(1) == -(x(2) * way(1))) by (nonlinear_arith);
        assert(moved(0) == 0 * way(0) + (-x(2)) * way(1) + x(1) * way(2));
    }
    assert(moved(1) == c(1)) by {
        assert((-x(0)) * way(2) == -(x(0) * way(2))) by (nonlinear_arith);
        assert(moved(1) == x(2) * way(0) + 0 * way(1) + (-x(0)) * way(2));
    }
    assert(moved(2) == c(2)) by {
        assert((-x(1)) * way(0) == -(x(1) * way(0))) by (nonlinear_arith);
        assert(moved(2) == (-x(1)) * way(0) + x(0) * way(1) + 0 * way(2));
    }
    lemma_slope(s, a, b, e, |k: int| value(j[k]), |k: int| value(j[3 + k]), c);
    let d = applied(square(r_cw), way);
    let d2 = applied(|k: int, c: int| value(rows(k, c)), way);
    assert(d2(0) == d(0) && d2(1) == d(1) && d2(2) == d(2));
    lemma_slope(s, a, b, e, |k: int| value(j[k]), |k: int| value(j[3 + k]), d);
    assert(scalar(t, d2) == -scalar(s, d)) by {
        assert((-s(0)) * d(0) == -(s(0) * d(0))) by (nonlinear_arith);
        assert((-s(1)) * d(1) == -(s(1) * d(1))) by (nonlinear_arith);
        assert((-s(2)) * d(2) == -(s(2) * d(2))) by (nonlinear_arith);
        assert(t(0) == -s(0) && t(1) == -s(1) && t(2) == -s(2));
    }
    lemma_times(op, exposure, grey, m, m);
    lemma_times(op, other_exposure, grey, m, m);
    lemma_times(op, reference_exposure, reference, m, m);
    let z = (op.times)(reference_exposure, reference);
    lemma_neg(z, m2);
    lemma_plus(op, (op.times)(exposure, grey), z.spec_neg(), m2, m2);
    lemma_plus(op, (op.times)(other_exposure, grey), z.spec_neg(), m2, m2);
    let (u, v, w) = (value(other_exposure), value(exposure), value(grey));
    assert(u * w - v * w == (u - v) * w) by (nonlinear_arith);
}

/// Three numbers times a matrix, in whole numbers.
proof fn lemma_row_through(
    r: Seq<Double>,
    f: spec_fn(int, int) -> Double,
    op: Ring,
    m: int,
    n: int,
)
    requires
        exact(op),
        whole3(r, m),
        forall|k: int, c: int| 0 <= k < 3 && 0 <= c < 3 ==> whole(#[trigger] f(k, c), n),
        0 <= m <= EXACT,
        0 <= n <= EXACT,
        3 * (m * n) <= EXACT,
    ensures
        forall|c: int|
            0 <= c < 3 ==> value(#[trigger] row_through(r, f, op)[c]) == scalar(
                values(r),
                |k: int| value(f(k, c)),
            ),
{
    assert forall|c: int| 0 <= c < 3 implies value(#[trigger] row_through(r, f, op)[c]) == scalar(
        values(r),
        |k: int| value(f(k, c)),
    ) by {
        let x = list_of(r);
        let y = |k: int| f(k, c);
        assert forall|k: int| 0 <= k < 3 implies whole(#[trigger] x(k), m) by {
            assert(whole(r[k], m));
        }
        assert forall|k: int| 0 <= k < 3 implies whole(#[trigger] y(k), n) by {
            assert(whole(f(k, c), n));
        }
        lemma_dot(x, y, op, m, n);
        assert(row_through(r, f, op)[c] == dot(x, y, op, 3));
    }
}

/// A row times a matrix, applied to a vector.
proof fn lemma_pulled(
    s: spec_fn(int) -> int,
    f: spec_fn(int, int) -> int,
    row: spec_fn(int) -> int,
    v: spec_fn(int) -> int,
)
    requires
        row(0) == scalar(s, |k: int| f(k, 0)),
        row(1) == scalar(s, |k: int| f(k, 1)),
        row(2) == scalar(s, |k: int| f(k, 2)),
    ensures
        scalar(row, v) == scalar(s, applied(f, v)),
{
    crate::whole::lemma_exchange(s, f, v);
    let y = applied(crate::whole::exchanged(f), s);
    assert forall|c: int| 0 <= c < 3 implies #[trigger] y(c) == scalar(s, |k: int| f(k, c)) by {
        let (p, q, r) = (f(0, c), f(1, c), f(2, c));
        let (x, z, w) = (s(0), s(1), s(2));
        assert(p * x == x * p) by (nonlinear_arith);
        assert(q * z == z * q) by (nonlinear_arith);
        assert(r * w == w * r) by (nonlinear_arith);
    }
    assert(y(0) == row(0) && y(1) == row(1) && y(2) == row(2));
}

/// A slope through two rows, applied to a way.
proof fn lemma_slope(
    s: spec_fn(int) -> int,
    a: int,
    b: int,
    e: int,
    p: spec_fn(int) -> int,
    q: spec_fn(int) -> int,
    w: spec_fn(int) -> int,
)
    requires
        s(0) == (a * e) * p(0) + (b * e) * q(0),
        s(1) == (a * e) * p(1) + (b * e) * q(1),
        s(2) == (a * e) * p(2) + (b * e) * q(2),
    ensures
        scalar(s, w) == e * (a * scalar(p, w) + b * scalar(q, w)),
{
    lemma_slope_part(a, b, e, p(0), q(0), w(0));
    lemma_slope_part(a, b, e, p(1), q(1), w(1));
    lemma_slope_part(a, b, e, p(2), q(2), w(2));
    let (x, y, z) = (p(0) * w(0), p(1) * w(1), p(2) * w(2));
    let (t, u, v) = (q(0) * w(0), q(1) * w(1), q(2) * w(2));
    assert(a * x + a * y + a * z == a * (x + y + z)) by (nonlinear_arith);
    assert(b * t + b * u + b * v == b * (t + u + v)) by (nonlinear_arith);
    let (c, d, f) = (a * x + b * t, a * y + b * u, a * z + b * v);
    assert(e * c + e * d + e * f == e * (c + d + f)) by (nonlinear_arith);
}

/// One part of a slope.
proof fn lemma_slope_part(a: int, b: int, e: int, p: int, q: int, w: int)
    ensures
        ((a * e) * p + (b * e) * q) * w == e * (a * (p * w) + b * (q * w)),
{
    assert(((a * e) * p + (b * e) * q) * w == ((a * e) * p) * w + ((b * e) * q) * w) by (nonlinear_arith);
    assert(((a * e) * p) * w == e * (a * (p * w))) by (nonlinear_arith);
    assert(((b * e) * q) * w == e * (b * (q * w))) by (nonlinear_arith);
    assert(e * (a * (p * w) + b * (q * w)) == e * (a * (p * w)) + e * (b * (q * w)))
        by (nonlinear_arith);
}

/// The map between two views takes the points of its plane where the turn and the way
/// take them.
pub proof fn law_plane_map_moves_the_plane<V: Fn(Double, Double) -> Double>(
    rot: Seq<Double>,
    way: Seq<Double>,
    normal: Seq<Double>,
    denom: Double,
    divide: V,
    op: Ring,
    q: spec_fn(int) -> int,
    m: int,
    i: int,
)
    requires
        exact(op),
        whole9(rot, m),
        whole3(way, m),
        whole3(normal, m),
        forall|k: int|
            0 <= k < 3 ==> whole(of_two(divide, #[trigger] normal[k], denom), m) && value(
                of_two(divide, normal[k], denom),
            ) * value(denom) == value(normal[k]),
        value(denom) != 0,
        scalar(values(normal), q) == value(denom),
        1 <= m,
        m + m * m <= EXACT,
        0 <= i < 3,
    ensures
        scalar(|k: int| value(plane_map(rot, way, normal, denom, divide, op)(i, k)), q) == applied(
            square(rot),
            q,
        )(i) + value(way[i]),
{
    assert(0 <= m * m) by (nonlinear_arith)
        requires
            1 <= m,
    ;
    let f = plane_map(rot, way, normal, denom, divide, op);
    let d = |k: int| value(of_two(divide, normal[k], denom));
    let w = value(way[i]);
    let r = |k: int| value(rot[3 * i + k]);
    assert forall|k: int| 0 <= k < 3 implies value(#[trigger] f(i, k)) == r(k) + w * d(k) by {
        assert(whole(rot[3 * i + k], m));
        assert(whole(normal[k], m));
        lemma_times(op, way[i], of_two(divide, normal[k], denom), m, m);
        lemma_plus(
            op,
            rot[3 * i + k],
            (op.times)(way[i], of_two(divide, normal[k], denom)),
            m,
            m * m,
        );
    }
    assert(value(f(i, 0)) == r(0) + w * d(0) && value(f(i, 1)) == r(1) + w * d(1) && value(f(i, 2)) == r(
        2,
    ) + w * d(2));
    lemma_two_parts(r(0), w, d(0), q(0));
    lemma_two_parts(r(1), w, d(1), q(1));
    lemma_two_parts(r(2), w, d(2), q(2));
    let z = value(denom);
    let n = values(normal);
    assert(n(0) == d(0) * z && n(1) == d(1) * z && n(2) == d(2) * z) by {
        assert(whole(normal[0], m) && whole(normal[1], m) && whole(normal[2], m));
    }
    let t = d(0) * q(0) + d(1) * q(1) + d(2) * q(2);
    assert(t * z == z) by {
        let (a, b, c) = (d(0), d(1), d(2));
        let (x, y, u) = (q(0), q(1), q(2));
        assert((a * z) * x == (a * x) * z) by (nonlinear_arith);
        assert((b * z) * y == (b * y) * z) by (nonlinear_arith);
        assert((c * z) * u == (c * u) * z) by (nonlinear_arith);
        assert((a * x) * z + (b * y) * z + (c * u) * z == (a * x + b * y + c * u) * z)
            by (nonlinear_arith);
    }
    assert(t == 1) by (nonlinear_arith)
        requires
            t * z == z,
            z != 0,
    ;
    let (a, b, c) = (d(0) * q(0), d(1) * q(1), d(2) * q(2));
    assert(w * a + w * b + w * c == w * (a + b + c)) by (nonlinear_arith);
    assert(w * (a + b + c) == w) by (nonlinear_arith)
        requires
            a + b + c == 1,
    ;
    assert(applied(square(rot), q)(i) == r(0) * q(0) + r(1) * q(1) + r(2) * q(2));
}

/// A sum of two parts times a number.
proof fn lemma_two_parts(r: int, w: int, d: int, q: int)
    ensures
        (r + w * d) * q == r * q + w * (d * q),
{
    assert((r + w * d) * q == r * q + w * (d * q)) by (nonlinear_arith);
}

/// Levels are run from the coarsest down, each but the finest once, and the finest, at
/// which the last runs are made, three times.
pub proof fn law_levels_go_from_coarse_to_fine(levels: int)
    requires
        1 <= levels <= usize::MAX,
    ensures
        level_order(levels)[0] == levels - 1,
        level_order(levels).last() == 0,
        level_order(levels).len() == levels + 2,
        forall|a: int, b: int|
            0 <= a < b < level_order(levels).len() ==> #[trigger] level_order(levels)[a] >= #[trigger] level_order(
                levels,
            )[b],
        forall|a: int|
            0 <= a < level_order(levels).len() ==> (#[trigger] level_order(levels)[a] == 0 <==> levels - 1
                <= a),
{
    let o = level_order(levels);
    assert forall|a: int| 0 <= a < o.len() implies #[trigger] o[a] == (if a < levels - 1 {
        (levels - 1 - a) as usize
    } else {
        0
    }) by {}
}

/// Points move their pixels by the derivative: along the image the pixel moves by the
/// derivative times the way, each coordinate by its own, and along its ray, where the
/// inverse of the depth is exact, a point moves its pixel not at all.
pub proof fn law_pixels_move_with_their_points<
    P: Fn(Double, Double) -> Double,
    T: Fn(Double, Double) -> Double,
    V: Fn(Double, Double) -> Double,
    I: Fn(Double) -> Double,
    L: Fn([Double; 3]) -> Double,
    N: Fn(usize) -> Double,
    W: Fn(i64) -> Double,
>(tools: ReadTools<P, T, V, I, L, N, W>, shot: &Shot, p: Seq<Double>, q: Seq<Double>, m: int)
    requires
        exact(tools.op()),
        whole3(p, m),
        whole3(q, m),
        q[2] == p[2],
        whole(shot.camera.fx, m),
        whole(shot.camera.fy, m),
        whole(shot.camera.cx, m),
        whole(shot.camera.cy, m),
        whole(of_one(tools.inverse, p[2]), m),
        1 <= m,
        2 * (m * m * m * m) <= EXACT,
    ensures
        ({
            let j = pixel_by_point(p, shot.camera, tools.times, tools.inverse);
            let a = tools.pixel(shot, p);
            let b = tools.pixel(shot, q);
            &&& value(b[0]) - value(a[0]) == value(j[0]) * (value(q[0]) - value(p[0]))
            &&& value(b[1]) - value(a[1]) == value(j[4]) * (value(q[1]) - value(p[1]))
            &&& j[1] == (Double { bits: 0 }) && j[3] == (Double { bits: 0 })
            &&& value(of_one(tools.inverse, p[2])) * value(p[2]) == 1 ==> scalar(
                |k: int| value(j[k]),
                values(p),
            ) == 0 && scalar(|k: int| value(j[3 + k]), values(p)) == 0
            &&& value(p[0]) == 0 ==> value(a[0]) == value(shot.camera.cx)
            &&& value(p[1]) == 0 ==> value(a[1]) == value(shot.camera.cy)
        }),
{
    let op = tools.op();
    let k = shot.camera;
    let inv = of_one(tools.inverse, p[2]);
    let (m2, m3, m4) = (m * m, m * m * m, m * m * m * m);
    assert(1 <= m <= m2 <= m3 <= m4) by (nonlinear_arith)
        requires
            1 <= m,
            m2 == m * m,
            m3 == m * m * m,
            m4 == m * m * m * m,
    ;
    assert(m2 * m == m3 && m2 * m2 == m4) by (nonlinear_arith)
        requires
            m2 == m * m,
            m3 == m * m * m,
            m4 == m * m * m * m,
    ;
    lemma_shifted(k.fx, p[0], inv, k.cx, op, m);
    lemma_shifted(k.fy, p[1], inv, k.cy, op, m);
    lemma_shifted(k.fx, q[0], inv, k.cx, op, m);
    lemma_shifted(k.fy, q[1], inv, k.cy, op, m);
    lemma_times(op, k.fx, inv, m, m);
    lemma_times(op, k.fy, inv, m, m);
    lemma_times(op, inv, inv, m, m);
    lemma_neg(k.fx, m);
    lemma_neg(k.fy, m);
    lemma_times(op, k.fx.spec_neg(), p[0], m, m);
    lemma_times(op, k.fy.spec_neg(), p[1], m, m);
    let z2 = (op.times)(inv, inv);
    lemma_times(op, (op.times)(k.fx.spec_neg(), p[0]), z2, m2, m2);
    lemma_times(op, (op.times)(k.fy.spec_neg(), p[1]), z2, m2, m2);
    lemma_zero();
    let j = pixel_by_point(p, k, tools.times, tools.inverse);
    let (fx, fy, i, z) = (value(k.fx), value(k.fy), value(inv), value(p[2]));
    lemma_along_the_image(fx, value(p[0]), value(q[0]), i);
    lemma_along_the_image(fy, value(p[1]), value(q[1]), i);
    assert(value(j[0]) == fx * i && value(j[4]) == fy * i);
    assert(value(j[2]) == ((-fx) * value(p[0])) * (i * i));
    assert(value(j[5]) == ((-fy) * value(p[1])) * (i * i));
    if i * z == 1 {
        lemma_along_the_ray(fx, value(p[0]), i, z);
        lemma_along_the_ray(fy, value(p[1]), i, z);
        assert(0 * value(p[0]) == 0 && 0 * value(p[1]) == 0);
    }
    if value(p[0]) == 0 {
        assert((fx * value(p[0])) * i == 0) by (nonlinear_arith)
            requires
                value(p[0]) == 0,
        ;
    }
    if value(p[1]) == 0 {
        assert((fy * value(p[1])) * i == 0) by (nonlinear_arith)
            requires
                value(p[1]) == 0,
        ;
    }
}

/// A coordinate of a pixel in whole numbers.
proof fn lemma_shifted(f: Double, x: Double, inv: Double, c: Double, op: Ring, m: int)
    requires
        exact(op),
        whole(f, m),
        whole(x, m),
        whole(inv, m),
        whole(c, m),
        1 <= m,
        2 * (m * m * m * m) <= EXACT,
    ensures
        value((op.plus)((op.times)((op.times)(f, x), inv), c)) == (value(f) * value(x)) * value(inv)
            + value(c),
{
    assert(m <= m * m <= m * m * m <= m * m * m * m) by (nonlinear_arith)
        requires
            1 <= m,
    ;
    lemma_times(op, f, x, m, m);
    lemma_times(op, (op.times)(f, x), inv, m * m, m);
    lemma_plus(op, (op.times)((op.times)(f, x), inv), c, m * m * m, m);
}

/// How a coordinate of a pixel changes along the image.
proof fn lemma_along_the_image(f: int, x: int, y: int, i: int)
    ensures
        (f * y) * i - (f * x) * i == (f * i) * (y - x),
{
    assert((f * y) * i - (f * x) * i == (f * i) * (y - x)) by (nonlinear_arith);
}

/// How a coordinate of a pixel changes along the ray.
proof fn lemma_along_the_ray(f: int, x: int, i: int, z: int)
    requires
        i * z == 1,
    ensures
        (f * i) * x + (((-f) * x) * (i * i)) * z == 0,
{
    assert((((-f) * x) * (i * i)) * z == (((-f) * x) * i) * (i * z)) by (nonlinear_arith);
    let t = i * z;
    assert((((-f) * x) * i) * t == -((f * i) * x)) by (nonlinear_arith)
        requires
            t == 1,
    ;
}

} // verus!
