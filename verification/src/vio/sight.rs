//! What cameras see of points: a feature is seen from its own anchor where it was
//! written down, and the derivatives say how what is seen moves.

use vstd::prelude::*;

use crate::algebra::{
    col_of, dot, flipped, list_of, negation, product, row_of, three_by_three, unit, Ring,
};
use crate::double::Double;
use crate::matrix::Matrix;
use crate::vio::jacobian::{
    anchor_point, by_anchor, by_calibration, by_pose, by_world, carried, expected_pixel, in_body,
    in_camera, is_entry, to_world, world_point, PlacedBlock, PoseValue, Vantage,
};
use crate::vio::updater_helper::MeasurementEntry;
use crate::vio::reanchor::{as_seen_by, camera_center};
use crate::void_measure::distances::cross_of;
use crate::void_types::exact_motion::{lemma_difference3, lemma_rotated, lemma_sum3};
use crate::void_types::motion::{difference3, rotated3};
use crate::void_types::so3::cross;
use crate::whole::{
    applied, exact, exchanged, lemma_dot, lemma_exchange, lemma_neg, lemma_one, lemma_plus, lemma_turned_back,
    lemma_widened,
    lemma_zero, scalar, square, turns, value, values, whole, whole3, whole9, EXACT,
};

verus! {

/// Whether a pose is made of whole numbers within a bound.
pub open spec fn whole_pose(p: PoseValue, m: int) -> bool {
    whole9(p.rot@, m) && whole3(p.pos@, m)
}

/// Whether a pose turns without stretching but for a factor whose square is `s`.
pub open spec fn rigid(p: PoseValue, s: int) -> bool {
    turns(square(p.rot@), s) && turns(exchanged(square(p.rot@)), s)
}

/// The values of a three by three formula.
pub open spec fn entry_values(f: spec_fn(int, int) -> Double) -> spec_fn(int, int) -> int {
    |i: int, j: int| value(f(i, j))
}

/// Whether the entries of a three by three formula are whole.
pub open spec fn whole_entries(f: spec_fn(int, int) -> Double, m: int) -> bool {
    forall|i: int, j: int| 0 <= i < 3 && 0 <= j < 3 ==> whole(#[trigger] f(i, j), m)
}

/// A product of three by three formulas in whole numbers.
pub proof fn lemma_product_values(
    f: spec_fn(int, int) -> Double,
    g: spec_fn(int, int) -> Double,
    op: Ring,
    m: int,
    n: int,
)
    requires
        exact(op),
        whole_entries(f, m),
        whole_entries(g, n),
        0 <= m <= EXACT,
        0 <= n <= EXACT,
        3 * (m * n) <= EXACT,
    ensures
        whole_entries(product(f, g, op, 3), 3 * (m * n)),
        forall|i: int, j: int|
            0 <= i < 3 && 0 <= j < 3 ==> #[trigger] value(product(f, g, op, 3)(i, j)) == scalar(
                |k: int| value(f(i, k)),
                |k: int| value(g(k, j)),
            ),
{
    assert forall|i: int, j: int| 0 <= i < 3 && 0 <= j < 3 implies whole(
        #[trigger] product(f, g, op, 3)(i, j),
        3 * (m * n),
    ) && value(product(f, g, op, 3)(i, j)) == scalar(
        |k: int| value(f(i, k)),
        |k: int| value(g(k, j)),
    ) by {
        let x = row_of(f, i);
        let y = col_of(g, j);
        assert forall|k: int| 0 <= k < 3 implies whole(#[trigger] x(k), m) by {
            assert(whole(f(i, k), m));
        }
        assert forall|k: int| 0 <= k < 3 implies whole(#[trigger] y(k), n) by {
            assert(whole(g(k, j), n));
        }
        lemma_dot(x, y, op, m, n);
    }
}

/// A three by three formula applied to a vector in whole numbers.
pub proof fn lemma_carried(f: spec_fn(int, int) -> Double, v: Seq<Double>, op: Ring, m: int, n: int)
    requires
        exact(op),
        whole_entries(f, m),
        whole3(v, n),
        0 <= m <= EXACT,
        0 <= n <= EXACT,
        3 * (m * n) <= EXACT,
    ensures
        whole3(carried(f, v, op), 3 * (m * n)),
        forall|i: int|
            0 <= i < 3 ==> value(#[trigger] carried(f, v, op)[i]) == applied(entry_values(f), values(v))(i),
{
    assert forall|i: int| 0 <= i < 3 implies whole(#[trigger] carried(f, v, op)[i], 3 * (m * n))
        && value(carried(f, v, op)[i]) == applied(entry_values(f), values(v))(i) by {
        let x = row_of(f, i);
        let y = list_of(v);
        assert forall|k: int| 0 <= k < 3 implies whole(#[trigger] x(k), m) by {
            assert(whole(f(i, k), m));
        }
        assert forall|k: int| 0 <= k < 3 implies whole(#[trigger] y(k), n) by {
            assert(whole(v[k], n));
        }
        lemma_dot(x, y, op, m, n);
        assert(carried(f, v, op)[i] == dot(x, y, op, 3));
    }
}

/// Powers of a bound.
pub proof fn lemma_powers(m: int)
    requires
        1 <= m,
    ensures
        m <= m * m <= m * m * m <= m * m * m * m <= m * m * m * m * m,
{
    assert(m <= m * m) by (nonlinear_arith)
        requires
            1 <= m,
    ;
    let a = m * m;
    assert(a <= a * m) by (nonlinear_arith)
        requires
            1 <= m,
            0 <= a,
    ;
    let b = a * m;
    assert(b <= b * m) by (nonlinear_arith)
        requires
            1 <= m,
            0 <= b,
    ;
    let c = b * m;
    assert(c <= c * m) by (nonlinear_arith)
        requires
            1 <= m,
            0 <= c,
    ;
}

/// A product may be taken either way.
proof fn lemma_swapped(a: int, b: int)
    ensures
        a * b == b * a,
{
    assert(a * b == b * a) by (nonlinear_arith);
}

/// The world's point of a point in an anchor, in whole numbers: turned back by the
/// camera, then by the anchor.
proof fn lemma_world_point(anchor: PoseValue, calib: PoseValue, p: Seq<Double>, op: Ring, m: int)
    requires
        exact(op),
        whole_pose(anchor, m),
        whole_pose(calib, m),
        whole3(p, m),
        1 <= m,
        200 * (m * m * m * m * m) <= EXACT,
    ensures
        whole3(world_point(anchor, calib, p, op), 19 * (m * m * m)),
        whole_entries(to_world(anchor, calib, op), 3 * (m * m)),
        ({
            let d = |i: int| value(p[i]) - value(calib.pos@[i]);
            let back = applied(
                exchanged(square(anchor.rot@)),
                applied(exchanged(square(calib.rot@)), d),
            );
            forall|i: int|
                0 <= i < 3 ==> value(#[trigger] world_point(anchor, calib, p, op)[i]) == back(i) + value(
                    anchor.pos@[i],
                )
        }),
        forall|i: int, j: int|
            0 <= i < 3 && 0 <= j < 3 ==> value(#[trigger] to_world(anchor, calib, op)(i, j)) == scalar(
                |k: int| square(anchor.rot@)(k, i),
                |k: int| square(calib.rot@)(j, k),
            ),
{
    lemma_powers(m);
    let ra = square(anchor.rot@);
    let rc = square(calib.rot@);
    let f = flipped(three_by_three(anchor.rot@));
    let g = flipped(three_by_three(calib.rot@));
    let t = to_world(anchor, calib, op);
    let tv = entry_values(t);
    assert forall|i: int, j: int| 0 <= i < 3 && 0 <= j < 3 implies whole(#[trigger] f(i, j), m) by {
        assert(whole(anchor.rot@[3 * j + i], m));
    }
    assert forall|i: int, j: int| 0 <= i < 3 && 0 <= j < 3 implies whole(#[trigger] g(i, j), m) by {
        assert(whole(calib.rot@[3 * j + i], m));
    }
    lemma_product_values(f, g, op, m, m);
    assert forall|i: int, j: int| 0 <= i < 3 && 0 <= j < 3 implies value(#[trigger] t(i, j)) == scalar(
        |k: int| ra(k, i),
        |k: int| rc(j, k),
    ) by {
        assert(value(product(f, g, op, 3)(i, j)) == scalar(
            |k: int| value(f(i, k)),
            |k: int| value(g(k, j)),
        ));
    }
    let e = difference3(p, calib.pos@, op);
    let d = |i: int| value(p[i]) - value(calib.pos@[i]);
    lemma_difference3(p, calib.pos@, op, m, m);
    assert(3 * ((3 * (m * m)) * (2 * m)) == 18 * (m * m * m)) by (nonlinear_arith);
    lemma_carried(t, e, op, 3 * (m * m), 2 * m);
    let w = carried(t, e, op);
    assert forall|i: int| 0 <= i < 3 implies whole(#[trigger] anchor.pos@[i], m * m * m) by {
        lemma_widened(anchor.pos@[i], m, m * m * m);
    }
    lemma_sum3(w, anchor.pos@, op, 18 * (m * m * m), m * m * m);
    let inner = applied(exchanged(rc), d);
    let back = applied(exchanged(ra), inner);
    assert(values(e)(0) == d(0) && values(e)(1) == d(1) && values(e)(2) == d(2));
    assert forall|i: int| 0 <= i < 3 implies value(#[trigger] w[i]) == back(i) by {
        let col = |k: int| ra(k, i);
        lemma_exchange(col, exchanged(rc), d);
        let y = applied(exchanged(exchanged(rc)), col);
        assert forall|j: int| 0 <= j < 3 implies #[trigger] y(j) == tv(i, j) by {
            lemma_swapped(rc(j, 0), ra(0, i));
            lemma_swapped(rc(j, 1), ra(1, i));
            lemma_swapped(rc(j, 2), ra(2, i));
            assert(value(t(i, j)) == scalar(|k: int| ra(k, i), |k: int| rc(j, k)));
        }
        assert(y(0) == tv(i, 0) && y(1) == tv(i, 1) && y(2) == tv(i, 2));
        assert(value(w[i]) == applied(tv, values(e))(i));
    }
    assert forall|i: int| 0 <= i < 3 implies value(#[trigger] world_point(anchor, calib, p, op)[i])
        == back(i) + value(anchor.pos@[i]) by {
        assert(value(w[i]) == back(i));
    }
}

/// What turning by a pose makes of what was turned back by it.
proof fn lemma_forth_and_back(r: spec_fn(int, int) -> int, v: spec_fn(int) -> int, s: int, k: int)
    requires
        turns(exchanged(r), s),
        0 <= k < 3,
    ensures
        applied(r, applied(exchanged(r), v))(k) == s * v(k),
{
    lemma_turned_back(exchanged(r), v, s, k);
    let x = applied(exchanged(r), v);
    assert(applied(exchanged(exchanged(r)), x)(k) == applied(r, x)(k));
}

/// A matrix applied to a multiple of a vector.
proof fn lemma_scaled_through(
    r: spec_fn(int, int) -> int,
    x: spec_fn(int) -> int,
    v: spec_fn(int) -> int,
    s: int,
    k: int,
)
    requires
        x(0) == s * v(0),
        x(1) == s * v(1),
        x(2) == s * v(2),
    ensures
        applied(r, x)(k) == s * applied(r, v)(k),
{
    let (a, b, c) = (r(k, 0), r(k, 1), r(k, 2));
    let (p, q, t) = (v(0), v(1), v(2));
    assert(a * (s * p) == s * (a * p)) by (nonlinear_arith);
    assert(b * (s * q) == s * (b * q)) by (nonlinear_arith);
    assert(c * (s * t) == s * (c * t)) by (nonlinear_arith);
    assert(s * (a * p) + s * (b * q) + s * (c * t) == s * (a * p + b * q + c * t)) by (nonlinear_arith);
}

/// The camera that a feature is anchored in sees it where it was written down: the
/// point of the world that belongs to a point in the anchor is, in the same camera of
/// the same clone, that point again.
pub proof fn law_anchor_sees_its_own_point(
    anchor: PoseValue,
    calib: PoseValue,
    p: Seq<Double>,
    op: Ring,
    m: int,
    s: int,
    t: int,
    i: int,
)
    requires
        exact(op),
        whole_pose(anchor, m),
        whole_pose(calib, m),
        rigid(anchor, s),
        rigid(calib, t),
        whole3(p, m),
        1 <= m,
        200 * (m * m * m * m * m) <= EXACT,
        0 <= i < 3,
    ensures
        value(in_camera(calib, in_body(anchor, world_point(anchor, calib, p, op), op), op)[i]) - value(
            calib.pos@[i],
        ) == (s * t) * (value(p[i]) - value(calib.pos@[i])),
{
    lemma_powers(m);
    lemma_world_point(anchor, calib, p, op, m);
    let ra = square(anchor.rot@);
    let rc = square(calib.rot@);
    let d = |k: int| value(p[k]) - value(calib.pos@[k]);
    let inner = applied(exchanged(rc), d);
    let back = applied(exchanged(ra), inner);
    let w = world_point(anchor, calib, p, op);
    assert forall|k: int| 0 <= k < 3 implies whole(#[trigger] anchor.pos@[k], m * m * m) by {
        lemma_widened(anchor.pos@[k], m, m * m * m);
    }
    let e = difference3(w, anchor.pos@, op);
    lemma_difference3(w, anchor.pos@, op, 19 * (m * m * m), m * m * m);
    assert(3 * (m * (20 * (m * m * m))) == 60 * (m * m * m * m)) by (nonlinear_arith);
    lemma_rotated(anchor.rot@, e, op, m, 20 * (m * m * m));
    let b = in_body(anchor, w, op);
    assert(3 * (m * (60 * (m * m * m * m))) == 180 * (m * m * m * m * m)) by (nonlinear_arith);
    lemma_seen(calib, b, op, m, 60 * (m * m * m * m));
    assert forall|k: int| 0 <= k < 3 implies #[trigger] values(e)(k) == back(k) by {
        assert(value(e[k]) == value(w[k]) - value(anchor.pos@[k]));
    }
    assert(values(e)(0) == back(0) && values(e)(1) == back(1) && values(e)(2) == back(2));
    assert forall|k: int| 0 <= k < 3 implies #[trigger] values(b)(k) == s * inner(k) by {
        assert(values(b)(k) == applied(ra, values(e))(k));
        lemma_forth_and_back(ra, inner, s, k);
    }
    let x = values(b);
    assert(x(0) == s * inner(0) && x(1) == s * inner(1) && x(2) == s * inner(2));
    lemma_scaled_through(rc, x, inner, s, i);
    lemma_forth_and_back(rc, d, t, i);
    let u = d(i);
    assert(s * (t * u) == (s * t) * u) by (nonlinear_arith);
}

/// A point of the body in its camera, in whole numbers.
proof fn lemma_seen(calib: PoseValue, b: Seq<Double>, op: Ring, m: int, n: int)
    requires
        exact(op),
        whole_pose(calib, m),
        whole3(b, n),
        1 <= m,
        m <= n,
        3 * (m * n) + m <= EXACT,
    ensures
        whole3(in_camera(calib, b, op), 3 * (m * n) + m),
        forall|i: int|
            0 <= i < 3 ==> value(#[trigger] in_camera(calib, b, op)[i]) == applied(
                square(calib.rot@),
                values(b),
            )(i) + value(calib.pos@[i]),
{
    assert(n <= m * n) by (nonlinear_arith)
        requires
            1 <= m,
            0 <= n,
    ;
    lemma_rotated(calib.rot@, b, op, m, n);
    let r = rotated3(calib.rot@, b, op);
    lemma_sum3(r, calib.pos@, op, 3 * (m * n), m);
    assert forall|i: int| 0 <= i < 3 implies value(#[trigger] in_camera(calib, b, op)[i]) == applied(
        square(calib.rot@),
        values(b),
    )(i) + value(calib.pos@[i]) by {
        assert(values(r)(i) == applied(square(calib.rot@), values(b))(i));
    }
}

/// Writing a point of the world down in an anchor undoes placing it from there.
pub proof fn law_writing_down_undoes_placing(
    anchor: PoseValue,
    calib: PoseValue,
    p: Seq<Double>,
    op: Ring,
    m: int,
    s: int,
    t: int,
    i: int,
)
    requires
        exact(op),
        whole_pose(anchor, m),
        whole_pose(calib, m),
        rigid(anchor, s),
        rigid(calib, t),
        whole3(p, m),
        1 <= m,
        200 * (m * m * m * m * m) <= EXACT,
        0 <= i < 3,
    ensures
        value(anchor_point(anchor, calib, world_point(anchor, calib, p, op), op)[i]) - value(
            calib.pos@[i],
        ) == (s * t) * (value(p[i]) - value(calib.pos@[i])),
{
    lemma_powers(m);
    lemma_world_point(anchor, calib, p, op, m);
    let ra = square(anchor.rot@);
    let rc = square(calib.rot@);
    let d = |k: int| value(p[k]) - value(calib.pos@[k]);
    let inner = applied(exchanged(rc), d);
    let back = applied(exchanged(ra), inner);
    let w = world_point(anchor, calib, p, op);
    assert forall|k: int| 0 <= k < 3 implies whole(#[trigger] anchor.pos@[k], m * m * m) by {
        lemma_widened(anchor.pos@[k], m, m * m * m);
    }
    let e = difference3(w, anchor.pos@, op);
    lemma_difference3(w, anchor.pos@, op, 19 * (m * m * m), m * m * m);
    let f = flipped(to_world(anchor, calib, op));
    assert forall|a: int, b: int| 0 <= a < 3 && 0 <= b < 3 implies whole(
        #[trigger] f(a, b),
        3 * (m * m),
    ) by {
        assert(whole(to_world(anchor, calib, op)(b, a), 3 * (m * m)));
    }
    assert(3 * ((3 * (m * m)) * (20 * (m * m * m))) == 180 * (m * m * m * m * m)) by (nonlinear_arith);
    lemma_carried(f, e, op, 3 * (m * m), 20 * (m * m * m));
    let c = carried(f, e, op);
    lemma_sum3(c, calib.pos@, op, 180 * (m * m * m * m * m), m);
    let y = values(e);
    assert forall|k: int| 0 <= k < 3 implies #[trigger] y(k) == back(k) by {
        assert(value(e[k]) == value(w[k]) - value(anchor.pos@[k]));
    }
    assert(y(0) == back(0) && y(1) == back(1) && y(2) == back(2));
    let body = applied(ra, y);
    assert forall|k: int| 0 <= k < 3 implies #[trigger] body(k) == s * inner(k) by {
        lemma_forth_and_back(ra, inner, s, k);
    }
    assert(body(0) == s * inner(0) && body(1) == s * inner(1) && body(2) == s * inner(2));
    assert(value(c[i]) == applied(rc, body)(i)) by {
        let row = |k: int| rc(i, k);
        lemma_exchange(row, ra, y);
        let z = applied(exchanged(ra), row);
        assert forall|a: int| 0 <= a < 3 implies #[trigger] z(a) == value(f(i, a)) by {
            assert(f(i, a) == to_world(anchor, calib, op)(a, i));
        }
        assert(z(0) == value(f(i, 0)) && z(1) == value(f(i, 1)) && z(2) == value(f(i, 2)));
        assert(value(c[i]) == applied(entry_values(f), y)(i));
    }
    lemma_scaled_through(rc, body, inner, s, i);
    lemma_forth_and_back(rc, d, t, i);
    let u = d(i);
    assert(s * (t * u) == (s * t) * u) by (nonlinear_arith);
}

/// What a camera sees moves with the point by its derivative: the difference of two
/// points in the camera is the derivative by the world times their difference there.
pub proof fn law_seen_points_move_by_the_derivative(
    calib: PoseValue,
    pose: PoseValue,
    p: Seq<Double>,
    q: Seq<Double>,
    op: Ring,
    m: int,
    i: int,
)
    requires
        exact(op),
        whole_pose(calib, m),
        whole_pose(pose, m),
        whole3(p, m),
        whole3(q, m),
        1 <= m,
        20 * (m * m * m) <= EXACT,
        0 <= i < 3,
    ensures
        value(in_camera(calib, in_body(pose, p, op), op)[i]) - value(
            in_camera(calib, in_body(pose, q, op), op)[i],
        ) == applied(entry_values(by_world(calib, pose, op)), |k: int| value(p[k]) - value(q[k]))(i),
{
    lemma_seen_from(calib, pose, p, op, m, i);
    lemma_seen_from(calib, pose, q, op, m, i);
    let t = entry_values(by_world(calib, pose, op));
    lemma_apart3(t(i, 0), value(p[0]), value(q[0]), value(pose.pos@[0]));
    lemma_apart3(t(i, 1), value(p[1]), value(q[1]), value(pose.pos@[1]));
    lemma_apart3(t(i, 2), value(p[2]), value(q[2]), value(pose.pos@[2]));
}

/// What a camera sees moves against the position of its clone by the derivative.
pub proof fn law_seen_points_move_against_the_clone(
    calib: PoseValue,
    pose: PoseValue,
    moved: PoseValue,
    p: Seq<Double>,
    op: Ring,
    m: int,
    i: int,
)
    requires
        exact(op),
        whole_pose(calib, m),
        whole_pose(pose, m),
        whole_pose(moved, m),
        moved.rot == pose.rot,
        whole3(p, m),
        1 <= m,
        20 * (m * m * m) <= EXACT,
        0 <= i < 3,
    ensures
        value(in_camera(calib, in_body(moved, p, op), op)[i]) - value(
            in_camera(calib, in_body(pose, p, op), op)[i],
        ) == scalar(
            |k: int| value(by_pose(calib, pose, in_body(pose, p, op), op)(i, 3 + k)),
            |k: int| value(moved.pos@[k]) - value(pose.pos@[k]),
        ),
{
    lemma_seen_from(calib, pose, p, op, m, i);
    lemma_seen_from(calib, moved, p, op, m, i);
    let f = by_world(calib, pose, op);
    assert(by_world(calib, moved, op) == f);
    let t = entry_values(f);
    let g = by_pose(calib, pose, in_body(pose, p, op), op);
    assert(whole(f(i, 0), 3 * (m * m)) && whole(f(i, 1), 3 * (m * m)) && whole(f(i, 2), 3 * (m * m)));
    lemma_neg(f(i, 0), 3 * (m * m));
    lemma_neg(f(i, 1), 3 * (m * m));
    lemma_neg(f(i, 2), 3 * (m * m));
    assert(value(g(i, 3)) == -t(i, 0) && value(g(i, 4)) == -t(i, 1) && value(g(i, 5)) == -t(i, 2));
    lemma_against(t(i, 0), value(p[0]), value(moved.pos@[0]), value(pose.pos@[0]));
    lemma_against(t(i, 1), value(p[1]), value(moved.pos@[1]), value(pose.pos@[1]));
    lemma_against(t(i, 2), value(p[2]), value(moved.pos@[2]), value(pose.pos@[2]));
}

/// What a camera sees turns with its clone by the derivative: for a small turn, given as
/// a vector, the point in the body moves by the cross product with the vector, and the
/// point in the camera by the derivative times the vector.
pub proof fn law_seen_points_turn_with_the_clone(
    calib: PoseValue,
    pose: PoseValue,
    b: Seq<Double>,
    turn: spec_fn(int) -> int,
    op: Ring,
    m: int,
    i: int,
)
    requires
        exact(op),
        whole_pose(calib, m),
        whole3(b, m),
        1 <= m,
        20 * (m * m * m) <= EXACT,
        0 <= i < 3,
    ensures
        scalar(|k: int| value(by_pose(calib, pose, b, op)(i, k)), turn) == applied(
            square(calib.rot@),
            cross_of(values(b), turn),
        )(i),
{
    lemma_powers(m);
    let rc = square(calib.rot@);
    let f = three_by_three(calib.rot@);
    let g = cross(b);
    let x = values(b);
    assert forall|a: int, c: int| 0 <= a < 3 && 0 <= c < 3 implies whole(#[trigger] f(a, c), m) by {
        assert(whole(calib.rot@[3 * a + c], m));
    }
    lemma_zero();
    lemma_widened(Double { bits: 0 }, 0, m);
    assert(whole(b[0], m) && whole(b[1], m) && whole(b[2], m));
    lemma_neg(b[0], m);
    lemma_neg(b[1], m);
    lemma_neg(b[2], m);
    assert forall|a: int, c: int| 0 <= a < 3 && 0 <= c < 3 implies whole(#[trigger] g(a, c), m) by {}
    lemma_product_values(f, g, op, m, m);
    let k3 = entry_values(g);
    let row = |k: int| rc(i, k);
    lemma_exchange(row, k3, turn);
    let y = applied(exchanged(k3), row);
    assert forall|j: int| 0 <= j < 3 implies value(#[trigger] by_pose(calib, pose, b, op)(i, j)) == y(
        j,
    ) by {
        assert(by_pose(calib, pose, b, op)(i, j) == product(f, g, op, 3)(i, j));
        assert(value(product(f, g, op, 3)(i, j)) == scalar(
            |k: int| value(f(i, k)),
            |k: int| value(g(k, j)),
        ));
        lemma_swapped(k3(0, j), rc(i, 0));
        lemma_swapped(k3(1, j), rc(i, 1));
        lemma_swapped(k3(2, j), rc(i, 2));
    }
    let h = by_pose(calib, pose, b, op);
    assert(value(h(i, 0)) == y(0) && value(h(i, 1)) == y(1) && value(h(i, 2)) == y(2));
    let c = cross_of(x, turn);
    let z = applied(k3, turn);
    assert(z(0) == c(0)) by {
        assert((-x(2)) * turn(1) == -(x(2) * turn(1))) by (nonlinear_arith);
        assert(z(0) == 0 * turn(0) + (-x(2)) * turn(1) + x(1) * turn(2));
    }
    assert(z(1) == c(1)) by {
        assert((-x(0)) * turn(2) == -(x(0) * turn(2))) by (nonlinear_arith);
        assert(z(1) == x(2) * turn(0) + 0 * turn(1) + (-x(0)) * turn(2));
    }
    assert(z(2) == c(2)) by {
        assert((-x(1)) * turn(0) == -(x(1) * turn(0))) by (nonlinear_arith);
        assert(z(2) == (-x(1)) * turn(0) + x(0) * turn(1) + 0 * turn(2));
    }
}

/// A number times a difference of differences.
proof fn lemma_apart3(t: int, p: int, q: int, c: int)
    ensures
        t * (p - c) - t * (q - c) == t * (p - q),
{
    assert(t * (p - c) - t * (q - c) == t * (p - q)) by (nonlinear_arith);
}

/// A number times a difference whose second part changes.
proof fn lemma_against(t: int, p: int, a: int, b: int)
    ensures
        t * (p - a) - t * (p - b) == (-t) * (a - b),
{
    assert(t * (p - a) - t * (p - b) == (-t) * (a - b)) by (nonlinear_arith);
}

/// A point of the world in a camera, in whole numbers.
proof fn lemma_seen_from(calib: PoseValue, pose: PoseValue, p: Seq<Double>, op: Ring, m: int, i: int)
    requires
        exact(op),
        whole_pose(calib, m),
        whole_pose(pose, m),
        whole3(p, m),
        1 <= m,
        20 * (m * m * m) <= EXACT,
        0 <= i < 3,
    ensures
        whole_entries(by_world(calib, pose, op), 3 * (m * m)),
        value(in_camera(calib, in_body(pose, p, op), op)[i]) == applied(
            entry_values(by_world(calib, pose, op)),
            |k: int| value(p[k]) - value(pose.pos@[k]),
        )(i) + value(calib.pos@[i]),
{
    lemma_powers(m);
    let rp = square(pose.rot@);
    let rc = square(calib.rot@);
    let f = three_by_three(calib.rot@);
    let g = three_by_three(pose.rot@);
    assert forall|a: int, c: int| 0 <= a < 3 && 0 <= c < 3 implies whole(#[trigger] f(a, c), m) by {
        assert(whole(calib.rot@[3 * a + c], m));
    }
    assert forall|a: int, c: int| 0 <= a < 3 && 0 <= c < 3 implies whole(#[trigger] g(a, c), m) by {
        assert(whole(pose.rot@[3 * a + c], m));
    }
    lemma_product_values(f, g, op, m, m);
    let e = difference3(p, pose.pos@, op);
    let d = |k: int| value(p[k]) - value(pose.pos@[k]);
    lemma_difference3(p, pose.pos@, op, m, m);
    assert(3 * (m * (2 * m)) == 6 * (m * m)) by (nonlinear_arith);
    lemma_rotated(pose.rot@, e, op, m, 2 * m);
    let b = in_body(pose, p, op);
    assert(3 * (m * (6 * (m * m))) == 18 * (m * m * m)) by (nonlinear_arith);
    lemma_seen(calib, b, op, m, 6 * (m * m));
    assert(values(e)(0) == d(0) && values(e)(1) == d(1) && values(e)(2) == d(2));
    let x = values(b);
    let z = applied(rp, d);
    assert(x(0) == z(0) && x(1) == z(1) && x(2) == z(2)) by {
        assert(values(rotated3(pose.rot@, e, op))(0) == applied(rp, values(e))(0));
        assert(values(rotated3(pose.rot@, e, op))(1) == applied(rp, values(e))(1));
        assert(values(rotated3(pose.rot@, e, op))(2) == applied(rp, values(e))(2));
    }
    let row = |k: int| rc(i, k);
    lemma_exchange(row, rp, d);
    let y = applied(exchanged(rp), row);
    let t = entry_values(by_world(calib, pose, op));
    assert forall|j: int| 0 <= j < 3 implies #[trigger] y(j) == t(i, j) by {
        assert(value(product(f, g, op, 3)(i, j)) == scalar(
            |k: int| value(f(i, k)),
            |k: int| value(g(k, j)),
        ));
        lemma_swapped(rp(0, j), rc(i, 0));
        lemma_swapped(rp(1, j), rc(i, 1));
        lemma_swapped(rp(2, j), rc(i, 2));
    }
    assert(y(0) == t(i, 0) && y(1) == t(i, 1) && y(2) == t(i, 2));
}

/// The turn from the world into a camera in whole numbers, and the way back.
proof fn lemma_by_world(calib: PoseValue, pose: PoseValue, op: Ring, m: int)
    requires
        exact(op),
        whole_pose(calib, m),
        whole_pose(pose, m),
        1 <= m,
        3 * (m * m) <= EXACT,
    ensures
        whole_entries(by_world(calib, pose, op), 3 * (m * m)),
        forall|i: int, j: int|
            0 <= i < 3 && 0 <= j < 3 ==> value(#[trigger] by_world(calib, pose, op)(i, j)) == scalar(
                |k: int| square(calib.rot@)(i, k),
                |k: int| square(pose.rot@)(k, j),
            ),
{
    assert(m <= m * m) by (nonlinear_arith)
        requires
            1 <= m,
    ;
    let f = three_by_three(calib.rot@);
    let g = three_by_three(pose.rot@);
    assert forall|a: int, c: int| 0 <= a < 3 && 0 <= c < 3 implies whole(#[trigger] f(a, c), m) by {
        assert(whole(calib.rot@[3 * a + c], m));
    }
    assert forall|a: int, c: int| 0 <= a < 3 && 0 <= c < 3 implies whole(#[trigger] g(a, c), m) by {
        assert(whole(pose.rot@[3 * a + c], m));
    }
    lemma_product_values(f, g, op, m, m);
    assert forall|i: int, j: int| 0 <= i < 3 && 0 <= j < 3 implies value(
        #[trigger] by_world(calib, pose, op)(i, j),
    ) == scalar(|k: int| square(calib.rot@)(i, k), |k: int| square(pose.rot@)(k, j)) by {
        assert(value(product(f, g, op, 3)(i, j)) == scalar(
            |k: int| value(f(i, k)),
            |k: int| value(g(k, j)),
        ));
    }
}

/// Where a camera is, in whole numbers.
proof fn lemma_camera_center(calib: PoseValue, pose: PoseValue, op: Ring, m: int)
    requires
        exact(op),
        whole_pose(calib, m),
        whole_pose(pose, m),
        1 <= m,
        10 * (m * m * m) <= EXACT,
    ensures
        whole3(camera_center(calib, pose, op), 10 * (m * m * m)),
        ({
            let r = entry_values(by_world(calib, pose, op));
            forall|i: int|
                0 <= i < 3 ==> value(#[trigger] camera_center(calib, pose, op)[i]) == value(pose.pos@[i])
                    - applied(exchanged(r), values(calib.pos@))(i)
        }),
{
    lemma_powers(m);
    lemma_by_world(calib, pose, op, m);
    let b = by_world(calib, pose, op);
    let f = flipped(b);
    assert forall|a: int, c: int| 0 <= a < 3 && 0 <= c < 3 implies whole(
        #[trigger] f(a, c),
        3 * (m * m),
    ) by {
        assert(whole(b(c, a), 3 * (m * m)));
    }
    assert(3 * ((3 * (m * m)) * m) == 9 * (m * m * m)) by (nonlinear_arith);
    lemma_carried(f, calib.pos@, op, 3 * (m * m), m);
    let c = carried(f, calib.pos@, op);
    assert forall|i: int| 0 <= i < 3 implies whole(#[trigger] pose.pos@[i], m * m * m) by {
        lemma_widened(pose.pos@[i], m, m * m * m);
    }
    lemma_difference3(pose.pos@, c, op, m * m * m, 9 * (m * m * m));
    let r = entry_values(b);
    assert forall|i: int| 0 <= i < 3 implies value(#[trigger] camera_center(calib, pose, op)[i]) == value(
        pose.pos@[i],
    ) - applied(exchanged(r), values(calib.pos@))(i) by {
        assert(value(c[i]) == applied(entry_values(f), values(calib.pos@))(i));
    }
}

/// A camera that takes over a feature sees it where it is in the world: the point of the
/// old camera, seen by the new one, is the way from the new camera to the world's point
/// of the old one, turned into the new camera.
pub proof fn law_new_anchor_sees_the_same_point(
    p: Seq<Double>,
    calib_old: PoseValue,
    old: PoseValue,
    calib_new: PoseValue,
    new: PoseValue,
    op: Ring,
    m: int,
    i: int,
)
    requires
        exact(op),
        whole_pose(calib_old, m),
        whole_pose(old, m),
        whole_pose(calib_new, m),
        whole_pose(new, m),
        whole3(p, m),
        1 <= m,
        300 * (m * m * m * m * m) <= EXACT,
        0 <= i < 3,
    ensures
        value(as_seen_by(p, calib_old, old, calib_new, new, op)[i]) == applied(
            entry_values(by_world(calib_new, new, op)),
            |k: int|
                value(world_point(old, calib_old, p, op)[k]) - value(
                    camera_center(calib_new, new, op)[k],
                ),
        )(i),
{
    lemma_powers(m);
    lemma_world_point(old, calib_old, p, op, m);
    lemma_by_world(calib_old, old, op, m);
    lemma_by_world(calib_new, new, op, m);
    lemma_camera_center(calib_old, old, op, m);
    lemma_camera_center(calib_new, new, op, m);
    let b_old = by_world(calib_old, old, op);
    let b_new = by_world(calib_new, new, op);
    let ro = entry_values(b_old);
    let rn = entry_values(b_new);
    let co = camera_center(calib_old, old, op);
    let cn = camera_center(calib_new, new, op);
    let away = difference3(co, cn, op);
    lemma_difference3(co, cn, op, 10 * (m * m * m), 10 * (m * m * m));
    let f = flipped(b_old);
    assert forall|a: int, c: int| 0 <= a < 3 && 0 <= c < 3 implies whole(
        #[trigger] f(a, c),
        3 * (m * m),
    ) by {
        assert(whole(b_old(c, a), 3 * (m * m)));
    }
    assert(3 * ((3 * (m * m)) * (3 * (m * m))) == 27 * (m * m * m * m)) by (nonlinear_arith);
    lemma_product_values(b_new, f, op, 3 * (m * m), 3 * (m * m));
    let both = product(b_new, f, op, 3);
    assert(3 * ((27 * (m * m * m * m)) * m) == 81 * (m * m * m * m * m)) by (nonlinear_arith);
    lemma_carried(both, p, op, 27 * (m * m * m * m), m);
    assert(3 * ((3 * (m * m)) * (20 * (m * m * m))) == 180 * (m * m * m * m * m)) by (nonlinear_arith);
    lemma_carried(b_new, away, op, 3 * (m * m), 20 * (m * m * m));
    let u = carried(both, p, op);
    let v = carried(b_new, away, op);
    lemma_sum3(u, v, op, 81 * (m * m * m * m * m), 180 * (m * m * m * m * m));
    let x = values(p);
    let back = applied(exchanged(ro), x);
    assert(value(u[i]) == applied(rn, back)(i)) by {
        let row = |k: int| rn(i, k);
        lemma_exchange(row, exchanged(ro), x);
        let y = applied(exchanged(exchanged(ro)), row);
        assert forall|j: int| 0 <= j < 3 implies #[trigger] y(j) == value(both(i, j)) by {
            assert(value(product(b_new, f, op, 3)(i, j)) == scalar(
                |k: int| value(b_new(i, k)),
                |k: int| value(f(k, j)),
            ));
            lemma_swapped(ro(j, 0), rn(i, 0));
            lemma_swapped(ro(j, 1), rn(i, 1));
            lemma_swapped(ro(j, 2), rn(i, 2));
        }
        assert(y(0) == value(both(i, 0)) && y(1) == value(both(i, 1)) && y(2) == value(both(i, 2)));
        assert(value(u[i]) == applied(entry_values(both), x)(i));
    }
    let a = values(away);
    assert(value(v[i]) == applied(rn, a)(i));
    let w = |k: int|
        value(world_point(old, calib_old, p, op)[k]) - value(camera_center(calib_new, new, op)[k]);
    assert forall|k: int| 0 <= k < 3 implies #[trigger] w(k) == back(k) + a(k) by {
        lemma_same_way_back(old, calib_old, p, op, m, k);
        assert(value(away[k]) == value(co[k]) - value(cn[k]));
    }
    assert(w(0) == back(0) + a(0) && w(1) == back(1) + a(1) && w(2) == back(2) + a(2));
    lemma_sum_through(rn(i, 0), back(0), a(0));
    lemma_sum_through(rn(i, 1), back(1), a(1));
    lemma_sum_through(rn(i, 2), back(2), a(2));
}

/// A number times a sum.
proof fn lemma_sum_through(r: int, a: int, b: int)
    ensures
        r * (a + b) == r * a + r * b,
{
    assert(r * (a + b) == r * a + r * b) by (nonlinear_arith);
}

/// A point of the world lies from its camera's center as the camera sees it, turned
/// back.
proof fn lemma_same_way_back(
    pose: PoseValue,
    calib: PoseValue,
    p: Seq<Double>,
    op: Ring,
    m: int,
    k: int,
)
    requires
        exact(op),
        whole_pose(pose, m),
        whole_pose(calib, m),
        whole3(p, m),
        1 <= m,
        300 * (m * m * m * m * m) <= EXACT,
        0 <= k < 3,
    ensures
        value(world_point(pose, calib, p, op)[k]) - value(camera_center(calib, pose, op)[k]) == applied(
            exchanged(entry_values(by_world(calib, pose, op))),
            values(p),
        )(k),
{
    lemma_powers(m);
    lemma_world_point(pose, calib, p, op, m);
    lemma_by_world(calib, pose, op, m);
    lemma_camera_center(calib, pose, op, m);
    let ra = square(pose.rot@);
    let rc = square(calib.rot@);
    let b = by_world(calib, pose, op);
    let r = entry_values(b);
    let d = |i: int| value(p[i]) - value(calib.pos@[i]);
    let back = applied(exchanged(ra), applied(exchanged(rc), d));
    let w = world_point(pose, calib, p, op);
    let c = camera_center(calib, pose, op);
    assert(value(w[k]) == back(k) + value(pose.pos@[k]));
    let col = |j: int| ra(j, k);
    lemma_exchange(col, exchanged(rc), d);
    let y = applied(exchanged(exchanged(rc)), col);
    let t = applied(exchanged(r), d);
    assert forall|j: int| 0 <= j < 3 implies #[trigger] y(j) == r(j, k) by {
        assert(value(b(j, k)) == scalar(|l: int| rc(j, l), |l: int| ra(l, k)));
    }
    assert(y(0) == r(0, k) && y(1) == r(1, k) && y(2) == r(2, k));
    assert(back(k) == t(k));
    lemma_sum_through(r(0, k), d(0), value(calib.pos@[0]));
    lemma_sum_through(r(1, k), d(1), value(calib.pos@[1]));
    lemma_sum_through(r(2, k), d(2), value(calib.pos@[2]));
    assert(value(c[k]) == value(pose.pos@[k]) - applied(exchanged(r), values(calib.pos@))(k));
}

/// The world's point of a feature moves with the feature by the turn to the world, with
/// its anchor's position as that does, and against its camera's position in the body.
pub proof fn law_world_points_move_by_their_derivatives(
    anchor: PoseValue,
    moved: PoseValue,
    calib: PoseValue,
    shifted: PoseValue,
    p: Seq<Double>,
    q: Seq<Double>,
    op: Ring,
    m: int,
    i: int,
)
    requires
        exact(op),
        whole_pose(anchor, m),
        whole_pose(moved, m),
        whole_pose(calib, m),
        whole_pose(shifted, m),
        moved.rot == anchor.rot,
        shifted.rot == calib.rot,
        whole3(p, m),
        whole3(q, m),
        1 <= m,
        200 * (m * m * m * m * m) <= EXACT,
        0 <= i < 3,
    ensures
        value(world_point(anchor, calib, q, op)[i]) - value(world_point(anchor, calib, p, op)[i])
            == scalar(
            |k: int| value(to_world(anchor, calib, op)(i, k)),
            |k: int| value(q[k]) - value(p[k]),
        ),
        value(world_point(moved, calib, p, op)[i]) - value(world_point(anchor, calib, p, op)[i])
            == scalar(
            |k: int| value(by_anchor(anchor, calib, p, op)(i, 3 + k)),
            |k: int| value(moved.pos@[k]) - value(anchor.pos@[k]),
        ),
        value(world_point(anchor, shifted, p, op)[i]) - value(world_point(anchor, calib, p, op)[i])
            == scalar(
            |k: int| value(by_calibration(anchor, calib, p, op)(i, 3 + k)),
            |k: int| value(shifted.pos@[k]) - value(calib.pos@[k]),
        ),
{
    lemma_powers(m);
    lemma_world_by_turn(anchor, calib, p, op, m, i);
    lemma_world_by_turn(anchor, calib, q, op, m, i);
    lemma_world_by_turn(moved, calib, p, op, m, i);
    lemma_world_by_turn(anchor, shifted, p, op, m, i);
    let t = to_world(anchor, calib, op);
    assert(to_world(moved, calib, op) == t);
    assert(to_world(anchor, shifted, op) == t);
    let e = entry_values(t);
    lemma_apart3(e(i, 0), value(q[0]), value(p[0]), value(calib.pos@[0]));
    lemma_apart3(e(i, 1), value(q[1]), value(p[1]), value(calib.pos@[1]));
    lemma_apart3(e(i, 2), value(q[2]), value(p[2]), value(calib.pos@[2]));
    lemma_against(e(i, 0), value(p[0]), value(shifted.pos@[0]), value(calib.pos@[0]));
    lemma_against(e(i, 1), value(p[1]), value(shifted.pos@[1]), value(calib.pos@[1]));
    lemma_against(e(i, 2), value(p[2]), value(shifted.pos@[2]), value(calib.pos@[2]));
    assert(whole(t(i, 0), 3 * (m * m)) && whole(t(i, 1), 3 * (m * m)) && whole(t(i, 2), 3 * (m * m)));
    lemma_neg(t(i, 0), 3 * (m * m));
    lemma_neg(t(i, 1), 3 * (m * m));
    lemma_neg(t(i, 2), 3 * (m * m));
    let g = by_calibration(anchor, calib, p, op);
    assert(value(g(i, 3)) == -e(i, 0) && value(g(i, 4)) == -e(i, 1) && value(g(i, 5)) == -e(i, 2));
    lemma_one();
    lemma_zero();
    let h = by_anchor(anchor, calib, p, op);
    assert(h(i, 3) == unit()(i, 0) && h(i, 4) == unit()(i, 1) && h(i, 5) == unit()(i, 2));
    let (x, y, z) = (
        value(moved.pos@[0]) - value(anchor.pos@[0]),
        value(moved.pos@[1]) - value(anchor.pos@[1]),
        value(moved.pos@[2]) - value(anchor.pos@[2]),
    );
    assert(1 * x == x && 1 * y == y && 1 * z == z && 0 * x == 0 && 0 * y == 0 && 0 * z == 0);
}

/// The world's point of a feature by the turn to the world.
proof fn lemma_world_by_turn(
    anchor: PoseValue,
    calib: PoseValue,
    p: Seq<Double>,
    op: Ring,
    m: int,
    i: int,
)
    requires
        exact(op),
        whole_pose(anchor, m),
        whole_pose(calib, m),
        whole3(p, m),
        1 <= m,
        200 * (m * m * m * m * m) <= EXACT,
        0 <= i < 3,
    ensures
        whole_entries(to_world(anchor, calib, op), 3 * (m * m)),
        value(world_point(anchor, calib, p, op)[i]) == applied(
            entry_values(to_world(anchor, calib, op)),
            |k: int| value(p[k]) - value(calib.pos@[k]),
        )(i) + value(anchor.pos@[i]),
{
    lemma_powers(m);
    lemma_world_point(anchor, calib, p, op, m);
    let ra = square(anchor.rot@);
    let rc = square(calib.rot@);
    let d = |k: int| value(p[k]) - value(calib.pos@[k]);
    let t = to_world(anchor, calib, op);
    let e = entry_values(t);
    let col = |k: int| ra(k, i);
    lemma_exchange(col, exchanged(rc), d);
    let y = applied(exchanged(exchanged(rc)), col);
    assert forall|j: int| 0 <= j < 3 implies #[trigger] y(j) == e(i, j) by {
        lemma_swapped(rc(j, 0), ra(0, i));
        lemma_swapped(rc(j, 1), ra(1, i));
        lemma_swapped(rc(j, 2), ra(2, i));
        assert(value(t(i, j)) == scalar(|k: int| ra(k, i), |k: int| rc(j, k)));
    }
    assert(y(0) == e(i, 0) && y(1) == e(i, 1) && y(2) == e(i, 2));
    let back = applied(exchanged(ra), applied(exchanged(rc), d));
    assert(value(world_point(anchor, calib, p, op)[i]) == back(i) + value(anchor.pos@[i]));
}

/// The world's point of a feature turns with its anchor by the derivative: for a small
/// turn of the anchor, given as a vector, it moves by the cross product of the vector and
/// the point in the anchor's body, turned to the world.
pub proof fn law_world_points_turn_with_their_anchor(
    anchor: PoseValue,
    calib: PoseValue,
    p: Seq<Double>,
    turn: spec_fn(int) -> int,
    op: Ring,
    m: int,
    i: int,
)
    requires
        exact(op),
        whole_pose(anchor, m),
        whole_pose(calib, m),
        whole3(p, m),
        1 <= m,
        200 * (m * m * m * m * m) <= EXACT,
        0 <= i < 3,
    ensures
        scalar(|k: int| value(by_anchor(anchor, calib, p, op)(i, k)), turn) == applied(
            exchanged(square(anchor.rot@)),
            cross_of(
                turn,
                applied(
                    exchanged(square(calib.rot@)),
                    |k: int| value(p[k]) - value(calib.pos@[k]),
                ),
            ),
        )(i),
{
    lemma_powers(m);
    let ra = square(anchor.rot@);
    let rc = square(calib.rot@);
    let d = |k: int| value(p[k]) - value(calib.pos@[k]);
    let inner = applied(exchanged(rc), d);
    let e = difference3(p, calib.pos@, op);
    lemma_difference3(p, calib.pos@, op, m, m);
    let g = flipped(three_by_three(calib.rot@));
    assert forall|a: int, b: int| 0 <= a < 3 && 0 <= b < 3 implies whole(#[trigger] g(a, b), m) by {
        assert(whole(calib.rot@[3 * b + a], m));
    }
    assert(3 * (m * (2 * m)) == 6 * (m * m)) by (nonlinear_arith);
    lemma_carried(g, e, op, m, 2 * m);
    let lever = carried(g, e, op);
    let n = 6 * (m * m);
    assert(values(e)(0) == d(0) && values(e)(1) == d(1) && values(e)(2) == d(2));
    assert forall|k: int| 0 <= k < 3 implies #[trigger] values(lever)(k) == inner(k) by {
        assert(value(lever[k]) == applied(entry_values(g), values(e))(k));
    }
    let x = values(lever);
    assert(x(0) == inner(0) && x(1) == inner(1) && x(2) == inner(2));
    let f = negation(flipped(three_by_three(anchor.rot@)));
    assert forall|a: int, b: int| 0 <= a < 3 && 0 <= b < 3 implies whole(#[trigger] f(a, b), m) && value(
        f(a, b),
    ) == -ra(b, a) by {
        assert(whole(anchor.rot@[3 * b + a], m));
        lemma_neg(anchor.rot@[3 * b + a], m);
    }
    let c = cross(lever);
    lemma_zero();
    lemma_widened(Double { bits: 0 }, 0, n);
    assert(whole(lever[0], n) && whole(lever[1], n) && whole(lever[2], n));
    lemma_neg(lever[0], n);
    lemma_neg(lever[1], n);
    lemma_neg(lever[2], n);
    assert forall|a: int, b: int| 0 <= a < 3 && 0 <= b < 3 implies whole(#[trigger] c(a, b), n) by {}
    assert(3 * (m * n) == 18 * (m * m * m)) by (nonlinear_arith)
        requires
            n == 6 * (m * m),
    ;
    lemma_product_values(f, c, op, m, n);
    let k3 = entry_values(c);
    let row = |k: int| -ra(k, i);
    lemma_exchange(row, k3, turn);
    let y = applied(exchanged(k3), row);
    let h = by_anchor(anchor, calib, p, op);
    assert forall|j: int| 0 <= j < 3 implies value(#[trigger] h(i, j)) == y(j) by {
        assert(h(i, j) == product(f, c, op, 3)(i, j));
        assert(value(product(f, c, op, 3)(i, j)) == scalar(
            |k: int| value(f(i, k)),
            |k: int| value(c(k, j)),
        ));
        assert(value(f(i, 0)) == -ra(0, i) && value(f(i, 1)) == -ra(1, i) && value(f(i, 2)) == -ra(2, i));
        lemma_swapped(k3(0, j), row(0));
        lemma_swapped(k3(1, j), row(1));
        lemma_swapped(k3(2, j), row(2));
    }
    assert(value(h(i, 0)) == y(0) && value(h(i, 1)) == y(1) && value(h(i, 2)) == y(2));
    let z = applied(k3, turn);
    let w = cross_of(turn, inner);
    assert(z(0) == 0 * turn(0) + (-x(2)) * turn(1) + x(1) * turn(2));
    assert(z(1) == x(2) * turn(0) + 0 * turn(1) + (-x(0)) * turn(2));
    assert(z(2) == (-x(1)) * turn(0) + x(0) * turn(1) + 0 * turn(2));
    lemma_turned_about(x(0), x(1), x(2), turn(0), turn(1), turn(2));
    assert(z(0) == -w(0) && z(1) == -w(1) && z(2) == -w(2));
    lemma_twice_opposite(ra(0, i), w(0));
    lemma_twice_opposite(ra(1, i), w(1));
    lemma_twice_opposite(ra(2, i), w(2));
}

/// Two opposite factors.
proof fn lemma_twice_opposite(a: int, b: int)
    ensures
        (-a) * (-b) == a * b,
{
    assert((-a) * (-b) == a * b) by (nonlinear_arith);
}

/// A cross product taken the other way round.
proof fn lemma_turned_about(x: int, y: int, z: int, u: int, v: int, w: int)
    ensures
        (-z) * v + y * w == -(v * z - w * y),
        z * u + (-x) * w == -(w * x - u * z),
        (-y) * u + x * v == -(u * y - v * x),
{
    assert((-z) * v == -(v * z) && y * w == w * y) by (nonlinear_arith);
    assert((-x) * w == -(w * x) && z * u == u * z) by (nonlinear_arith);
    assert((-y) * u == -(u * y) && x * v == v * x) by (nonlinear_arith);
}

/// A residual is what was measured less what was expected: one pixel more measured is one
/// more in the residual, and what is measured as expected leaves none.
pub proof fn law_residual_follows_the_measurement<
    D: Fn(usize, [Double; 2]) -> [Double; 2],
    J: Fn(usize, [Double; 2]) -> [Double; 4],
    V: Fn(Double, Double) -> Double,
>(
    entry: &MeasurementEntry,
    at: Vantage,
    uv: Seq<Double>,
    p: Seq<Double>,
    param: &Matrix,
    through: Seq<PlacedBlock>,
    distort: D,
    slope: J,
    divide: V,
    op: Ring,
    m: int,
    k: int,
)
    requires
        is_entry(entry, at, uv, p, param, through, distort, slope, divide, op),
        exact(op),
        0 <= k < 2,
        whole(uv[k], m),
        whole(expected_pixel(at, p, distort, divide, op)[k], m),
        0 <= m,
        2 * m <= EXACT,
    ensures
        value(entry.res@[k]) + value(expected_pixel(at, p, distort, divide, op)[k]) == value(uv[k]),
{
    let pixel = expected_pixel(at, p, distort, divide, op);
    lemma_neg(pixel[k], m);
    lemma_plus(op, uv[k], pixel[k].spec_neg(), m, m);
}

} // verus!
