//! What turning and placing keep: distances between points, and the variance of a
//! point along a direction.

use vstd::prelude::*;

use crate::algebra::{col_of, flipped, product, row_of, three_by_three, Ring};
use crate::double::Double;
use crate::void_measure::plane_update::{turned_spread, Scan};
use crate::void_types::exact_motion::{lemma_placed, lemma_rotated};
use crate::void_types::motion::{placed, rotated3};
use crate::void_types::state::State;
use crate::whole::{
    along, applied, exact, exchanged, lemma_dot, lemma_exchange, lemma_turned_back, scalar, square,
    turns, value, values, whole, whole3, whole9, EXACT,
};

verus! {

/// The difference of two vectors.
pub open spec fn apart(a: spec_fn(int) -> int, b: spec_fn(int) -> int) -> spec_fn(int) -> int {
    |i: int| a(i) - b(i)
}

/// A turned vector keeps its length, times the factor of the rotation.
pub proof fn lemma_length_kept(r: spec_fn(int, int) -> int, v: spec_fn(int) -> int, s: int)
    requires
        turns(r, s),
    ensures
        scalar(applied(r, v), applied(r, v)) == s * scalar(v, v),
{
    let w = applied(r, v);
    lemma_exchange(w, r, v);
    let t = applied(exchanged(r), w);
    lemma_turned_back(r, v, s, 0);
    lemma_turned_back(r, v, s, 1);
    lemma_turned_back(r, v, s, 2);
    assert((s * v(0)) * v(0) + (s * v(1)) * v(1) + (s * v(2)) * v(2) == s * (v(0) * v(0) + v(1) * v(1)
        + v(2) * v(2))) by (nonlinear_arith);
}

/// Placing keeps distances: two points lie as far from each other after they were
/// turned and moved as before, and the origin comes to lie where the frame was moved.
pub proof fn law_placing_keeps_distances(
    rot: Seq<Double>,
    a: Seq<Double>,
    b: Seq<Double>,
    by: Seq<Double>,
    op: Ring,
    m: int,
    n: int,
    s: int,
)
    requires
        exact(op),
        whole9(rot, m),
        whole3(a, n),
        whole3(b, n),
        whole3(by, n),
        0 <= m <= EXACT,
        0 <= n <= EXACT,
        3 * (m * n) + n <= EXACT,
        turns(square(rot), s),
    ensures
        ({
            let d = apart(values(placed(rot, a, by, op)), values(placed(rot, b, by, op)));
            let e = apart(values(a), values(b));
            scalar(d, d) == s * scalar(e, e)
        }),
        (forall|i: int| 0 <= i < 3 ==> value(#[trigger] a[i]) == 0) ==> forall|i: int|
            0 <= i < 3 ==> value(#[trigger] placed(rot, a, by, op)[i]) == value(by[i]),
{
    lemma_placed(rot, a, by, op, m, n);
    lemma_placed(rot, b, by, op, m, n);
    let r = square(rot);
    let d = apart(values(placed(rot, a, by, op)), values(placed(rot, b, by, op)));
    let e = apart(values(a), values(b));
    lemma_length_kept(r, e, s);
    assert forall|i: int| 0 <= i < 3 implies #[trigger] d(i) == applied(r, e)(i) by {
        let x = values(a);
        let y = values(b);
        assert(values(placed(rot, a, by, op))(i) == applied(r, x)(i) + value(by[i]));
        assert(values(placed(rot, b, by, op))(i) == applied(r, y)(i) + value(by[i]));
        lemma_apart(r(i, 0), x(0), y(0));
        lemma_apart(r(i, 1), x(1), y(1));
        lemma_apart(r(i, 2), x(2), y(2));
    }
    assert(d(0) == applied(r, e)(0) && d(1) == applied(r, e)(1) && d(2) == applied(r, e)(2));
    if forall|i: int| 0 <= i < 3 ==> value(#[trigger] a[i]) == 0 {
        assert forall|i: int| 0 <= i < 3 implies value(#[trigger] placed(rot, a, by, op)[i]) == value(
            by[i],
        ) by {
            assert(values(placed(rot, a, by, op))(i) == applied(r, values(a))(i) + value(by[i]));
            assert(value(a[0]) == 0 && value(a[1]) == 0 && value(a[2]) == 0);
        }
    }
}

/// A number times a difference.
proof fn lemma_apart(r: int, x: int, y: int)
    ensures
        r * (x - y) == r * x - r * y,
{
    assert(r * (x - y) == r * x - r * y) by (nonlinear_arith);
}

/// The entries of a turned covariance of whole numbers.
proof fn lemma_turned_spread(rot: Seq<Double>, cov: Seq<Double>, op: Ring, m: int)
    requires
        exact(op),
        whole9(rot, m),
        whole9(cov, m),
        1 <= m,
        9 * (m * m * m) <= EXACT,
    ensures
        whole9(turned_spread(rot, cov, op), 9 * (m * m * m)),
        ({
            let r = square(rot);
            let c = square(cov);
            let a = |i: int, k: int| scalar(|l: int| r(i, l), |l: int| c(l, k));
            forall|i: int, j: int|
                0 <= i < 3 && 0 <= j < 3 ==> #[trigger] square(turned_spread(rot, cov, op))(i, j)
                    == scalar(|k: int| a(i, k), |k: int| r(j, k))
        }),
{
    let r = square(rot);
    let c = square(cov);
    let a = |i: int, k: int| scalar(|l: int| r(i, l), |l: int| c(l, k));
    let f = three_by_three(rot);
    let g = three_by_three(cov);
    let left = product(f, g, op, 3);
    let all = product(left, flipped(f), op, 3);
    let w = turned_spread(rot, cov, op);
    assert(m <= m * m <= m * m * m) by (nonlinear_arith)
        requires
            1 <= m,
    ;
    assert((3 * (m * m)) * m == 3 * (m * m * m)) by (nonlinear_arith);
    assert forall|i: int, k: int| 0 <= i < 3 && 0 <= k < 3 implies whole(
        #[trigger] left(i, k),
        3 * (m * m),
    ) && value(left(i, k)) == a(i, k) by {
        let x = row_of(f, i);
        let y = col_of(g, k);
        assert forall|l: int| 0 <= l < 3 implies whole(#[trigger] x(l), m) by {
            assert(whole(rot[3 * i + l], m));
        }
        assert forall|l: int| 0 <= l < 3 implies whole(#[trigger] y(l), m) by {
            assert(whole(cov[3 * l + k], m));
        }
        lemma_dot(x, y, op, m, m);
        assert(x(0) == rot[3 * i] && y(0) == cov[k]);
        assert(scalar(|l: int| value(x(l)), |l: int| value(y(l))) == a(i, k));
    }
    assert forall|i: int, j: int| 0 <= i < 3 && 0 <= j < 3 implies whole(
        #[trigger] all(i, j),
        9 * (m * m * m),
    ) && value(all(i, j)) == scalar(|k: int| a(i, k), |k: int| r(j, k)) by {
        let x = row_of(left, i);
        let y = col_of(flipped(f), j);
        assert forall|k: int| 0 <= k < 3 implies whole(#[trigger] x(k), 3 * (m * m)) by {
            assert(x(k) == left(i, k));
        }
        assert forall|k: int| 0 <= k < 3 implies whole(#[trigger] y(k), m) by {
            assert(whole(rot[3 * j + k], m));
        }
        lemma_dot(x, y, op, 3 * (m * m), m);
        assert(x(0) == left(i, 0) && x(1) == left(i, 1) && x(2) == left(i, 2));
        assert(y(0) == rot[3 * j]);
    }
    assert forall|i: int, j: int| 0 <= i < 3 && 0 <= j < 3 implies #[trigger] square(w)(i, j)
        == scalar(|k: int| a(i, k), |k: int| r(j, k)) by {
        assert(w[3 * i + j] == all(i, j));
    }
    assert forall|t: int| 0 <= t < 9 implies whole(#[trigger] w[t], 9 * (m * m * m)) by {
        assert(w[t] == all(t / 3, t % 3));
    }
}

/// The variance of a point along a direction, read from the covariance after the
/// frame was turned, is the variance of the point before along the direction as the
/// frame sees it.
pub proof fn law_spread_is_seen_from_the_frame(
    rot: Seq<Double>,
    cov: Seq<Double>,
    op: Ring,
    m: int,
    w: spec_fn(int) -> int,
)
    requires
        exact(op),
        whole9(rot, m),
        whole9(cov, m),
        1 <= m,
        9 * (m * m * m) <= EXACT,
    ensures
        along(square(turned_spread(rot, cov, op)), w) == along(
            square(cov),
            applied(exchanged(square(rot)), w),
        ),
{
    let r = square(rot);
    let c = square(cov);
    let all = square(turned_spread(rot, cov, op));
    let a = |i: int, k: int| scalar(|l: int| r(i, l), |l: int| c(l, k));
    let v = applied(exchanged(r), w);
    lemma_turned_spread(rot, cov, op, m);
    assert forall|i: int| 0 <= i < 3 implies #[trigger] applied(all, w)(i) == applied(a, v)(i) by {
        let row = |k: int| a(i, k);
        lemma_exchange(row, exchanged(r), w);
        let t = applied(exchanged(exchanged(r)), row);
        assert forall|j: int| 0 <= j < 3 implies #[trigger] t(j) == all(i, j) by {
            assert(t(j) == r(j, 0) * a(i, 0) + r(j, 1) * a(i, 1) + r(j, 2) * a(i, 2));
            assert(all(i, j) == a(i, 0) * r(j, 0) + a(i, 1) * r(j, 1) + a(i, 2) * r(j, 2));
            lemma_either_way(a(i, 0), r(j, 0));
            lemma_either_way(a(i, 1), r(j, 1));
            lemma_either_way(a(i, 2), r(j, 2));
        }
        assert(t(0) == all(i, 0) && t(1) == all(i, 1) && t(2) == all(i, 2));
        assert(scalar(row, v) == applied(a, v)(i));
    }
    assert(applied(all, w)(0) == applied(a, v)(0) && applied(all, w)(1) == applied(a, v)(1)
        && applied(all, w)(2) == applied(a, v)(2));
    assert(along(all, w) == scalar(w, applied(a, v)));
    lemma_exchange(w, a, v);
    let u = applied(exchanged(a), w);
    let z = applied(exchanged(c), v);
    assert forall|k: int| 0 <= k < 3 implies #[trigger] u(k) == z(k) by {
        let col = |l: int| c(l, k);
        lemma_exchange(w, r, col);
        let q = applied(r, col);
        assert(q(0) == a(0, k) && q(1) == a(1, k) && q(2) == a(2, k));
        assert(u(k) == a(0, k) * w(0) + a(1, k) * w(1) + a(2, k) * w(2));
        lemma_either_way(a(0, k), w(0));
        lemma_either_way(a(1, k), w(1));
        lemma_either_way(a(2, k), w(2));
        assert(z(k) == c(0, k) * v(0) + c(1, k) * v(1) + c(2, k) * v(2));
        lemma_either_way(c(0, k), v(0));
        lemma_either_way(c(1, k), v(1));
        lemma_either_way(c(2, k), v(2));
    }
    assert(u(0) == z(0) && u(1) == z(1) && u(2) == z(2));
    lemma_exchange(v, c, v);
}

/// A product may be taken either way.
proof fn lemma_either_way(a: int, b: int)
    ensures
        a * b == b * a,
{
    assert(a * b == b * a) by (nonlinear_arith);
}

/// The covariance of a point turns with the point: the variance along a direction of
/// the frame is the variance in the world along the direction as the same rotation
/// turns it. For a rotation times a number, whose square is `s`, both factors of
/// the variance take part.
pub proof fn law_spread_turns_with_the_point(
    rot: Seq<Double>,
    cov: Seq<Double>,
    u: Seq<Double>,
    op: Ring,
    m: int,
    s: int,
)
    requires
        exact(op),
        whole9(rot, m),
        whole9(cov, m),
        whole3(u, m),
        1 <= m,
        9 * (m * m * m) <= EXACT,
        turns(square(rot), s),
    ensures
        along(square(turned_spread(rot, cov, op)), values(rotated3(rot, u, op))) == (s * s) * along(
            square(cov),
            values(u),
        ),
{
    let r = square(rot);
    let c = square(cov);
    let x = values(u);
    let w = values(rotated3(rot, u, op));
    assert(m <= m * m <= m * m * m) by (nonlinear_arith)
        requires
            1 <= m,
    ;
    lemma_rotated(rot, u, op, m, m);
    law_spread_is_seen_from_the_frame(rot, cov, op, m, w);
    let v = applied(exchanged(r), w);
    assert(w(0) == applied(r, x)(0) && w(1) == applied(r, x)(1) && w(2) == applied(r, x)(2));
    assert forall|k: int| 0 <= k < 3 implies #[trigger] v(k) == s * x(k) by {
        lemma_turned_back(r, x, s, k);
    }
    assert(v(0) == s * x(0) && v(1) == s * x(1) && v(2) == s * x(2));
    lemma_scaled_along(c, v, x, s);
}

/// The variance along a longer direction.
proof fn lemma_scaled_along(
    c: spec_fn(int, int) -> int,
    v: spec_fn(int) -> int,
    x: spec_fn(int) -> int,
    s: int,
)
    requires
        v(0) == s * x(0),
        v(1) == s * x(1),
        v(2) == s * x(2),
    ensures
        along(c, v) == (s * s) * along(c, x),
{
    assert forall|i: int| 0 <= i < 3 implies #[trigger] applied(c, v)(i) == s * applied(c, x)(i) by {
        lemma_taken_out(s, c(i, 0), x(0));
        lemma_taken_out(s, c(i, 1), x(1));
        lemma_taken_out(s, c(i, 2), x(2));
        lemma_sum_scaled(s, c(i, 0) * x(0), c(i, 1) * x(1), c(i, 2) * x(2));
    }
    let a = applied(c, x);
    let b = applied(c, v);
    assert(b(0) == s * a(0) && b(1) == s * a(1) && b(2) == s * a(2));
    lemma_both_scaled(s, x(0), a(0));
    lemma_both_scaled(s, x(1), a(1));
    lemma_both_scaled(s, x(2), a(2));
    lemma_sum_scaled(s * s, x(0) * a(0), x(1) * a(1), x(2) * a(2));
}

/// A factor inside a product.
proof fn lemma_taken_out(s: int, c: int, x: int)
    ensures
        c * (s * x) == s * (c * x),
{
    assert(c * (s * x) == s * (c * x)) by (nonlinear_arith);
}

/// A factor of three numbers.
proof fn lemma_sum_scaled(s: int, a: int, b: int, c: int)
    ensures
        s * a + s * b + s * c == s * (a + b + c),
{
    assert(s * a + s * b + s * c == s * (a + b + c)) by (nonlinear_arith);
}

/// A factor on both sides of a product.
proof fn lemma_both_scaled(s: int, x: int, a: int)
    ensures
        (s * x) * (s * a) == (s * s) * (x * a),
{
    assert((s * x) * (s * a) == (s * s) * (x * a)) by (nonlinear_arith);
}

/// The points of a scan and their covariances are turned alike: the variance of a
/// point in the world, along the way from another point of the scan to it, is its
/// variance in the body along the same way.
pub proof fn law_scan_spread_turns_with_its_points(
    scan: &Scan,
    x: &State,
    i: int,
    j: int,
    op: Ring,
    m: int,
    n: int,
    s: int,
)
    requires
        exact(op),
        whole9(x.rot@, m),
        whole9(scan.covs@[i]@, m),
        whole3(scan.in_body(i, op), n),
        whole3(scan.in_body(j, op), n),
        whole3(x.pos@, n),
        1 <= m,
        0 <= n <= EXACT,
        9 * (m * m * m) <= EXACT,
        3 * (m * n) + n <= EXACT,
        turns(square(x.rot@), s),
    ensures
        ({
            let d = apart(values(scan.in_world(x, i, op)), values(scan.in_world(x, j, op)));
            let e = apart(values(scan.in_body(i, op)), values(scan.in_body(j, op)));
            &&& along(square(scan.spread(x, i, op)), d) == (s * s) * along(
                square(scan.covs@[i]@),
                e,
            )
            &&& scalar(d, d) == s * scalar(e, e)
        }),
{
    let rot = x.rot@;
    let a = scan.in_body(i, op);
    let b = scan.in_body(j, op);
    let r = square(rot);
    let c = square(scan.covs@[i]@);
    let d = apart(values(scan.in_world(x, i, op)), values(scan.in_world(x, j, op)));
    let e = apart(values(a), values(b));
    assert(m <= m * m <= m * m * m) by (nonlinear_arith)
        requires
            1 <= m,
    ;
    law_placing_keeps_distances(rot, a, b, x.pos@, op, m, n, s);
    lemma_placed(rot, a, x.pos@, op, m, n);
    lemma_placed(rot, b, x.pos@, op, m, n);
    assert forall|k: int| 0 <= k < 3 implies #[trigger] d(k) == applied(r, e)(k) by {
        let p = values(a);
        let q = values(b);
        assert(values(placed(rot, a, x.pos@, op))(k) == applied(r, p)(k) + value(x.pos@[k]));
        assert(values(placed(rot, b, x.pos@, op))(k) == applied(r, q)(k) + value(x.pos@[k]));
        lemma_apart(r(k, 0), p(0), q(0));
        lemma_apart(r(k, 1), p(1), q(1));
        lemma_apart(r(k, 2), p(2), q(2));
    }
    assert(d(0) == applied(r, e)(0) && d(1) == applied(r, e)(1) && d(2) == applied(r, e)(2));
    law_spread_is_seen_from_the_frame(rot, scan.covs@[i]@, op, m, d);
    let v = applied(exchanged(r), d);
    lemma_turned_back(r, e, s, 0);
    lemma_turned_back(r, e, s, 1);
    lemma_turned_back(r, e, s, 2);
    lemma_scaled_along(c, v, e, s);
}

} // verus!
