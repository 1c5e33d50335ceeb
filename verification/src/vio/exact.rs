//! What row rotations keep of a system where they are exact.
//!
//! Exactness is told by a value for each number, as a whole number of the smallest
//! steps: a rotation is exact if the values of what it mixes are those of a rotation
//! whose cosine and sine are fractions with the same denominator.

use vstd::prelude::*;

use crate::double::Double;
use crate::matrix::Matrix;
use crate::vio::givens::{cancelling, cleared, joined, triangular, zeroed, Rotation};
use crate::vio::updater_helper::{compressed, eliminated, with_residual};

verus! {

/// A rotation by whole numbers: cosine and sine over a denominator.
pub struct WholeTurn {
    /// The denominator.
    pub scale: int,
    /// The numerator of the cosine.
    pub c: int,
    /// The numerator of the sine.
    pub s: int,
}

/// Whether rows `m - 1` and `m` are mixed by a rotation in column `j`.
pub open spec fn mixed_at(
    e: spec_fn(int, int) -> Double,
    z: spec_fn(int, int) -> Double,
    val: spec_fn(Double) -> int,
    m: int,
    j: int,
    t: WholeTurn,
) -> bool {
    &&& t.scale * val(z(m - 1, j)) == t.c * val(e(m - 1, j)) - t.s * val(e(m, j))
    &&& t.scale * val(z(m, j)) == t.s * val(e(m - 1, j)) + t.c * val(e(m, j))
}

/// Whether rows `m - 1` and `m` are mixed by a rotation, from column `n` on.
pub open spec fn mixed_exactly(
    e: spec_fn(int, int) -> Double,
    z: spec_fn(int, int) -> Double,
    val: spec_fn(Double) -> int,
    m: int,
    n: int,
    width: int,
    t: WholeTurn,
) -> bool {
    &&& t.scale != 0
    &&& t.c * t.c + t.s * t.s == t.scale * t.scale
    &&& forall|j: int| n <= j < width ==> #[trigger] mixed_at(e, z, val, m, j, t)
}

/// Whether the rotation that takes entry `(m, n)` away is exact, if there is one, and
/// nothing is left of the entry.
pub open spec fn exact_at<
    C: Fn(Double, Double) -> Option<Rotation>,
    R: Fn(Rotation, Double, Double) -> (Double, Double),
>(
    e: spec_fn(int, int) -> Double,
    cancel: C,
    rotate: R,
    val: spec_fn(Double) -> int,
    m: int,
    n: int,
    width: int,
) -> bool {
    let z = zeroed(e, cancel, rotate, m, n);
    &&& val(z(m, n)) == 0
    &&& cancelling(cancel, e(m - 1, n), e(m, n)) is Some ==> exists|t: WholeTurn| #[trigger]
        mixed_exactly(e, z, val, m, n, width, t)
}

/// Whether all rotations that clear column `n` up to row `m` are exact.
pub open spec fn exact_column<
    C: Fn(Double, Double) -> Option<Rotation>,
    R: Fn(Rotation, Double, Double) -> (Double, Double),
>(
    e: spec_fn(int, int) -> Double,
    cancel: C,
    rotate: R,
    val: spec_fn(Double) -> int,
    rows: int,
    m: int,
    n: int,
    width: int,
) -> bool
    decreases rows - m,
{
    m >= rows || (exact_column(e, cancel, rotate, val, rows, m + 1, n, width) && exact_at(
        cleared(e, cancel, rotate, rows, m + 1, n),
        cancel,
        rotate,
        val,
        m,
        n,
        width,
    ))
}

/// Whether all rotations that make the first `cols` columns triangular are exact, over
/// `width` columns.
pub open spec fn exact_rotations<
    C: Fn(Double, Double) -> Option<Rotation>,
    R: Fn(Rotation, Double, Double) -> (Double, Double),
>(
    e: spec_fn(int, int) -> Double,
    cancel: C,
    rotate: R,
    val: spec_fn(Double) -> int,
    rows: int,
    cols: int,
    width: int,
) -> bool
    decreases cols,
{
    cols <= 0 || (exact_rotations(e, cancel, rotate, val, rows, cols - 1, width) && exact_column(
        triangular(e, cancel, rotate, rows, cols - 1),
        cancel,
        rotate,
        val,
        rows,
        cols,
        cols - 1,
        width,
    ))
}

/// The sum, over the first `rows` rows, of the products of two columns.
pub open spec fn gram(
    e: spec_fn(int, int) -> Double,
    val: spec_fn(Double) -> int,
    j: int,
    k: int,
    rows: int,
) -> int
    decreases rows,
{
    if rows <= 0 {
        0
    } else {
        gram(e, val, j, k, rows - 1) + val(e(rows - 1, j)) * val(e(rows - 1, k))
    }
}

/// A row times coefficients, over the first `n` columns.
pub open spec fn row_sum(
    e: spec_fn(int, int) -> Double,
    val: spec_fn(Double) -> int,
    i: int,
    x: Seq<int>,
    n: int,
) -> int
    decreases n,
{
    if n <= 0 {
        0
    } else {
        row_sum(e, val, i, x, n - 1) + x[n - 1] * val(e(i, n - 1))
    }
}

/// Whether the first `n` columns have no value below the diagonal.
spec fn below(e: spec_fn(int, int) -> Double, val: spec_fn(Double) -> int, rows: int, n: int) -> bool {
    forall|i: int, j: int| 0 <= j < n && j < i < rows ==> val(#[trigger] e(i, j)) == 0
}

/// Whether what is summed stays: products of columns, and relations between columns that
/// hold in every row.
spec fn kept(
    e: spec_fn(int, int) -> Double,
    z: spec_fn(int, int) -> Double,
    val: spec_fn(Double) -> int,
    rows: int,
    width: int,
) -> bool {
    &&& forall|j: int, k: int|
        0 <= j < width && 0 <= k < width ==> #[trigger] gram(z, val, j, k, rows) == gram(
            e,
            val,
            j,
            k,
            rows,
        )
    &&& forall|x: Seq<int>|
        x.len() == width && #[trigger] related(e, val, rows, x) ==> related(z, val, rows, x)
}

/// Whether coefficients relate the columns in every row.
pub open spec fn related(
    e: spec_fn(int, int) -> Double,
    val: spec_fn(Double) -> int,
    rows: int,
    x: Seq<int>,
) -> bool {
    forall|i: int| 0 <= i < rows ==> #[trigger] row_sum(e, val, i, x, x.len() as int) == 0
}

/// Mixing two rows keeps a sum of products, if it keeps what the two rows add to it.
proof fn lemma_gram_pair(
    e: spec_fn(int, int) -> Double,
    z: spec_fn(int, int) -> Double,
    val: spec_fn(Double) -> int,
    j: int,
    k: int,
    m: int,
    rows: int,
)
    requires
        1 <= m,
        forall|i: int, l: int| i != m - 1 && i != m ==> #[trigger] z(i, l) == e(i, l),
        val(z(m - 1, j)) * val(z(m - 1, k)) + val(z(m, j)) * val(z(m, k)) == val(e(m - 1, j)) * val(
            e(m - 1, k),
        ) + val(e(m, j)) * val(e(m, k)),
    ensures
        rows <= m - 1 || rows >= m + 1 ==> gram(z, val, j, k, rows) == gram(e, val, j, k, rows),
        rows == m ==> gram(z, val, j, k, rows) - val(z(m - 1, j)) * val(z(m - 1, k)) == gram(
            e,
            val,
            j,
            k,
            rows,
        ) - val(e(m - 1, j)) * val(e(m - 1, k)),
    decreases rows,
{
    if rows > 0 {
        lemma_gram_pair(e, z, val, j, k, m, rows - 1);
        if rows != m && rows != m + 1 {
            assert(z(rows - 1, j) == e(rows - 1, j));
            assert(z(rows - 1, k) == e(rows - 1, k));
        }
    }
}

/// Factors of a product change places.
proof fn lemma_regroup(x: int, a: int, y: int, p: int)
    ensures
        (x * a) * (y * p) == (x * y) * (a * p),
{
    assert((x * a) * (y * p) == (x * y) * (a * p)) by (nonlinear_arith);
}

/// A combination of sums is the sum of the combinations.
proof fn lemma_combined(c: int, s: int, y: int, a: int, b: int, p: int, q: int)
    ensures
        c * (a + y * p) + s * (b + y * q) == (c * a + s * b) + y * (c * p + s * q),
{
    assert(c * (a + y * p) == c * a + c * (y * p)) by (nonlinear_arith);
    assert(s * (b + y * q) == s * b + s * (y * q)) by (nonlinear_arith);
    assert(c * (y * p) == y * (c * p)) by (nonlinear_arith);
    assert(s * (y * q) == y * (s * q)) by (nonlinear_arith);
    assert(y * (c * p + s * q) == y * (c * p) + y * (s * q)) by (nonlinear_arith);
}

/// A rotation keeps the product of two pairs.
proof fn lemma_pair(t: WholeTurn, a: int, b: int, p: int, q: int, a2: int, b2: int, p2: int, q2: int)
    requires
        t.scale != 0,
        t.c * t.c + t.s * t.s == t.scale * t.scale,
        t.scale * a2 == t.c * a - t.s * b,
        t.scale * b2 == t.s * a + t.c * b,
        t.scale * p2 == t.c * p - t.s * q,
        t.scale * q2 == t.s * p + t.c * q,
    ensures
        a2 * p2 + b2 * q2 == a * p + b * q,
{
    let (d, c, s) = (t.scale, t.c, t.s);
    assert((d * a2) * (d * p2) == (c * a - s * b) * (c * p - s * q));
    assert((d * b2) * (d * q2) == (s * a + c * b) * (s * p + c * q));
    let (ca, sb, cp, sq) = (c * a, s * b, c * p, s * q);
    let (sa, cb, sp, cq) = (s * a, c * b, s * p, c * q);
    assert((ca - sb) * (cp - sq) == ca * cp - ca * sq - sb * cp + sb * sq) by (nonlinear_arith);
    assert((sa + cb) * (sp + cq) == sa * sp + sa * cq + cb * sp + cb * cq) by (nonlinear_arith);
    lemma_regroup(c, a, c, p);
    lemma_regroup(c, a, s, q);
    lemma_regroup(s, b, c, p);
    lemma_regroup(s, b, s, q);
    lemma_regroup(s, a, s, p);
    lemma_regroup(s, a, c, q);
    lemma_regroup(c, b, s, p);
    lemma_regroup(c, b, c, q);
    assert(c * s == s * c) by (nonlinear_arith);
    let (ap, bq) = (a * p, b * q);
    let (cc, ss) = (c * c, s * s);
    assert((cc + ss) * (ap + bq) == cc * ap + cc * bq + ss * ap + ss * bq) by (nonlinear_arith);
    lemma_regroup(d, a2, d, p2);
    lemma_regroup(d, b2, d, q2);
    let (x2, y2, dd) = (a2 * p2, b2 * q2, d * d);
    assert(dd * (x2 + y2) == dd * x2 + dd * y2) by (nonlinear_arith);
    let (x, y) = (a2 * p2 + b2 * q2, a * p + b * q);
    assert((d * d) * x == (d * d) * y);
    assert(d * d > 0) by (nonlinear_arith)
        requires
            d != 0,
    ;
    assert(x == y) by (nonlinear_arith)
        requires
            (d * d) * x == (d * d) * y,
            d * d > 0,
    ;
}

/// A rotation mixes the sums of two rows.
proof fn lemma_row_pair(
    e: spec_fn(int, int) -> Double,
    z: spec_fn(int, int) -> Double,
    val: spec_fn(Double) -> int,
    m: int,
    x: Seq<int>,
    n: int,
    t: WholeTurn,
)
    requires
        0 <= n <= x.len(),
        forall|j: int| 0 <= j < x.len() ==> #[trigger] mixed_at(e, z, val, m, j, t),
    ensures
        t.scale * row_sum(z, val, m - 1, x, n) == t.c * row_sum(e, val, m - 1, x, n) - t.s * row_sum(
            e,
            val,
            m,
            x,
            n,
        ),
        t.scale * row_sum(z, val, m, x, n) == t.s * row_sum(e, val, m - 1, x, n) + t.c * row_sum(
            e,
            val,
            m,
            x,
            n,
        ),
    decreases n,
{
    if n > 0 {
        lemma_row_pair(e, z, val, m, x, n - 1, t);
        assert(mixed_at(e, z, val, m, n - 1, t));
        let (d, c, s, y) = (t.scale, t.c, t.s, x[n - 1]);
        let (a, b) = (row_sum(e, val, m - 1, x, n - 1), row_sum(e, val, m, x, n - 1));
        let (a2, b2) = (row_sum(z, val, m - 1, x, n - 1), row_sum(z, val, m, x, n - 1));
        let (p, q) = (val(e(m - 1, n - 1)), val(e(m, n - 1)));
        let (p2, q2) = (val(z(m - 1, n - 1)), val(z(m, n - 1)));
        lemma_combined(c, -s, y, a, b, p, q);
        lemma_combined(s, c, y, a, b, p, q);
        lemma_combined(d, 0, y, a2, 0, p2, 0);
        lemma_combined(d, 0, y, b2, 0, q2, 0);
        assert((-s) * b == -(s * b)) by (nonlinear_arith);
        assert((-s) * q == -(s * q)) by (nonlinear_arith);
        let whole = b + y * q;
        assert((-s) * whole == -(s * whole)) by (nonlinear_arith);
    }
}

/// The same rows have the same sums.
proof fn lemma_row_same(
    e: spec_fn(int, int) -> Double,
    z: spec_fn(int, int) -> Double,
    val: spec_fn(Double) -> int,
    i: int,
    x: Seq<int>,
    n: int,
)
    requires
        forall|l: int| #[trigger] z(i, l) == e(i, l),
    ensures
        row_sum(z, val, i, x, n) == row_sum(e, val, i, x, n),
    decreases n,
{
    if n > 0 {
        lemma_row_same(e, z, val, i, x, n - 1);
        assert(z(i, n - 1) == e(i, n - 1));
    }
}

/// An exact rotation keeps what is summed, and leaves nothing where it should.
proof fn lemma_exact_at<
    C: Fn(Double, Double) -> Option<Rotation>,
    R: Fn(Rotation, Double, Double) -> (Double, Double),
>(
    e: spec_fn(int, int) -> Double,
    cancel: C,
    rotate: R,
    val: spec_fn(Double) -> int,
    rows: int,
    m: int,
    n: int,
    width: int,
)
    requires
        0 <= n < width,
        n + 1 <= m < rows,
        below(e, val, rows, n),
        exact_at(e, cancel, rotate, val, m, n, width),
    ensures
        kept(e, zeroed(e, cancel, rotate, m, n), val, rows, width),
        below(zeroed(e, cancel, rotate, m, n), val, rows, n),
{
    let z = zeroed(e, cancel, rotate, m, n);
    if cancelling(cancel, e(m - 1, n), e(m, n)) is Some {
        let t = choose|t: WholeTurn| #[trigger] mixed_exactly(e, z, val, m, n, width, t);
        assert forall|i: int, j: int| j < n implies #[trigger] z(i, j) == e(i, j) by {}
        assert forall|i: int, l: int| i != m - 1 && i != m implies #[trigger] z(i, l) == e(i, l) by {}
        assert forall|j: int| 0 <= j < width implies #[trigger] mixed_at(e, z, val, m, j, t) by {
            if j < n {
                assert(z(m - 1, j) == e(m - 1, j) && z(m, j) == e(m, j));
                assert(val(e(m - 1, j)) == 0 && val(e(m, j)) == 0);
                assert(t.scale * 0 == t.c * 0 - t.s * 0);
            }
        }
        assert forall|i: int, j: int| 0 <= j < n && j < i < rows implies val(#[trigger] z(i, j)) == 0 by {
            assert(val(e(i, j)) == 0);
        }
        assert forall|j: int, k: int| 0 <= j < width && 0 <= k < width implies #[trigger] gram(
            z,
            val,
            j,
            k,
            rows,
        ) == gram(e, val, j, k, rows) by {
            assert(mixed_at(e, z, val, m, j, t) && mixed_at(e, z, val, m, k, t));
            lemma_pair(
                t,
                val(e(m - 1, j)),
                val(e(m, j)),
                val(e(m - 1, k)),
                val(e(m, k)),
                val(z(m - 1, j)),
                val(z(m, j)),
                val(z(m - 1, k)),
                val(z(m, k)),
            );
            lemma_gram_pair(e, z, val, j, k, m, rows);
        }
        assert forall|x: Seq<int>|
            x.len() == width && #[trigger] related(e, val, rows, x) implies related(z, val, rows, x) by {
            lemma_row_pair(e, z, val, m, x, width, t);
            assert(row_sum(e, val, m - 1, x, width) == 0);
            assert(row_sum(e, val, m, x, width) == 0);
            let (a, b) = (row_sum(z, val, m - 1, x, width), row_sum(z, val, m, x, width));
            assert(t.c * 0 - t.s * 0 == 0 && t.s * 0 + t.c * 0 == 0);
            assert(a == 0 && b == 0) by (nonlinear_arith)
                requires
                    t.scale * a == 0,
                    t.scale * b == 0,
                    t.scale != 0,
            ;
            assert forall|i: int| 0 <= i < rows implies #[trigger] row_sum(
                z,
                val,
                i,
                x,
                x.len() as int,
            ) == 0 by {
                if i != m - 1 && i != m {
                    lemma_row_same(e, z, val, i, x, width);
                    assert(row_sum(e, val, i, x, width) == 0);
                }
            }
        }
    }
}

/// Clearing a column exactly keeps what is summed, and leaves nothing from row `m` on.
proof fn lemma_exact_column<
    C: Fn(Double, Double) -> Option<Rotation>,
    R: Fn(Rotation, Double, Double) -> (Double, Double),
>(
    e: spec_fn(int, int) -> Double,
    cancel: C,
    rotate: R,
    val: spec_fn(Double) -> int,
    rows: int,
    m: int,
    n: int,
    width: int,
)
    requires
        0 <= n < width,
        n + 1 <= m,
        below(e, val, rows, n),
        exact_column(e, cancel, rotate, val, rows, m, n, width),
    ensures
        ({
            let z = cleared(e, cancel, rotate, rows, m, n);
            &&& kept(e, z, val, rows, width)
            &&& below(z, val, rows, n)
            &&& forall|i: int| m <= i < rows ==> val(#[trigger] z(i, n)) == 0
        }),
    decreases rows - m,
{
    if m < rows {
        lemma_exact_column(e, cancel, rotate, val, rows, m + 1, n, width);
        let y = cleared(e, cancel, rotate, rows, m + 1, n);
        let z = cleared(e, cancel, rotate, rows, m, n);
        lemma_exact_at(y, cancel, rotate, val, rows, m, n, width);
        assert forall|i: int| m <= i < rows implies val(#[trigger] z(i, n)) == 0 by {
            if i > m {
                assert(z(i, n) == y(i, n));
            }
        }
        assert forall|j: int, k: int| 0 <= j < width && 0 <= k < width implies #[trigger] gram(
            z,
            val,
            j,
            k,
            rows,
        ) == gram(e, val, j, k, rows) by {
            assert(gram(y, val, j, k, rows) == gram(e, val, j, k, rows));
        }
    }
}

/// Exact rotations keep what is summed, and leave nothing below the diagonal.
proof fn lemma_exact_rotations<
    C: Fn(Double, Double) -> Option<Rotation>,
    R: Fn(Rotation, Double, Double) -> (Double, Double),
>(
    e: spec_fn(int, int) -> Double,
    cancel: C,
    rotate: R,
    val: spec_fn(Double) -> int,
    rows: int,
    cols: int,
    width: int,
)
    requires
        0 <= cols <= width,
        exact_rotations(e, cancel, rotate, val, rows, cols, width),
    ensures
        kept(e, triangular(e, cancel, rotate, rows, cols), val, rows, width),
        below(triangular(e, cancel, rotate, rows, cols), val, rows, cols),
    decreases cols,
{
    if cols > 0 {
        lemma_exact_rotations(e, cancel, rotate, val, rows, cols - 1, width);
        let y = triangular(e, cancel, rotate, rows, cols - 1);
        let z = triangular(e, cancel, rotate, rows, cols);
        lemma_exact_column(y, cancel, rotate, val, rows, cols, cols - 1, width);
        assert forall|i: int, j: int| 0 <= j < cols && j < i < rows implies val(#[trigger] z(i, j)) == 0 by {}
        assert forall|j: int, k: int| 0 <= j < width && 0 <= k < width implies #[trigger] gram(
            z,
            val,
            j,
            k,
            rows,
        ) == gram(e, val, j, k, rows) by {
            assert(gram(y, val, j, k, rows) == gram(e, val, j, k, rows));
        }
    }
}

/// Columns without values add nothing to a row.
proof fn lemma_row_tail(
    e: spec_fn(int, int) -> Double,
    val: spec_fn(Double) -> int,
    i: int,
    x: Seq<int>,
    first: int,
    n: int,
    h: spec_fn(int, int) -> Double,
    k: int,
    y: Seq<int>,
)
    requires
        0 <= first,
        0 <= n,
        forall|j: int| 0 <= j < first ==> val(#[trigger] e(i, j)) == 0,
        forall|j: int| 0 <= j < n ==> e(i, first + j) == #[trigger] h(k, j),
        forall|j: int| 0 <= j < n ==> x[first + j] == #[trigger] y[j],
    ensures
        row_sum(e, val, i, x, first + n) == row_sum(h, val, k, y, n),
    decreases first + n,
{
    if n > 0 {
        lemma_row_tail(e, val, i, x, first, n - 1, h, k, y);
        assert(e(i, first + (n - 1)) == h(k, n - 1));
        assert(x[first + (n - 1)] == y[n - 1]);
    } else if first > 0 {
        lemma_row_tail(e, val, i, x, first - 1, 0, h, k, y);
        assert(val(e(i, first - 1)) == 0);
        assert(x[first - 1] * 0 == 0);
    }
}

/// Eliminating a feature by exact rotations keeps how the rest relates to the residual:
/// where in every row the feature times `f`, the rest times `x` and the residual times
/// `y` add up to nothing, the last two do in every row that is left.
pub proof fn law_elimination_keeps_relations<
    C: Fn(Double, Double) -> Option<Rotation>,
    R: Fn(Rotation, Double, Double) -> (Double, Double),
>(
    h: &Matrix,
    r: Seq<Double>,
    h_f: &Matrix,
    h_x: &Matrix,
    res: Seq<Double>,
    cancel: C,
    rotate: R,
    val: spec_fn(Double) -> int,
    f: Seq<int>,
    x: Seq<int>,
    y: int,
)
    requires
        eliminated(h, r, h_f, h_x, res, cancel, rotate),
        0 <= h_f.width() <= h_f.height(),
        0 <= h_x.width(),
        f.len() == h_f.width(),
        x.len() == h_x.width(),
        exact_rotations(
            joined(h_f, h_x, res),
            cancel,
            rotate,
            val,
            h_f.height(),
            h_f.width(),
            h_f.width() + h_x.width() + 1,
        ),
        related(joined(h_f, h_x, res), val, h_f.height(), f + x.push(y)),
    ensures
        related(with_residual(h, r), val, h.height(), x.push(y)),
{
    let rows = h_f.height();
    let first = h_f.width();
    let rest = h_x.width();
    let width = first + rest + 1;
    let e = joined(h_f, h_x, res);
    let all = f + x.push(y);
    lemma_exact_rotations(e, cancel, rotate, val, rows, first, width);
    let z = triangular(e, cancel, rotate, rows, first);
    assert(all.len() == width);
    assert(related(z, val, rows, all));
    let w = with_residual(h, r);
    let tail = x.push(y);
    assert forall|i: int| 0 <= i < h.height() implies #[trigger] row_sum(
        w,
        val,
        i,
        tail,
        tail.len() as int,
    ) == 0 by {
        assert(row_sum(z, val, first + i, all, all.len() as int) == 0);
        assert forall|j: int| 0 <= j < first implies val(#[trigger] z(first + i, j)) == 0 by {}
        assert forall|j: int| 0 <= j < rest + 1 implies z(first + i, first + j) == #[trigger] w(i, j) by {
            if j < rest {
                assert(h.has(i, j));
                assert(h.at(i, j) == z(first + i, first + j));
            }
        }
        assert forall|j: int| 0 <= j < rest + 1 implies all[first + j] == #[trigger] tail[j] by {}
        lemma_row_tail(z, val, first + i, all, first, rest + 1, w, i, tail);
    }
}

/// The rows below the diagonal add nothing to the products of a cleared column.
proof fn lemma_gram_head(
    e: spec_fn(int, int) -> Double,
    h: spec_fn(int, int) -> Double,
    val: spec_fn(Double) -> int,
    j: int,
    k: int,
    cols: int,
    rows: int,
)
    requires
        0 <= rows,
        0 <= j < cols,
        forall|i: int| cols <= i < rows ==> val(#[trigger] e(i, j)) == 0,
        forall|i: int| 0 <= i < cols ==> #[trigger] h(i, j) == e(i, j),
        forall|i: int| 0 <= i < cols ==> #[trigger] h(i, k) == e(i, k),
    ensures
        gram(e, val, j, k, rows) == gram(
            h,
            val,
            j,
            k,
            if rows < cols {
                rows
            } else {
                cols
            },
        ),
    decreases rows,
{
    if rows > 0 {
        lemma_gram_head(e, h, val, j, k, cols, rows - 1);
        if rows > cols {
            assert(val(e(rows - 1, j)) == 0);
            assert(0 * val(e(rows - 1, k)) == 0);
        } else {
            assert(h(rows - 1, j) == e(rows - 1, j));
            assert(h(rows - 1, k) == e(rows - 1, k));
        }
    }
}

/// Compressing a system by exact rotations keeps its normal equations: the products of
/// each column with each other column and with the residual.
pub proof fn law_compression_keeps_normal_equations<
    C: Fn(Double, Double) -> Option<Rotation>,
    R: Fn(Rotation, Double, Double) -> (Double, Double),
>(
    h: &Matrix,
    r: Seq<Double>,
    h_x: &Matrix,
    res: Seq<Double>,
    cancel: C,
    rotate: R,
    val: spec_fn(Double) -> int,
    j: int,
    k: int,
)
    requires
        compressed(h, r, h_x, res, cancel, rotate),
        h_x.height() > h_x.width() ==> exact_rotations(
            with_residual(h_x, res),
            cancel,
            rotate,
            val,
            h_x.height(),
            h_x.width(),
            h_x.width() + 1,
        ),
        0 <= j < h_x.width(),
        0 <= k <= h_x.width(),
    ensures
        gram(with_residual(h, r), val, j, k, h.height()) == gram(
            with_residual(h_x, res),
            val,
            j,
            k,
            h_x.height(),
        ),
{
    let rows = h_x.height();
    let cols = h_x.width();
    if rows > cols {
        let e = with_residual(h_x, res);
        let z = triangular(e, cancel, rotate, rows, cols);
        lemma_exact_rotations(e, cancel, rotate, val, rows, cols, cols + 1);
        assert(gram(z, val, j, k, rows) == gram(e, val, j, k, rows));
        let w = with_residual(h, r);
        assert forall|i: int, l: int| 0 <= i < cols && 0 <= l <= cols implies #[trigger] w(i, l) == z(
            i,
            l,
        ) by {
            if l < cols {
                assert(h.has(i, l));
                assert(h.at(i, l) == z(i, l));
            }
        }
        lemma_gram_head(z, w, val, j, k, cols, rows);
    }
}

} // verus!
