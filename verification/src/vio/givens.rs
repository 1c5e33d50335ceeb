//! Row rotations that bring a measurement system to triangular form.
//!
//! A system is three pieces that stand side by side: the columns that are made
//! triangular, the columns that are carried along, and the residual. One plane
//! rotation mixes two neighbouring rows of all three so that one entry below the
//! diagonal goes. The rotation that does so, and the mixing of two numbers by a
//! rotation, are the caller's arithmetic.

use vstd::prelude::*;

use crate::double::Double;
use crate::matrix::Matrix;

verus! {

/// A plane rotation by its cosine and sine.
#[derive(Clone, Copy, Debug, PartialEq, Eq, Structural)]
pub struct Rotation {
    pub c: Double,
    pub s: Double,
}

/// Whether the search for a rotation always has one answer.
pub open spec fn cancels<C: Fn(Double, Double) -> Option<Rotation>>(cancel: C) -> bool {
    &&& forall|a: Double, b: Double| #[trigger] call_requires(cancel, (a, b))
    &&& forall|a: Double, b: Double, r: Option<Rotation>, s: Option<Rotation>| #[trigger]
        call_ensures(cancel, (a, b), r) && #[trigger] call_ensures(cancel, (a, b), s) ==> r == s
}

/// The rotation that takes the second of two numbers away, or none where none is needed.
pub open spec fn cancelling<C: Fn(Double, Double) -> Option<Rotation>>(
    cancel: C,
    a: Double,
    b: Double,
) -> Option<Rotation> {
    choose|r: Option<Rotation>| call_ensures(cancel, (a, b), r)
}

/// Whether mixing two numbers by a rotation always has one result.
pub open spec fn mixes<R: Fn(Rotation, Double, Double) -> (Double, Double)>(rotate: R) -> bool {
    &&& forall|g: Rotation, a: Double, b: Double| #[trigger] call_requires(rotate, (g, a, b))
    &&& forall|g: Rotation, a: Double, b: Double, r: (Double, Double), s: (Double, Double)|
        #[trigger] call_ensures(rotate, (g, a, b), r) && #[trigger] call_ensures(
            rotate,
            (g, a, b),
            s,
        ) ==> r == s
}

/// Two numbers mixed by a rotation.
pub open spec fn mixed<R: Fn(Rotation, Double, Double) -> (Double, Double)>(
    rotate: R,
    g: Rotation,
    a: Double,
    b: Double,
) -> (Double, Double) {
    choose|r: (Double, Double)| call_ensures(rotate, (g, a, b), r)
}

/// The entries of a system whose three pieces stand side by side.
pub open spec fn joined(h: &Matrix, h_x: &Matrix, res: Seq<Double>) -> spec_fn(int, int) -> Double {
    |i: int, j: int|
        if j < h.width() {
            h.at(i, j)
        } else if j < h.width() + h_x.width() {
            h_x.at(i, j - h.width())
        } else {
            res[i]
        }
}

/// Whether the three pieces hold the given entries.
pub open spec fn holds(
    h: &Matrix,
    h_x: &Matrix,
    res: Seq<Double>,
    entries: spec_fn(int, int) -> Double,
) -> bool {
    &&& forall|i: int, j: int| h.has(i, j) ==> #[trigger] h.at(i, j) == entries(i, j)
    &&& forall|i: int, j: int|
        h_x.has(i, j) ==> #[trigger] h_x.at(i, j) == entries(i, h.width() + j)
    &&& forall|i: int|
        0 <= i < res.len() ==> #[trigger] res[i] == entries(i, h.width() + h_x.width())
}

/// A system holds its own entries.
proof fn lemma_joined(h: &Matrix, h_x: &Matrix, res: Seq<Double>)
    ensures
        holds(h, h_x, res, joined(h, h_x, res)),
{
    h.lemma_shape();
    h_x.lemma_shape();
}

/// Entries with rows `m - 1` and `m` mixed by a rotation, from column `n` on.
pub open spec fn turned<R: Fn(Rotation, Double, Double) -> (Double, Double)>(
    entries: spec_fn(int, int) -> Double,
    rotate: R,
    g: Rotation,
    m: int,
    n: int,
) -> spec_fn(int, int) -> Double {
    |i: int, j: int|
        if j >= n && i == m - 1 {
            mixed(rotate, g, entries(m - 1, j), entries(m, j)).0
        } else if j >= n && i == m {
            mixed(rotate, g, entries(m - 1, j), entries(m, j)).1
        } else {
            entries(i, j)
        }
}

/// Entries after the rotation that takes entry `(m, n)` away against the one above it.
pub open spec fn zeroed<
    C: Fn(Double, Double) -> Option<Rotation>,
    R: Fn(Rotation, Double, Double) -> (Double, Double),
>(
    entries: spec_fn(int, int) -> Double,
    cancel: C,
    rotate: R,
    m: int,
    n: int,
) -> spec_fn(int, int) -> Double {
    match cancelling(cancel, entries(m - 1, n), entries(m, n)) {
        Some(g) => turned(entries, rotate, g, m, n),
        None => entries,
    }
}

/// Entries after column `n` was cleared from the last row up to row `m`.
pub open spec fn cleared<
    C: Fn(Double, Double) -> Option<Rotation>,
    R: Fn(Rotation, Double, Double) -> (Double, Double),
>(
    entries: spec_fn(int, int) -> Double,
    cancel: C,
    rotate: R,
    rows: int,
    m: int,
    n: int,
) -> spec_fn(int, int) -> Double
    decreases rows - m,
{
    if m >= rows {
        entries
    } else {
        zeroed(cleared(entries, cancel, rotate, rows, m + 1, n), cancel, rotate, m, n)
    }
}

/// Entries after the first `cols` columns were cleared below the diagonal, in order.
pub open spec fn triangular<
    C: Fn(Double, Double) -> Option<Rotation>,
    R: Fn(Rotation, Double, Double) -> (Double, Double),
>(
    entries: spec_fn(int, int) -> Double,
    cancel: C,
    rotate: R,
    rows: int,
    cols: int,
) -> spec_fn(int, int) -> Double
    decreases cols,
{
    if cols <= 0 {
        entries
    } else {
        cleared(triangular(entries, cancel, rotate, rows, cols - 1), cancel, rotate, rows, cols, cols - 1)
    }
}

/// Mixes rows `m - 1` and `m` of a matrix by a rotation, from column `n` on.
fn rotate_rows<R: Fn(Rotation, Double, Double) -> (Double, Double)>(
    h: &mut Matrix,
    rotate: &R,
    g: Rotation,
    m: usize,
    n: usize,
)
    requires
        old(h).wf(),
        mixes(*rotate),
        1 <= m < old(h).height(),
    ensures
        final(h).shaped(old(h).height(), old(h).width()),
        forall|i: int, j: int|
            final(h).has(i, j) ==> #[trigger] final(h).at(i, j) == turned(
                |k: int, l: int| old(h).at(k, l),
                *rotate,
                g,
                m as int,
                n as int,
            )(i, j),
{
    let cols: usize = h.ncols();
    let ghost before = |k: int, l: int| old(h).at(k, l);
    let mut j: usize = n;
    while j < cols
        invariant
            n <= j,
            j <= cols || j == n,
            cols == old(h).width(),
            h.shaped(old(h).height(), old(h).width()),
            mixes(*rotate),
            1 <= m < old(h).height(),
            before == (|k: int, l: int| old(h).at(k, l)),
            forall|k: int, l: int|
                h.has(k, l) ==> #[trigger] h.at(k, l) == (if l < j {
                    turned(before, *rotate, g, m as int, n as int)(k, l)
                } else {
                    old(h).at(k, l)
                }),
        decreases cols - j,
    {
        let a = h.get(m - 1, j);
        let b = h.get(m, j);
        let r = rotate(g, a, b);
        assert(call_ensures(*rotate, (g, a, b), r));
        assert(call_ensures(*rotate, (g, a, b), mixed(*rotate, g, a, b)));
        assert(a == before(m - 1, j as int) && b == before(m as int, j as int));
        h.set(m - 1, j, r.0);
        h.set(m, j, r.1);
        j += 1;
    }
}

/// Takes entry `(m, n)` of a system away by rotating its row with the one above
/// it: columns `n` and on of `h`, and all of `h_x` and `res`. Where that entry
/// needs no rotation, nothing changes.
pub fn givens_zero<
    C: Fn(Double, Double) -> Option<Rotation>,
    R: Fn(Rotation, Double, Double) -> (Double, Double),
>(
    h: &mut Matrix,
    h_x: &mut Matrix,
    res: &mut Vec<Double>,
    m: usize,
    n: usize,
    cancel: &C,
    rotate: &R,
)
    requires
        old(h).wf(),
        old(h_x).wf(),
        old(h_x).height() == old(h).height(),
        old(res)@.len() == old(h).height(),
        cancels(*cancel),
        mixes(*rotate),
        1 <= m < old(h).height(),
        n < old(h).width(),
    ensures
        final(h).shaped(old(h).height(), old(h).width()),
        final(h_x).shaped(old(h_x).height(), old(h_x).width()),
        final(res)@.len() == old(res)@.len(),
        holds(
            final(h),
            final(h_x),
            final(res)@,
            zeroed(joined(old(h), old(h_x), old(res)@), *cancel, *rotate, m as int, n as int),
        ),
{
    let a = h.get(m - 1, n);
    let b = h.get(m, n);
    let found = cancel(a, b);
    assert(call_ensures(*cancel, (a, b), found));
    assert(call_ensures(*cancel, (a, b), cancelling(*cancel, a, b)));
    let ghost e = joined(h, h_x, res@);
    proof {
        lemma_joined(h, h_x, res@);
        h.lemma_shape();
        h_x.lemma_shape();
    }
    if let Some(g) = found {
        rotate_rows(h, rotate, g, m, n);
        rotate_rows(h_x, rotate, g, m, 0);
        let x = res[m - 1];
        let y = res[m];
        let r = rotate(g, x, y);
        assert(call_ensures(*rotate, (g, x, y), r));
        assert(call_ensures(*rotate, (g, x, y), mixed(*rotate, g, x, y)));
        res.set(m - 1, r.0);
        res.set(m, r.1);
        let ghost z = turned(e, *rotate, g, m as int, n as int);
        let ghost own = |k: int, l: int| old(h).at(k, l);
        let ghost carried = |k: int, l: int| old(h_x).at(k, l);
        let ghost p = old(h).width();
        assert forall|i: int, j: int| h.has(i, j) implies #[trigger] h.at(i, j) == z(i, j) by {
            assert(h.at(i, j) == turned(own, *rotate, g, m as int, n as int)(i, j));
            assert(e(i, j) == own(i, j) && e(m - 1, j) == own(m - 1, j) && e(m as int, j) == own(
                m as int,
                j,
            ));
        }
        assert forall|i: int, j: int| h_x.has(i, j) implies #[trigger] h_x.at(i, j) == z(
            i,
            p + j,
        ) by {
            assert(h_x.at(i, j) == turned(carried, *rotate, g, m as int, 0)(i, j));
            assert(e(i, p + j) == carried(i, j) && e(m - 1, p + j) == carried(m - 1, j) && e(
                m as int,
                p + j,
            ) == carried(m as int, j));
        }
        assert(zeroed(e, *cancel, *rotate, m as int, n as int) == z);
    }
}

/// A rotation step reads and writes nothing outside the system.
proof fn lemma_zeroed_local<
    C: Fn(Double, Double) -> Option<Rotation>,
    R: Fn(Rotation, Double, Double) -> (Double, Double),
>(
    e: spec_fn(int, int) -> Double,
    f: spec_fn(int, int) -> Double,
    cancel: C,
    rotate: R,
    rows: int,
    width: int,
    m: int,
    n: int,
)
    requires
        1 <= m < rows,
        0 <= n < width,
        forall|i: int, j: int| 0 <= i < rows && 0 <= j < width ==> #[trigger] e(i, j) == f(i, j),
    ensures
        forall|i: int, j: int|
            0 <= i < rows && 0 <= j < width ==> #[trigger] zeroed(e, cancel, rotate, m, n)(i, j)
                == zeroed(f, cancel, rotate, m, n)(i, j),
{
    assert(e(m - 1, n) == f(m - 1, n) && e(m, n) == f(m, n));
    assert forall|i: int, j: int| 0 <= i < rows && 0 <= j < width implies #[trigger] zeroed(
        e,
        cancel,
        rotate,
        m,
        n,
    )(i, j) == zeroed(f, cancel, rotate, m, n)(i, j) by {
        assert(e(m - 1, j) == f(m - 1, j) && e(m, j) == f(m, j) && e(i, j) == f(i, j));
    }
}

/// A step on a system that holds `model` leaves it holding the step of `model`.
proof fn lemma_step<
    C: Fn(Double, Double) -> Option<Rotation>,
    R: Fn(Rotation, Double, Double) -> (Double, Double),
>(
    h: &Matrix,
    h_x: &Matrix,
    res: Seq<Double>,
    h2: &Matrix,
    h2_x: &Matrix,
    res2: Seq<Double>,
    model: spec_fn(int, int) -> Double,
    cancel: C,
    rotate: R,
    m: int,
    n: int,
)
    requires
        h_x.height() == h.height(),
        res.len() == h.height(),
        h2.shaped(h.height(), h.width()),
        h2_x.shaped(h_x.height(), h_x.width()),
        res2.len() == res.len(),
        holds(h, h_x, res, model),
        holds(h2, h2_x, res2, zeroed(joined(h, h_x, res), cancel, rotate, m, n)),
        1 <= m < h.height(),
        0 <= n < h.width(),
    ensures
        holds(h2, h2_x, res2, zeroed(model, cancel, rotate, m, n)),
{
    let e = joined(h, h_x, res);
    let rows = h.height();
    h_x.lemma_shape();
    let width = h.width() + h_x.width() + 1;
    assert forall|i: int, j: int| 0 <= i < rows && 0 <= j < width implies #[trigger] e(i, j) == model(
        i,
        j,
    ) by {
        if j < h.width() {
            assert(h.has(i, j));
            assert(h.at(i, j) == model(i, j));
        } else if j < h.width() + h_x.width() {
            assert(h_x.has(i, j - h.width()));
            assert(h_x.at(i, j - h.width()) == model(i, h.width() + (j - h.width())));
        } else {
            assert(res[i] == model(i, h.width() + h_x.width()));
        }
    }
    lemma_zeroed_local(e, model, cancel, rotate, rows, width, m, n);
    let z = zeroed(e, cancel, rotate, m, n);
    let y = zeroed(model, cancel, rotate, m, n);
    assert forall|i: int, j: int| h2.has(i, j) implies #[trigger] h2.at(i, j) == y(i, j) by {
        assert(z(i, j) == y(i, j));
    }
    assert forall|i: int, j: int| h2_x.has(i, j) implies #[trigger] h2_x.at(i, j) == y(
        i,
        h2.width() + j,
    ) by {
        assert(z(i, h2.width() + j) == y(i, h2.width() + j));
    }
    assert forall|i: int| 0 <= i < res2.len() implies #[trigger] res2[i] == y(
        i,
        h2.width() + h2_x.width(),
    ) by {
        assert(z(i, h2.width() + h2_x.width()) == y(i, h2.width() + h2_x.width()));
    }
}

/// Clears every column of `h` below the diagonal, column by column and in each
/// from the last row up, and carries `h_x` and `res` along.
pub fn triangularize<
    C: Fn(Double, Double) -> Option<Rotation>,
    R: Fn(Rotation, Double, Double) -> (Double, Double),
>(h: &mut Matrix, h_x: &mut Matrix, res: &mut Vec<Double>, cancel: &C, rotate: &R)
    requires
        old(h).wf(),
        old(h_x).wf(),
        old(h_x).height() == old(h).height(),
        old(res)@.len() == old(h).height(),
        cancels(*cancel),
        mixes(*rotate),
    ensures
        final(h).shaped(old(h).height(), old(h).width()),
        final(h_x).shaped(old(h_x).height(), old(h_x).width()),
        final(res)@.len() == old(res)@.len(),
        holds(
            final(h),
            final(h_x),
            final(res)@,
            triangular(
                joined(old(h), old(h_x), old(res)@),
                *cancel,
                *rotate,
                old(h).height(),
                old(h).width(),
            ),
        ),
{
    let rows: usize = h.nrows();
    let cols: usize = h.ncols();
    let ghost start = joined(h, h_x, res@);
    proof {
        lemma_joined(h, h_x, res@);
    }
    let mut n: usize = 0;
    while n < cols
        invariant
            n <= cols,
            rows == old(h).height(),
            cols == old(h).width(),
            h.shaped(rows as int, cols as int),
            h_x.shaped(rows as int, old(h_x).width()),
            res@.len() == rows,
            cancels(*cancel),
            mixes(*rotate),
            holds(h, h_x, res@, triangular(start, *cancel, *rotate, rows as int, n as int)),
        decreases cols - n,
    {
        let ghost base = triangular(start, *cancel, *rotate, rows as int, n as int);
        let mut m: usize = rows;
        assert(cleared(base, *cancel, *rotate, rows as int, m as int, n as int) == base);
        if n + 1 >= rows {
            assert(cleared(base, *cancel, *rotate, rows as int, n + 1, n as int) == base);
        }
        while m > n + 1
            invariant
                n < cols,
                m <= rows,
                n + 1 < rows ==> n + 1 <= m,
                n + 1 >= rows ==> m == rows,
                cols == old(h).width(),
                h.shaped(rows as int, cols as int),
                h_x.shaped(rows as int, old(h_x).width()),
                res@.len() == rows,
                cancels(*cancel),
                mixes(*rotate),
                holds(h, h_x, res@, cleared(base, *cancel, *rotate, rows as int, m as int, n as int)),
            decreases m,
        {
            let ghost h0 = *h;
            let ghost x0 = *h_x;
            let ghost r0 = res@;
            let ghost model = cleared(base, *cancel, *rotate, rows as int, m as int, n as int);
            givens_zero(h, h_x, res, m - 1, n, cancel, rotate);
            proof {
                lemma_step(
                    &h0,
                    &x0,
                    r0,
                    h,
                    h_x,
                    res@,
                    model,
                    *cancel,
                    *rotate,
                    m - 1,
                    n as int,
                );
            }
            m -= 1;
        }
        n += 1;
    }
}

/// What a rotation does to the number it is meant to take away: nothing is left
/// of it, and where no rotation is given there was nothing.
pub open spec fn cancels_exactly<
    C: Fn(Double, Double) -> Option<Rotation>,
    R: Fn(Rotation, Double, Double) -> (Double, Double),
>(cancel: C, rotate: R) -> bool {
    forall|a: Double, b: Double|
        match #[trigger] cancelling(cancel, a, b) {
            Some(g) => mixed(rotate, g, a, b).1.magnitude() == 0,
            None => b.magnitude() == 0,
        }
}

/// Clearing column `n` leaves zeroes from row `m` on and keeps the columns before it.
proof fn lemma_cleared<
    C: Fn(Double, Double) -> Option<Rotation>,
    R: Fn(Rotation, Double, Double) -> (Double, Double),
>(entries: spec_fn(int, int) -> Double, cancel: C, rotate: R, rows: int, m: int, n: int)
    requires
        cancels_exactly(cancel, rotate),
    ensures
        forall|i: int|
            m <= i < rows ==> (#[trigger] cleared(entries, cancel, rotate, rows, m, n)(
                i,
                n,
            )).magnitude() == 0,
        forall|i: int, j: int|
            j < n ==> #[trigger] cleared(entries, cancel, rotate, rows, m, n)(i, j) == entries(i, j),
    decreases rows - m,
{
    if m < rows {
        lemma_cleared(entries, cancel, rotate, rows, m + 1, n);
        let e = cleared(entries, cancel, rotate, rows, m + 1, n);
        let z = cleared(entries, cancel, rotate, rows, m, n);
        assert(z == zeroed(e, cancel, rotate, m, n));
        let found = cancelling(cancel, e(m - 1, n), e(m, n));
        assert forall|i: int| m <= i < rows implies (#[trigger] z(i, n)).magnitude() == 0 by {
            if i > m {
                assert(e(i, n).magnitude() == 0);
            }
        }
        assert forall|i: int, j: int| j < n implies #[trigger] z(i, j) == entries(i, j) by {
            assert(e(i, j) == entries(i, j));
        }
    }
}

/// Where every rotation cancels exactly, nothing is left below the diagonal of the
/// columns that were cleared.
pub proof fn law_nothing_is_left_below_the_diagonal<
    C: Fn(Double, Double) -> Option<Rotation>,
    R: Fn(Rotation, Double, Double) -> (Double, Double),
>(entries: spec_fn(int, int) -> Double, cancel: C, rotate: R, rows: int, cols: int)
    requires
        cancels_exactly(cancel, rotate),
    ensures
        forall|i: int, j: int|
            0 <= j < cols && j < i < rows ==> (#[trigger] triangular(
                entries,
                cancel,
                rotate,
                rows,
                cols,
            )(i, j)).magnitude() == 0,
    decreases cols,
{
    if cols > 0 {
        law_nothing_is_left_below_the_diagonal(entries, cancel, rotate, rows, cols - 1);
        let e = triangular(entries, cancel, rotate, rows, cols - 1);
        lemma_cleared(e, cancel, rotate, rows, cols, cols - 1);
        let t = triangular(entries, cancel, rotate, rows, cols);
        assert forall|i: int, j: int| 0 <= j < cols && j < i < rows implies (#[trigger] t(
            i,
            j,
        )).magnitude() == 0 by {
            if j < cols - 1 {
                assert(t(i, j) == e(i, j));
            }
        }
    }
}

} // verus!
