//! Sums and products of matrices, over arithmetic that a caller hands in.
//!
//! Entries are spoken of as a function of row and column. A formula over whole
//! matrices is then a formula over such functions, and [`is`] says that a matrix
//! holds what a formula gives. Sums are taken in order, from zero on.

use vstd::prelude::*;

use crate::arith::{apply_two, binary, of_two};
use crate::double::{Double, ONE_BITS};
use crate::matrix::Matrix;

verus! {

/// One half.
pub const HALF_BITS: u64 = 0x3FE0_0000_0000_0000;

/// Addition and multiplication.
pub struct Ring {
    /// Addition.
    pub plus: spec_fn(Double, Double) -> Double,
    /// Multiplication.
    pub times: spec_fn(Double, Double) -> Double,
}

/// The addition and multiplication that a caller handed in.
pub open spec fn ring<P: Fn(Double, Double) -> Double, T: Fn(Double, Double) -> Double>(
    plus: P,
    times: T,
) -> Ring {
    Ring {
        plus: |a: Double, b: Double| of_two(plus, a, b),
        times: |a: Double, b: Double| of_two(times, a, b),
    }
}

/// The entries of a matrix.
pub open spec fn entries(m: &Matrix) -> spec_fn(int, int) -> Double {
    |i: int, j: int| m.at(i, j)
}

/// Row `i` of entries.
pub open spec fn row_of(f: spec_fn(int, int) -> Double, i: int) -> spec_fn(int) -> Double {
    |k: int| f(i, k)
}

/// Column `j` of entries.
pub open spec fn col_of(f: spec_fn(int, int) -> Double, j: int) -> spec_fn(int) -> Double {
    |k: int| f(k, j)
}

/// A list of numbers, place by place.
pub open spec fn list_of(v: Seq<Double>) -> spec_fn(int) -> Double {
    |k: int| v[k]
}

/// The sum of the first `n` products of two lists.
pub open spec fn dot(
    f: spec_fn(int) -> Double,
    g: spec_fn(int) -> Double,
    op: Ring,
    n: int,
) -> Double
    decreases n,
{
    if n <= 0 {
        Double { bits: 0 }
    } else {
        (op.plus)(dot(f, g, op, n - 1), (op.times)(f(n - 1), g(n - 1)))
    }
}

/// The sum of the first `n` numbers of a list.
pub open spec fn summed(f: spec_fn(int) -> Double, op: Ring, n: int) -> Double
    decreases n,
{
    if n <= 0 {
        Double { bits: 0 }
    } else {
        (op.plus)(summed(f, op, n - 1), f(n - 1))
    }
}

/// A product of matrices that meet in `n` places.
pub open spec fn product(
    f: spec_fn(int, int) -> Double,
    g: spec_fn(int, int) -> Double,
    op: Ring,
    n: int,
) -> spec_fn(int, int) -> Double {
    |i: int, j: int| dot(row_of(f, i), col_of(g, j), op, n)
}

/// Entries with rows and columns exchanged.
pub open spec fn flipped(f: spec_fn(int, int) -> Double) -> spec_fn(int, int) -> Double {
    |i: int, j: int| f(j, i)
}

/// A sum of matrices.
pub open spec fn sum_of(
    f: spec_fn(int, int) -> Double,
    g: spec_fn(int, int) -> Double,
    op: Ring,
) -> spec_fn(int, int) -> Double {
    |i: int, j: int| (op.plus)(f(i, j), g(i, j))
}

/// Entries with the opposite sign.
pub open spec fn negation(f: spec_fn(int, int) -> Double) -> spec_fn(int, int) -> Double {
    |i: int, j: int| f(i, j).spec_neg()
}

/// The mean of entries and the same with rows and columns exchanged.
pub open spec fn symmetric_part(f: spec_fn(int, int) -> Double, op: Ring) -> spec_fn(
    int,
    int,
) -> Double {
    |i: int, j: int| (op.times)(Double { bits: HALF_BITS }, (op.plus)(f(i, j), f(j, i)))
}

/// The entries of nine numbers, row by row.
pub open spec fn three_by_three(v: Seq<Double>) -> spec_fn(int, int) -> Double {
    |i: int, j: int| v[3 * i + j]
}

/// The entries of the identity.
pub open spec fn unit() -> spec_fn(int, int) -> Double {
    |i: int, j: int| if i == j { Double { bits: ONE_BITS } } else { Double { bits: 0 } }
}

/// Entries that are all zero.
pub open spec fn nothing() -> spec_fn(int, int) -> Double {
    |i: int, j: int| Double { bits: 0 }
}

/// Whether a matrix has `rows` rows and `cols` columns, and holds the entries.
pub open spec fn is(m: &Matrix, rows: int, cols: int, f: spec_fn(int, int) -> Double) -> bool {
    &&& m.shaped(rows, cols)
    &&& forall|i: int, j: int| m.has(i, j) ==> #[trigger] m.at(i, j) == f(i, j)
}

/// A sum of products depends on the factors alone.
pub proof fn lemma_dot_same(
    f: spec_fn(int) -> Double,
    g: spec_fn(int) -> Double,
    a: spec_fn(int) -> Double,
    b: spec_fn(int) -> Double,
    op: Ring,
    n: int,
)
    requires
        forall|k: int| 0 <= k < n ==> #[trigger] f(k) == a(k),
        forall|k: int| 0 <= k < n ==> #[trigger] g(k) == b(k),
    ensures
        dot(f, g, op, n) == dot(a, b, op, n),
    decreases n,
{
    if n > 0 {
        lemma_dot_same(f, g, a, b, op, n - 1);
        assert(f(n - 1) == a(n - 1) && g(n - 1) == b(n - 1));
    }
}

/// The product of matrices that hold formulas is the product of the formulas.
pub proof fn lemma_product(
    m: &Matrix,
    a: &Matrix,
    b: &Matrix,
    f: spec_fn(int, int) -> Double,
    g: spec_fn(int, int) -> Double,
    op: Ring,
)
    requires
        is(a, a.height(), a.width(), f),
        is(b, a.width(), b.width(), g),
        is(m, a.height(), b.width(), product(entries(a), entries(b), op, a.width())),
    ensures
        is(m, a.height(), b.width(), product(f, g, op, a.width())),
{
    assert forall|i: int, j: int| m.has(i, j) implies #[trigger] m.at(i, j) == product(
        f,
        g,
        op,
        a.width(),
    )(i, j) by {
        assert forall|k: int| 0 <= k < a.width() implies #[trigger] row_of(entries(a), i)(k) == row_of(
            f,
            i,
        )(k) by {
            assert(a.has(i, k));
            assert(a.at(i, k) == f(i, k));
        }
        assert forall|k: int| 0 <= k < a.width() implies #[trigger] col_of(entries(b), j)(k) == col_of(
            g,
            j,
        )(k) by {
            assert(b.has(k, j));
            assert(b.at(k, j) == g(k, j));
        }
        lemma_dot_same(
            row_of(entries(a), i),
            col_of(entries(b), j),
            row_of(f, i),
            col_of(g, j),
            op,
            a.width(),
        );
    }
}

/// Nine numbers as a matrix, row by row.
pub fn square_of(v: &[Double; 9]) -> (m: Matrix)
    ensures
        is(&m, 3, 3, three_by_three(v@)),
{
    let mut m = Matrix::filled(3, 3, Double::zero());
    m.set(0, 0, v[0]);
    m.set(0, 1, v[1]);
    m.set(0, 2, v[2]);
    m.set(1, 0, v[3]);
    m.set(1, 1, v[4]);
    m.set(1, 2, v[5]);
    m.set(2, 0, v[6]);
    m.set(2, 1, v[7]);
    m.set(2, 2, v[8]);
    m
}

/// Multiplies two matrices.
pub fn multiply<P: Fn(Double, Double) -> Double, T: Fn(Double, Double) -> Double>(
    a: &Matrix,
    b: &Matrix,
    plus: &P,
    times: &T,
) -> (m: Matrix)
    requires
        a.wf(),
        b.wf(),
        a.width() == b.height(),
        a.height() * b.width() <= usize::MAX,
        binary(*plus),
        binary(*times),
    ensures
        is(
            &m,
            a.height(),
            b.width(),
            product(entries(a), entries(b), ring(*plus, *times), a.width()),
        ),
{
    let ghost op = ring(*plus, *times);
    let rows: usize = a.nrows();
    let cols: usize = b.ncols();
    let inner: usize = a.ncols();
    let mut m = Matrix::filled(rows, cols, Double::zero());
    let ghost p = product(entries(a), entries(b), op, inner as int);
    let mut i: usize = 0;
    while i < rows
        invariant
            i <= rows,
            a.shaped(rows as int, inner as int),
            b.shaped(inner as int, cols as int),
            m.shaped(rows as int, cols as int),
            binary(*plus),
            binary(*times),
            op == ring(*plus, *times),
            p == product(entries(a), entries(b), op, inner as int),
            forall|x: int, y: int| m.has(x, y) && x < i ==> #[trigger] m.at(x, y) == p(x, y),
        decreases rows - i,
    {
        let mut j: usize = 0;
        while j < cols
            invariant
                i < rows,
                j <= cols,
                a.shaped(rows as int, inner as int),
                b.shaped(inner as int, cols as int),
                m.shaped(rows as int, cols as int),
                binary(*plus),
                binary(*times),
                op == ring(*plus, *times),
                p == product(entries(a), entries(b), op, inner as int),
                forall|x: int, y: int|
                    m.has(x, y) && (x < i || (x == i && y < j)) ==> #[trigger] m.at(x, y) == p(x, y),
            decreases cols - j,
        {
            let mut sum = Double::zero();
            let mut k: usize = 0;
            while k < inner
                invariant
                    i < rows,
                    j < cols,
                    k <= inner,
                    a.shaped(rows as int, inner as int),
                    b.shaped(inner as int, cols as int),
                    binary(*plus),
                    binary(*times),
                    op == ring(*plus, *times),
                    sum == dot(
                        row_of(entries(a), i as int),
                        col_of(entries(b), j as int),
                        op,
                        k as int,
                    ),
                decreases inner - k,
            {
                let t = apply_two(times, a.get(i, k), b.get(k, j));
                sum = apply_two(plus, sum, t);
                k += 1;
            }
            m.set(i, j, sum);
            j += 1;
        }
        i += 1;
    }
    m
}

/// Adds up the first `n` numbers of a list.
pub fn sum_list<P: Fn(Double, Double) -> Double, T: Fn(Double, Double) -> Double>(
    v: &Vec<Double>,
    n: usize,
    plus: &P,
    times: &T,
) -> (s: Double)
    requires
        n <= v@.len(),
        binary(*plus),
    ensures
        s == summed(list_of(v@), ring(*plus, *times), n as int),
{
    let ghost op = ring(*plus, *times);
    let mut s = Double::zero();
    let mut k: usize = 0;
    while k < n
        invariant
            k <= n <= v@.len(),
            binary(*plus),
            op == ring(*plus, *times),
            s == summed(list_of(v@), op, k as int),
        decreases n - k,
    {
        s = apply_two(plus, s, v[k]);
        k += 1;
    }
    s
}

/// Adds up the products of two lists of one length.
pub fn dot_lists<P: Fn(Double, Double) -> Double, T: Fn(Double, Double) -> Double>(
    a: &Vec<Double>,
    b: &Vec<Double>,
    plus: &P,
    times: &T,
) -> (s: Double)
    requires
        a@.len() == b@.len(),
        binary(*plus),
        binary(*times),
    ensures
        s == dot(list_of(a@), list_of(b@), ring(*plus, *times), a@.len() as int),
{
    let ghost op = ring(*plus, *times);
    let mut s = Double::zero();
    let mut k: usize = 0;
    while k < a.len()
        invariant
            k <= a@.len(),
            a@.len() == b@.len(),
            binary(*plus),
            binary(*times),
            op == ring(*plus, *times),
            s == dot(list_of(a@), list_of(b@), op, k as int),
        decreases a@.len() - k,
    {
        let t = apply_two(times, a[k], b[k]);
        s = apply_two(plus, s, t);
        k += 1;
    }
    s
}

/// Multiplies a matrix and a list.
pub fn transform<P: Fn(Double, Double) -> Double, T: Fn(Double, Double) -> Double>(
    a: &Matrix,
    v: &Vec<Double>,
    plus: &P,
    times: &T,
) -> (r: Vec<Double>)
    requires
        a.shaped(a.height(), v@.len() as int),
        binary(*plus),
        binary(*times),
    ensures
        r@ == Seq::new(
            a.height() as nat,
            |i: int| dot(row_of(entries(a), i), list_of(v@), ring(*plus, *times), v@.len() as int),
        ),
{
    let ghost op = ring(*plus, *times);
    let rows: usize = a.nrows();
    let n: usize = v.len();
    let mut r: Vec<Double> = Vec::new();
    let mut i: usize = 0;
    while i < rows
        invariant
            i <= rows,
            n == v@.len(),
            a.shaped(rows as int, n as int),
            binary(*plus),
            binary(*times),
            op == ring(*plus, *times),
            r@.len() == i,
            forall|x: int|
                0 <= x < i ==> #[trigger] r@[x] == dot(
                    row_of(entries(a), x),
                    list_of(v@),
                    op,
                    n as int,
                ),
        decreases rows - i,
    {
        let mut sum = Double::zero();
        let mut k: usize = 0;
        while k < n
            invariant
                i < rows,
                k <= n,
                n == v@.len(),
                a.shaped(rows as int, n as int),
                binary(*plus),
                binary(*times),
                op == ring(*plus, *times),
                sum == dot(row_of(entries(a), i as int), list_of(v@), op, k as int),
            decreases n - k,
        {
            let t = apply_two(times, a.get(i, k), v[k]);
            sum = apply_two(plus, sum, t);
            k += 1;
        }
        r.push(sum);
        i += 1;
    }
    assert(r@ =~= Seq::new(
        a.height() as nat,
        |i: int| dot(row_of(entries(a), i), list_of(v@), op, v@.len() as int),
    ));
    r
}

/// Adds two matrices.
pub fn add_matrices<P: Fn(Double, Double) -> Double>(a: &Matrix, b: &Matrix, plus: &P) -> (m: Matrix)
    requires
        a.wf(),
        b.shaped(a.height(), a.width()),
        a.height() * a.width() <= usize::MAX,
        binary(*plus),
    ensures
        m.shaped(a.height(), a.width()),
        forall|i: int, j: int|
            m.has(i, j) ==> #[trigger] m.at(i, j) == of_two(*plus, a.at(i, j), b.at(i, j)),
{
    let rows: usize = a.nrows();
    let cols: usize = a.ncols();
    let mut m = Matrix::filled(rows, cols, Double::zero());
    let mut i: usize = 0;
    while i < rows
        invariant
            i <= rows,
            a.shaped(rows as int, cols as int),
            b.shaped(rows as int, cols as int),
            m.shaped(rows as int, cols as int),
            binary(*plus),
            forall|x: int, y: int|
                m.has(x, y) && x < i ==> #[trigger] m.at(x, y) == of_two(
                    *plus,
                    a.at(x, y),
                    b.at(x, y),
                ),
        decreases rows - i,
    {
        let mut j: usize = 0;
        while j < cols
            invariant
                i < rows,
                j <= cols,
                a.shaped(rows as int, cols as int),
                b.shaped(rows as int, cols as int),
                m.shaped(rows as int, cols as int),
                binary(*plus),
                forall|x: int, y: int|
                    m.has(x, y) && (x < i || (x == i && y < j)) ==> #[trigger] m.at(x, y) == of_two(
                        *plus,
                        a.at(x, y),
                        b.at(x, y),
                    ),
            decreases cols - j,
        {
            m.set(i, j, apply_two(plus, a.get(i, j), b.get(i, j)));
            j += 1;
        }
        i += 1;
    }
    m
}

/// Changes the sign of every entry.
pub fn negate(a: &Matrix) -> (m: Matrix)
    requires
        a.wf(),
        a.height() * a.width() <= usize::MAX,
    ensures
        is(&m, a.height(), a.width(), negation(entries(a))),
{
    let rows: usize = a.nrows();
    let cols: usize = a.ncols();
    let mut m = Matrix::filled(rows, cols, Double::zero());
    let mut i: usize = 0;
    while i < rows
        invariant
            i <= rows,
            a.shaped(rows as int, cols as int),
            m.shaped(rows as int, cols as int),
            forall|x: int, y: int|
                m.has(x, y) && x < i ==> #[trigger] m.at(x, y) == a.at(x, y).spec_neg(),
        decreases rows - i,
    {
        let mut j: usize = 0;
        while j < cols
            invariant
                i < rows,
                j <= cols,
                a.shaped(rows as int, cols as int),
                m.shaped(rows as int, cols as int),
                forall|x: int, y: int|
                    m.has(x, y) && (x < i || (x == i && y < j)) ==> #[trigger] m.at(x, y) == a.at(
                        x,
                        y,
                    ).spec_neg(),
            decreases cols - j,
        {
            m.set(i, j, a.get(i, j).neg());
            j += 1;
        }
        i += 1;
    }
    m
}

/// Makes a square matrix symmetric: the mean of the matrix and its transpose.
pub fn symmetrize<P: Fn(Double, Double) -> Double, T: Fn(Double, Double) -> Double>(
    a: &Matrix,
    plus: &P,
    times: &T,
) -> (m: Matrix)
    requires
        a.shaped(a.height(), a.height()),
        binary(*plus),
        binary(*times),
    ensures
        is(&m, a.height(), a.height(), symmetric_part(entries(a), ring(*plus, *times))),
{
    let n: usize = a.nrows();
    let ghost p = symmetric_part(entries(a), ring(*plus, *times));
    let mut m = a.clone();
    let mut i: usize = 0;
    while i < n
        invariant
            i <= n,
            a.shaped(n as int, n as int),
            m.shaped(n as int, n as int),
            binary(*plus),
            binary(*times),
            p == symmetric_part(entries(a), ring(*plus, *times)),
            forall|x: int, y: int| m.has(x, y) && x < i ==> #[trigger] m.at(x, y) == p(x, y),
        decreases n - i,
    {
        let mut j: usize = 0;
        while j < n
            invariant
                i < n,
                j <= n,
                a.shaped(n as int, n as int),
                m.shaped(n as int, n as int),
                binary(*plus),
                binary(*times),
                p == symmetric_part(entries(a), ring(*plus, *times)),
                forall|x: int, y: int|
                    m.has(x, y) && (x < i || (x == i && y < j)) ==> #[trigger] m.at(x, y) == p(x, y),
            decreases n - j,
        {
            let s = apply_two(plus, a.get(i, j), a.get(j, i));
            m.set(i, j, apply_two(times, Double { bits: HALF_BITS }, s));
            j += 1;
        }
        i += 1;
    }
    m
}

/// Whether two results are the same matrix, or both none.
pub open spec fn same_result(a: Option<Matrix>, b: Option<Matrix>) -> bool {
    match (a, b) {
        (Some(x), Some(y)) => x.same(&y),
        (None, None) => true,
        _ => false,
    }
}

/// Whether square matrices can be inverted, always in the same way; where one has
/// no inverse the result is none.
pub open spec fn inverts<I: Fn(&Matrix) -> Option<Matrix>>(invert: I) -> bool {
    &&& forall|m: &Matrix| m.shaped(m.height(), m.height()) ==> #[trigger] call_requires(
        invert,
        (m,),
    )
    &&& forall|m: &Matrix, r: Option<Matrix>| #[trigger]
        call_ensures(invert, (m,), r) && m.shaped(m.height(), m.height()) ==> (r matches Some(x)
            ==> x.shaped(m.height(), m.height()))
    &&& forall|m: &Matrix, n: &Matrix, a: Option<Matrix>, b: Option<Matrix>| #[trigger]
        call_ensures(invert, (m,), a) && #[trigger] call_ensures(invert, (n,), b) && m.same(n)
            ==> same_result(a, b)
}

/// Whether inverting the entries gives the result.
pub open spec fn inverse_found<I: Fn(&Matrix) -> Option<Matrix>>(
    invert: I,
    n: int,
    f: spec_fn(int, int) -> Double,
    r: Option<Matrix>,
) -> bool {
    exists|m: &Matrix| is(m, n, n, f) && #[trigger] call_ensures(invert, (m,), r)
}

/// The inverse of the entries, if there is one.
pub open spec fn inverse_of<I: Fn(&Matrix) -> Option<Matrix>>(
    invert: I,
    n: int,
    f: spec_fn(int, int) -> Double,
) -> Option<Matrix> {
    choose|r: Option<Matrix>| inverse_found(invert, n, f, r)
}

/// Inverts a matrix that holds a formula.
pub(crate) fn apply_inverse<I: Fn(&Matrix) -> Option<Matrix>>(
    m: &Matrix,
    invert: &I,
    Ghost(f): Ghost<spec_fn(int, int) -> Double>,
) -> (r: Option<Matrix>)
    requires
        is(m, m.height(), m.height(), f),
        inverts(*invert),
    ensures
        same_result(r, inverse_of(*invert, m.height(), f)),
        r matches Some(x) ==> x.shaped(m.height(), m.height()),
        inverse_of(*invert, m.height(), f) matches Some(x) ==> x.shaped(m.height(), m.height()),
{
    let r = invert(m);
    proof {
        let n = m.height();
        assert(call_ensures(*invert, (m,), r));
        assert(inverse_found(*invert, n, f, r));
        let chosen = inverse_of(*invert, n, f);
        assert(inverse_found(*invert, n, f, chosen));
        let w = choose|w: &Matrix| is(w, n, n, f) && #[trigger] call_ensures(*invert, (w,), chosen);
        assert forall|i: int, j: int| m.has(i, j) implies #[trigger] m.at(i, j) == w.at(i, j) by {
            assert(w.has(i, j));
        }
        assert(m.same(w));
        assert(same_result(r, chosen));
    }
    r
}

/// A symmetric part is symmetric, if sums do not depend on the order.
pub proof fn law_symmetric_part_is_symmetric(
    f: spec_fn(int, int) -> Double,
    op: Ring,
    i: int,
    j: int,
)
    requires
        (op.plus)(f(i, j), f(j, i)) == (op.plus)(f(j, i), f(i, j)),
    ensures
        symmetric_part(f, op)(i, j) == symmetric_part(f, op)(j, i),
{
}

} // verus!
