//! Dense matrices of doubles: storage and the movement of blocks.
//!
//! A [`Matrix`] is read through [`Matrix::at`]. Every operation says, entry by
//! entry, where each number of the result came from.

use vstd::prelude::*;

use crate::double::Double;

verus! {

/// A dense matrix, stored by rows.
#[derive(Debug)]
pub struct Matrix {
    rows: usize,
    cols: usize,
    data: Vec<Double>,
}

/// The place of entry `(i, j)` among `cols` columns stays inside `rows * cols`.
pub(crate) proof fn lemma_place_in_range(i: int, j: int, rows: int, cols: int)
    by (nonlinear_arith)
    requires
        0 <= i < rows,
        0 <= j < cols,
    ensures
        0 <= i * cols + j < rows * cols,
        0 <= i * cols <= rows * cols,
{
}

/// Two entries of a matrix with `cols` columns share a place only if they are the same.
pub(crate) proof fn lemma_place_injective(i: int, j: int, k: int, l: int, cols: int)
    by (nonlinear_arith)
    requires
        0 <= j < cols,
        0 <= l < cols,
        i * cols + j == k * cols + l,
    ensures
        i == k,
        j == l,
{
}

impl Matrix {
    /// Whether the storage holds exactly one number for each entry.
    pub closed spec fn wf(&self) -> bool {
        self.data.len() == self.rows * self.cols
    }

    /// The number of rows.
    pub closed spec fn height(&self) -> int {
        self.rows as int
    }

    /// The number of columns.
    pub closed spec fn width(&self) -> int {
        self.cols as int
    }

    /// Whether the matrix is in order and has the given shape.
    pub fn is_shaped(&self, rows: usize, cols: usize) -> (yes: bool)
        requires
            rows * cols <= usize::MAX,
        ensures
            yes == self.shaped(rows as int, cols as int),
    {
        self.rows == rows && self.cols == cols && self.data.len() == rows * cols
    }

    /// The entry in row `i` and column `j`.
    pub closed spec fn at(&self, i: int, j: int) -> Double {
        self.data@[i * self.cols + j]
    }

    /// Whether the matrix has `rows` rows and `cols` columns.
    pub open spec fn shaped(&self, rows: int, cols: int) -> bool {
        self.wf() && self.height() == rows && self.width() == cols
    }

    /// Whether `(i, j)` is an entry.
    pub open spec fn has(&self, i: int, j: int) -> bool {
        0 <= i < self.height() && 0 <= j < self.width()
    }

    /// Whether the two matrices have the same shape and entries.
    pub open spec fn same(&self, other: &Matrix) -> bool {
        &&& self.shaped(other.height(), other.width())
        &&& forall|i: int, j: int| self.has(i, j) ==> #[trigger] self.at(i, j) == other.at(i, j)
    }

    /// The shape of a matrix fits machine integers.
    pub proof fn lemma_shape(&self)
        ensures
            0 <= self.height() <= usize::MAX,
            0 <= self.width() <= usize::MAX,
    {
    }

    /// The number of entries fits machine integers.
    pub proof fn lemma_area(&self)
        requires
            self.wf(),
        ensures
            self.height() * self.width() <= usize::MAX,
    {
        assert(self.data.len() <= usize::MAX);
    }

    /// A matrix with `value` in every entry.
    pub fn filled(rows: usize, cols: usize, value: Double) -> (m: Matrix)
        requires
            rows * cols <= usize::MAX,
        ensures
            m.shaped(rows as int, cols as int),
            forall|i: int, j: int| m.has(i, j) ==> #[trigger] m.at(i, j) == value,
    {
        let n: usize = rows * cols;
        let mut data: Vec<Double> = Vec::new();
        let mut k: usize = 0;
        while k < n
            invariant
                k <= n,
                data@.len() == k,
                forall|x: int| 0 <= x < k ==> data@[x] == value,
            decreases n - k,
        {
            data.push(value);
            k += 1;
        }
        let m = Matrix { rows, cols, data };
        assert forall|i: int, j: int| m.has(i, j) implies #[trigger] m.at(i, j) == value by {
            lemma_place_in_range(i, j, rows as int, cols as int);
        }
        m
    }

    /// The number of rows.
    pub fn nrows(&self) -> (n: usize)
        ensures
            n == self.height(),
    {
        self.rows
    }

    /// The number of columns.
    pub fn ncols(&self) -> (n: usize)
        ensures
            n == self.width(),
    {
        self.cols
    }

    /// The entry in row `i` and column `j`.
    pub fn get(&self, i: usize, j: usize) -> (v: Double)
        requires
            self.wf(),
            self.has(i as int, j as int),
        ensures
            v == self.at(i as int, j as int),
    {
        proof {
            lemma_place_in_range(i as int, j as int, self.rows as int, self.cols as int);
        }
        self.data[i * self.cols + j]
    }

    /// Overwrites the entry in row `i` and column `j`.
    pub fn set(&mut self, i: usize, j: usize, value: Double)
        requires
            old(self).wf(),
            old(self).has(i as int, j as int),
        ensures
            final(self).shaped(old(self).height(), old(self).width()),
            forall|k: int, l: int|
                old(self).has(k, l) ==> #[trigger] final(self).at(k, l) == (if k == i && l == j {
                    value
                } else {
                    old(self).at(k, l)
                }),
    {
        proof {
            lemma_place_in_range(i as int, j as int, self.rows as int, self.cols as int);
        }
        let place: usize = i * self.cols + j;
        self.data.set(place, value);
        assert forall|k: int, l: int| old(self).has(k, l) implies #[trigger] self.at(k, l) == (if k
            == i && l == j {
            value
        } else {
            old(self).at(k, l)
        }) by {
            lemma_place_in_range(k, l, self.rows as int, self.cols as int);
            if k * self.cols + l == place {
                lemma_place_injective(k, l, i as int, j as int, self.cols as int);
            }
        }
    }

    /// The `rows` by `cols` block whose first entry is `(top, left)`.
    pub fn block(&self, top: usize, left: usize, rows: usize, cols: usize) -> (m: Matrix)
        requires
            self.wf(),
            top + rows <= self.height(),
            left + cols <= self.width(),
            rows * cols <= usize::MAX,
        ensures
            m.shaped(rows as int, cols as int),
            forall|i: int, j: int| m.has(i, j) ==> #[trigger] m.at(i, j) == self.at(top + i, left + j),
    {
        let mut m = Matrix::filled(rows, cols, Double::zero());
        let mut i: usize = 0;
        while i < rows
            invariant
                i <= rows,
                self.wf(),
                top + rows <= self.height(),
                left + cols <= self.width(),
                m.shaped(rows as int, cols as int),
                forall|k: int, l: int|
                    m.has(k, l) && k < i ==> #[trigger] m.at(k, l) == self.at(top + k, left + l),
            decreases rows - i,
        {
            let mut j: usize = 0;
            while j < cols
                invariant
                    i < rows,
                    j <= cols,
                    self.wf(),
                    top + rows <= self.height(),
                    left + cols <= self.width(),
                    m.shaped(rows as int, cols as int),
                    forall|k: int, l: int|
                        m.has(k, l) && (k < i || (k == i && l < j)) ==> #[trigger] m.at(k, l)
                            == self.at(top + k, left + l),
                decreases cols - j,
            {
                let v = self.get(top + i, left + j);
                m.set(i, j, v);
                j += 1;
            }
            i += 1;
        }
        m
    }

    /// Overwrites the block whose first entry is `(top, left)` with `other`.
    pub fn set_block(&mut self, top: usize, left: usize, other: &Matrix)
        requires
            old(self).wf(),
            other.wf(),
            top + other.height() <= old(self).height(),
            left + other.width() <= old(self).width(),
        ensures
            final(self).shaped(old(self).height(), old(self).width()),
            forall|k: int, l: int|
                old(self).has(k, l) ==> #[trigger] final(self).at(k, l) == (if other.has(
                    k - top,
                    l - left,
                ) {
                    other.at(k - top, l - left)
                } else {
                    old(self).at(k, l)
                }),
    {
        let rows: usize = other.nrows();
        let cols: usize = other.ncols();
        let mut i: usize = 0;
        while i < rows
            invariant
                i <= rows,
                other.shaped(rows as int, cols as int),
                top + rows <= old(self).height(),
                left + cols <= old(self).width(),
                self.shaped(old(self).height(), old(self).width()),
                forall|k: int, l: int|
                    old(self).has(k, l) ==> #[trigger] self.at(k, l) == (if other.has(
                        k - top,
                        l - left,
                    ) && k - top < i {
                        other.at(k - top, l - left)
                    } else {
                        old(self).at(k, l)
                    }),
            decreases rows - i,
        {
            let mut j: usize = 0;
            while j < cols
                invariant
                    i < rows,
                    j <= cols,
                    other.shaped(rows as int, cols as int),
                    top + rows <= old(self).height(),
                    left + cols <= old(self).width(),
                    self.shaped(old(self).height(), old(self).width()),
                    forall|k: int, l: int|
                        old(self).has(k, l) ==> #[trigger] self.at(k, l) == (if other.has(
                            k - top,
                            l - left,
                        ) && (k - top < i || (k - top == i && l - left < j)) {
                            other.at(k - top, l - left)
                        } else {
                            old(self).at(k, l)
                        }),
                decreases cols - j,
            {
                let v = other.get(i, j);
                self.set(top + i, left + j, v);
                j += 1;
            }
            i += 1;
        }
    }

    /// Overwrites `count` diagonal entries from `(start, start)` on.
    pub fn set_diagonal(&mut self, start: usize, count: usize, value: Double)
        requires
            old(self).wf(),
            start + count <= old(self).height(),
            start + count <= old(self).width(),
        ensures
            final(self).shaped(old(self).height(), old(self).width()),
            forall|k: int, l: int|
                old(self).has(k, l) ==> #[trigger] final(self).at(k, l) == (if k == l && start <= k
                    < start + count {
                    value
                } else {
                    old(self).at(k, l)
                }),
    {
        let mut i: usize = 0;
        while i < count
            invariant
                i <= count,
                start + count <= old(self).height(),
                start + count <= old(self).width(),
                self.shaped(old(self).height(), old(self).width()),
                forall|k: int, l: int|
                    old(self).has(k, l) ==> #[trigger] self.at(k, l) == (if k == l && start <= k
                        < start + i {
                        value
                    } else {
                        old(self).at(k, l)
                    }),
            decreases count - i,
        {
            self.set(start + i, start + i, value);
            i += 1;
        }
    }

    /// The matrix with rows and columns exchanged.
    pub fn transpose(&self) -> (m: Matrix)
        requires
            self.wf(),
        ensures
            m.shaped(self.width(), self.height()),
            forall|i: int, j: int| m.has(i, j) ==> #[trigger] m.at(i, j) == self.at(j, i),
    {
        proof {
            assert(self.rows * self.cols == self.cols * self.rows) by (nonlinear_arith);
        }
        let mut m = Matrix::filled(self.cols, self.rows, Double::zero());
        let mut i: usize = 0;
        while i < self.cols
            invariant
                i <= self.cols,
                self.wf(),
                m.shaped(self.width(), self.height()),
                forall|k: int, l: int|
                    m.has(k, l) && k < i ==> #[trigger] m.at(k, l) == self.at(l, k),
            decreases self.cols - i,
        {
            let mut j: usize = 0;
            while j < self.rows
                invariant
                    i < self.cols,
                    j <= self.rows,
                    self.wf(),
                    m.shaped(self.width(), self.height()),
                    forall|k: int, l: int|
                        m.has(k, l) && (k < i || (k == i && l < j)) ==> #[trigger] m.at(k, l)
                            == self.at(l, k),
                decreases self.rows - j,
            {
                let v = self.get(j, i);
                m.set(i, j, v);
                j += 1;
            }
            i += 1;
        }
        m
    }
}

impl Clone for Matrix {
    fn clone(&self) -> (m: Self)
        ensures
            self.wf() ==> m.same(self),
    {
        let m = Matrix { rows: self.rows, cols: self.cols, data: self.data.clone() };
        assert(m.data@ =~= self.data@);
        m
    }
}

} // verus!
