//! Dense matrices of scalars.
use vstd::prelude::*;

use crate::mat::{
    clip, eye, hadamard, mat_add, mat_mul, mat_neg, mat_sub, transposed, tril, tril_strict, Mat,
};
use crate::ring::{
    lemma_add_zero, lemma_mul_zero, lemma_neg_zero, lemma_sub_self, lemma_zero_mul, Ring, Scalar,
};
use crate::sum::{lemma_sum_zero, sum};

verus! {

/// `len` rows of a matrix from row `start` on.
pub open spec fn row_window<R: Ring>(a: Mat<R>, start: int, len: int) -> Mat<R> {
    |i: int, j: int|
        if 0 <= i < len {
            a(start + i, j)
        } else {
            R::zero()
        }
}

/// The first `n` rows of a matrix in reverse order.
pub open spec fn reversed_rows<R>(n: int, a: Mat<R>) -> Mat<R> {
    |i: int, j: int| a(n - 1 - i, j)
}

/// The sums of a matrix's rows up to each row.
pub open spec fn row_sums<R: Ring>(a: Mat<R>) -> Mat<R> {
    |i: int, j: int| sum(i + 1, |t: int| a(t, j))
}

/// A dense matrix, row by row.
pub struct Matrix<T> {
    rows: usize,
    cols: usize,
    data: Vec<Vec<T>>,
}

impl<T> Matrix<T> {
    #[verifier::type_invariant]
    spec fn rectangular(self) -> bool {
        &&& self.data@.len() == self.rows
        &&& forall|i: int| 0 <= i < self.rows ==> (#[trigger] self.data@[i])@.len() == self.cols
    }

    /// The number of rows, in specifications.
    pub closed spec fn spec_rows(&self) -> usize {
        self.rows
    }

    /// The number of columns, in specifications.
    pub closed spec fn spec_cols(&self) -> usize {
        self.cols
    }

    /// Whether the matrix has the given shape.
    pub open spec fn has_shape(&self, rows: int, cols: int) -> bool {
        self.rows() == rows && self.cols() == cols
    }

    /// The stored entry at row `i`, column `j`.
    pub closed spec fn entry(&self, i: int, j: int) -> T {
        self.data@[i]@[j]
    }

    /// The number of rows.
    #[verifier::when_used_as_spec(spec_rows)]
    pub fn rows(&self) -> (r: usize)
        ensures
            r == self.rows(),
    {
        self.rows
    }

    /// The number of columns.
    #[verifier::when_used_as_spec(spec_cols)]
    pub fn cols(&self) -> (r: usize)
        ensures
            r == self.cols(),
    {
        self.cols
    }
}

impl<T: Ring> Matrix<T> {
    /// The matrix as a function of its indices, zero outside its shape.
    pub open spec fn view(&self) -> Mat<T> {
        |i: int, j: int|
            if 0 <= i < self.rows() && 0 <= j < self.cols() {
                self.entry(i, j)
            } else {
                T::zero()
            }
    }
}

impl<T: Scalar> Matrix<T> {
    /// The matrix whose entry at row `i`, column `j` is `f(i, j)`.
    pub fn from_fn<F: Fn(usize, usize) -> T>(rows: usize, cols: usize, f: F) -> (m: Self)
        requires
            forall|i: usize, j: usize| i < rows && j < cols ==> #[trigger] f.requires((i, j)),
        ensures
            m.has_shape(rows as int, cols as int),
            forall|i: int, j: int|
                0 <= i < rows && 0 <= j < cols ==> f.ensures(
                    (i as usize, j as usize),
                    #[trigger] m@(i, j),
                ),
    {
        let mut data: Vec<Vec<T>> = Vec::with_capacity(rows);
        for i in 0..rows
            invariant
                data@.len() == i,
                forall|a: usize, b: usize| a < rows && b < cols ==> #[trigger] f.requires((a, b)),
                forall|a: int|
                    0 <= a < i ==> (#[trigger] data@[a])@.len() == cols && forall|b: int|
                        0 <= b < cols ==> f.ensures(
                            (a as usize, b as usize),
                            #[trigger] data@[a]@[b],
                        ),
        {
            let mut row: Vec<T> = Vec::with_capacity(cols);
            for j in 0..cols
                invariant
                    i < rows,
                    row@.len() == j,
                    forall|a: usize, b: usize|
                        a < rows && b < cols ==> #[trigger] f.requires((a, b)),
                    forall|b: int|
                        0 <= b < j ==> f.ensures((i as usize, b as usize), #[trigger] row@[b]),
            {
                row.push(f(i, j));
            }
            data.push(row);
        }
        Matrix { rows, cols, data }
    }

    /// The matrix with the given rows, of `cols` entries each.
    pub fn from_rows(data: Vec<Vec<T>>, cols: usize) -> (m: Self)
        requires
            forall|i: int| 0 <= i < data@.len() ==> (#[trigger] data@[i])@.len() == cols,
        ensures
            m.has_shape(data@.len() as int, cols as int),
            forall|i: int, j: int|
                0 <= i < data@.len() && 0 <= j < cols ==> #[trigger] m@(i, j) == data@[i]@[j],
    {
        Matrix { rows: data.len(), cols, data }
    }

    /// The entry at row `i`, column `j`.
    pub fn at(&self, i: usize, j: usize) -> (r: T)
        requires
            i < self.rows(),
            j < self.cols(),
        ensures
            r == self@(i as int, j as int),
    {
        proof {
            use_type_invariant(self);
        }
        self.data[i][j]
    }

    /// The matrix of zeros.
    pub fn zeros(rows: usize, cols: usize) -> (m: Self)
        ensures
            m.has_shape(rows as int, cols as int),
            m@ == (|i: int, j: int| T::zero()),
    {
        let f = |i: usize, j: usize| -> (r: T)
            ensures
                r == T::zero(),
            { T::nil() };
        let m = Self::from_fn(rows, cols, f);
        assert(m@ =~= (|i: int, j: int| T::zero()));
        m
    }

    /// The identity matrix.
    pub fn identity(n: usize) -> (m: Self)
        ensures
            m.has_shape(n as int, n as int),
            m@ == clip(n as int, n as int, eye::<T>()),
    {
        let f = |i: usize, j: usize| -> (r: T)
            ensures
                r == eye::<T>()(i as int, j as int),
            {
                if i == j {
                    T::unit()
                } else {
                    T::nil()
                }
            };
        let m = Self::from_fn(n, n, f);
        assert(m@ =~= clip(n as int, n as int, eye::<T>()));
        m
    }

    /// The entrywise sum.
    pub fn plus(&self, other: &Self) -> (m: Self)
        requires
            other.has_shape(self.rows() as int, self.cols() as int),
        ensures
            m.has_shape(self.rows() as int, self.cols() as int),
            m@ == mat_add(self@, other@),
    {
        let f = |i: usize, j: usize| -> (r: T)
            requires
                i < self.rows(),
                j < self.cols(),
            ensures
                r == mat_add(self@, other@)(i as int, j as int),
            { self.at(i, j).plus(other.at(i, j)) };
        let m = Self::from_fn(self.rows, self.cols, f);
        proof {
            broadcast use lemma_add_zero;

            assert(m@ =~= mat_add(self@, other@));
        }
        m
    }

    /// The entrywise difference.
    pub fn minus(&self, other: &Self) -> (m: Self)
        requires
            other.has_shape(self.rows() as int, self.cols() as int),
        ensures
            m.has_shape(self.rows() as int, self.cols() as int),
            m@ == mat_sub(self@, other@),
    {
        let f = |i: usize, j: usize| -> (r: T)
            requires
                i < self.rows(),
                j < self.cols(),
            ensures
                r == mat_sub(self@, other@)(i as int, j as int),
            { self.at(i, j).minus(other.at(i, j)) };
        let m = Self::from_fn(self.rows, self.cols, f);
        proof {
            broadcast use lemma_sub_self;

            assert(m@ =~= mat_sub(self@, other@));
        }
        m
    }

    /// The entrywise opposite.
    pub fn negated(&self) -> (m: Self)
        ensures
            m.has_shape(self.rows() as int, self.cols() as int),
            m@ == mat_neg(self@),
    {
        let f = |i: usize, j: usize| -> (r: T)
            requires
                i < self.rows(),
                j < self.cols(),
            ensures
                r == mat_neg(self@)(i as int, j as int),
            { self.at(i, j).negated() };
        let m = Self::from_fn(self.rows, self.cols, f);
        proof {
            lemma_neg_zero::<T>();
            assert(m@ =~= mat_neg(self@));
        }
        m
    }

    /// The entrywise product.
    pub fn times(&self, other: &Self) -> (m: Self)
        requires
            other.has_shape(self.rows() as int, self.cols() as int),
        ensures
            m.has_shape(self.rows() as int, self.cols() as int),
            m@ == hadamard(self@, other@),
    {
        let f = |i: usize, j: usize| -> (r: T)
            requires
                i < self.rows(),
                j < self.cols(),
            ensures
                r == hadamard(self@, other@)(i as int, j as int),
            { self.at(i, j).times(other.at(i, j)) };
        let m = Self::from_fn(self.rows, self.cols, f);
        proof {
            broadcast use lemma_mul_zero;

            assert(m@ =~= hadamard(self@, other@));
        }
        m
    }

    /// Every entry times `c`.
    pub fn scaled(&self, c: T) -> (m: Self)
        ensures
            m.has_shape(self.rows() as int, self.cols() as int),
            m@ == (|i: int, j: int| self@(i, j) * c),
    {
        let f = |i: usize, j: usize| -> (r: T)
            requires
                i < self.rows(),
                j < self.cols(),
            ensures
                r == self@(i as int, j as int) * c,
            { self.at(i, j).times(c) };
        let m = Self::from_fn(self.rows, self.cols, f);
        proof {
            broadcast use lemma_zero_mul;

            assert(m@ =~= (|i: int, j: int| self@(i, j) * c));
        }
        m
    }

    /// Rows and columns exchanged.
    pub fn transpose(&self) -> (m: Self)
        ensures
            m.has_shape(self.cols() as int, self.rows() as int),
            m@ == transposed(self@),
    {
        let f = |i: usize, j: usize| -> (r: T)
            requires
                i < self.cols(),
                j < self.rows(),
            ensures
                r == self@(j as int, i as int),
            { self.at(j, i) };
        let m = Self::from_fn(self.cols, self.rows, f);
        assert(m@ =~= transposed(self@));
        m
    }

    /// The entries at or below the diagonal.
    pub fn lower(&self) -> (m: Self)
        ensures
            m.has_shape(self.rows() as int, self.cols() as int),
            m@ == tril(self@),
    {
        let f = |i: usize, j: usize| -> (r: T)
            requires
                i < self.rows(),
                j < self.cols(),
            ensures
                r == tril(self@)(i as int, j as int),
            {
                if j <= i {
                    self.at(i, j)
                } else {
                    T::nil()
                }
            };
        let m = Self::from_fn(self.rows, self.cols, f);
        assert(m@ =~= tril(self@));
        m
    }

    /// The entries below the diagonal.
    pub fn strict_lower(&self) -> (m: Self)
        ensures
            m.has_shape(self.rows() as int, self.cols() as int),
            m@ == tril_strict(self@),
    {
        let f = |i: usize, j: usize| -> (r: T)
            requires
                i < self.rows(),
                j < self.cols(),
            ensures
                r == tril_strict(self@)(i as int, j as int),
            {
                if j < i {
                    self.at(i, j)
                } else {
                    T::nil()
                }
            };
        let m = Self::from_fn(self.rows, self.cols, f);
        assert(m@ =~= tril_strict(self@));
        m
    }

    /// The inner product of row `i` with column `j` of `other`.
    fn row_by_column(&self, i: usize, other: &Self, j: usize) -> (r: T)
        requires
            self.cols() == other.rows(),
            i < self.rows(),
            j < other.cols(),
        ensures
            r == mat_mul(self.cols() as int, self@, other@)(i as int, j as int),
    {
        let ghost f = |k: int| self@(i as int, k) * other@(k, j as int);
        let mut r = T::nil();
        for k in 0..self.cols
            invariant
                self.cols() == other.rows(),
                self.cols == self.cols(),
                i < self.rows(),
                j < other.cols(),
                f == (|k: int| self@(i as int, k) * other@(k, j as int)),
                r == sum(k as int, f),
        {
            r = r.plus(self.at(i, k).times(other.at(k, j)));
            assert(sum(k + 1, f) == sum(k as int, f) + f(k as int));
        }
        r
    }

    /// The inner product of row `i` with row `j` of `other`.
    pub fn row_by_row(&self, i: usize, other: &Self, j: usize) -> (r: T)
        requires
            self.cols() == other.cols(),
            i < self.rows(),
            j < other.rows(),
        ensures
            r == sum(self.cols() as int, |d: int| self@(i as int, d) * other@(j as int, d)),
    {
        let ghost f = |d: int| self@(i as int, d) * other@(j as int, d);
        let mut r = T::nil();
        for d in 0..self.cols
            invariant
                self.cols() == other.cols(),
                self.cols == self.cols(),
                i < self.rows(),
                j < other.rows(),
                f == (|d: int| self@(i as int, d) * other@(j as int, d)),
                r == sum(d as int, f),
        {
            r = r.plus(self.at(i, d).times(other.at(j, d)));
            assert(sum(d + 1, f) == sum(d as int, f) + f(d as int));
        }
        r
    }

    /// The matrix product.
    pub fn matmul(&self, other: &Self) -> (m: Self)
        requires
            self.cols() == other.rows(),
        ensures
            m.has_shape(self.rows() as int, other.cols() as int),
            m@ == mat_mul(self.cols() as int, self@, other@),
    {
        let ghost product = mat_mul(self.cols() as int, self@, other@);
        let f = |i: usize, j: usize| -> (r: T)
            requires
                i < self.rows(),
                j < other.cols(),
            ensures
                r == product(i as int, j as int),
            { self.row_by_column(i, other, j) };
        let m = Self::from_fn(self.rows, other.cols, f);
        proof {
            assert forall|i: int, j: int| m@(i, j) == #[trigger] product(i, j) by {
                if !(0 <= i < m.rows() && 0 <= j < m.cols()) {
                    broadcast use {lemma_mul_zero, lemma_zero_mul};

                    lemma_sum_zero(self.cols() as int, |k: int| self@(i, k) * other@(k, j));
                }
            }
            assert(m@ =~= product);
        }
        m
    }

    /// The exponential of every entry.
    pub fn exponential(&self) -> (m: Self)
        ensures
            m.has_shape(self.rows() as int, self.cols() as int),
            m@ == clip(
                self.rows() as int,
                self.cols() as int,
                |i: int, j: int| self@(i, j).expo(),
            ),
    {
        let ghost e = |i: int, j: int| self@(i, j).expo();
        let f = |i: usize, j: usize| -> (r: T)
            requires
                i < self.rows(),
                j < self.cols(),
            ensures
                r == self@(i as int, j as int).expo(),
            { self.at(i, j).exponential() };
        let m = Self::from_fn(self.rows, self.cols, f);
        assert(m@ =~= clip(self.rows() as int, self.cols() as int, e));
        m
    }

    /// `len` rows from row `start` on, zero past the last row.
    pub fn window(&self, start: usize, len: usize) -> (m: Self)
        requires
            start + len <= usize::MAX,
        ensures
            m.has_shape(len as int, self.cols() as int),
            m@ == row_window(self@, start as int, len as int),
    {
        let f = |i: usize, j: usize| -> (r: T)
            requires
                i < len,
                j < self.cols(),
            ensures
                r == self@(start + i, j as int),
            {
                if start + i < self.rows() {
                    self.at(start + i, j)
                } else {
                    T::nil()
                }
            };
        let m = Self::from_fn(len, self.cols, f);
        assert(m@ =~= row_window(self@, start as int, len as int));
        m
    }

    /// Each row the sum of the rows up to it.
    pub fn cumulated(&self) -> (m: Self)
        ensures
            m.has_shape(self.rows() as int, self.cols() as int),
            m@ == clip(self.rows() as int, self.cols() as int, row_sums(self@)),
    {
        let ghost sums = row_sums(self@);
        let mut data: Vec<Vec<T>> = Vec::with_capacity(self.rows);
        for i in 0..self.rows
            invariant
                self.rows == self.rows(),
                self.cols == self.cols(),
                sums == row_sums(self@),
                data@.len() == i,
                forall|a: int| 0 <= a < i ==> (#[trigger] data@[a])@.len() == self.cols,
                forall|a: int, b: int|
                    0 <= a < i && 0 <= b < self.cols ==> #[trigger] data@[a]@[b] == sums(a, b),
        {
            let mut row: Vec<T> = Vec::with_capacity(self.cols);
            for j in 0..self.cols
                invariant
                    self.rows == self.rows(),
                    self.cols == self.cols(),
                    sums == row_sums(self@),
                    i < self.rows,
                    data@.len() == i,
                    forall|a: int| 0 <= a < i ==> (#[trigger] data@[a])@.len() == self.cols,
                    forall|a: int, b: int|
                        0 <= a < i && 0 <= b < self.cols ==> #[trigger] data@[a]@[b] == sums(a, b),
                    row@.len() == j,
                    forall|b: int| 0 <= b < j ==> #[trigger] row@[b] == sums(i as int, b),
            {
                let before = if i == 0 {
                    T::nil()
                } else {
                    data[i - 1][j]
                };
                proof {
                    let f = |t: int| self@(t, j as int);
                    assert(sum(i + 1, f) == sum(i as int, f) + f(i as int));
                    if i > 0 {
                        assert(data@[i - 1]@[j as int] == sums(i - 1, j as int));
                    }
                }
                row.push(before.plus(self.at(i, j)));
            }
            data.push(row);
        }
        let m = Matrix { rows: self.rows, cols: self.cols, data };
        assert(m@ =~= clip(self.rows() as int, self.cols() as int, sums));
        m
    }

    /// The rows in reverse order.
    pub fn reversed(&self) -> (m: Self)
        ensures
            m.has_shape(self.rows() as int, self.cols() as int),
            m@ == reversed_rows(self.rows() as int, self@),
    {
        let f = |i: usize, j: usize| -> (r: T)
            requires
                i < self.rows(),
                j < self.cols(),
            ensures
                r == self@(self.rows() - 1 - i, j as int),
            { self.at(self.rows() - 1 - i, j) };
        let m = Self::from_fn(self.rows, self.cols, f);
        assert(m@ =~= reversed_rows(self.rows() as int, self@));
        m
    }

    /// The sum of row `i`.
    pub fn row_total(&self, i: usize) -> (r: T)
        requires
            i < self.rows(),
        ensures
            r == sum(self.cols() as int, |j: int| self@(i as int, j)),
    {
        let ghost terms = |j: int| self@(i as int, j);
        let mut r = T::nil();
        for j in 0..self.cols
            invariant
                i < self.rows(),
                self.cols == self.cols(),
                terms == (|j: int| self@(i as int, j)),
                r == sum(j as int, terms),
        {
            r = r.plus(self.at(i, j));
            assert(sum(j + 1, terms) == sum(j as int, terms) + terms(j as int));
        }
        r
    }

    /// The sum of column `j`.
    pub fn column_total(&self, j: usize) -> (r: T)
        requires
            j < self.cols(),
        ensures
            r == sum(self.rows() as int, |i: int| self@(i, j as int)),
    {
        let ghost terms = |i: int| self@(i, j as int);
        let mut r = T::nil();
        for i in 0..self.rows
            invariant
                j < self.cols(),
                self.rows == self.rows(),
                terms == (|i: int| self@(i, j as int)),
                r == sum(i as int, terms),
        {
            r = r.plus(self.at(i, j));
            assert(sum(i + 1, terms) == sum(i as int, terms) + terms(i as int));
        }
        r
    }

    /// A copy of the matrix.
    pub fn copy(&self) -> (m: Self)
        ensures
            m.has_shape(self.rows() as int, self.cols() as int),
            m@ == self@,
    {
        let f = |i: usize, j: usize| -> (r: T)
            requires
                i < self.rows(),
                j < self.cols(),
            ensures
                r == self@(i as int, j as int),
            { self.at(i, j) };
        let m = Self::from_fn(self.rows, self.cols, f);
        assert(m@ =~= self@);
        m
    }
}

} // verus!
