//! The scores inside a chunk when the forget gate differs between key channels.
//!
//! With one gate per head the decay between two steps factors out of the
//! contraction over channels. With one gate per channel it does not:
//!
//! ```text
//!   M[i, j] = sum over d of rows[i, d] k[j, d] exp(G[i, d] - G[j, d])
//! ```
//!
//! Splitting the exponential in two restores the matrix product, but a split at
//! the start of the chunk would let one of the factors grow without bound. So
//! the chunk is cut into blocks of at most [`DECAY_BLOCK_LEN`] rows, and the
//! exponential is split at the middle row of the row's own block. Columns in
//! later blocks get a factor of zero: no causal entry reads them.
use vstd::arithmetic::div_mod::{
    lemma_basic_div, lemma_div_is_ordered, lemma_fundamental_div_mod, lemma_multiply_divide_lt,
};
use vstd::prelude::*;

use crate::delta::rule::decayed_scores;
use crate::delta::tri::block_of;
use crate::mat::{agree, hadamard, Mat};
use crate::matrix::Matrix;
use crate::ring::{
    lemma_expo_chain, lemma_expo_self, lemma_mul_associates, lemma_mul_commutes, lemma_mul_zero,
    Ring, Scalar,
};
use crate::sum::{lemma_sum_ext, lemma_sum_zero, sum};

verus! {

/// The most rows that share one reference row.
pub const DECAY_BLOCK_LEN: usize = 16;

/// The largest block length that divides `chunk_len` and is at most
/// [`DECAY_BLOCK_LEN`].
pub fn block_len(chunk_len: usize) -> (m: usize)
    requires
        chunk_len > 0,
    ensures
        1 <= m <= DECAY_BLOCK_LEN,
        chunk_len % m == 0,
        forall|n: usize|
            m < n <= DECAY_BLOCK_LEN && n <= chunk_len ==> #[trigger] (chunk_len % n) != 0,
{
    let mut m: usize = if chunk_len < DECAY_BLOCK_LEN {
        chunk_len
    } else {
        DECAY_BLOCK_LEN
    };
    while chunk_len % m != 0
        invariant
            1 <= m <= DECAY_BLOCK_LEN,
            forall|n: usize|
                m < n <= DECAY_BLOCK_LEN && n <= chunk_len ==> #[trigger] (chunk_len % n) != 0,
        decreases m,
    {
        assert(m != 1);
        m = m - 1;
    }
    m
}

/// The reference row of a block: its middle one.
pub open spec fn reference_row(m: int, block: int) -> int {
    block * m + m / 2
}

/// The reference row is one of the block's own, in its middle: as many rows of the block
/// stand before it as from it on, or one fewer. No factor spans more than half a block,
/// and no block has more than sixteen rows.
pub proof fn law_reference_rows_stand_in_the_middle(m: int, block: int)
    requires
        0 < m,
    ensures
        block * m <= reference_row(m, block) < (block + 1) * m,
        ({
            let before = reference_row(m, block) - block * m;
            let from = (block + 1) * m - reference_row(m, block);
            before <= from <= before + 1
        }),
        DECAY_BLOCK_LEN == 16,
{
    assert((block + 1) * m == block * m + m) by (nonlinear_arith);
}

/// The factor of row `i`: the decay from its block's reference row to it.
pub open spec fn row_factor<R: Ring>(m: int, gc: Mat<R>) -> Mat<R> {
    |i: int, d: int| (gc(i, d) - gc(reference_row(m, block_of(m, i)), d)).expo()
}

/// The factor of column `j` for the rows of block `p`: the decay from it to the
/// block's reference row, or zero where the column lies in a later block.
pub open spec fn column_factor<R: Ring>(m: int, gc: Mat<R>, p: int) -> Mat<R> {
    |j: int, d: int|
        if block_of(m, j) <= p {
            (gc(reference_row(m, p), d) - gc(j, d)).expo()
        } else {
            R::zero()
        }
}

/// Rows lie in the blocks there are, and so do the reference rows.
pub proof fn lemma_blocks(chunk_len: int, m: int)
    requires
        0 < m,
        0 < chunk_len,
        chunk_len % m == 0,
    ensures
        chunk_len / m > 0,
        (chunk_len / m) * m == chunk_len,
        forall|i: int| 0 <= i < chunk_len ==> 0 <= #[trigger] block_of(m, i) < chunk_len / m,
        forall|i: int, j: int|
            0 <= j <= i ==> #[trigger] block_of(m, j) <= #[trigger] block_of(m, i),
        forall|p: int|
            0 <= p < chunk_len / m ==> 0 <= #[trigger] reference_row(m, p) < chunk_len,
{
    let n = chunk_len / m;
    lemma_fundamental_div_mod(chunk_len, m);
    assert(n * m == chunk_len) by (nonlinear_arith)
        requires
            chunk_len == m * n + 0,
    ;
    assert(n > 0) by (nonlinear_arith)
        requires
            n * m == chunk_len,
            chunk_len > 0,
            m > 0,
    ;
    assert forall|i: int| 0 <= i < chunk_len implies 0 <= #[trigger] block_of(m, i) < n by {
        lemma_multiply_divide_lt(i, m, n);
        lemma_div_is_ordered(0, i, m);
        lemma_basic_div(0, m);
    }
    assert forall|i: int, j: int| 0 <= j <= i implies #[trigger] block_of(m, j)
        <= #[trigger] block_of(m, i) by {
        lemma_div_is_ordered(j, i, m);
    }
    assert forall|p: int| 0 <= p < n implies 0 <= #[trigger] reference_row(m, p) < chunk_len by {
        assert(0 <= p * m && p * m + m <= n * m) by (nonlinear_arith)
            requires
                0 <= p,
                p + 1 <= n,
                m > 0,
        ;
    }
}

/// The two factors that the decay between two steps of a chunk is split into.
pub struct BlockDecay<T> {
    /// The factor of each row.
    pub row: Matrix<T>,
    /// For each block of rows, the factor of each column.
    pub col_exp: Vec<Matrix<T>>,
    /// For each block of rows, the keys times the factors of the columns.
    pub col: Vec<Matrix<T>>,
    /// Rows per block.
    pub block_len: usize,
}

/// The decayed scores, zero where the column lies in a later block than the row.
pub open spec fn block_causal_scores<R: Ring>(
    m: int,
    nk: int,
    rows: Mat<R>,
    k: Mat<R>,
    gc: Mat<R>,
) -> Mat<R> {
    |i: int, j: int|
        if block_of(m, j) <= block_of(m, i) {
            decayed_scores(nk, rows, k, gc)(i, j)
        } else {
            R::zero()
        }
}

impl<T: Ring> BlockDecay<T> {
    /// Whether the factors are those of a chunk with the given shape.
    pub open spec fn shaped(&self, chunk_len: int, nk: int) -> bool {
        let m = self.block_len as int;
        &&& 0 < m
        &&& 0 < chunk_len
        &&& chunk_len % m == 0
        &&& self.row.has_shape(chunk_len, nk)
        &&& self.col_exp@.len() == chunk_len / m
        &&& self.col@.len() == chunk_len / m
        &&& forall|p: int|
            0 <= p < chunk_len / m ==> (#[trigger] self.col_exp@[p]).has_shape(chunk_len, nk)
        &&& forall|p: int|
            0 <= p < chunk_len / m ==> (#[trigger] self.col@[p]).has_shape(chunk_len, nk)
    }

    /// Whether these are the factors for the given keys and cumulative log decay.
    pub open spec fn splits(&self, chunk_len: int, nk: int, k: Mat<T>, gc: Mat<T>) -> bool {
        let m = self.block_len as int;
        &&& self.shaped(chunk_len, nk)
        &&& forall|i: int, d: int|
            0 <= i < chunk_len && 0 <= d < nk ==> #[trigger] self.row@(i, d) == row_factor(m, gc)(
                i,
                d,
            )
        &&& forall|p: int, j: int, d: int|
            0 <= p < chunk_len / m && 0 <= j < chunk_len && 0 <= d < nk
                ==> #[trigger] self.col_exp@[p]@(j, d) == column_factor(m, gc, p)(j, d)
        &&& forall|p: int, j: int, d: int|
            0 <= p < chunk_len / m && 0 <= j < chunk_len && 0 <= d < nk
                ==> #[trigger] self.col@[p]@(j, d) == k(j, d) * column_factor(m, gc, p)(j, d)
    }
}

impl<T: Scalar> BlockDecay<T> {
    /// Builds the factors from the keys and the cumulative log decay of a chunk, in
    /// the largest blocks that [`block_len`] allows.
    pub fn new(k: &Matrix<T>, gc: &Matrix<T>) -> (r: Self)
        requires
            k.rows() > 0,
            gc.has_shape(k.rows() as int, k.cols() as int),
        ensures
            r.splits(k.rows() as int, k.cols() as int, k@, gc@),
            1 <= r.block_len <= DECAY_BLOCK_LEN,
            k.rows() % r.block_len == 0,
            forall|n: usize|
                r.block_len < n <= DECAY_BLOCK_LEN && n <= k.rows() ==> #[trigger] (k.rows() % n)
                    != 0,
    {
        let chunk_len: usize = k.rows();
        let nk: usize = k.cols();
        let m: usize = block_len(chunk_len);
        let nblocks: usize = chunk_len / m;
        proof {
            lemma_blocks(chunk_len as int, m as int);
        }
        let f = |i: usize, d: usize| -> (r: T)
            requires
                i < chunk_len,
                d < nk,
            ensures
                r == row_factor(m as int, gc@)(i as int, d as int),
            {
                proof {
                    lemma_blocks(chunk_len as int, m as int);
                    assert(0 <= block_of(m as int, i as int) < chunk_len as int / m as int);
                    assert(reference_row(m as int, block_of(m as int, i as int)) < chunk_len);
                    assert(0 <= (i / m) * m <= chunk_len) by (nonlinear_arith)
                        requires
                            (i as int / m as int) < (chunk_len as int / m as int),
                            (chunk_len as int / m as int) * m == chunk_len,
                            m > 0,
                    ;
                }
                let reference: usize = (i / m) * m + m / 2;
                gc.at(i, d).minus(gc.at(reference, d)).exponential()
            };
        let row = Matrix::from_fn(chunk_len, nk, f);
        let mut col_exp: Vec<Matrix<T>> = Vec::with_capacity(nblocks);
        let mut col: Vec<Matrix<T>> = Vec::with_capacity(nblocks);
        for p in 0..nblocks
            invariant
                k.has_shape(chunk_len as int, nk as int),
                gc.has_shape(chunk_len as int, nk as int),
                0 < m,
                0 < chunk_len,
                chunk_len % m == 0,
                nblocks == chunk_len / m,
                col_exp@.len() == p,
                col@.len() == p,
                forall|c: int|
                    0 <= c < p ==> (#[trigger] col_exp@[c]).has_shape(chunk_len as int, nk as int),
                forall|c: int|
                    0 <= c < p ==> (#[trigger] col@[c]).has_shape(chunk_len as int, nk as int),
                forall|c: int, j: int, d: int|
                    0 <= c < p && 0 <= j < chunk_len && 0 <= d < nk
                        ==> #[trigger] col_exp@[c]@(j, d) == column_factor(m as int, gc@, c)(j, d),
                forall|c: int, j: int, d: int|
                    0 <= c < p && 0 <= j < chunk_len && 0 <= d < nk ==> #[trigger] col@[c]@(j, d)
                        == k@(j, d) * column_factor(m as int, gc@, c)(j, d),
        {
            proof {
                lemma_blocks(chunk_len as int, m as int);
                assert(reference_row(m as int, p as int) < chunk_len);
                assert(0 <= p * m) by (nonlinear_arith)
                    requires
                        p >= 0,
                        m >= 0,
                ;
            }
            let reference: usize = p * m + m / 2;
            let g = |j: usize, d: usize| -> (r: T)
                requires
                    j < chunk_len,
                    d < nk,
                ensures
                    r == column_factor(m as int, gc@, p as int)(j as int, d as int),
                {
                    if j / m <= p {
                        gc.at(reference, d).minus(gc.at(j, d)).exponential()
                    } else {
                        T::nil()
                    }
                };
            let e = Matrix::from_fn(chunk_len, nk, g);
            let c = k.times(&e);
            col_exp.push(e);
            col.push(c);
        }
        BlockDecay { row, col_exp, col, block_len: m }
    }

    /// Rows times their factors.
    pub fn rows_scaled(&self, rows: &Matrix<T>) -> (r: Matrix<T>)
        requires
            rows.has_shape(self.row.rows() as int, self.row.cols() as int),
        ensures
            r.has_shape(self.row.rows() as int, self.row.cols() as int),
            r@ == hadamard(rows@, self.row@),
    {
        rows.times(&self.row)
    }

    /// The scores of already-scaled rows: each against the keys as its own block sees them.
    pub fn scores_from(&self, rows: &Matrix<T>) -> (r: Matrix<T>)
        requires
            self.shaped(rows.rows() as int, rows.cols() as int),
        ensures
            r.has_shape(rows.rows() as int, rows.rows() as int),
            forall|i: int, j: int|
                0 <= i < rows.rows() && 0 <= j < rows.rows() ==> #[trigger] r@(i, j) == sum(
                    rows.cols() as int,
                    |d: int|
                        rows@(i, d) * self.col@[block_of(self.block_len as int, i)]@(j, d),
                ),
    {
        let chunk_len: usize = rows.rows();
        let m: usize = self.block_len;
        let f = |i: usize, j: usize| -> (r: T)
            requires
                i < chunk_len,
                j < chunk_len,
            ensures
                r == sum(
                    rows.cols() as int,
                    |d: int|
                        rows@(i as int, d) * self.col@[block_of(m as int, i as int)]@(j as int, d),
                ),
            {
                proof {
                    lemma_blocks(chunk_len as int, m as int);
                    assert(0 <= block_of(m as int, i as int) < chunk_len as int / m as int);
                }
                rows.row_by_row(i, &self.col[i / m], j)
            };
        Matrix::from_fn(chunk_len, chunk_len, f)
    }

    /// The scores of rows against the keys, with the decay between each two
    /// steps; zero where the column lies in a later block than the row.
    pub fn scores(&self, rows: &Matrix<T>) -> (r: Matrix<T>)
        requires
            self.shaped(rows.rows() as int, rows.cols() as int),
        ensures
            r.has_shape(rows.rows() as int, rows.rows() as int),
            forall|k: Mat<T>, gc: Mat<T>| #[trigger]
                self.splits(rows.rows() as int, rows.cols() as int, k, gc) ==> agree(
                    rows.rows() as int,
                    rows.rows() as int,
                    r@,
                    block_causal_scores(self.block_len as int, rows.cols() as int, rows@, k, gc),
                ),
    {
        let scaled = self.rows_scaled(rows);
        let r = self.scores_from(&scaled);
        proof {
            let (l, nk, m) = (rows.rows() as int, rows.cols() as int, self.block_len as int);
            assert forall|k: Mat<T>, gc: Mat<T>| #[trigger]
                self.splits(l, nk, k, gc) implies agree(
                l,
                l,
                r@,
                block_causal_scores(m, nk, rows@, k, gc),
            ) by {
                assert forall|i: int, j: int| 0 <= i < l && 0 <= j < l implies #[trigger] r@(i, j)
                    == block_causal_scores(m, nk, rows@, k, gc)(i, j) by {
                    lemma_blocks(l, m);
                    let p = block_of(m, i);
                    let f = |d: int| scaled@(i, d) * self.col@[p]@(j, d);
                    if block_of(m, j) <= p {
                        let h = |d: int|
                            (rows@(i, d) * k(j, d)) * (gc(i, d) - gc(j, d)).expo();
                        assert forall|d: int| 0 <= d < nk implies #[trigger] f(d) == h(d) by {
                            let mid = gc(reference_row(m, p), d);
                            lemma_expo_chain(gc(i, d), mid, gc(j, d));
                            assert(self.row@(i, d) == row_factor(m, gc)(i, d));
                            assert(self.col@[p]@(j, d) == k(j, d) * column_factor(m, gc, p)(j, d));
                            let (a, b, x, y) = (
                                rows@(i, d),
                                k(j, d),
                                (gc(i, d) - mid).expo(),
                                (mid - gc(j, d)).expo(),
                            );
                            assert((a * x) * (b * y) == (a * b) * (x * y)) by {
                                broadcast use {lemma_mul_commutes, lemma_mul_associates};

                            }
                        }
                        lemma_sum_ext(nk, f, h);
                    } else {
                        assert forall|d: int| 0 <= d < nk implies #[trigger] f(d) == T::zero() by {
                            broadcast use lemma_mul_zero;

                            assert(self.col@[p]@(j, d) == k(j, d) * column_factor(m, gc, p)(j, d));
                        }
                        lemma_sum_zero(nk, f);
                    }
                }
            }
        }
        r
    }
}

/// The two factors recombine: that of a row and that of a column which does not lie in
/// a later block are the decay from the column's step to the row's. Columns in later
/// blocks have the factor zero, and the reference row of a block the factor one.
pub proof fn law_factors_recombine<R: Ring>(
    decay: BlockDecay<R>,
    chunk_len: int,
    nk: int,
    k: Mat<R>,
    gc: Mat<R>,
    i: int,
    j: int,
    d: int,
)
    requires
        decay.splits(chunk_len, nk, k, gc),
        0 <= i < chunk_len,
        0 <= j < chunk_len,
        0 <= d < nk,
    ensures
        ({
            let m = decay.block_len as int;
            let p = block_of(m, i);
            let (row, col) = (decay.row@(i, d), decay.col_exp@[p]@(j, d));
            &&& block_of(m, j) <= p ==> row * col == (gc(i, d) - gc(j, d)).expo()
            &&& block_of(m, j) > p ==> col == R::zero()
            &&& i == reference_row(m, p) ==> row == R::one()
            &&& decay.col@[p]@(j, d) == k(j, d) * col
        }),
{
    let m = decay.block_len as int;
    let p = block_of(m, i);
    lemma_blocks(chunk_len, m);
    let mid = gc(reference_row(m, p), d);
    assert(decay.row@(i, d) == row_factor(m, gc)(i, d));
    assert(decay.col_exp@[p]@(j, d) == column_factor(m, gc, p)(j, d));
    assert(decay.col@[p]@(j, d) == k(j, d) * column_factor(m, gc, p)(j, d));
    lemma_expo_chain(gc(i, d), mid, gc(j, d));
    lemma_expo_self(mid);
}

} // verus!
