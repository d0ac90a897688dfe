//! Matrices as functions of their two indices, and their algebra.
//!
//! A [`Mat`] has no size of its own: a product names the length of the axis it
//! contracts, and a statement about a matrix of a given size speaks of the
//! entries inside it.
use vstd::prelude::*;

use crate::ring::{
    lemma_distributes_right, lemma_mul_commutes, lemma_mul_distributes, lemma_mul_neg,
    lemma_neg_mul, lemma_one_mul, lemma_sub_is_add_neg, lemma_zero_mul, lemma_mul_zero,
    lemma_mul_one, Ring,
};
use crate::sum::{
    lemma_sum_add, lemma_sum_ext, lemma_sum_neg, lemma_sum_scale, lemma_sum_scale_right,
    lemma_sum_single, lemma_sum_swap, sum,
};

verus! {

/// A matrix: its entry at each row and column.
pub type Mat<R> = spec_fn(int, int) -> R;

/// The sum of two matrices.
pub open spec fn mat_add<R: Ring>(a: Mat<R>, b: Mat<R>) -> Mat<R> {
    |i: int, j: int| a(i, j) + b(i, j)
}

/// The difference of two matrices.
pub open spec fn mat_sub<R: Ring>(a: Mat<R>, b: Mat<R>) -> Mat<R> {
    |i: int, j: int| a(i, j) - b(i, j)
}

/// The opposite of a matrix.
pub open spec fn mat_neg<R: Ring>(a: Mat<R>) -> Mat<R> {
    |i: int, j: int| -a(i, j)
}

/// The entrywise product of two matrices.
pub open spec fn hadamard<R: Ring>(a: Mat<R>, b: Mat<R>) -> Mat<R> {
    |i: int, j: int| a(i, j) * b(i, j)
}

/// A matrix with rows and columns exchanged.
pub open spec fn transposed<R>(a: Mat<R>) -> Mat<R> {
    |i: int, j: int| a(j, i)
}

/// The matrix product, contracting an axis of length `n`.
pub open spec fn mat_mul<R: Ring>(n: int, a: Mat<R>, b: Mat<R>) -> Mat<R> {
    |i: int, j: int| sum(n, |k: int| a(i, k) * b(k, j))
}

/// One on the diagonal, zero elsewhere.
pub open spec fn eye<R: Ring>() -> Mat<R> {
    |i: int, j: int|
        if i == j {
            R::one()
        } else {
            R::zero()
        }
}

/// The entries at or below the diagonal.
pub open spec fn tril<R: Ring>(a: Mat<R>) -> Mat<R> {
    |i: int, j: int|
        if j <= i {
            a(i, j)
        } else {
            R::zero()
        }
}

/// The entries below the diagonal.
pub open spec fn tril_strict<R: Ring>(a: Mat<R>) -> Mat<R> {
    |i: int, j: int|
        if j < i {
            a(i, j)
        } else {
            R::zero()
        }
}

/// The entries inside a `rows` by `cols` window.
pub open spec fn clip<R: Ring>(rows: int, cols: int, a: Mat<R>) -> Mat<R> {
    |i: int, j: int|
        if 0 <= i < rows && 0 <= j < cols {
            a(i, j)
        } else {
            R::zero()
        }
}

/// Whether two matrices agree inside a `rows` by `cols` window.
pub open spec fn agree<R>(rows: int, cols: int, a: Mat<R>, b: Mat<R>) -> bool {
    forall|i: int, j: int| 0 <= i < rows && 0 <= j < cols ==> #[trigger] a(i, j) == b(i, j)
}

/// A product depends only on the entries of its right factor that it contracts.
pub proof fn lemma_mul_agree_right<R: Ring>(n: int, m: int, a: Mat<R>, b: Mat<R>, c: Mat<R>)
    requires
        agree(n, m, b, c),
    ensures
        forall|i: int, j: int|
            0 <= j < m ==> #[trigger] mat_mul(n, a, b)(i, j) == mat_mul(n, a, c)(i, j),
{
    assert forall|i: int, j: int| 0 <= j < m implies #[trigger] mat_mul(n, a, b)(i, j) == mat_mul(
        n,
        a,
        c,
    )(i, j) by {
        lemma_sum_ext(n, |k: int| a(i, k) * b(k, j), |k: int| a(i, k) * c(k, j));
    }
}

/// A product depends only on the entries of its left factor that it contracts.
pub proof fn lemma_mul_agree_left<R: Ring>(n: int, m: int, a: Mat<R>, b: Mat<R>, c: Mat<R>)
    requires
        agree(m, n, a, b),
    ensures
        forall|i: int, j: int|
            0 <= i < m ==> #[trigger] mat_mul(n, a, c)(i, j) == mat_mul(n, b, c)(i, j),
{
    assert forall|i: int, j: int| 0 <= i < m implies #[trigger] mat_mul(n, a, c)(i, j) == mat_mul(
        n,
        b,
        c,
    )(i, j) by {
        lemma_sum_ext(n, |k: int| a(i, k) * c(k, j), |k: int| b(i, k) * c(k, j));
    }
}

/// The product is associative.
pub proof fn lemma_mul_assoc<R: Ring>(n: int, m: int, a: Mat<R>, b: Mat<R>, c: Mat<R>)
    ensures
        mat_mul(m, mat_mul(n, a, b), c) == mat_mul(n, a, mat_mul(m, b, c)),
{
    assert forall|i: int, j: int|
        mat_mul(m, mat_mul(n, a, b), c)(i, j) == #[trigger] mat_mul(n, a, mat_mul(m, b, c))(
            i,
            j,
        ) by {
        let f = |l: int, k: int| (a(i, k) * b(k, l)) * c(l, j);
        let left = |l: int| mat_mul(n, a, b)(i, l) * c(l, j);
        let left2 = |l: int| sum(n, |k: int| f(l, k));
        assert forall|l: int| 0 <= l < m implies #[trigger] left(l) == left2(l) by {
            lemma_sum_scale_right(n, |k: int| a(i, k) * b(k, l), c(l, j));
            lemma_sum_ext(
                n,
                |k: int| (|k: int| a(i, k) * b(k, l))(k) * c(l, j),
                |k: int| f(l, k),
            );
        }
        lemma_sum_ext(m, left, left2);
        let right = |k: int| a(i, k) * mat_mul(m, b, c)(k, j);
        let right2 = |k: int| sum(m, |l: int| f(l, k));
        assert forall|k: int| 0 <= k < n implies #[trigger] right(k) == right2(k) by {
            lemma_sum_scale(m, a(i, k), |l: int| b(k, l) * c(l, j));
            assert forall|l: int| 0 <= l < m implies a(i, k) * (#[trigger] b(k, l) * c(l, j))
                == f(l, k) by {
                R::mul_associates(a(i, k), b(k, l), c(l, j));
            }
            lemma_sum_ext(
                m,
                |l: int| a(i, k) * (|l: int| b(k, l) * c(l, j))(l),
                |l: int| f(l, k),
            );
        }
        lemma_sum_ext(n, right, right2);
        lemma_sum_swap(m, n, f);
    }
    assert(mat_mul(m, mat_mul(n, a, b), c) =~= mat_mul(n, a, mat_mul(m, b, c)));
}

/// The product distributes over a sum on its right.
pub proof fn lemma_mul_add_right<R: Ring>(n: int, a: Mat<R>, b: Mat<R>, c: Mat<R>)
    ensures
        mat_mul(n, a, mat_add(b, c)) == mat_add(mat_mul(n, a, b), mat_mul(n, a, c)),
{
    broadcast use lemma_mul_distributes;

    assert forall|i: int, j: int|
        mat_mul(n, a, mat_add(b, c))(i, j) == #[trigger] mat_mul(n, a, b)(i, j) + mat_mul(n, a, c)(
            i,
            j,
        ) by {
        let f = |k: int| a(i, k) * b(k, j);
        let g = |k: int| a(i, k) * c(k, j);
        lemma_sum_add(n, f, g);
        lemma_sum_ext(n, |k: int| a(i, k) * mat_add(b, c)(k, j), |k: int| f(k) + g(k));
    }
    assert(mat_mul(n, a, mat_add(b, c)) =~= mat_add(mat_mul(n, a, b), mat_mul(n, a, c)));
}

/// The product distributes over a sum on its left.
pub proof fn lemma_mul_add_left<R: Ring>(n: int, a: Mat<R>, b: Mat<R>, c: Mat<R>)
    ensures
        mat_mul(n, mat_add(a, b), c) == mat_add(mat_mul(n, a, c), mat_mul(n, b, c)),
{
    broadcast use lemma_distributes_right;

    assert forall|i: int, j: int|
        mat_mul(n, mat_add(a, b), c)(i, j) == #[trigger] mat_mul(n, a, c)(i, j) + mat_mul(n, b, c)(
            i,
            j,
        ) by {
        let f = |k: int| a(i, k) * c(k, j);
        let g = |k: int| b(i, k) * c(k, j);
        lemma_sum_add(n, f, g);
        lemma_sum_ext(n, |k: int| mat_add(a, b)(i, k) * c(k, j), |k: int| f(k) + g(k));
    }
    assert(mat_mul(n, mat_add(a, b), c) =~= mat_add(mat_mul(n, a, c), mat_mul(n, b, c)));
}

/// An opposite factor makes an opposite product.
pub proof fn lemma_mul_neg_right<R: Ring>(n: int, a: Mat<R>, b: Mat<R>)
    ensures
        mat_mul(n, a, mat_neg(b)) == mat_neg(mat_mul(n, a, b)),
{
    broadcast use lemma_mul_neg;

    assert forall|i: int, j: int|
        #[trigger] mat_mul(n, a, mat_neg(b))(i, j) == -mat_mul(n, a, b)(i, j) by {
        let f = |k: int| a(i, k) * b(k, j);
        lemma_sum_neg(n, f);
        lemma_sum_ext(n, |k: int| a(i, k) * mat_neg(b)(k, j), |k: int| -f(k));
    }
    assert(mat_mul(n, a, mat_neg(b)) =~= mat_neg(mat_mul(n, a, b)));
}

/// An opposite factor makes an opposite product.
pub proof fn lemma_mul_neg_left<R: Ring>(n: int, a: Mat<R>, b: Mat<R>)
    ensures
        mat_mul(n, mat_neg(a), b) == mat_neg(mat_mul(n, a, b)),
{
    broadcast use lemma_neg_mul;

    assert forall|i: int, j: int|
        #[trigger] mat_mul(n, mat_neg(a), b)(i, j) == -mat_mul(n, a, b)(i, j) by {
        let f = |k: int| a(i, k) * b(k, j);
        lemma_sum_neg(n, f);
        lemma_sum_ext(n, |k: int| mat_neg(a)(i, k) * b(k, j), |k: int| -f(k));
    }
    assert(mat_mul(n, mat_neg(a), b) =~= mat_neg(mat_mul(n, a, b)));
}

/// A difference is the sum with the opposite.
pub proof fn lemma_sub_as_add<R: Ring>(a: Mat<R>, b: Mat<R>)
    ensures
        mat_sub(a, b) == mat_add(a, mat_neg(b)),
{
    broadcast use lemma_sub_is_add_neg;

    assert(mat_sub(a, b) =~= mat_add(a, mat_neg(b)));
}

/// The product distributes over a difference on its right.
pub proof fn lemma_mul_sub_right<R: Ring>(n: int, a: Mat<R>, b: Mat<R>, c: Mat<R>)
    ensures
        mat_mul(n, a, mat_sub(b, c)) == mat_sub(mat_mul(n, a, b), mat_mul(n, a, c)),
{
    lemma_sub_as_add(b, c);
    lemma_mul_add_right(n, a, b, mat_neg(c));
    lemma_mul_neg_right(n, a, c);
    lemma_sub_as_add(mat_mul(n, a, b), mat_mul(n, a, c));
}

/// The product distributes over a difference on its left.
pub proof fn lemma_mul_sub_left<R: Ring>(n: int, a: Mat<R>, b: Mat<R>, c: Mat<R>)
    ensures
        mat_mul(n, mat_sub(a, b), c) == mat_sub(mat_mul(n, a, c), mat_mul(n, b, c)),
{
    lemma_sub_as_add(a, b);
    lemma_mul_add_left(n, a, mat_neg(b), c);
    lemma_mul_neg_left(n, b, c);
    lemma_sub_as_add(mat_mul(n, a, c), mat_mul(n, b, c));
}

/// Multiplying by the identity on the left picks the rows inside it.
pub proof fn lemma_eye_mul<R: Ring>(n: int, a: Mat<R>, i: int, j: int)
    requires
        0 <= i < n,
    ensures
        mat_mul(n, eye(), a)(i, j) == a(i, j),
{
    broadcast use {lemma_zero_mul, lemma_one_mul};

    lemma_sum_single(n, i, |k: int| eye::<R>()(i, k) * a(k, j));
}

/// Multiplying by the identity on the right picks the columns inside it.
pub proof fn lemma_mul_eye<R: Ring>(n: int, a: Mat<R>, i: int, j: int)
    requires
        0 <= j < n,
    ensures
        mat_mul(n, a, eye())(i, j) == a(i, j),
{
    broadcast use {lemma_mul_zero, lemma_mul_one};

    lemma_sum_single(n, j, |k: int| a(i, k) * eye::<R>()(k, j));
}

/// The transpose of a product.
pub proof fn lemma_transpose_mul<R: Ring>(n: int, a: Mat<R>, b: Mat<R>)
    ensures
        transposed(mat_mul(n, a, b)) == mat_mul(n, transposed(b), transposed(a)),
{
    broadcast use lemma_mul_commutes;

    assert forall|i: int, j: int|
        #[trigger] mat_mul(n, a, b)(j, i) == mat_mul(n, transposed(b), transposed(a))(i, j) by {
        lemma_sum_ext(
            n,
            |k: int| a(j, k) * b(k, i),
            |k: int| transposed(b)(i, k) * transposed(a)(k, j),
        );
    }
    assert(transposed(mat_mul(n, a, b)) =~= mat_mul(n, transposed(b), transposed(a)));
}

} // verus!
