//! The pairing of two matrices: the sum of the products of their entries.
use vstd::prelude::*;

use crate::mat::{
    agree, hadamard, lemma_sub_as_add, mat_add, mat_mul, mat_neg, mat_sub, transposed, tril,
    tril_strict, Mat,
};
use crate::matrix::{reversed_rows, row_sums};
use crate::ring::{
    lemma_add_zero, lemma_zero_add, lemma_mul_associates, lemma_mul_commutes, lemma_mul_distributes,
    lemma_mul_neg, lemma_mul_zero, lemma_neg_mul, lemma_sub_is_add_neg, lemma_zero_mul, Ring,
};
use crate::sum::{
    lemma_sum3_ext, lemma_sum3_swap_inner, lemma_sum3_swap_outer, lemma_sum_single,
    lemma_sum_truncate, lemma_sum_zero, lemma_sum_add, lemma_sum_ext, lemma_sum_neg, lemma_sum_scale, lemma_sum_scale_right,
    lemma_sum_swap, sum,
};

verus! {

/// The pairing of two `n` by `m` matrices.
pub open spec fn pair<R: Ring>(n: int, m: int, a: Mat<R>, b: Mat<R>) -> R {
    sum(n, |i: int| sum(m, |j: int| a(i, j) * b(i, j)))
}

/// A pairing depends only on the products of the entries.
pub proof fn lemma_pair_ext<R: Ring>(n: int, m: int, a: Mat<R>, b: Mat<R>, c: Mat<R>, d: Mat<R>)
    requires
        forall|i: int, j: int|
            0 <= i < n && 0 <= j < m ==> #[trigger] a(i, j) * #[trigger] b(i, j) == c(i, j) * d(
                i,
                j,
            ),
    ensures
        pair(n, m, a, b) == pair(n, m, c, d),
{
    let f = |i: int| sum(m, |j: int| a(i, j) * b(i, j));
    let g = |i: int| sum(m, |j: int| c(i, j) * d(i, j));
    assert forall|i: int| 0 <= i < n implies #[trigger] f(i) == g(i) by {
        lemma_sum_ext(m, |j: int| a(i, j) * b(i, j), |j: int| c(i, j) * d(i, j));
    }
    lemma_sum_ext(n, f, g);
}

/// A pairing depends only on the entries there are.
pub proof fn lemma_pair_agree<R: Ring>(n: int, m: int, a: Mat<R>, b: Mat<R>, c: Mat<R>, d: Mat<R>)
    requires
        agree(n, m, a, c),
        agree(n, m, b, d),
    ensures
        pair(n, m, a, b) == pair(n, m, c, d),
{
    lemma_pair_ext(n, m, a, b, c, d);
}

/// A pairing is symmetric.
pub proof fn lemma_pair_commutes<R: Ring>(n: int, m: int, a: Mat<R>, b: Mat<R>)
    ensures
        pair(n, m, a, b) == pair(n, m, b, a),
{
    broadcast use lemma_mul_commutes;

    lemma_pair_ext(n, m, a, b, b, a);
}

/// A pairing is linear in its second argument.
pub proof fn lemma_pair_add<R: Ring>(n: int, m: int, a: Mat<R>, b: Mat<R>, c: Mat<R>)
    ensures
        pair(n, m, a, mat_add(b, c)) == pair(n, m, a, b) + pair(n, m, a, c),
{
    broadcast use lemma_mul_distributes;

    let fb = |i: int| sum(m, |j: int| a(i, j) * b(i, j));
    let fc = |i: int| sum(m, |j: int| a(i, j) * c(i, j));
    let whole = |i: int| sum(m, |j: int| a(i, j) * mat_add(b, c)(i, j));
    assert forall|i: int| 0 <= i < n implies #[trigger] whole(i) == fb(i) + fc(i) by {
        let gb = |j: int| a(i, j) * b(i, j);
        let gc = |j: int| a(i, j) * c(i, j);
        lemma_sum_add(m, gb, gc);
        lemma_sum_ext(m, |j: int| a(i, j) * mat_add(b, c)(i, j), |j: int| gb(j) + gc(j));
    }
    lemma_sum_ext(n, whole, |i: int| fb(i) + fc(i));
    lemma_sum_add(n, fb, fc);
}

/// A pairing is linear in its first argument.
pub proof fn lemma_pair_add_left<R: Ring>(n: int, m: int, a: Mat<R>, b: Mat<R>, c: Mat<R>)
    ensures
        pair(n, m, mat_add(a, b), c) == pair(n, m, a, c) + pair(n, m, b, c),
{
    lemma_pair_commutes(n, m, mat_add(a, b), c);
    lemma_pair_add(n, m, c, a, b);
    lemma_pair_commutes(n, m, a, c);
    lemma_pair_commutes(n, m, b, c);
}

/// The pairing with an opposite.
pub proof fn lemma_pair_neg<R: Ring>(n: int, m: int, a: Mat<R>, b: Mat<R>)
    ensures
        pair(n, m, a, mat_neg(b)) == -pair(n, m, a, b),
        pair(n, m, mat_neg(a), b) == -pair(n, m, a, b),
{
    broadcast use {lemma_mul_neg, lemma_neg_mul};

    let f = |i: int| sum(m, |j: int| a(i, j) * b(i, j));
    let g = |i: int| sum(m, |j: int| a(i, j) * mat_neg(b)(i, j));
    assert forall|i: int| 0 <= i < n implies #[trigger] g(i) == -f(i) by {
        let h = |j: int| a(i, j) * b(i, j);
        lemma_sum_neg(m, h);
        lemma_sum_ext(m, |j: int| a(i, j) * mat_neg(b)(i, j), |j: int| -h(j));
    }
    lemma_sum_ext(n, g, |i: int| -f(i));
    lemma_sum_neg(n, f);
    lemma_pair_ext(n, m, mat_neg(a), b, a, mat_neg(b));
}

/// The pairing with a difference.
pub proof fn lemma_pair_sub<R: Ring>(n: int, m: int, a: Mat<R>, b: Mat<R>, c: Mat<R>)
    ensures
        pair(n, m, a, mat_sub(b, c)) == pair(n, m, a, b) - pair(n, m, a, c),
{
    broadcast use lemma_sub_is_add_neg;

    lemma_sub_as_add(b, c);
    lemma_pair_add(n, m, a, b, mat_neg(c));
    lemma_pair_neg(n, m, a, c);
}

/// The pairing of a difference.
pub proof fn lemma_pair_sub_left<R: Ring>(n: int, m: int, a: Mat<R>, b: Mat<R>, c: Mat<R>)
    ensures
        pair(n, m, mat_sub(a, b), c) == pair(n, m, a, c) - pair(n, m, b, c),
{
    lemma_pair_commutes(n, m, mat_sub(a, b), c);
    lemma_pair_sub(n, m, c, a, b);
    lemma_pair_commutes(n, m, a, c);
    lemma_pair_commutes(n, m, b, c);
}

/// An entrywise factor moves from one side of a pairing to the other.
pub proof fn lemma_pair_hadamard<R: Ring>(n: int, m: int, a: Mat<R>, b: Mat<R>, c: Mat<R>)
    ensures
        pair(n, m, a, hadamard(b, c)) == pair(n, m, hadamard(a, b), c),
{
    broadcast use lemma_mul_associates;

    lemma_pair_ext(n, m, a, hadamard(b, c), hadamard(a, b), c);
}

/// Both matrices of a pairing can be transposed.
pub proof fn lemma_pair_transposed<R: Ring>(n: int, m: int, a: Mat<R>, b: Mat<R>)
    ensures
        pair(n, m, a, b) == pair(m, n, transposed(a), transposed(b)),
{
    let f = |i: int, j: int| a(i, j) * b(i, j);
    lemma_sum_swap(n, m, f);
    let x = |i: int| sum(m, |j: int| f(i, j));
    let x2 = |i: int| sum(m, |j: int| a(i, j) * b(i, j));
    assert forall|i: int| 0 <= i < n implies #[trigger] x(i) == x2(i) by {
        lemma_sum_ext(m, |j: int| f(i, j), |j: int| a(i, j) * b(i, j));
    }
    lemma_sum_ext(n, x, x2);
    let y = |j: int| sum(n, |i: int| f(i, j));
    let y2 = |j: int| sum(n, |i: int| transposed(a)(j, i) * transposed(b)(j, i));
    assert forall|j: int| 0 <= j < m implies #[trigger] y(j) == y2(j) by {
        lemma_sum_ext(n, |i: int| f(i, j), |i: int| transposed(a)(j, i) * transposed(b)(j, i));
    }
    lemma_sum_ext(m, y, y2);
}

/// The right factor of a product moves to the other side of a pairing.
pub proof fn lemma_pair_mul_left<R: Ring>(
    n: int,
    m: int,
    p: int,
    a: Mat<R>,
    b: Mat<R>,
    c: Mat<R>,
)
    ensures
        pair(n, m, a, mat_mul(p, b, c)) == pair(n, p, mat_mul(m, a, transposed(c)), b),
{
    let left = |i: int| sum(m, |j: int| a(i, j) * mat_mul(p, b, c)(i, j));
    let right = |i: int| sum(p, |k: int| mat_mul(m, a, transposed(c))(i, k) * b(i, k));
    assert forall|i: int| 0 <= i < n implies #[trigger] left(i) == right(i) by {
        let f = |j: int, k: int| (a(i, j) * c(k, j)) * b(i, k);
        let l = |j: int| a(i, j) * mat_mul(p, b, c)(i, j);
        let l2 = |j: int| sum(p, |k: int| f(j, k));
        assert forall|j: int| 0 <= j < m implies #[trigger] l(j) == l2(j) by {
            let inner = |k: int| b(i, k) * c(k, j);
            lemma_sum_scale(p, a(i, j), inner);
            assert forall|k: int| 0 <= k < p implies a(i, j) * #[trigger] inner(k) == f(j, k) by {
                let (x, y, z) = (a(i, j), b(i, k), c(k, j));
                assert(x * (y * z) == (x * z) * y) by {
                    broadcast use {lemma_mul_commutes, lemma_mul_associates};

                }
            }
            lemma_sum_ext(p, |k: int| a(i, j) * inner(k), |k: int| f(j, k));
        }
        lemma_sum_ext(m, l, l2);
        let r = |k: int| mat_mul(m, a, transposed(c))(i, k) * b(i, k);
        let r2 = |k: int| sum(m, |j: int| f(j, k));
        assert forall|k: int| 0 <= k < p implies #[trigger] r(k) == r2(k) by {
            let inner = |j: int| a(i, j) * transposed(c)(j, k);
            lemma_sum_scale_right(m, inner, b(i, k));
            lemma_sum_ext(m, |j: int| inner(j) * b(i, k), |j: int| f(j, k));
        }
        lemma_sum_ext(p, r, r2);
        lemma_sum_swap(m, p, f);
    }
    lemma_sum_ext(n, left, right);
}

/// The left factor of a product moves to the other side of a pairing.
pub proof fn lemma_pair_mul_right<R: Ring>(
    n: int,
    m: int,
    p: int,
    a: Mat<R>,
    b: Mat<R>,
    c: Mat<R>,
)
    ensures
        pair(n, m, a, mat_mul(p, b, c)) == pair(p, m, mat_mul(n, transposed(b), a), c),
{
    lemma_pair_transposed(n, m, a, mat_mul(p, b, c));
    crate::mat::lemma_transpose_mul(p, b, c);
    lemma_pair_mul_left(m, n, p, transposed(a), transposed(c), transposed(b));
    assert(transposed(transposed(b)) =~= b);
    lemma_pair_transposed(m, p, mat_mul(n, transposed(a), b), transposed(c));
    assert(transposed(transposed(c)) =~= c);
    crate::mat::lemma_transpose_mul(n, transposed(a), b);
    assert(transposed(transposed(a)) =~= a);
}

/// A causal mask moves from one side of a pairing to the other.
pub proof fn lemma_pair_tril<R: Ring>(n: int, m: int, a: Mat<R>, b: Mat<R>)
    ensures
        pair(n, m, a, tril(b)) == pair(n, m, tril(a), b),
        pair(n, m, a, tril_strict(b)) == pair(n, m, tril_strict(a), b),
{
    broadcast use {lemma_mul_zero, lemma_zero_mul};

    lemma_pair_ext(n, m, a, tril(b), tril(a), b);
    lemma_pair_ext(n, m, a, tril_strict(b), tril_strict(a), b);
}

/// A sum of terms before some index, as a sum over all of them.
proof fn lemma_prefix<R: Ring>(n: int, k: int, f: spec_fn(int) -> R)
    requires
        0 <= k <= n,
    ensures
        sum(
            n,
            |i: int|
                if i < k {
                    f(i)
                } else {
                    R::zero()
                },
        ) == sum(k, f),
{
    let g = |i: int|
        if i < k {
            f(i)
        } else {
            R::zero()
        };
    lemma_sum_truncate(n, k, g);
    lemma_sum_ext(k, g, f);
}

/// A sum of terms from some index on, taken from the last one down.
proof fn lemma_suffix<R: Ring>(n: int, k: int, f: spec_fn(int) -> R)
    requires
        0 <= k <= n,
    ensures
        sum(
            n,
            |i: int|
                if i >= k {
                    f(i)
                } else {
                    R::zero()
                },
        ) == sum(n - k, |t: int| f(n - 1 - t)),
    decreases n - k,
{
    let g = |i: int|
        if i >= k {
            f(i)
        } else {
            R::zero()
        };
    let back = |t: int| f(n - 1 - t);
    if k == n {
        lemma_sum_zero(n, g);
    } else {
        lemma_suffix(n, k + 1, f);
        let h = |i: int|
            if i >= k + 1 {
                f(i)
            } else {
                R::zero()
            };
        let single = |i: int|
            if i == k {
                f(i)
            } else {
                R::zero()
            };
        lemma_sum_single(n, k, single);
        lemma_sum_add(n, h, single);
        broadcast use {lemma_add_zero, lemma_zero_add};

        lemma_sum_ext(n, g, |i: int| h(i) + single(i));
        assert(sum(n - k, back) == sum(n - k - 1, back) + back(n - k - 1));
    }
}

/// Accumulating rows from the first on is paired with accumulating them from the
/// last on.
pub proof fn lemma_pair_cumulated<R: Ring>(n: int, m: int, a: Mat<R>, x: Mat<R>)
    ensures
        pair(n, m, a, row_sums(x)) == pair(
            n,
            m,
            reversed_rows(n, row_sums(reversed_rows(n, a))),
            x,
        ),
{
    let term = |i: int, j: int, t: int|
        if t <= i {
            a(i, j) * x(t, j)
        } else {
            R::zero()
        };
    let tail = reversed_rows(n, row_sums(reversed_rows(n, a)));
    broadcast use {lemma_mul_zero, lemma_zero_mul};

    let left = |i: int, j: int| sum(n, |t: int| term(i, j, t));
    assert forall|i: int, j: int| 0 <= i < n && 0 <= j < m implies a(i, j) * row_sums(x)(i, j)
        == #[trigger] left(i, j) by {
        let f = |t: int| x(t, j);
        lemma_prefix(n, i + 1, f);
        let g = |t: int|
            if t < i + 1 {
                f(t)
            } else {
                R::zero()
            };
        lemma_sum_scale(n, a(i, j), g);
        lemma_sum_ext(n, |t: int| a(i, j) * g(t), |t: int| term(i, j, t));
    }
    let right = |t: int, j: int| sum(n, |i: int| term(i, j, t));
    assert forall|t: int, j: int| 0 <= t < n && 0 <= j < m implies tail(t, j) * x(t, j)
        == #[trigger] right(t, j) by {
        let f = |i: int| a(i, j);
        lemma_suffix(n, t, f);
        let g = |i: int|
            if i >= t {
                f(i)
            } else {
                R::zero()
            };
        lemma_sum_ext(n - t, |b: int| reversed_rows(n, a)(b, j), |b: int| f(n - 1 - b));
        lemma_sum_scale_right(n, g, x(t, j));
        lemma_sum_ext(n, |i: int| g(i) * x(t, j), |i: int| term(i, j, t));
    }
    let rows = |i: int| sum(m, |j: int| a(i, j) * row_sums(x)(i, j));
    let rows2 = |i: int| sum(m, |j: int| sum(n, |t: int| term(i, j, t)));
    assert forall|i: int| 0 <= i < n implies #[trigger] rows(i) == rows2(i) by {
        let f = |j: int| a(i, j) * row_sums(x)(i, j);
        let g = |j: int| sum(n, |t: int| term(i, j, t));
        assert forall|j: int| 0 <= j < m implies #[trigger] f(j) == g(j) by {
            assert(left(i, j) == g(j));
        }
        lemma_sum_ext(m, f, g);
    }
    lemma_sum_ext(n, rows, rows2);
    let cols = |t: int| sum(m, |j: int| tail(t, j) * x(t, j));
    let cols2 = |t: int| sum(m, |j: int| sum(n, |i: int| term(i, j, t)));
    assert forall|t: int| 0 <= t < n implies #[trigger] cols(t) == cols2(t) by {
        let f = |j: int| tail(t, j) * x(t, j);
        let g = |j: int| sum(n, |i: int| term(i, j, t));
        assert forall|j: int| 0 <= j < m implies #[trigger] f(j) == g(j) by {
            assert(right(t, j) == g(j));
        }
        lemma_sum_ext(m, f, g);
    }
    lemma_sum_ext(n, cols, cols2);
    // Exchange the step that is read with the step that reads.
    lemma_sum3_swap_inner(n, m, n, term);
    let by_steps = |i: int, t: int, j: int| term(i, j, t);
    lemma_sum3_swap_outer(n, n, m, by_steps);
    let swapped = |t: int, i: int, j: int| by_steps(i, t, j);
    lemma_sum3_swap_inner(n, n, m, swapped);
    lemma_sum3_ext(
        n,
        m,
        n,
        |t: int, j: int, i: int| swapped(t, i, j),
        |t: int, j: int, i: int| term(i, j, t),
    );
    let last = |t: int, j: int, i: int| term(i, j, t);
    let cols3 = |t: int| sum(m, |j: int| sum(n, |i: int| last(t, j, i)));
    assert forall|t: int| 0 <= t < n implies #[trigger] cols3(t) == cols2(t) by {
        let f = |j: int| sum(n, |i: int| last(t, j, i));
        let g = |j: int| sum(n, |i: int| term(i, j, t));
        assert forall|j: int| 0 <= j < m implies #[trigger] f(j) == g(j) by {
            lemma_sum_ext(n, |i: int| last(t, j, i), |i: int| term(i, j, t));
        }
        lemma_sum_ext(m, f, g);
    }
    lemma_sum_ext(n, cols3, cols2);
}

} // verus!
