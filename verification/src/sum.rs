//! Finite sums of ring elements.
use vstd::prelude::*;

use crate::ring::{
    lemma_add_associates, lemma_add_commutes, lemma_mul_commutes, lemma_mul_zero,
    lemma_neg_add, lemma_neg_zero, lemma_sub_is_add_neg, lemma_zero_add, Ring,
};


verus! {

/// `f(0) + f(1) + ... + f(n - 1)`
pub open spec fn sum<R: Ring>(n: int, f: spec_fn(int) -> R) -> R
    decreases n,
{
    if n <= 0 {
        R::zero()
    } else {
        sum(n - 1, f) + f(n - 1)
    }
}

/// A sum depends only on its terms.
pub proof fn lemma_sum_ext<R: Ring>(n: int, f: spec_fn(int) -> R, g: spec_fn(int) -> R)
    requires
        forall|i: int| 0 <= i < n ==> #[trigger] f(i) == g(i),
    ensures
        sum(n, f) == sum(n, g),
    decreases n,
{
    if n > 0 {
        lemma_sum_ext(n - 1, f, g);
        assert(f(n - 1) == g(n - 1));
    }
}

/// A sum of zeros is zero.
pub proof fn lemma_sum_zero<R: Ring>(n: int, f: spec_fn(int) -> R)
    requires
        forall|i: int| 0 <= i < n ==> #[trigger] f(i) == R::zero(),
    ensures
        sum(n, f) == R::zero(),
    decreases n,
{
    if n > 0 {
        lemma_sum_zero(n - 1, f);
        assert(f(n - 1) == R::zero());
        R::add_zero(R::zero());
    }
}

/// The sum of sums.
pub proof fn lemma_sum_add<R: Ring>(n: int, f: spec_fn(int) -> R, g: spec_fn(int) -> R)
    ensures
        sum(n, |i: int| f(i) + g(i)) == sum(n, f) + sum(n, g),
    decreases n,
{
    let h = |i: int| f(i) + g(i);
    if n > 0 {
        lemma_sum_add(n - 1, f, g);
        let (a, b, c, d) = (sum(n - 1, f), sum(n - 1, g), f(n - 1), g(n - 1));
        assert((a + b) + (c + d) == (a + c) + (b + d)) by {
            broadcast use {lemma_add_commutes, lemma_add_associates};

        }
        assert(h(n - 1) == c + d);
    } else {
        R::add_zero(R::zero());
    }
}

/// The sum of opposites.
pub proof fn lemma_sum_neg<R: Ring>(n: int, f: spec_fn(int) -> R)
    ensures
        sum(n, |i: int| -f(i)) == -sum(n, f),
    decreases n,
{
    let h = |i: int| -f(i);
    if n > 0 {
        lemma_sum_neg(n - 1, f);
        lemma_neg_add(sum(n - 1, f), f(n - 1));
        assert(h(n - 1) == -f(n - 1));
    } else {
        lemma_neg_zero::<R>();
    }
}

/// The sum of differences.
pub proof fn lemma_sum_sub<R: Ring>(n: int, f: spec_fn(int) -> R, g: spec_fn(int) -> R)
    ensures
        sum(n, |i: int| f(i) - g(i)) == sum(n, f) - sum(n, g),
{
    let m = |i: int| -g(i);
    broadcast use lemma_sub_is_add_neg;

    lemma_sum_neg(n, g);
    lemma_sum_add(n, f, m);
    lemma_sum_ext(n, |i: int| f(i) - g(i), |i: int| f(i) + m(i));
}

/// A common factor.
pub proof fn lemma_sum_scale<R: Ring>(n: int, c: R, f: spec_fn(int) -> R)
    ensures
        sum(n, |i: int| c * f(i)) == c * sum(n, f),
    decreases n,
{
    let h = |i: int| c * f(i);
    if n > 0 {
        lemma_sum_scale(n - 1, c, f);
        R::mul_distributes(c, sum(n - 1, f), f(n - 1));
        assert(h(n - 1) == c * f(n - 1));
    } else {
        lemma_mul_zero(c);
    }
}

/// A common factor on the right.
pub proof fn lemma_sum_scale_right<R: Ring>(n: int, f: spec_fn(int) -> R, c: R)
    ensures
        sum(n, |i: int| f(i) * c) == sum(n, f) * c,
{
    broadcast use lemma_mul_commutes;

    lemma_sum_scale(n, c, f);
    lemma_sum_ext(n, |i: int| f(i) * c, |i: int| c * f(i));
}

/// The order of a double sum.
pub proof fn lemma_sum_swap<R: Ring>(n: int, m: int, f: spec_fn(int, int) -> R)
    ensures
        sum(n, |i: int| sum(m, |j: int| f(i, j))) == sum(m, |j: int| sum(n, |i: int| f(i, j))),
    decreases n,
{
    let rows = |i: int| sum(m, |j: int| f(i, j));
    let cols = |j: int| sum(n, |i: int| f(i, j));
    if n > 0 {
        lemma_sum_swap(n - 1, m, f);
        let fewer = |j: int| sum(n - 1, |i: int| f(i, j));
        let last = |j: int| f(n - 1, j);
        lemma_sum_add(m, fewer, last);
        assert forall|j: int| 0 <= j < m implies #[trigger] cols(j) == fewer(j) + last(j) by {
            let g = |i: int| f(i, j);
            assert(sum(n, g) == sum(n - 1, g) + g(n - 1));
        }
        lemma_sum_ext(m, cols, |j: int| fewer(j) + last(j));
        assert(rows(n - 1) == sum(m, last)) by {
            lemma_sum_ext(m, |j: int| f(n - 1, j), last);
        }
    } else {
        assert forall|j: int| 0 <= j < m implies #[trigger] cols(j) == R::zero() by {
        }
        lemma_sum_zero(m, cols);
    }
}

/// A sum over a range cut in two.
pub proof fn lemma_sum_split<R: Ring>(a: int, b: int, f: spec_fn(int) -> R)
    requires
        0 <= a,
        0 <= b,
    ensures
        sum(a + b, f) == sum(a, f) + sum(b, |i: int| f(a + i)),
    decreases b,
{
    let g = |i: int| f(a + i);
    if b > 0 {
        lemma_sum_split(a, b - 1, f);
        R::add_associates(sum(a, f), sum(b - 1, g), f(a + b - 1));
        assert(g(b - 1) == f(a + b - 1));
    } else {
        R::add_zero(sum(a, f));
    }
}

/// A sum with a single term that may differ from zero.
pub proof fn lemma_sum_single<R: Ring>(n: int, k: int, f: spec_fn(int) -> R)
    requires
        0 <= k < n,
        forall|i: int| 0 <= i < n && i != k ==> #[trigger] f(i) == R::zero(),
    ensures
        sum(n, f) == f(k),
    decreases n,
{
    if k == n - 1 {
        lemma_sum_zero(n - 1, f);
        lemma_zero_add(f(k));
    } else {
        lemma_sum_single(n - 1, k, f);
        assert(f(n - 1) == R::zero());
        R::add_zero(f(k));
    }
}

/// Terms past `m` that are zero do not count.
pub proof fn lemma_sum_truncate<R: Ring>(n: int, m: int, f: spec_fn(int) -> R)
    requires
        0 <= m <= n,
        forall|i: int| m <= i < n ==> #[trigger] f(i) == R::zero(),
    ensures
        sum(n, f) == sum(m, f),
    decreases n,
{
    if m < n {
        lemma_sum_truncate(n - 1, m, f);
        assert(f(n - 1) == R::zero());
        R::add_zero(sum(m, f));
    }
}

/// A sum over blocks of sums within each block is the sum over all.
pub proof fn lemma_sum_blocks<R: Ring>(nb: int, m: int, f: spec_fn(int) -> R)
    requires
        0 <= nb,
        0 < m,
    ensures
        sum(nb * m, f) == sum(nb, |b: int| sum(m, |r: int| f(b * m + r))),
    decreases nb,
{
    let inner = |b: int| sum(m, |r: int| f(b * m + r));
    if nb > 0 {
        lemma_sum_blocks(nb - 1, m, f);
        assert(nb * m == (nb - 1) * m + m && 0 <= (nb - 1) * m) by (nonlinear_arith)
            requires
                nb > 0,
                m > 0,
        ;
        lemma_sum_split((nb - 1) * m, m, f);
        lemma_sum_ext(m, |r: int| f((nb - 1) * m + r), |r: int| f((nb - 1) * m + r));
    } else {
        assert(0 * m == 0);
    }
}

/// A triple sum.
pub open spec fn sum3<R: Ring>(a: int, b: int, c: int, f: spec_fn(int, int, int) -> R) -> R {
    sum(a, |i: int| sum(b, |j: int| sum(c, |k: int| f(i, j, k))))
}

/// A triple sum depends only on its terms.
pub proof fn lemma_sum3_ext<R: Ring>(
    a: int,
    b: int,
    c: int,
    f: spec_fn(int, int, int) -> R,
    g: spec_fn(int, int, int) -> R,
)
    requires
        forall|i: int, j: int, k: int|
            0 <= i < a && 0 <= j < b && 0 <= k < c ==> #[trigger] f(i, j, k) == g(i, j, k),
    ensures
        sum3(a, b, c, f) == sum3(a, b, c, g),
{
    let fi = |i: int| sum(b, |j: int| sum(c, |k: int| f(i, j, k)));
    let gi = |i: int| sum(b, |j: int| sum(c, |k: int| g(i, j, k)));
    assert forall|i: int| 0 <= i < a implies #[trigger] fi(i) == gi(i) by {
        let fj = |j: int| sum(c, |k: int| f(i, j, k));
        let gj = |j: int| sum(c, |k: int| g(i, j, k));
        assert forall|j: int| 0 <= j < b implies #[trigger] fj(j) == gj(j) by {
            lemma_sum_ext(c, |k: int| f(i, j, k), |k: int| g(i, j, k));
        }
        lemma_sum_ext(b, fj, gj);
    }
    lemma_sum_ext(a, fi, gi);
}

/// The triple sum of sums.
pub proof fn lemma_sum3_add<R: Ring>(
    a: int,
    b: int,
    c: int,
    f: spec_fn(int, int, int) -> R,
    g: spec_fn(int, int, int) -> R,
)
    ensures
        sum3(a, b, c, |i: int, j: int, k: int| f(i, j, k) + g(i, j, k)) == sum3(a, b, c, f) + sum3(
            a,
            b,
            c,
            g,
        ),
{
    let h = |i: int, j: int, k: int| f(i, j, k) + g(i, j, k);
    let fi = |i: int| sum(b, |j: int| sum(c, |k: int| f(i, j, k)));
    let gi = |i: int| sum(b, |j: int| sum(c, |k: int| g(i, j, k)));
    let hi = |i: int| sum(b, |j: int| sum(c, |k: int| h(i, j, k)));
    assert forall|i: int| 0 <= i < a implies #[trigger] hi(i) == fi(i) + gi(i) by {
        let fj = |j: int| sum(c, |k: int| f(i, j, k));
        let gj = |j: int| sum(c, |k: int| g(i, j, k));
        let hj = |j: int| sum(c, |k: int| h(i, j, k));
        assert forall|j: int| 0 <= j < b implies #[trigger] hj(j) == fj(j) + gj(j) by {
            let fk = |k: int| f(i, j, k);
            let gk = |k: int| g(i, j, k);
            lemma_sum_add(c, fk, gk);
            lemma_sum_ext(c, |k: int| h(i, j, k), |k: int| fk(k) + gk(k));
        }
        lemma_sum_ext(b, hj, |j: int| fj(j) + gj(j));
        lemma_sum_add(b, fj, gj);
    }
    lemma_sum_ext(a, hi, |i: int| fi(i) + gi(i));
    lemma_sum_add(a, fi, gi);
}

/// The triple sum of opposites.
pub proof fn lemma_sum3_neg<R: Ring>(a: int, b: int, c: int, f: spec_fn(int, int, int) -> R)
    ensures
        sum3(a, b, c, |i: int, j: int, k: int| -f(i, j, k)) == -sum3(a, b, c, f),
{
    let h = |i: int, j: int, k: int| -f(i, j, k);
    let fi = |i: int| sum(b, |j: int| sum(c, |k: int| f(i, j, k)));
    let hi = |i: int| sum(b, |j: int| sum(c, |k: int| h(i, j, k)));
    assert forall|i: int| 0 <= i < a implies #[trigger] hi(i) == -fi(i) by {
        let fj = |j: int| sum(c, |k: int| f(i, j, k));
        let hj = |j: int| sum(c, |k: int| h(i, j, k));
        assert forall|j: int| 0 <= j < b implies #[trigger] hj(j) == -fj(j) by {
            let fk = |k: int| f(i, j, k);
            lemma_sum_neg(c, fk);
            lemma_sum_ext(c, |k: int| h(i, j, k), |k: int| -fk(k));
        }
        lemma_sum_ext(b, hj, |j: int| -fj(j));
        lemma_sum_neg(b, fj);
    }
    lemma_sum_ext(a, hi, |i: int| -fi(i));
    lemma_sum_neg(a, fi);
}

/// The order of the two inner sums.
pub proof fn lemma_sum3_swap_inner<R: Ring>(a: int, b: int, c: int, f: spec_fn(int, int, int) -> R)
    ensures
        sum3(a, b, c, f) == sum3(a, c, b, |i: int, k: int, j: int| f(i, j, k)),
{
    let g = |i: int, k: int, j: int| f(i, j, k);
    let fi = |i: int| sum(b, |j: int| sum(c, |k: int| f(i, j, k)));
    let gi = |i: int| sum(c, |k: int| sum(b, |j: int| g(i, k, j)));
    assert forall|i: int| 0 <= i < a implies #[trigger] fi(i) == gi(i) by {
        let h = |j: int, k: int| f(i, j, k);
        lemma_sum_swap(b, c, h);
        let x = |j: int| sum(c, |k: int| h(j, k));
        let x2 = |j: int| sum(c, |k: int| f(i, j, k));
        assert forall|j: int| 0 <= j < b implies #[trigger] x(j) == x2(j) by {
            lemma_sum_ext(c, |k: int| h(j, k), |k: int| f(i, j, k));
        }
        lemma_sum_ext(b, x, x2);
        let y = |k: int| sum(b, |j: int| h(j, k));
        let y2 = |k: int| sum(b, |j: int| g(i, k, j));
        assert forall|k: int| 0 <= k < c implies #[trigger] y(k) == y2(k) by {
            lemma_sum_ext(b, |j: int| h(j, k), |j: int| g(i, k, j));
        }
        lemma_sum_ext(c, y, y2);
    }
    lemma_sum_ext(a, fi, gi);
}

/// The order of the two outer sums.
pub proof fn lemma_sum3_swap_outer<R: Ring>(a: int, b: int, c: int, f: spec_fn(int, int, int) -> R)
    ensures
        sum3(a, b, c, f) == sum3(b, a, c, |j: int, i: int, k: int| f(i, j, k)),
{
    let g = |j: int, i: int, k: int| f(i, j, k);
    let h = |i: int, j: int| sum(c, |k: int| f(i, j, k));
    lemma_sum_swap(a, b, h);
    let x = |i: int| sum(b, |j: int| h(i, j));
    let x2 = |i: int| sum(b, |j: int| sum(c, |k: int| f(i, j, k)));
    assert forall|i: int| 0 <= i < a implies #[trigger] x(i) == x2(i) by {
        lemma_sum_ext(b, |j: int| h(i, j), |j: int| sum(c, |k: int| f(i, j, k)));
    }
    lemma_sum_ext(a, x, x2);
    let y = |j: int| sum(a, |i: int| h(i, j));
    let y2 = |j: int| sum(a, |i: int| sum(c, |k: int| g(j, i, k)));
    assert forall|j: int| 0 <= j < b implies #[trigger] y(j) == y2(j) by {
        let z = |i: int| h(i, j);
        let z2 = |i: int| sum(c, |k: int| g(j, i, k));
        assert forall|i: int| 0 <= i < a implies #[trigger] z(i) == z2(i) by {
            lemma_sum_ext(c, |k: int| f(i, j, k), |k: int| g(j, i, k));
        }
        lemma_sum_ext(a, z, z2);
    }
    lemma_sum_ext(b, y, y2);
}

} // verus!
