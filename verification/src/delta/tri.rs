//! Inverting the unit lower-triangular matrix of the chunkwise form.
//!
//! The chunkwise delta rule needs `T = (I - N)^-1` for a strictly
//! lower-triangular `N`, one `[chunk_len, chunk_len]` block at a time. `N` is
//! nilpotent, so the Neumann series `I + N + N^2 + ...` ends and is an identity,
//! but in finite precision its terms can be far larger than their sum.
//! [`TriSolve::Blocked`] never forms a power of `N`: with `P` the block-diagonal
//! matrix of the inverses of the diagonal blocks of `I - N`, and `X` the
//! off-diagonal blocks that join neighbouring ones, `P + P X P` is the same for
//! blocks of twice the size.
use vstd::arithmetic::div_mod::{lemma_basic_div, lemma_div_denominator, lemma_div_is_ordered};
use vstd::prelude::*;

use crate::mat::{
    agree, clip, eye, hadamard, lemma_eye_mul, lemma_mul_add_left, lemma_mul_add_right,
    lemma_mul_agree_left, lemma_mul_agree_right, lemma_mul_assoc, lemma_mul_eye,
    lemma_mul_sub_left, lemma_mul_sub_right, mat_add, mat_mul, mat_sub, tril_strict, Mat,
};
use crate::matrix::Matrix;
use crate::ring::{
    group_add, lemma_add_zero, lemma_distributes_right, lemma_mul_one, lemma_mul_zero,
    lemma_one_mul, lemma_sub_self, lemma_sub_zero, lemma_zero_add, lemma_zero_mul, Ring, Scalar,
};
use crate::sum::{lemma_sum_ext, lemma_sum_scale, lemma_sum_truncate, lemma_sum_zero, sum};

verus! {

/// How to invert `I - N` for a strictly lower-triangular `N`.
#[derive(Debug, Clone, Copy, PartialEq, Eq, Structural)]
pub enum TriSolve {
    /// Blocked forward substitution: two products per doubling of the block.
    Blocked,
    /// Term-by-term accumulation of the Neumann series.
    Neumann,
}

impl Default for TriSolve {
    fn default() -> (r: Self)
        ensures
            r == TriSolve::Blocked,
    {
        TriSolve::Blocked
    }
}

/// Whether `t` is the two-sided inverse of the `n` by `n` matrix `a`.
pub open spec fn is_inverse<R: Ring>(n: int, t: Mat<R>, a: Mat<R>) -> bool {
    &&& agree(n, n, mat_mul(n, t, a), eye())
    &&& agree(n, n, mat_mul(n, a, t), eye())
}

/// `I - N`, with `N` the entries of `a` below the diagonal.
pub open spec fn unit_lower<R: Ring>(a: Mat<R>) -> Mat<R> {
    mat_sub(eye(), tril_strict(a))
}

/// Whether a matrix has no entry on or above the diagonal.
pub open spec fn strictly_lower<R: Ring>(n: int, a: Mat<R>) -> bool {
    forall|i: int, j: int| 0 <= i <= j < n ==> #[trigger] a(i, j) == R::zero()
}

/// The `p`-th power of an `n` by `n` matrix.
pub open spec fn mat_pow<R: Ring>(n: int, a: Mat<R>, p: nat) -> Mat<R>
    decreases p,
{
    if p == 0 {
        clip(n, n, eye())
    } else {
        mat_mul(n, mat_pow(n, a, (p - 1) as nat), a)
    }
}

/// The sum of the powers up to `p`, that one included.
pub open spec fn power_series<R: Ring>(n: int, a: Mat<R>, p: nat) -> Mat<R>
    decreases p,
{
    if p == 0 {
        mat_pow(n, a, 0)
    } else {
        mat_add(power_series(n, a, (p - 1) as nat), mat_pow(n, a, p))
    }
}

/// A matrix has at most one inverse.
pub proof fn lemma_inverse_unique<R: Ring>(n: int, s: Mat<R>, t: Mat<R>, a: Mat<R>)
    requires
        is_inverse(n, s, a),
        is_inverse(n, t, a),
    ensures
        agree(n, n, s, t),
{
    let ts = mat_mul(n, a, t);
    lemma_mul_assoc(n, n, s, a, t);
    lemma_mul_agree_right(n, n, s, ts, eye());
    lemma_mul_agree_left(n, n, mat_mul(n, s, a), eye(), t);
    assert forall|i: int, j: int| 0 <= i < n && 0 <= j < n implies #[trigger] s(i, j) == t(
        i,
        j,
    ) by {
        lemma_mul_eye(n, s, i, j);
        lemma_eye_mul(n, t, i, j);
        assert(mat_mul(n, s, ts)(i, j) == mat_mul(n, s, eye())(i, j));
        assert(mat_mul(n, mat_mul(n, s, a), t)(i, j) == mat_mul(n, eye(), t)(i, j));
    }
}

/// The inverse of a unit lower-triangular matrix is unit lower triangular.
pub proof fn law_inverse_is_unit_lower<R: Ring>(n: int, t: Mat<R>, a: Mat<R>, i: int, j: int)
    requires
        is_inverse(n, t, unit_lower(a)),
        0 <= i <= j < n,
    ensures
        t(i, j) == eye::<R>()(i, j),
    decreases i,
{
    let strict = tril_strict(a);
    lemma_mul_sub_left(n, eye(), strict, t);
    lemma_eye_mul(n, t, i, j);
    let rest = |k: int| strict(i, k) * t(k, j);
    assert forall|k: int| 0 <= k < n implies #[trigger] rest(k) == R::zero() by {
        broadcast use {lemma_mul_zero, lemma_zero_mul};

        if k < i {
            law_inverse_is_unit_lower(n, t, a, k, j);
        }
    }
    lemma_sum_zero(n, rest);
    assert(mat_mul(n, unit_lower(a), t)(i, j) == eye::<R>()(i, j));
    lemma_sub_zero(t(i, j));
}

/// The inverse solves the system row by row: each row is that of the identity plus the
/// rows above it, weighted by the entries of `N`.
pub proof fn law_inverse_solves_row_by_row<R: Ring>(n: int, t: Mat<R>, a: Mat<R>, i: int, j: int)
    requires
        is_inverse(n, t, unit_lower(a)),
        0 <= i < n,
        0 <= j < n,
    ensures
        t(i, j) == (if i == j {
            R::one()
        } else {
            R::zero()
        }) + sum(i, |k: int| a(i, k) * t(k, j)),
{
    let strict = tril_strict(a);
    lemma_mul_sub_left(n, eye(), strict, t);
    lemma_eye_mul(n, t, i, j);
    let terms = |k: int| strict(i, k) * t(k, j);
    let above = |k: int| a(i, k) * t(k, j);
    assert forall|k: int| i <= k < n implies #[trigger] terms(k) == R::zero() by {
        lemma_zero_mul(t(k, j));
    }
    crate::sum::lemma_sum_truncate(n, i, terms);
    lemma_sum_ext(i, terms, above);
    let (x, y, e) = (t(i, j), sum(i, above), eye::<R>()(i, j));
    assert(mat_mul(n, unit_lower(a), t)(i, j) == e);
    assert(x - y == e);
    assert(x == e + y) by {
        R::sub_is_add_neg(x, y);
        R::add_associates(x, -y, y);
        crate::ring::lemma_neg_cancels(y);
        R::add_zero(x);
    }
}

/// The `p`-th power of a number.
pub open spec fn power<R: Ring>(a: R, p: nat) -> R
    decreases p,
{
    if p == 0 {
        R::one()
    } else {
        a * power(a, (p - 1) as nat)
    }
}

/// The first `i` entries of a column of the inverse for constant keys, added up.
proof fn lemma_constant_column<R: Ring>(n: int, t: Mat<R>, a: Mat<R>, b: R, i: int, j: int)
    requires
        is_inverse(n, t, unit_lower(a)),
        forall|p: int, q: int| 0 <= q < p < n ==> #[trigger] a(p, q) == -b,
        0 <= j < i <= n,
    ensures
        sum(i, |k: int| t(k, j)) == power(R::one() - b, (i - j - 1) as nat),
    decreases i, 0int,
{
    let column = |k: int| t(k, j);
    if i == j + 1 {
        assert forall|k: int| 0 <= k < j implies #[trigger] column(k) == R::zero() by {
            law_inverse_is_unit_lower(n, t, a, k, j);
        }
        law_inverse_is_unit_lower(n, t, a, j, j);
        lemma_sum_zero(j, column);
        lemma_zero_add(R::one());
    } else {
        let r = power(R::one() - b, (i - j - 2) as nat);
        lemma_constant_column(n, t, a, b, i - 1, j);
        law_constant_keys(n, t, a, b, i - 1, j);
        // r + -b r = (1 - b) r
        R::sub_is_add_neg(R::one(), b);
        lemma_distributes_right(r, R::one(), -b);
        lemma_one_mul(r);
    }
}

/// Where every key of a chunk is the same, so that every entry of `N` below the
/// diagonal is `-b`, the inverse is a geometric series down each column: nothing in it
/// depends on the length of the chunk.
pub proof fn law_constant_keys<R: Ring>(n: int, t: Mat<R>, a: Mat<R>, b: R, i: int, j: int)
    requires
        is_inverse(n, t, unit_lower(a)),
        forall|p: int, q: int| 0 <= q < p < n ==> #[trigger] a(p, q) == -b,
        0 <= j < i < n,
    ensures
        t(i, j) == -b * power(R::one() - b, (i - j - 1) as nat),
    decreases i, 1int,
{
    let strict = tril_strict(a);
    let column = |k: int| t(k, j);
    let rest = |k: int| strict(i, k) * t(k, j);
    lemma_mul_sub_left(n, eye(), strict, t);
    lemma_eye_mul(n, t, i, j);
    assert(mat_mul(n, unit_lower(a), t)(i, j) == eye::<R>()(i, j));
    // Row `i` of (I - N) T = I: t(i, j) is what row `i` of N makes of the column.
    assert forall|k: int| i <= k < n implies #[trigger] rest(k) == R::zero() by {
        lemma_zero_mul(t(k, j));
    }
    lemma_sum_truncate(n, i, rest);
    let scaled = |k: int| -b * column(k);
    assert forall|k: int| 0 <= k < i implies #[trigger] rest(k) == scaled(k) by {
        assert(a(i, k) == -b);
    }
    lemma_sum_ext(i, rest, scaled);
    lemma_sum_scale(i, -b, column);
    lemma_constant_column(n, t, a, b, i, j);
    let total = sum(i, rest);
    lemma_sum_ext(n, |k: int| strict(i, k) * t(k, j), rest);
    assert(t(i, j) - total == R::zero());
    assert(t(i, j) == total) by {
        let x = t(i, j);
        assert(x == (x - total) + total) by {
            broadcast use group_add;

        }
        lemma_zero_add(total);
    }
}

/// The block, of `block` indices each, that index `i` lies in.
pub open spec fn block_of(block: int, i: int) -> int {
    i / block
}

/// Whether row `i` lies in a later block than column `j`.
pub open spec fn later_block(block: int, i: int, j: int) -> bool {
    block_of(block, i) > block_of(block, j)
}

/// One where the row lies in a later block than the column, zero elsewhere.
pub open spec fn block_mask<R: Ring>(block: int) -> Mat<R> {
    |i: int, j: int|
        if later_block(block, i, j) {
            R::one()
        } else {
            R::zero()
        }
}

/// The entries of `a` below the diagonal, inside the diagonal blocks.
spec fn within_blocks<R: Ring>(block: int, a: Mat<R>) -> Mat<R> {
    |i: int, j: int|
        if j < i && !later_block(block, i, j) {
            a(i, j)
        } else {
            R::zero()
        }
}

/// Whether a matrix is zero outside the diagonal blocks.
spec fn block_diagonal<R: Ring>(n: int, block: int, p: Mat<R>) -> bool {
    forall|i: int, j: int|
        0 <= i < n && 0 <= j < n && block_of(block, i) != block_of(block, j)
            ==> #[trigger] p(i, j) == R::zero()
}

/// Two neighbouring blocks make one of twice the size.
proof fn lemma_halves(block: int)
    requires
        block > 0,
    ensures
        forall|i: int|
            i >= 0 ==> #[trigger] block_of(2 * block, i) == block_of(block, i) / 2 && block_of(
                block,
                i,
            ) >= 0,
        forall|i: int, j: int|
            0 <= i <= j ==> #[trigger] block_of(block, i) <= #[trigger] block_of(block, j),
{
    assert forall|i: int| i >= 0 implies #[trigger] block_of(2 * block, i) == block_of(block, i) / 2
        && block_of(block, i) >= 0 by {
        lemma_div_denominator(i, block, 2);
        assert(block * 2 == 2 * block);
        lemma_div_is_ordered(0, i, block);
        lemma_basic_div(0, block);
    }
    assert forall|i: int, j: int| 0 <= i <= j implies #[trigger] block_of(block, i)
        <= #[trigger] block_of(block, j) by {
        lemma_div_is_ordered(i, j, block);
    }
}

/// The blocks of `a` that join each two neighbouring diagonal blocks.
spec fn joining_blocks<R: Ring>(block: int, a: Mat<R>) -> Mat<R> {
    hadamard(a, mat_sub(block_mask(block), block_mask(2 * block)))
}

proof fn lemma_joining<R: Ring>(block: int, a: Mat<R>, i: int, j: int)
    requires
        block > 0,
        i >= 0,
        j >= 0,
    ensures
        joining_blocks(block, a)(i, j) == (if later_block(block, i, j) && !later_block(
            2 * block,
            i,
            j,
        ) {
            a(i, j)
        } else {
            R::zero()
        }),
        joining_blocks(block, a)(i, j) != R::zero() ==> block_of(block, i) % 2 == 1 && block_of(
            block,
            i,
        ) == block_of(block, j) + 1,
        mat_add(within_blocks(block, a), joining_blocks(block, a))(i, j) == within_blocks(
            2 * block,
            a,
        )(i, j),
{
    lemma_halves(block);
    broadcast use {
        lemma_sub_self,
        lemma_sub_zero,
        lemma_mul_zero,
        lemma_mul_one,
        lemma_add_zero,
        lemma_zero_add,
    };

    assert(block_of(2 * block, i) == block_of(block, i) / 2);
    assert(block_of(2 * block, j) == block_of(block, j) / 2);
    if j >= i {
        assert(block_of(block, i) <= block_of(block, j));
    }
}

/// `p + p x p` inverts the diagonal blocks of twice the size.
proof fn lemma_merge<R: Ring>(n: int, block: int, a: Mat<R>, p: Mat<R>, x: Mat<R>)
    requires
        block > 0,
        block_diagonal(n, block, p),
        is_inverse(n, p, mat_sub(eye(), within_blocks(block, a))),
        x == joining_blocks(block, a),
    ensures
        ({
            let q = mat_add(p, mat_mul(n, mat_mul(n, p, x), p));
            &&& block_diagonal(n, 2 * block, q)
            &&& is_inverse(n, q, mat_sub(eye(), within_blocks(2 * block, a)))
        }),
{
    let m = mat_sub(eye(), within_blocks(block, a));
    let m2 = mat_sub(eye(), within_blocks(2 * block, a));
    let px = mat_mul(n, p, x);
    let xp = mat_mul(n, x, p);
    let pxp = mat_mul(n, px, p);
    let q = mat_add(p, pxp);
    broadcast use {lemma_mul_zero, lemma_zero_mul};

    lemma_halves(block);
    assert forall|i: int, j: int| 0 <= i < n && 0 <= j < n implies #[trigger] x(i, j) == R::zero()
        || (block_of(block, i) % 2 == 1 && block_of(block, i) == block_of(block, j) + 1) by {
        lemma_joining(block, a, i, j);
    }
    assert forall|i: int, k: int| 0 <= i < n && 0 <= k < n && #[trigger] px(i, k) != R::zero() implies block_of(
        block,
        k,
    ) % 2 == 0 && block_of(2 * block, i) == block_of(2 * block, k) by {
        if block_of(block, k) % 2 != 0 || block_of(2 * block, i) != block_of(2 * block, k) {
            let f = |l: int| p(i, l) * x(l, k);
            assert forall|l: int| 0 <= l < n implies #[trigger] f(l) == R::zero() by {
                assert(x(l, k) == R::zero() || block_of(block, l) == block_of(block, k) + 1);
                assert(block_of(2 * block, l) == block_of(block, l) / 2);
                assert(block_of(2 * block, i) == block_of(block, i) / 2);
                assert(block_of(2 * block, k) == block_of(block, k) / 2);
                if x(l, k) != R::zero() {
                    assert(p(i, l) == R::zero());
                }
            }
            lemma_sum_zero(n, f);
        }
    }
    assert forall|l: int, j: int| 0 <= l < n && 0 <= j < n && #[trigger] xp(l, j) != R::zero() implies block_of(
        block,
        l,
    ) % 2 == 1 by {
        if block_of(block, l) % 2 != 1 {
            let f = |k: int| x(l, k) * p(k, j);
            assert forall|k: int| 0 <= k < n implies #[trigger] f(k) == R::zero() by {
                assert(x(l, k) == R::zero());
            }
            lemma_sum_zero(n, f);
        }
    }
    // The merged matrix stays inside the larger blocks.
    assert forall|i: int, j: int|
        0 <= i < n && 0 <= j < n && block_of(2 * block, i) != block_of(
            2 * block,
            j,
        ) implies #[trigger] q(i, j) == R::zero() by {
        let f = |k: int| px(i, k) * p(k, j);
        assert forall|k: int| 0 <= k < n implies #[trigger] f(k) == R::zero() by {
            assert(block_of(2 * block, j) == block_of(block, j) / 2);
            assert(block_of(2 * block, k) == block_of(block, k) / 2);
            if px(i, k) != R::zero() {
                assert(p(k, j) == R::zero());
            }
        }
        lemma_sum_zero(n, f);
        assert(block_of(2 * block, j) == block_of(block, j) / 2);
        assert(block_of(2 * block, i) == block_of(block, i) / 2);
        assert(p(i, j) == R::zero());
        lemma_add_zero(R::zero());
    }
    // The larger blocks of `I - N` are the smaller ones less the joining ones.
    assert(agree(n, n, m2, mat_sub(m, x))) by {
        assert forall|i: int, j: int| 0 <= i < n && 0 <= j < n implies #[trigger] m2(i, j)
            == mat_sub(m, x)(i, j) by {
            lemma_joining(block, a, i, j);
            let (e, w, y) = (eye::<R>()(i, j), within_blocks(block, a)(i, j), x(i, j));
            assert(e - (w + y) == (e - w) - y) by {
                broadcast use group_add;

            }
        }
    }
    lemma_mul_agree_right(n, n, q, m2, mat_sub(m, x));
    lemma_mul_agree_left(n, n, m2, mat_sub(m, x), q);
    lemma_mul_sub_right(n, q, m, x);
    lemma_mul_add_left(n, p, pxp, m);
    lemma_mul_add_left(n, p, pxp, x);
    lemma_mul_assoc(n, n, px, p, m);
    lemma_mul_agree_right(n, n, px, mat_mul(n, p, m), eye());
    lemma_mul_sub_left(n, m, x, q);
    lemma_mul_add_right(n, m, p, pxp);
    lemma_mul_add_right(n, x, p, pxp);
    lemma_mul_assoc(n, n, p, x, p);
    lemma_mul_assoc(n, n, m, p, xp);
    lemma_mul_agree_left(n, n, mat_mul(n, m, p), eye(), xp);
    lemma_mul_assoc(n, n, x, p, xp);
    assert forall|i: int, j: int| 0 <= i < n && 0 <= j < n implies #[trigger] mat_mul(n, q, m2)(
        i,
        j,
    ) == eye::<R>()(i, j) by {
        assert(mat_mul(n, mat_mul(n, px, p), x)(i, j) == R::zero()) by {
            lemma_triple_zero(n, px, p, x, i, j);
        }
        lemma_mul_eye(n, px, i, j);
        assert(mat_mul(n, p, m)(i, j) == eye::<R>()(i, j));
        let (e, y) = (eye::<R>()(i, j), px(i, j));
        assert((e + y) - (y + R::zero()) == e) by {
            broadcast use group_add;

        }
    }
    assert forall|i: int, j: int| 0 <= i < n && 0 <= j < n implies #[trigger] mat_mul(n, m2, q)(
        i,
        j,
    ) == eye::<R>()(i, j) by {
        assert(mat_mul(n, mat_mul(n, x, p), xp)(i, j) == R::zero()) by {
            lemma_triple_zero(n, x, p, xp, i, j);
        }
        lemma_eye_mul(n, xp, i, j);
        assert(mat_mul(n, m, p)(i, j) == eye::<R>()(i, j));
        let (e, y) = (eye::<R>()(i, j), xp(i, j));
        assert((e + y) - (y + R::zero()) == e) by {
            broadcast use group_add;

        }
    }
}

/// A product of three matrices one of whose factors vanishes at every pair of
/// inner indices is zero.
proof fn lemma_triple_zero<R: Ring>(n: int, a: Mat<R>, b: Mat<R>, c: Mat<R>, i: int, j: int)
    requires
        forall|k: int, l: int|
            0 <= k < n && 0 <= l < n ==> #[trigger] a(i, k) == R::zero() || b(k, l) == R::zero()
                || #[trigger] c(l, j) == R::zero(),
    ensures
        mat_mul(n, mat_mul(n, a, b), c)(i, j) == R::zero(),
{
    broadcast use {lemma_mul_zero, lemma_zero_mul};

    let outer = |l: int| mat_mul(n, a, b)(i, l) * c(l, j);
    assert forall|l: int| 0 <= l < n implies #[trigger] outer(l) == R::zero() by {
        if c(l, j) != R::zero() {
            lemma_sum_zero(n, |k: int| a(i, k) * b(k, l));
        }
    }
    lemma_sum_zero(n, outer);
}

/// The Neumann series of an `n` by `n` matrix, up to its power `n - 1`.
pub open spec fn neumann<R: Ring>(n: int, a: Mat<R>) -> Mat<R> {
    power_series(
        n,
        a,
        if n > 0 {
            (n - 1) as nat
        } else {
            0
        },
    )
}

/// A power is the previous one times the matrix on the left, too.
proof fn lemma_pow_left<R: Ring>(n: int, a: Mat<R>, p: nat)
    ensures
        agree(n, n, mat_mul(n, a, mat_pow(n, a, p)), mat_pow(n, a, p + 1)),
    decreases p,
{
    assert(mat_pow(n, a, p + 1) == mat_mul(n, mat_pow(n, a, p), a));
    if p == 0 {
        let one = clip(n, n, eye::<R>());
        lemma_mul_agree_right(n, n, a, one, eye());
        lemma_mul_agree_left(n, n, one, eye(), a);
        assert forall|i: int, j: int| 0 <= i < n && 0 <= j < n implies #[trigger] mat_mul(
            n,
            a,
            one,
        )(i, j) == mat_mul(n, one, a)(i, j) by {
            lemma_mul_eye(n, a, i, j);
            lemma_eye_mul(n, a, i, j);
        }
    } else {
        let q = mat_pow(n, a, (p - 1) as nat);
        lemma_pow_left(n, a, (p - 1) as nat);
        lemma_mul_assoc(n, n, a, q, a);
        lemma_mul_agree_left(n, n, mat_mul(n, a, q), mat_pow(n, a, p), a);
    }
}

/// The powers of a strictly lower-triangular matrix move away from the diagonal.
proof fn lemma_pow_nilpotent<R: Ring>(n: int, a: Mat<R>, p: nat, i: int, j: int)
    requires
        strictly_lower(n, a),
        0 <= i < n,
        0 <= j < n,
        i - j < p,
    ensures
        mat_pow(n, a, p)(i, j) == R::zero(),
    decreases p,
{
    if p > 0 {
        let q = mat_pow(n, a, (p - 1) as nat);
        let f = |k: int| q(i, k) * a(k, j);
        assert forall|k: int| 0 <= k < n implies #[trigger] f(k) == R::zero() by {
            broadcast use {lemma_mul_zero, lemma_zero_mul};

            if k > j {
                lemma_pow_nilpotent(n, a, (p - 1) as nat, i, k);
            } else {
                assert(a(k, j) == R::zero());
            }
        }
        lemma_sum_zero(n, f);
    }
}

/// The series telescopes against `I - a`, on either side.
proof fn lemma_series_telescopes<R: Ring>(n: int, a: Mat<R>, p: nat)
    ensures
        agree(
            n,
            n,
            mat_mul(n, power_series(n, a, p), mat_sub(eye(), a)),
            mat_sub(eye(), mat_pow(n, a, p + 1)),
        ),
        agree(
            n,
            n,
            mat_mul(n, mat_sub(eye(), a), power_series(n, a, p)),
            mat_sub(eye(), mat_pow(n, a, p + 1)),
        ),
    decreases p,
{
    let s = power_series(n, a, p);
    let m = mat_sub(eye(), a);
    let w = mat_pow(n, a, p);
    let next = mat_pow(n, a, p + 1);
    assert(next == mat_mul(n, w, a));
    lemma_pow_left(n, a, p);
    lemma_mul_sub_right(n, w, eye(), a);
    lemma_mul_sub_left(n, eye(), a, w);
    assert forall|i: int, j: int| 0 <= i < n && 0 <= j < n implies #[trigger] mat_mul(n, w, m)(i, j)
        == w(i, j) - next(i, j) && mat_mul(n, m, w)(i, j) == w(i, j) - next(i, j) by {
        lemma_mul_eye(n, w, i, j);
        lemma_eye_mul(n, w, i, j);
        assert(mat_mul(n, a, w)(i, j) == next(i, j));
    }
    if p > 0 {
        let t = power_series(n, a, (p - 1) as nat);
        lemma_series_telescopes(n, a, (p - 1) as nat);
        lemma_mul_add_left(n, t, w, m);
        lemma_mul_add_right(n, m, t, w);
        assert forall|i: int, j: int| 0 <= i < n && 0 <= j < n implies #[trigger] mat_mul(n, s, m)(
            i,
            j,
        ) == mat_sub(eye(), next)(i, j) && mat_mul(n, m, s)(i, j) == mat_sub(eye(), next)(i, j) by {
            assert(mat_mul(n, t, m)(i, j) == eye::<R>()(i, j) - w(i, j));
            assert(mat_mul(n, m, t)(i, j) == eye::<R>()(i, j) - w(i, j));
            assert(mat_mul(n, w, m)(i, j) == w(i, j) - next(i, j));
            let (e, y, z) = (eye::<R>()(i, j), w(i, j), next(i, j));
            assert((e - y) + (y - z) == e - z) by {
                broadcast use group_add;

            }
        }
        assert forall|i: int, j: int| 0 <= i < n && 0 <= j < n implies #[trigger] mat_mul(n, m, s)(
            i,
            j,
        ) == mat_sub(eye(), next)(i, j) by {
            assert(mat_mul(n, s, m)(i, j) == mat_sub(eye(), next)(i, j));
        }
    } else {
        assert forall|i: int, j: int| 0 <= i < n && 0 <= j < n implies #[trigger] mat_mul(n, m, s)(
            i,
            j,
        ) == mat_sub(eye(), next)(i, j) by {
            assert(mat_mul(n, w, m)(i, j) == w(i, j) - next(i, j));
        }
    }
}

/// The Neumann series of any matrix, times `I - A`, is `I` less the first power that it
/// leaves out.
pub proof fn law_neumann_telescopes<R: Ring>(n: int, a: Mat<R>, i: int, j: int)
    requires
        0 <= i < n,
        0 <= j < n,
    ensures
        mat_mul(n, neumann(n, a), mat_sub(eye(), a))(i, j) == eye::<R>()(i, j) - mat_pow(
            n,
            a,
            n as nat,
        )(i, j),
{
    lemma_series_telescopes(n, a, (n - 1) as nat);
    let s = neumann(n, a);
    assert(mat_mul(n, s, mat_sub(eye(), a))(i, j) == mat_sub(eye(), mat_pow(n, a, n as nat))(i, j));
}

/// The Neumann series of a strictly lower-triangular matrix ends, and inverts `I - N`.
pub proof fn lemma_neumann_inverts<R: Ring>(n: int, a: Mat<R>)
    requires
        strictly_lower(n, a),
    ensures
        is_inverse(n, neumann(n, a), unit_lower(a)),
{
    if n > 0 {
        let s = neumann(n, a);
        let m = mat_sub(eye(), a);
        lemma_series_telescopes(n, a, (n - 1) as nat);
        assert(agree(n, n, m, unit_lower(a)));
        lemma_mul_agree_right(n, n, s, m, unit_lower(a));
        lemma_mul_agree_left(n, n, m, unit_lower(a), s);
        assert forall|i: int, j: int| 0 <= i < n && 0 <= j < n implies #[trigger] mat_mul(
            n,
            s,
            unit_lower(a),
        )(i, j) == eye::<R>()(i, j) by {
            lemma_pow_nilpotent(n, a, n as nat, i, j);
            lemma_sub_zero(eye::<R>()(i, j));
            assert(mat_mul(n, s, m)(i, j) == mat_sub(eye(), mat_pow(n, a, n as nat))(i, j));
        }
        assert forall|i: int, j: int| 0 <= i < n && 0 <= j < n implies #[trigger] mat_mul(
            n,
            unit_lower(a),
            s,
        )(i, j) == eye::<R>()(i, j) by {
            lemma_pow_nilpotent(n, a, n as nat, i, j);
            lemma_sub_zero(eye::<R>()(i, j));
            assert(mat_mul(n, m, s)(i, j) == mat_sub(eye(), mat_pow(n, a, n as nat))(i, j));
        }
    }
}

/// One where the row lies in a later block than the column, zero elsewhere.
fn block_strict_lower<T: Scalar>(size: usize, block: usize) -> (m: Matrix<T>)
    requires
        block > 0,
    ensures
        m.has_shape(size as int, size as int),
        m@ == clip(size as int, size as int, block_mask::<T>(block as int)),
{
    let f = |i: usize, j: usize| -> (r: T)
        ensures
            r == block_mask::<T>(block as int)(i as int, j as int),
        {
            if i / block > j / block {
                T::unit()
            } else {
                T::nil()
            }
        };
    let m = Matrix::from_fn(size, size, f);
    assert(m@ =~= clip(size as int, size as int, block_mask::<T>(block as int)));
    m
}

/// `(I - N)^-1` by blocked forward substitution.
fn blocked_inverse<T: Scalar>(n_strict: &Matrix<T>) -> (t: Matrix<T>)
    requires
        n_strict.rows() == n_strict.cols(),
    ensures
        t.has_shape(n_strict.rows() as int, n_strict.rows() as int),
        is_inverse(n_strict.rows() as int, t@, unit_lower(n_strict@)),
{
    let size: usize = n_strict.rows();
    let ghost n = size as int;
    let ghost a = n_strict@;
    let ghost mut reach: int = 1;
    let mut p = Matrix::identity(size);
    let mut lower = block_strict_lower::<T>(size, 1);
    let mut block: usize = 1;
    proof {
        lemma_start(n, a, p@);
    }
    while block < size
        invariant
            size == n,
            n_strict.has_shape(n, n),
            a == n_strict@,
            0 < block <= reach,
            block < size ==> block == reach,
            p.has_shape(n, n),
            lower.has_shape(n, n),
            block < size ==> lower@ == clip(n, n, block_mask::<T>(reach)),
            block_diagonal(n, reach, p@),
            is_inverse(n, p@, mat_sub(eye(), within_blocks(reach, a))),
        decreases size - block,
    {
        let next: usize = if block > size - block {
            size
        } else {
            block * 2
        };
        let coarser = block_strict_lower::<T>(size, next);
        let mask = lower.minus(&coarser);
        let x = n_strict.times(&mask);
        let ghost before = p@;
        p = p.plus(&p.matmul(&x).matmul(&p));
        proof {
            lemma_merge(n, reach, a, before, joining_blocks(reach, a));
            if next == size {
                lemma_whole(n, 2 * reach);
                lemma_whole(n, n);
            }
            assert forall|i: int, j: int| 0 <= i < n && 0 <= j < n implies coarser@(i, j)
                == #[trigger] block_mask::<T>(2 * reach)(i, j) by {
            }
            assert(agree(n, n, x@, joining_blocks(reach, a)));
            lemma_mul_agree_right(n, n, before, x@, joining_blocks(reach, a));
            let px = mat_mul(n, before, x@);
            let px2 = mat_mul(n, before, joining_blocks(reach, a));
            assert(agree(n, n, px, px2));
            lemma_mul_agree_left(n, n, px, px2, before);
            let q = mat_add(before, mat_mul(n, px2, before));
            assert(agree(n, n, p@, q));
            lemma_inverse_agrees(n, p@, q, mat_sub(eye(), within_blocks(2 * reach, a)));
            reach = 2 * reach;
            if next < size {
                assert(coarser@ =~= clip(n, n, block_mask::<T>(reach)));
            }
        }
        lower = coarser;
        block = next;
    }
    proof {
        lemma_whole(n, reach);
        assert(agree(n, n, unit_lower(a), mat_sub(eye(), within_blocks(reach, a))));
        lemma_inverse_of_agreeing(n, p@, unit_lower(a), mat_sub(eye(), within_blocks(reach, a)));
    }
    p
}

/// Blocks of one index: the identity inverts what is inside them.
proof fn lemma_start<R: Ring>(n: int, a: Mat<R>, p: Mat<R>)
    requires
        p == clip(n, n, eye::<R>()),
    ensures
        block_diagonal(n, 1, p),
        is_inverse(n, p, mat_sub(eye(), within_blocks(1, a))),
{
    let m = mat_sub(eye(), within_blocks(1, a));
    broadcast use lemma_sub_zero;

    assert(forall|i: int| #[trigger] block_of(1, i) == i);
    assert(agree(n, n, m, eye()));
    lemma_mul_agree_right(n, n, p, m, eye());
    lemma_mul_agree_left(n, n, m, eye(), p);
    assert forall|i: int, j: int| 0 <= i < n && 0 <= j < n implies #[trigger] mat_mul(n, p, m)(i, j)
        == eye::<R>()(i, j) by {
        lemma_mul_eye(n, p, i, j);
    }
    assert forall|i: int, j: int| 0 <= i < n && 0 <= j < n implies #[trigger] mat_mul(n, m, p)(i, j)
        == eye::<R>()(i, j) by {
        lemma_eye_mul(n, p, i, j);
    }
}

/// A block as long as the matrix holds all of it.
proof fn lemma_whole(n: int, block: int)
    requires
        block >= n,
    ensures
        forall|i: int| 0 <= i < n ==> #[trigger] block_of(block, i) == 0,
{
    assert forall|i: int| 0 <= i < n implies #[trigger] block_of(block, i) == 0 by {
        lemma_basic_div(i, block);
    }
}

proof fn lemma_inverse_agrees<R: Ring>(n: int, s: Mat<R>, t: Mat<R>, a: Mat<R>)
    requires
        agree(n, n, s, t),
        is_inverse(n, t, a),
    ensures
        is_inverse(n, s, a),
{
    lemma_mul_agree_left(n, n, s, t, a);
    lemma_mul_agree_right(n, n, a, s, t);
    assert forall|i: int, j: int| 0 <= i < n && 0 <= j < n implies #[trigger] mat_mul(n, s, a)(i, j)
        == eye::<R>()(i, j) by {
        assert(mat_mul(n, t, a)(i, j) == eye::<R>()(i, j));
    }
    assert forall|i: int, j: int| 0 <= i < n && 0 <= j < n implies #[trigger] mat_mul(n, a, s)(i, j)
        == eye::<R>()(i, j) by {
        assert(mat_mul(n, a, t)(i, j) == eye::<R>()(i, j));
    }
}

pub proof fn lemma_inverse_of_agreeing<R: Ring>(n: int, t: Mat<R>, a: Mat<R>, b: Mat<R>)
    requires
        agree(n, n, a, b),
        is_inverse(n, t, b),
    ensures
        is_inverse(n, t, a),
{
    lemma_mul_agree_right(n, n, t, a, b);
    lemma_mul_agree_left(n, n, a, b, t);
    assert forall|i: int, j: int| 0 <= i < n && 0 <= j < n implies #[trigger] mat_mul(n, t, a)(i, j)
        == eye::<R>()(i, j) by {
        assert(mat_mul(n, t, b)(i, j) == eye::<R>()(i, j));
    }
    assert forall|i: int, j: int| 0 <= i < n && 0 <= j < n implies #[trigger] mat_mul(n, a, t)(i, j)
        == eye::<R>()(i, j) by {
        assert(mat_mul(n, b, t)(i, j) == eye::<R>()(i, j));
    }
}

/// The Neumann series of `N`, term by term.
fn neumann_series<T: Scalar>(n_strict: &Matrix<T>) -> (t: Matrix<T>)
    requires
        n_strict.rows() == n_strict.cols(),
    ensures
        t.has_shape(n_strict.rows() as int, n_strict.rows() as int),
        t@ == neumann(n_strict.rows() as int, n_strict@),
{
    let size: usize = n_strict.rows();
    let ghost n = size as int;
    let mut p = Matrix::identity(size);
    let mut term = Matrix::identity(size);
    if size > 0 {
        for k in 1..size
            invariant
                size == n,
                n_strict.has_shape(n, n),
                p.has_shape(n, n),
                term.has_shape(n, n),
                term@ == mat_pow(n, n_strict@, (k - 1) as nat),
                p@ == power_series(n, n_strict@, (k - 1) as nat),
        {
            term = term.matmul(n_strict);
            p = p.plus(&term);
        }
    }
    p
}

/// `(I - N)^-1` for a square, strictly lower-triangular `N`.
///
/// [`TriSolve::Blocked`] reads only the entries below the diagonal;
/// [`TriSolve::Neumann`] multiplies by the whole matrix.
pub fn unit_lower_inverse<T: Scalar>(n_strict: &Matrix<T>, solve: TriSolve) -> (t: Matrix<T>)
    requires
        n_strict.rows() == n_strict.cols(),
    ensures
        t.has_shape(n_strict.rows() as int, n_strict.rows() as int),
        solve == TriSolve::Blocked || strictly_lower(n_strict.rows() as int, n_strict@)
            ==> is_inverse(n_strict.rows() as int, t@, unit_lower(n_strict@)),
        solve == TriSolve::Neumann ==> t@ == neumann(n_strict.rows() as int, n_strict@),
{
    match solve {
        TriSolve::Blocked => blocked_inverse(n_strict),
        TriSolve::Neumann => {
            let t = neumann_series(n_strict);
            proof {
                if strictly_lower(n_strict.rows() as int, n_strict@) {
                    lemma_neumann_inverts(n_strict.rows() as int, n_strict@);
                }
            }
            t
        },
    }
}

} // verus!
