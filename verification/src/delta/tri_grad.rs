//! The gradient of the triangular inverse.
//!
//! ```text
//!   T = (I - N)^-1   =>   dT = T dN T   =>   d_N = tril(T^T d_T T^T, -1)
//! ```
//!
//! so only the inverse itself has to be kept for the backward pass.
use vstd::prelude::*;

use crate::delta::tri::{is_inverse, unit_lower};
use crate::dual::{eps_part, lemma_mul_parts, re_part, Dual};
use crate::mat::{
    agree, eye, lemma_mul_agree_left, lemma_mul_agree_right, lemma_mul_assoc, lemma_mul_eye,
    lemma_mul_neg_right, mat_mul, mat_neg, transposed, tril_strict, Mat,
};
use crate::matrix::Matrix;
use crate::pair::{
    lemma_pair_agree, lemma_pair_mul_left, lemma_pair_mul_right, lemma_pair_tril, pair,
};
use crate::ring::{lemma_sub_is_add_neg, lemma_zero_add, Ring, Scalar};

verus! {

/// The rate of change of a triangular inverse: `dT = T dN T`.
pub proof fn lemma_inverse_rate<R: Ring>(n: int, t: Mat<Dual<R>>, a: Mat<Dual<R>>)
    requires
        is_inverse(n, t, unit_lower(a)),
    ensures
        agree(
            n,
            n,
            eps_part(t),
            mat_mul(n, mat_mul(n, re_part(t), tril_strict(eps_part(a))), re_part(t)),
        ),
{
    let m = unit_lower(a);
    let (t0, dt, m0) = (re_part(t), eps_part(t), re_part(m));
    let l = tril_strict(eps_part(a));
    lemma_mul_parts(n, t, m);
    lemma_mul_parts(n, m, t);
    assert(eps_part(m) =~= mat_neg(l)) by {
        broadcast use {lemma_sub_is_add_neg, lemma_zero_add};

        crate::ring::lemma_neg_zero::<R>();
    }
    lemma_mul_neg_right(n, t0, l);
    // dT (I - N) + T (-dN) = 0, so dT (I - N) = T dN.
    let (left, right) = (mat_mul(n, dt, m0), mat_mul(n, t0, l));
    assert forall|i: int, j: int| 0 <= i < n && 0 <= j < n implies #[trigger] left(i, j) == right(
        i,
        j,
    ) by {
        assert(mat_mul(n, t, m)(i, j) == eye::<Dual<R>>()(i, j));
        assert(eps_part(mat_mul(n, t, m))(i, j) == R::zero());
        let (x, y) = (left(i, j), right(i, j));
        assert(x + (-y) == R::zero());
        R::add_associates(x, -y, y);
        crate::ring::lemma_neg_cancels(y);
        R::add_zero(x);
        lemma_zero_add(y);
    }
    // Multiplied by T on the right, (I - N) T drops out.
    lemma_mul_agree_left(n, n, left, right, t0);
    lemma_mul_assoc(n, n, dt, m0, t0);
    assert forall|i: int, j: int| 0 <= i < n && 0 <= j < n implies #[trigger] mat_mul(n, m0, t0)(
        i,
        j,
    ) == eye::<R>()(i, j) by {
        assert(mat_mul(n, m, t)(i, j) == eye::<Dual<R>>()(i, j));
        assert(re_part(mat_mul(n, m, t))(i, j) == mat_mul(n, m0, t0)(i, j));
    }
    lemma_mul_agree_right(n, n, dt, mat_mul(n, m0, t0), eye());
    assert forall|i: int, j: int| 0 <= i < n && 0 <= j < n implies #[trigger] dt(i, j) == mat_mul(
        n,
        right,
        t0,
    )(i, j) by {
        lemma_mul_eye(n, dt, i, j);
        assert(mat_mul(n, dt, eye())(i, j) == mat_mul(n, dt, mat_mul(n, m0, t0))(i, j));
        assert(mat_mul(n, left, t0)(i, j) == mat_mul(n, right, t0)(i, j));
    }
}

/// The gradient with respect to the matrix below the diagonal, from its inverse
/// `t` and the gradient `d_t` with respect to that inverse.
pub fn unit_lower_inverse_backward<T: Scalar>(t: &Matrix<T>, d_t: &Matrix<T>) -> (r: Matrix<T>)
    requires
        t.rows() == t.cols(),
        d_t.has_shape(t.rows() as int, t.rows() as int),
    ensures
        r.has_shape(t.rows() as int, t.rows() as int),
        r@ == tril_strict(
            mat_mul(
                t.rows() as int,
                mat_mul(t.rows() as int, transposed(t@), d_t@),
                transposed(t@),
            ),
        ),
        forall|moving: Mat<Dual<T>>, inverse: Mat<Dual<T>>| #[trigger]
            is_inverse(t.rows() as int, inverse, unit_lower(moving)) && agree(
                t.rows() as int,
                t.rows() as int,
                re_part(inverse),
                t@,
            ) ==> pair(t.rows() as int, t.rows() as int, d_t@, eps_part(inverse)) == pair(
                t.rows() as int,
                t.rows() as int,
                r@,
                eps_part(moving),
            ),
{
    let tt = t.transpose();
    let r = tt.matmul(d_t).matmul(&tt).strict_lower();
    proof {
        let n = t.rows() as int;
        assert forall|moving: Mat<Dual<T>>, inverse: Mat<Dual<T>>| #[trigger]
            is_inverse(n, inverse, unit_lower(moving)) && agree(
                n,
                n,
                re_part(inverse),
                t@,
            ) implies pair(n, n, d_t@, eps_part(inverse)) == pair(n, n, r@, eps_part(moving)) by {
            lemma_inverse_rate(n, inverse, moving);
            let l = tril_strict(eps_part(moving));
            let (w, t0) = (re_part(inverse), t@);
            lemma_mul_agree_left(n, n, w, t0, l);
            let (wl, tl) = (mat_mul(n, w, l), mat_mul(n, t0, l));
            lemma_mul_agree_left(n, n, wl, tl, w);
            lemma_mul_agree_right(n, n, tl, w, t0);
            lemma_pair_agree(n, n, d_t@, eps_part(inverse), d_t@, mat_mul(n, tl, t0));
            lemma_pair_mul_left(n, n, n, d_t@, tl, t0);
            let half = mat_mul(n, d_t@, transposed(t0));
            lemma_pair_mul_right(n, n, n, half, t0, l);
            lemma_mul_assoc(n, n, transposed(t0), d_t@, transposed(t0));
            let full = mat_mul(n, transposed(t0), half);
            lemma_pair_tril(n, n, full, eps_part(moving));
            lemma_pair_agree(n, n, tril_strict(full), eps_part(moving), r@, eps_part(moving));
        }
    }
    r
}

} // verus!
