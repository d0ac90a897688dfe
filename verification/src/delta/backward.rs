//! The gradient of the chunkwise form, recomputed from its inputs.
//!
//! [`combined_backward`] replays the chunkwise form and walks it back: through the
//! serial scan in reverse, through the inverse of each chunk's triangular system
//! (whose differential needs only the inverse itself), through the two score
//! matrices, and through the gates. The log decay is accumulated on the way in, so
//! its gradient is accumulated from the end on the way out.
use vstd::prelude::*;

use crate::delta::adjoint::{score_gate, score_keys, score_rows, score_term, span};
use crate::delta::forward::{gate_width, widened, Chunk};
use crate::mat::{agree, clip, hadamard, mat_add, mat_mul, transposed, tril, Mat};
use crate::matrix::Matrix;
use crate::pair::pair;
use crate::ring::{
    lemma_mul_associates, lemma_mul_commutes, lemma_mul_one, lemma_zero_add, lemma_zero_mul, Ring,
    Scalar,
};
use crate::sum::{
    lemma_sum_add, lemma_sum_ext, lemma_sum_scale, lemma_sum_scale_right, lemma_sum_sub,
    lemma_sum_swap, sum,
};

verus! {

/// A matrix over `n` channels summed back onto a gate of the given width.
pub open spec fn reduced<R: Ring>(width: int, n: int, a: Mat<R>) -> Mat<R> {
    |i: int, d: int|
        if width == 1 {
            sum(n, |e: int| a(i, e))
        } else {
            a(i, d)
        }
}

/// Sums the channels back onto a gate's own axis: nothing to do when there is
/// one value per channel, a sum over all of them when there is one per head.
pub fn reduce_to_width<T: Scalar>(t: &Matrix<T>, width: usize) -> (r: Matrix<T>)
    requires
        gate_width(width as int, t.cols() as int),
    ensures
        r.has_shape(t.rows() as int, width as int),
        agree(t.rows() as int, width as int, r@, reduced(width as int, t.cols() as int, t@)),
{
    if width != 1 {
        return t.copy();
    }
    let f = |i: usize, d: usize| -> (r: T)
        requires
            i < t.rows(),
        ensures
            r == sum(t.cols() as int, |e: int| t@(i as int, e)),
        { t.row_total(i) };
    Matrix::from_fn(t.rows(), width, f)
}

/// A gate's gradient paired at its own width is the full gradient paired
/// on every channel.
pub proof fn lemma_reduced_pairs<R: Ring>(n: int, m: int, width: int, a: Mat<R>, dot: Mat<R>)
    requires
        gate_width(width, m),
    ensures
        pair(n, width, reduced(width, m, a), dot) == pair(n, m, a, widened(width, dot)),
{
    if width == 1 {
        let left = |i: int| sum(width, |d: int| reduced(width, m, a)(i, d) * dot(i, d));
        let right = |i: int| sum(m, |d: int| a(i, d) * widened(width, dot)(i, d));
        assert forall|i: int| 0 <= i < n implies #[trigger] left(i) == right(i) by {
            let one = |d: int| reduced(width, m, a)(i, d) * dot(i, d);
            assert(sum(1, one) == sum(0, one) + one(0));
            lemma_zero_add(one(0));
            let row = |e: int| a(i, e);
            lemma_sum_scale_right(m, row, dot(i, 0));
            lemma_sum_ext(
                m,
                |e: int| row(e) * dot(i, 0),
                |d: int| a(i, d) * widened(width, dot)(i, d),
            );
        }
        lemma_sum_ext(n, left, right);
    } else {
        crate::pair::lemma_pair_agree(
            n,
            m,
            reduced(width, m, a),
            dot,
            a,
            widened(width, dot),
        );
    }
}

/// What differentiating the two score matrices of a chunk contributes.
pub struct ScoreGrads<T> {
    /// To the gradient of the erase keys.
    pub d_ke: Matrix<T>,
    /// To the gradient of the scaled queries.
    pub d_q: Matrix<T>,
    /// To the gradient of the keys.
    pub d_k: Matrix<T>,
    /// To the gradient of the accumulated log decay, at its own width.
    pub d_gc: Option<Matrix<T>>,
}

/// Whether a square matrix has no entry above the diagonal.
pub open spec fn causal<R: Ring>(n: int, a: Mat<R>) -> bool {
    forall|i: int, j: int| 0 <= i < j < n ==> #[trigger] a(i, j) == R::zero()
}

impl<T: Ring> ScoreGrads<T> {
    /// Whether these are the gradients of the scores of `chunk`, with erase keys
    /// `ke`, for the given gradients of the score matrices.
    pub open spec fn differentiates(
        &self,
        chunk: Chunk<T>,
        ke: Mat<T>,
        d_akk: Mat<T>,
        d_aqk: Mat<T>,
    ) -> bool {
        let nl = chunk.k.rows() as int;
        let nk = chunk.k.cols() as int;
        let (q, k, g) = (chunk.q@, chunk.k@, chunk.gate());
        &&& self.d_ke.has_shape(nl, nk)
        &&& self.d_q.has_shape(nl, nk)
        &&& self.d_k.has_shape(nl, nk)
        &&& agree(nl, nk, self.d_ke@, score_rows(nl, d_akk, k, g))
        &&& agree(nl, nk, self.d_q@, score_rows(nl, d_aqk, k, g))
        &&& agree(
            nl,
            nk,
            self.d_k@,
            mat_add(score_keys(nl, d_akk, ke, g), score_keys(nl, d_aqk, q, g)),
        )
        &&& self.d_gc is Some == chunk.gc is Some
        &&& self.d_gc matches Some(d_gc) ==> {
            let width = chunk.gc->0.cols() as int;
            &&& d_gc.has_shape(nl, width)
            &&& agree(
                nl,
                width,
                d_gc@,
                reduced(
                    width,
                    nk,
                    mat_add(
                        score_gate(nl, d_aqk, q, k, g),
                        score_gate(nl, d_akk, ke, k, g),
                    ),
                ),
            )
        }
    }
}

/// The decay of a chunk whose gate is the same on every channel.
spec fn head_span<R: Ring>(chunk: Chunk<R>, i: int, j: int) -> R {
    (chunk.gate()(i, 0) - chunk.gate()(j, 0)).expo()
}

/// A causal gradient times the decay mask of a chunk, or as it is without a gate.
fn masked<T: Scalar>(chunk: &Chunk<T>, mask: &Option<Matrix<T>>, da: &Matrix<T>) -> (r: Matrix<T>)
    requires
        chunk.well_formed(),
        chunk.gc matches Some(gc) ==> gc.cols() == 1,
        mask is Some == chunk.gc is Some,
        mask matches Some(mask) ==> mask.has_shape(
            chunk.k.rows() as int,
            chunk.k.rows() as int,
        ) && mask@ == clip(
            chunk.k.rows() as int,
            chunk.k.rows() as int,
            tril(|i: int, j: int| (chunk.gc->0@(i, 0) - chunk.gc->0@(j, 0)).expo()),
        ),
        da.has_shape(chunk.k.rows() as int, chunk.k.rows() as int),
        causal(chunk.k.rows() as int, da@),
    ensures
        r.has_shape(chunk.k.rows() as int, chunk.k.rows() as int),
        forall|i: int, j: int|
            0 <= i < chunk.k.rows() && 0 <= j < chunk.k.rows() ==> #[trigger] r@(i, j) == da@(i, j)
                * head_span(*chunk, i, j),
{
    let r = match mask {
        Some(mask) => da.times(mask),
        None => da.copy(),
    };
    proof {
        broadcast use {lemma_zero_mul, lemma_mul_one};

        crate::ring::lemma_expo_self(T::zero());
    }
    r
}

/// The gradient of scores with one decay per head, where the decay is a mask that
/// factors out of the contraction.
pub fn head_scores_backward<T: Scalar>(
    chunk: &Chunk<T>,
    ke: &Matrix<T>,
    d_akk: &Matrix<T>,
    d_aqk: &Matrix<T>,
) -> (r: ScoreGrads<T>)
    requires
        chunk.well_formed(),
        chunk.gc matches Some(gc) ==> gc.cols() == 1,
        ke.has_shape(chunk.k.rows() as int, chunk.k.cols() as int),
        d_akk.has_shape(chunk.k.rows() as int, chunk.k.rows() as int),
        d_aqk.has_shape(chunk.k.rows() as int, chunk.k.rows() as int),
        causal(chunk.k.rows() as int, d_akk@),
        causal(chunk.k.rows() as int, d_aqk@),
    ensures
        r.differentiates(*chunk, ke@, d_akk@, d_aqk@),
{
    let ghost nl = chunk.k.rows() as int;
    let ghost nk = chunk.k.cols() as int;
    let ghost g = chunk.gate();
    let mask = chunk.head_decay_mask();
    let raw_kk = masked(chunk, &mask, d_akk);
    let raw_qk = masked(chunk, &mask, d_aqk);
    let d_ke = raw_kk.matmul(&chunk.k);
    let d_q = raw_qk.matmul(&chunk.k);
    let d_k = raw_kk.transpose().matmul(ke).plus(&raw_qk.transpose().matmul(&chunk.q));
    proof {
        assert forall|i: int, j: int, d: int| 0 <= i < nl && 0 <= j < nl && 0 <= d < nk implies
            #[trigger] span(g, i, j, d) == head_span(*chunk, i, j) by {
        }
        assert forall|i: int, d: int| 0 <= i < nl && 0 <= d < nk implies #[trigger] d_ke@(i, d)
            == score_rows(nl, d_akk@, chunk.k@, g)(i, d) by {
            lemma_head_rows(*chunk, nl, nk, raw_kk@, d_akk@, i, d);
        }
        assert forall|i: int, d: int| 0 <= i < nl && 0 <= d < nk implies #[trigger] d_q@(i, d)
            == score_rows(nl, d_aqk@, chunk.k@, g)(i, d) by {
            lemma_head_rows(*chunk, nl, nk, raw_qk@, d_aqk@, i, d);
        }
        assert forall|j: int, d: int| 0 <= j < nl && 0 <= d < nk implies #[trigger] d_k@(j, d)
            == mat_add(
            score_keys(nl, d_akk@, ke@, g),
            score_keys(nl, d_aqk@, chunk.q@, g),
        )(j, d) by {
            lemma_head_keys(*chunk, nl, nk, raw_kk@, d_akk@, ke@, j, d);
            lemma_head_keys(*chunk, nl, nk, raw_qk@, d_aqk@, chunk.q@, j, d);
        }
    }
    let d_gc = match &chunk.gc {
        Some(gc) => {
            let kt = chunk.k.transpose();
            let diff = raw_kk.times(&ke.matmul(&kt)).plus(&raw_qk.times(&chunk.q.matmul(&kt)));
            let n: usize = chunk.k.rows();
            let f = |i: usize, d: usize| -> (r: T)
                requires
                    i < n,
                ensures
                    r == sum(n as int, |j: int| diff@(i as int, j)) - sum(
                        n as int,
                        |j: int| diff@(j, i as int),
                    ),
                { diff.row_total(i).minus(diff.column_total(i)) };
            let d_gc = Matrix::from_fn(n, 1, f);
            proof {
                let full = mat_add(
                    score_gate(nl, d_aqk@, chunk.q@, chunk.k@, g),
                    score_gate(nl, d_akk@, ke@, chunk.k@, g),
                );
                assert forall|i: int, d: int| 0 <= i < nl && 0 <= d < 1 implies #[trigger] d_gc@(
                    i,
                    d,
                ) == reduced(1, nk, full)(i, d) by {
                    lemma_head_gate(
                        *chunk,
                        nl,
                        nk,
                        raw_kk@,
                        d_akk@,
                        ke@,
                        raw_qk@,
                        d_aqk@,
                        diff@,
                        i,
                    );
                }
            }
            Some(d_gc)
        },
        None => None,
    };
    ScoreGrads { d_ke, d_q, d_k, d_gc }
}

proof fn lemma_head_rows<R: Ring>(
    chunk: Chunk<R>,
    nl: int,
    nk: int,
    raw: Mat<R>,
    da: Mat<R>,
    i: int,
    d: int,
)
    requires
        chunk.gc matches Some(gc) ==> gc.cols() == 1,
        0 <= i < nl,
        forall|j: int| 0 <= j < nl ==> #[trigger] raw(i, j) == da(i, j) * head_span(chunk, i, j),
    ensures
        mat_mul(nl, raw, chunk.k@)(i, d) == score_rows(nl, da, chunk.k@, chunk.gate())(i, d),
{
    let k = chunk.k@;
    let f = |j: int| raw(i, j) * k(j, d);
    let h = |j: int| da(i, j) * (k(j, d) * span(chunk.gate(), i, j, d));
    assert forall|j: int| 0 <= j < nl implies #[trigger] f(j) == h(j) by {
        assert(raw(i, j) == da(i, j) * head_span(chunk, i, j));
        let (a, b, c) = (da(i, j), head_span(chunk, i, j), k(j, d));
        assert((a * b) * c == a * (c * b)) by {
            broadcast use {lemma_mul_commutes, lemma_mul_associates};

        }
    }
    lemma_sum_ext(nl, f, h);
}

proof fn lemma_head_keys<R: Ring>(
    chunk: Chunk<R>,
    nl: int,
    nk: int,
    raw: Mat<R>,
    da: Mat<R>,
    rows: Mat<R>,
    j: int,
    d: int,
)
    requires
        chunk.gc matches Some(gc) ==> gc.cols() == 1,
        0 <= j < nl,
        forall|i: int| 0 <= i < nl ==> #[trigger] raw(i, j) == da(i, j) * head_span(chunk, i, j),
    ensures
        mat_mul(nl, transposed(raw), rows)(j, d) == score_keys(nl, da, rows, chunk.gate())(j, d),
{
    let f = |i: int| transposed(raw)(j, i) * rows(i, d);
    let h = |i: int| da(i, j) * (rows(i, d) * span(chunk.gate(), i, j, d));
    assert forall|i: int| 0 <= i < nl implies #[trigger] f(i) == h(i) by {
        assert(raw(i, j) == da(i, j) * head_span(chunk, i, j));
        let (a, b, c) = (da(i, j), head_span(chunk, i, j), rows(i, d));
        assert((a * b) * c == a * (c * b)) by {
            broadcast use {lemma_mul_commutes, lemma_mul_associates};

        }
    }
    lemma_sum_ext(nl, f, h);
}

/// The terms of one pair of steps, summed over the channels.
proof fn lemma_head_terms<R: Ring>(
    chunk: Chunk<R>,
    nk: int,
    raw: R,
    da: Mat<R>,
    rows: Mat<R>,
    i: int,
    j: int,
)
    requires
        chunk.gc matches Some(gc) ==> gc.cols() == 1,
        raw == da(i, j) * head_span(chunk, i, j),
    ensures
        raw * mat_mul(nk, rows, transposed(chunk.k@))(i, j) == sum(
            nk,
            |d: int| score_term(da, rows, chunk.k@, chunk.gate(), i, j, d),
        ),
{
    let k = chunk.k@;
    let f = |d: int| rows(i, d) * transposed(k)(d, j);
    lemma_sum_scale(nk, raw, f);
    let h = |d: int| score_term(da, rows, k, chunk.gate(), i, j, d);
    assert forall|d: int| 0 <= d < nk implies raw * #[trigger] f(d) == h(d) by {
        let (a, b, x) = (da(i, j), head_span(chunk, i, j), rows(i, d) * k(j, d));
        assert((a * b) * x == a * (x * b)) by {
            broadcast use {lemma_mul_commutes, lemma_mul_associates};

        }
    }
    lemma_sum_ext(nk, |d: int| raw * f(d), h);
}

proof fn lemma_head_gate<R: Ring>(
    chunk: Chunk<R>,
    nl: int,
    nk: int,
    raw_kk: Mat<R>,
    d_akk: Mat<R>,
    ke: Mat<R>,
    raw_qk: Mat<R>,
    d_aqk: Mat<R>,
    diff: Mat<R>,
    i: int,
)
    requires
        chunk.gc matches Some(gc) ==> gc.cols() == 1,
        0 <= i < nl,
        forall|a: int, b: int|
            0 <= a < nl && 0 <= b < nl ==> #[trigger] raw_kk(a, b) == d_akk(a, b) * head_span(
                chunk,
                a,
                b,
            ),
        forall|a: int, b: int|
            0 <= a < nl && 0 <= b < nl ==> #[trigger] raw_qk(a, b) == d_aqk(a, b) * head_span(
                chunk,
                a,
                b,
            ),
        diff == mat_add(
            hadamard(raw_kk, mat_mul(nk, ke, transposed(chunk.k@))),
            hadamard(raw_qk, mat_mul(nk, chunk.q@, transposed(chunk.k@))),
        ),
    ensures
        sum(nl, |j: int| diff(i, j)) - sum(nl, |j: int| diff(j, i)) == sum(
            nk,
            |d: int|
                mat_add(
                    score_gate(nl, d_aqk, chunk.q@, chunk.k@, chunk.gate()),
                    score_gate(nl, d_akk, ke, chunk.k@, chunk.gate()),
                )(i, d),
        ),
{
    let (q, k, g) = (chunk.q@, chunk.k@, chunk.gate());
    let term = |a: int, b: int, d: int|
        score_term(d_aqk, q, k, g, a, b, d) + score_term(d_akk, ke, k, g, a, b, d);
    assert forall|a: int, b: int| 0 <= a < nl && 0 <= b < nl implies #[trigger] diff(a, b) == sum(
        nk,
        |d: int| term(a, b, d),
    ) by {
        lemma_head_terms(chunk, nk, raw_kk(a, b), d_akk, ke, a, b);
        lemma_head_terms(chunk, nk, raw_qk(a, b), d_aqk, q, a, b);
        let x = |d: int| score_term(d_aqk, q, k, g, a, b, d);
        let y = |d: int| score_term(d_akk, ke, k, g, a, b, d);
        lemma_sum_add(nk, x, y);
        lemma_sum_ext(nk, |d: int| x(d) + y(d), |d: int| term(a, b, d));
        R::add_commutes(sum(nk, x), sum(nk, y));
    }
    let rows = |d: int| sum(nl, |j: int| term(i, j, d));
    let cols = |d: int| sum(nl, |j: int| term(j, i, d));
    let fr = |j: int, d: int| term(i, j, d);
    let fc = |j: int, d: int| term(j, i, d);
    let (dr, dc) = (|j: int| diff(i, j), |j: int| diff(j, i));
    assert forall|j: int| 0 <= j < nl implies #[trigger] dr(j) == sum(nk, |d: int| fr(j, d)) by {
        assert(diff(i, j) == sum(nk, |d: int| term(i, j, d)));
        lemma_sum_ext(nk, |d: int| term(i, j, d), |d: int| fr(j, d));
    }
    assert forall|j: int| 0 <= j < nl implies #[trigger] dc(j) == sum(nk, |d: int| fc(j, d)) by {
        assert(diff(j, i) == sum(nk, |d: int| term(j, i, d)));
        lemma_sum_ext(nk, |d: int| term(j, i, d), |d: int| fc(j, d));
    }
    assert forall|d: int| 0 <= d < nk implies #[trigger] rows(d) == sum(nl, |j: int| fr(j, d)) by {
        lemma_sum_ext(nl, |j: int| term(i, j, d), |j: int| fr(j, d));
    }
    assert forall|d: int| 0 <= d < nk implies #[trigger] cols(d) == sum(nl, |j: int| fc(j, d)) by {
        lemma_sum_ext(nl, |j: int| term(j, i, d), |j: int| fc(j, d));
    }
    lemma_swapped(nl, nk, fr, dr, rows);
    lemma_swapped(nl, nk, fc, dc, cols);
    lemma_sum_sub(nk, rows, cols);
    let full = mat_add(score_gate(nl, d_aqk, q, k, g), score_gate(nl, d_akk, ke, k, g));
    assert forall|d: int| 0 <= d < nk implies rows(d) - cols(d) == #[trigger] full(i, d) by {
        let rq = |j: int| score_term(d_aqk, q, k, g, i, j, d);
        let rk = |j: int| score_term(d_akk, ke, k, g, i, j, d);
        let cq = |j: int| score_term(d_aqk, q, k, g, j, i, d);
        let ck = |j: int| score_term(d_akk, ke, k, g, j, i, d);
        lemma_sum_add(nl, rq, rk);
        lemma_sum_add(nl, cq, ck);
        lemma_sum_ext(nl, |j: int| term(i, j, d), |j: int| rq(j) + rk(j));
        lemma_sum_ext(nl, |j: int| term(j, i, d), |j: int| cq(j) + ck(j));
        lemma_difference_of_sums(sum(nl, rq), sum(nl, rk), sum(nl, cq), sum(nl, ck));
    }
    lemma_sum_ext(nk, |d: int| rows(d) - cols(d), |d: int| full(i, d));
}

/// `(a + b) - (c + d) == (a - c) + (b - d)`
pub proof fn lemma_difference_of_sums<R: Ring>(a: R, b: R, c: R, d: R)
    ensures
        (a + b) - (c + d) == (a - c) + (b - d),
{
    broadcast use crate::ring::group_add;

}

/// A sum of inner sums, in the other order.
pub proof fn lemma_swapped<R: Ring>(
    n: int,
    m: int,
    f: spec_fn(int, int) -> R,
    outer: spec_fn(int) -> R,
    inner: spec_fn(int) -> R,
)
    requires
        forall|j: int| 0 <= j < n ==> #[trigger] outer(j) == sum(m, |d: int| f(j, d)),
        forall|d: int| 0 <= d < m ==> #[trigger] inner(d) == sum(n, |j: int| f(j, d)),
    ensures
        sum(n, outer) == sum(m, inner),
{
    lemma_sum_swap(n, m, f);
    lemma_sum_ext(n, outer, |j: int| sum(m, |d: int| f(j, d)));
    lemma_sum_ext(m, inner, |d: int| sum(n, |j: int| f(j, d)));
}

} // verus!
