//! The gradient of the scores when the forget gate differs between key channels.
use vstd::arithmetic::div_mod::{lemma_fundamental_div_mod, lemma_fundamental_div_mod_converse};
use vstd::prelude::*;

use crate::delta::adjoint::{score_gate, score_keys, score_rows, score_term, span};
use crate::delta::backward::{causal, ScoreGrads};
use crate::delta::decay::{
    column_factor, lemma_blocks, reference_row, row_factor, BlockDecay,
};
use crate::delta::forward::Chunk;
use crate::delta::tri::block_of;
use crate::mat::{hadamard, mat_add, mat_mul, transposed, Mat};
use crate::matrix::{row_window, Matrix};
use crate::ring::{
    lemma_add_zero, lemma_distributes_right, lemma_expo_chain, lemma_mul_associates,
    lemma_mul_commutes, lemma_sub_self, lemma_zero_mul, Ring, Scalar,
};
use crate::sum::{lemma_sum_add, lemma_sum_ext, lemma_sum_blocks, lemma_sum_scale_right, sum};

verus! {

/// What one pair of steps contributes to the gradient of the later step's key.
spec fn key_term<R: Ring>(da: Mat<R>, rows: Mat<R>, g: Mat<R>, i: int, j: int, d: int) -> R {
    da(i, j) * (rows(i, d) * span(g, i, j, d))
}

/// The two factors of a pair of steps multiply to the decay between them, or the
/// pair is not causal.
proof fn lemma_factors<R: Ring>(
    nl: int,
    m: int,
    g: Mat<R>,
    da: Mat<R>,
    i: int,
    j: int,
    d: int,
)
    requires
        0 < m,
        0 < nl,
        nl % m == 0,
        causal(nl, da),
        0 <= i < nl,
        0 <= j < nl,
    ensures
        da(i, j) * (row_factor(m, g)(i, d) * column_factor(m, g, block_of(m, i))(j, d)) == da(i, j)
            * span(g, i, j, d),
{
    lemma_blocks(nl, m);
    let p = block_of(m, i);
    if block_of(m, j) <= p {
        lemma_expo_chain(g(i, d), g(reference_row(m, p), d), g(j, d));
    } else {
        if j <= i {
            assert(block_of(m, j) <= block_of(m, i));
        }
        assert(da(i, j) == R::zero());
        broadcast use lemma_zero_mul;

    }
}

/// The gradient of already-scaled rows: each row of `da` against the keys as the
/// row's own block sees them.
fn against_columns<T: Scalar>(decay: &BlockDecay<T>, da: &Matrix<T>) -> (r: Matrix<T>)
    requires
        decay.shaped(da.rows() as int, decay.row.cols() as int),
        da.rows() == da.cols(),
    ensures
        r.has_shape(da.rows() as int, decay.row.cols() as int),
        forall|i: int, d: int|
            0 <= i < da.rows() && 0 <= d < decay.row.cols() ==> #[trigger] r@(i, d) == sum(
                da.rows() as int,
                |j: int| da@(i, j) * decay.col@[block_of(decay.block_len as int, i)]@(j, d),
            ),
{
    let n: usize = da.rows();
    let m: usize = decay.block_len;
    let nk: usize = decay.row.cols();
    let f = |i: usize, d: usize| -> (r: T)
        requires
            i < n,
            d < nk,
        ensures
            r == sum(
                n as int,
                |j: int|
                    da@(i as int, j) * decay.col@[block_of(m as int, i as int)]@(j, d as int),
            ),
        {
            proof {
                lemma_blocks(n as int, m as int);
                assert(0 <= block_of(m as int, i as int) < n as int / m as int);
            }
            let col = &decay.col[i / m];
            let ghost terms = |j: int|
                da@(i as int, j) * decay.col@[block_of(m as int, i as int)]@(j, d as int);
            let mut r = T::nil();
            for j in 0..n
                invariant
                    i < n,
                    d < nk,
                    n == da.rows(),
                    n == da.cols(),
                    col.has_shape(n as int, nk as int),
                    *col == decay.col@[block_of(m as int, i as int)],
                    terms == (|j: int|
                        da@(i as int, j) * decay.col@[block_of(m as int, i as int)]@(j, d as int)),
                    r == sum(j as int, terms),
            {
                r = r.plus(da.at(i, j).times(col.at(j, d)));
                assert(sum(j + 1, terms) == sum(j as int, terms) + terms(j as int));
            }
            r
        };
    Matrix::from_fn(n, nk, f)
}

/// Scaled rows of a gradient, with their factor restored, are the gradient of the rows.
proof fn lemma_rows_restored<R: Ring>(
    decay: BlockDecay<R>,
    nl: int,
    nk: int,
    k: Mat<R>,
    g: Mat<R>,
    da: Mat<R>,
    rows: Mat<R>,
    scaled: R,
    i: int,
    d: int,
)
    requires
        decay.splits(nl, nk, k, g),
        causal(nl, da),
        0 <= i < nl,
        0 <= d < nk,
        scaled == sum(
            nl,
            |j: int| da(i, j) * decay.col@[block_of(decay.block_len as int, i)]@(j, d),
        ),
    ensures
        scaled * decay.row@(i, d) == score_rows(nl, da, k, g)(i, d),
        (scaled * rows(i, d)) * decay.row@(i, d) == sum(
            nl,
            |j: int| score_term(da, rows, k, g, i, j, d),
        ),
{
    let m = decay.block_len as int;
    lemma_blocks(nl, m);
    let p = block_of(m, i);
    let e = decay.row@(i, d);
    assert(e == row_factor(m, g)(i, d));
    let f = |j: int| da(i, j) * decay.col@[p]@(j, d);
    let h = |j: int| da(i, j) * (k(j, d) * span(g, i, j, d));
    lemma_sum_scale_right(nl, f, e);
    assert forall|j: int| 0 <= j < nl implies #[trigger] f(j) * e == h(j) by {
        lemma_factors(nl, m, g, da, i, j, d);
        let c = column_factor(m, g, p)(j, d);
        assert(decay.col@[p]@(j, d) == k(j, d) * c);
        let (w, x, s) = (da(i, j), k(j, d), span(g, i, j, d));
        assert((w * (x * c)) * e == x * (w * (e * c))) by {
            broadcast use {lemma_mul_commutes, lemma_mul_associates};

        }
        assert(x * (w * s) == w * (x * s)) by {
            broadcast use {lemma_mul_commutes, lemma_mul_associates};

        }
    }
    lemma_sum_ext(nl, |j: int| f(j) * e, h);
    let r = rows(i, d);
    assert((scaled * r) * e == (scaled * e) * r) by {
        broadcast use {lemma_mul_commutes, lemma_mul_associates};

    }
    lemma_sum_scale_right(nl, h, r);
    assert forall|j: int| 0 <= j < nl implies #[trigger] h(j) * r == score_term(
        da,
        rows,
        k,
        g,
        i,
        j,
        d,
    ) by {
        let (w, x, s) = (da(i, j), k(j, d), span(g, i, j, d));
        assert((w * (x * s)) * r == w * ((r * x) * s)) by {
            broadcast use {lemma_mul_commutes, lemma_mul_associates};

        }
    }
    lemma_sum_ext(nl, |j: int| h(j) * r, |j: int| score_term(da, rows, k, g, i, j, d));
}

/// What one block of rows contributes to the gradient of a column.
proof fn lemma_block_column<R: Ring>(
    decay: BlockDecay<R>,
    nl: int,
    nk: int,
    k: Mat<R>,
    g: Mat<R>,
    da: Mat<R>,
    rows: Mat<R>,
    p: int,
    j: int,
    d: int,
)
    requires
        decay.splits(nl, nk, k, g),
        causal(nl, da),
        0 <= p < nl / decay.block_len as int,
        0 <= j < nl,
        0 <= d < nk,
    ensures
        ({
            let m = decay.block_len as int;
            mat_mul(
                m,
                transposed(row_window(da, p * m, m)),
                row_window(hadamard(rows, decay.row@), p * m, m),
            )(j, d) * decay.col_exp@[p]@(j, d) == sum(
                m,
                |r: int| key_term(da, rows, g, p * m + r, j, d),
            )
        }),
{
    let m = decay.block_len as int;
    lemma_blocks(nl, m);
    let c = decay.col_exp@[p]@(j, d);
    assert(c == column_factor(m, g, p)(j, d));
    let (wa, wr) = (row_window(da, p * m, m), row_window(hadamard(rows, decay.row@), p * m, m));
    let f = |r: int| transposed(wa)(j, r) * wr(r, d);
    lemma_sum_scale_right(m, f, c);
    assert forall|r: int| 0 <= r < m implies #[trigger] f(r) * c == key_term(
        da,
        rows,
        g,
        p * m + r,
        j,
        d,
    ) by {
        let i = p * m + r;
        lemma_in_block(nl, m, p, r);
        lemma_factors(nl, m, g, da, i, j, d);
        let (w, x, e, s) = (da(i, j), rows(i, d), decay.row@(i, d), span(g, i, j, d));
        assert(e == row_factor(m, g)(i, d));
        assert((w * (x * e)) * c == x * (w * (e * c))) by {
            broadcast use {lemma_mul_commutes, lemma_mul_associates};

        }
        assert(x * (w * s) == w * (x * s)) by {
            broadcast use {lemma_mul_commutes, lemma_mul_associates};

        }
    }
    lemma_sum_ext(m, |r: int| f(r) * c, |r: int| key_term(da, rows, g, p * m + r, j, d));
}

/// Row `r` of block `p` is row `p * m + r` of the chunk.
proof fn lemma_in_block(nl: int, m: int, p: int, r: int)
    requires
        0 < m,
        0 < nl,
        nl % m == 0,
        0 <= p < nl / m,
        0 <= r < m,
    ensures
        0 <= p * m + r < nl,
        block_of(m, p * m + r) == p,
{
    lemma_blocks(nl, m);
    lemma_fundamental_div_mod_converse(p * m + r, m, p, r);
    let n = nl / m;
    assert(0 <= p * m && p * m + m <= n * m) by (nonlinear_arith)
        requires
            0 <= p,
            p + 1 <= n,
            m > 0,
    ;
}

/// What the pair of steps `(i, j)` contributes to the gradient of the accumulated
/// log decay on channel `d`.
spec fn both_terms<R: Ring>(
    d_akk: Mat<R>,
    ke: Mat<R>,
    d_aqk: Mat<R>,
    q: Mat<R>,
    k: Mat<R>,
    g: Mat<R>,
    i: int,
    j: int,
    d: int,
) -> R {
    score_term(d_aqk, q, k, g, i, j, d) + score_term(d_akk, ke, k, g, i, j, d)
}

/// What the pair of steps `(i, j)` contributes to the gradient of the key at `j`.
spec fn both_keys<R: Ring>(
    d_akk: Mat<R>,
    ke: Mat<R>,
    d_aqk: Mat<R>,
    q: Mat<R>,
    g: Mat<R>,
    i: int,
    j: int,
    d: int,
) -> R {
    key_term(d_akk, ke, g, i, j, d) + key_term(d_aqk, q, g, i, j, d)
}

proof fn lemma_keys_to_terms<R: Ring>(
    d_akk: Mat<R>,
    ke: Mat<R>,
    d_aqk: Mat<R>,
    q: Mat<R>,
    k: Mat<R>,
    g: Mat<R>,
    i: int,
    j: int,
    d: int,
)
    ensures
        both_keys(d_akk, ke, d_aqk, q, g, i, j, d) * k(j, d) == both_terms(
            d_akk,
            ke,
            d_aqk,
            q,
            k,
            g,
            i,
            j,
            d,
        ),
{
    let (x, y) = (key_term(d_akk, ke, g, i, j, d), key_term(d_aqk, q, g, i, j, d));
    lemma_distributes_right(k(j, d), x, y);
    let s = span(g, i, j, d);
    let (a, b, c, e, f) = (d_akk(i, j), ke(i, d), d_aqk(i, j), q(i, d), k(j, d));
    assert((a * (b * s)) * f == a * ((b * f) * s)) by {
        broadcast use {lemma_mul_commutes, lemma_mul_associates};

    }
    assert((c * (e * s)) * f == c * ((e * f) * s)) by {
        broadcast use {lemma_mul_commutes, lemma_mul_associates};

    }
    R::add_commutes(x * f, y * f);
}

/// Places the rows of `rows`, one per block, at row `at` of each block.
pub fn scatter_block_row<T: Scalar>(
    rows: &Matrix<T>,
    chunk_len: usize,
    m: usize,
    at: usize,
) -> (r: Matrix<T>)
    requires
        0 < m,
        0 < chunk_len,
        chunk_len % m == 0,
        rows.rows() == chunk_len / m,
        at < m,
    ensures
        r.has_shape(chunk_len as int, rows.cols() as int),
        forall|i: int, d: int|
            0 <= i < chunk_len && 0 <= d < rows.cols() ==> #[trigger] r@(i, d) == (if i % (m as int)
                == at {
                rows@(block_of(m as int, i), d)
            } else {
                T::zero()
            }),
{
    let f = |i: usize, d: usize| -> (r: T)
        requires
            i < chunk_len,
            d < rows.cols(),
        ensures
            r == (if i as int % m as int == at {
                rows@(block_of(m as int, i as int), d as int)
            } else {
                T::zero()
            }),
        {
            proof {
                lemma_blocks(chunk_len as int, m as int);
                assert(0 <= block_of(m as int, i as int) < chunk_len as int / m as int);
            }
            if i % m == at {
                rows.at(i / m, d)
            } else {
                T::nil()
            }
        };
    Matrix::from_fn(chunk_len, rows.cols(), f)
}

/// The gradient of scores with one decay per channel, through the two factors the
/// decay is split into.
pub fn channel_scores_backward<T: Scalar>(
    chunk: &Chunk<T>,
    ke: &Matrix<T>,
    d_akk: &Matrix<T>,
    d_aqk: &Matrix<T>,
) -> (r: ScoreGrads<T>)
    requires
        chunk.well_formed(),
        chunk.gc matches Some(gc) && gc.cols() != 1,
        ke.has_shape(chunk.k.rows() as int, chunk.k.cols() as int),
        d_akk.has_shape(chunk.k.rows() as int, chunk.k.rows() as int),
        d_aqk.has_shape(chunk.k.rows() as int, chunk.k.rows() as int),
        causal(chunk.k.rows() as int, d_akk@),
        causal(chunk.k.rows() as int, d_aqk@),
    ensures
        r.differentiates(*chunk, ke@, d_akk@, d_aqk@),
{
    let gc = chunk.gc.as_ref().unwrap();
    let n: usize = chunk.k.rows();
    let nk: usize = chunk.k.cols();
    let ghost (q, k, g) = (chunk.q@, chunk.k@, gc@);
    let decay = BlockDecay::new(&chunk.k, gc);
    let m: usize = decay.block_len;
    let nblocks: usize = n / m;
    let rows_ke = decay.rows_scaled(ke);
    let rows_q = decay.rows_scaled(&chunk.q);
    // The rows, and the factor of each row.
    let d_rows_ke = against_columns(&decay, d_akk);
    let d_rows_q = against_columns(&decay, d_aqk);
    let d_ke = d_rows_ke.times(&decay.row);
    let d_q = d_rows_q.times(&decay.row);
    let d_row = d_rows_ke.times(ke).plus(&d_rows_q.times(&chunk.q));
    let d_row_arg = d_row.times(&decay.row);
    let ghost term = |i: int, j: int, d: int|
        both_terms(d_akk@, ke@, d_aqk@, q, k, g, i, j, d);
    let ghost key = |i: int, j: int, d: int| both_keys(d_akk@, ke@, d_aqk@, q, g, i, j, d);
    proof {
        assert(chunk.gate() =~= g);
        assert forall|i: int, d: int| 0 <= i < n && 0 <= d < nk implies #[trigger] d_ke@(i, d)
            == score_rows(n as int, d_akk@, k, g)(i, d) by {
            lemma_rows_restored(
                decay,
                n as int,
                nk as int,
                k,
                g,
                d_akk@,
                ke@,
                d_rows_ke@(i, d),
                i,
                d,
            );
        }
        assert forall|i: int, d: int| 0 <= i < n && 0 <= d < nk implies #[trigger] d_q@(i, d)
            == score_rows(n as int, d_aqk@, k, g)(i, d) by {
            lemma_rows_restored(
                decay,
                n as int,
                nk as int,
                k,
                g,
                d_aqk@,
                q,
                d_rows_q@(i, d),
                i,
                d,
            );
        }
        assert forall|i: int, d: int| 0 <= i < n && 0 <= d < nk implies #[trigger] d_row_arg@(i, d)
            == sum(n as int, |j: int| term(i, j, d)) by {
            lemma_rows_restored(
                decay,
                n as int,
                nk as int,
                k,
                g,
                d_akk@,
                ke@,
                d_rows_ke@(i, d),
                i,
                d,
            );
            lemma_rows_restored(
                decay,
                n as int,
                nk as int,
                k,
                g,
                d_aqk@,
                q,
                d_rows_q@(i, d),
                i,
                d,
            );
            let (x, y) = (d_rows_ke@(i, d) * ke@(i, d), d_rows_q@(i, d) * q(i, d));
            lemma_distributes_right(decay.row@(i, d), x, y);
            let a = |j: int| score_term(d_aqk@, q, k, g, i, j, d);
            let b = |j: int| score_term(d_akk@, ke@, k, g, i, j, d);
            lemma_sum_add(n as int, a, b);
            lemma_sum_ext(n as int, |j: int| a(j) + b(j), |j: int| term(i, j, d));
            T::add_commutes(sum(n as int, a), sum(n as int, b));
        }
    }
    // The columns, block of rows by block of rows.
    let mut d_k: Matrix<T> = Matrix::zeros(n, nk);
    let mut d_col_args: Matrix<T> = Matrix::zeros(n, nk);
    let mut refs: Vec<Vec<T>> = Vec::with_capacity(nblocks);
    proof {
        lemma_blocks(n as int, m as int);
    }
    for p in 0..nblocks
        invariant
            chunk.well_formed(),
            chunk.k.has_shape(n as int, nk as int),
            chunk.q.has_shape(n as int, nk as int),
            ke.has_shape(n as int, nk as int),
            d_akk.has_shape(n as int, n as int),
            d_aqk.has_shape(n as int, n as int),
            causal(n as int, d_akk@),
            causal(n as int, d_aqk@),
            q == chunk.q@,
            k == chunk.k@,
            n > 0,
            m == decay.block_len,
            nblocks == n / m,
            (nblocks as int) * (m as int) == n,
            decay.splits(n as int, nk as int, k, g),
            rows_ke.has_shape(n as int, nk as int),
            rows_ke@ == hadamard(ke@, decay.row@),
            rows_q.has_shape(n as int, nk as int),
            rows_q@ == hadamard(q, decay.row@),
            d_row_arg.has_shape(n as int, nk as int),
            term == (|i: int, j: int, d: int|
                both_terms(d_akk@, ke@, d_aqk@, q, k, g, i, j, d)),
            key == (|i: int, j: int, d: int| both_keys(d_akk@, ke@, d_aqk@, q, g, i, j, d)),
            forall|i: int, d: int|
                0 <= i < n && 0 <= d < nk ==> #[trigger] d_row_arg@(i, d) == sum(
                    n as int,
                    |j: int| term(i, j, d),
                ),
            d_k.has_shape(n as int, nk as int),
            d_col_args.has_shape(n as int, nk as int),
            refs@.len() == p,
            forall|b: int| 0 <= b < p ==> (#[trigger] refs@[b])@.len() == nk,
            forall|b: int, d: int|
                0 <= b < p && 0 <= d < nk ==> #[trigger] refs@[b]@[d] == T::zero(),
            forall|j: int, d: int|
                0 <= j < n && 0 <= d < nk ==> #[trigger] d_k@(j, d) == sum(
                    p as int,
                    |b: int| sum(m as int, |r: int| key(b * m + r, j, d)),
                ),
            forall|j: int, d: int|
                0 <= j < n && 0 <= d < nk ==> #[trigger] d_col_args@(j, d) == sum(
                    p as int,
                    |b: int| sum(m as int, |r: int| term(b * m + r, j, d)),
                ),
    {
        proof {
            lemma_blocks(n as int, m as int);
            assert(0 <= p * m && p * m + m <= nblocks * m) by (nonlinear_arith)
                requires
                    0 <= p,
                    p + 1 <= nblocks,
                    m > 0,
            ;
        }
        let start: usize = p * m;
        let from_ke = d_akk.window(start, m).transpose().matmul(&rows_ke.window(start, m));
        let from_q = d_aqk.window(start, m).transpose().matmul(&rows_q.window(start, m));
        let d_col = from_ke.plus(&from_q);
        let weighted = d_col.times(&decay.col_exp[p]);
        let d_arg = weighted.times(&chunk.k);
        proof {
            let mi = m as int;
            assert forall|j: int, d: int| 0 <= j < n && 0 <= d < nk implies #[trigger] weighted@(
                j,
                d,
            ) == sum(mi, |r: int| key(p * m + r, j, d)) by {
                lemma_block_column(
                    decay,
                    n as int,
                    nk as int,
                    k,
                    g,
                    d_akk@,
                    ke@,
                    p as int,
                    j,
                    d,
                );
                lemma_block_column(
                    decay,
                    n as int,
                    nk as int,
                    k,
                    g,
                    d_aqk@,
                    q,
                    p as int,
                    j,
                    d,
                );
                lemma_distributes_right(decay.col_exp@[p as int]@(j, d), from_ke@(j, d), from_q@(
                    j,
                    d,
                ));
                let x = |r: int| key_term(d_akk@, ke@, g, p * m + r, j, d);
                let y = |r: int| key_term(d_aqk@, q, g, p * m + r, j, d);
                lemma_sum_add(mi, x, y);
                lemma_sum_ext(mi, |r: int| x(r) + y(r), |r: int| key(p * m + r, j, d));
            }
            assert forall|j: int, d: int| 0 <= j < n && 0 <= d < nk implies #[trigger] d_arg@(j, d)
                == sum(mi, |r: int| term(p * m + r, j, d)) by {
                assert(weighted@(j, d) == sum(mi, |r: int| key(p * m + r, j, d)));
                let x = |r: int| key(p * m + r, j, d);
                lemma_sum_scale_right(mi, x, k(j, d));
                assert forall|r: int| 0 <= r < mi implies #[trigger] x(r) * k(j, d) == term(
                    p * m + r,
                    j,
                    d,
                ) by {
                    lemma_keys_to_terms(d_akk@, ke@, d_aqk@, q, k, g, p * m + r, j, d);
                }
                lemma_sum_ext(mi, |r: int| x(r) * k(j, d), |r: int| term(p * m + r, j, d));
            }
        }
        // The reference row: what the columns pass on, less what the rows do.
        let block_args = d_row_arg.window(start, m);
        let mut reference: Vec<T> = Vec::with_capacity(nk);
        for d in 0..nk
            invariant
                d_arg.has_shape(n as int, nk as int),
                block_args.has_shape(m as int, nk as int),
                block_args@ == row_window(d_row_arg@, start as int, m as int),
                start == p * m,
                p < nblocks,
                nblocks == n / m,
                n > 0,
                m > 0,
                n as int % m as int == 0,
                forall|i: int, d: int|
                    0 <= i < n && 0 <= d < nk ==> #[trigger] d_row_arg@(i, d) == sum(
                        n as int,
                        |j: int| term(i, j, d),
                    ),
                forall|j: int, d: int|
                    0 <= j < n && 0 <= d < nk ==> #[trigger] d_arg@(j, d) == sum(
                        m as int,
                        |r: int| term(p * m + r, j, d),
                    ),
                reference@.len() == d,
                forall|e: int| 0 <= e < d ==> #[trigger] reference@[e] == T::zero(),
        {
            let from_columns = d_arg.column_total(d);
            let from_rows = block_args.column_total(d);
            proof {
                let (ni, mi, di) = (n as int, m as int, d as int);
                let f = |j: int, r: int| term(p * m + r, j, di);
                let outer = |j: int| d_arg@(j, di);
                let inner = |r: int| block_args@(r, di);
                assert forall|j: int| 0 <= j < ni implies #[trigger] outer(j) == sum(
                    mi,
                    |r: int| f(j, r),
                ) by {
                    assert(d_arg@(j, di) == sum(mi, |r: int| term(p * m + r, j, di)));
                    lemma_sum_ext(mi, |r: int| term(p * m + r, j, di), |r: int| f(j, r));
                }
                assert forall|r: int| 0 <= r < mi implies #[trigger] inner(r) == sum(
                    ni,
                    |j: int| f(j, r),
                ) by {
                    lemma_in_block(ni, mi, p as int, r);
                    assert(d_row_arg@(p * m + r, di) == sum(
                        ni,
                        |j: int| term(p * m + r, j, di),
                    ));
                    lemma_sum_ext(ni, |j: int| term(p * m + r, j, di), |j: int| f(j, r));
                }
                crate::delta::backward::lemma_swapped(ni, mi, f, outer, inner);
                lemma_sub_self(from_columns);
            }
            reference.push(from_columns.minus(from_rows));
        }
        refs.push(reference);
        let ghost (old_k, old_args) = (d_k@, d_col_args@);
        d_k = d_k.plus(&weighted);
        d_col_args = d_col_args.plus(&d_arg);
        proof {
            assert forall|j: int, d: int| 0 <= j < n && 0 <= d < nk implies #[trigger] d_k@(j, d)
                == sum(p + 1, |b: int| sum(m as int, |r: int| key(b * m + r, j, d))) by {
                let blocks = |b: int| sum(m as int, |r: int| key(b * m + r, j, d));
                assert(old_k(j, d) == sum(p as int, blocks));
                assert(weighted@(j, d) == blocks(p as int));
                assert(sum(p + 1, blocks) == sum(p as int, blocks) + blocks(p as int));
            }
            assert forall|j: int, d: int| 0 <= j < n && 0 <= d < nk implies
                #[trigger] d_col_args@(j, d) == sum(
                p + 1,
                |b: int| sum(m as int, |r: int| term(b * m + r, j, d)),
            ) by {
                let blocks = |b: int| sum(m as int, |r: int| term(b * m + r, j, d));
                assert(old_args(j, d) == sum(p as int, blocks));
                assert(d_arg@(j, d) == blocks(p as int));
                assert(sum(p + 1, blocks) == sum(p as int, blocks) + blocks(p as int));
            }
        }
    }
    let d_refs = Matrix::from_rows(refs, nk);
    let scattered = scatter_block_row(&d_refs, n, m, m / 2);
    let d_gc = d_row_arg.plus(&scattered).minus(&d_col_args);
    proof {
        let ni = n as int;
        assert forall|j: int, d: int| 0 <= j < n && 0 <= d < nk implies #[trigger] d_k@(j, d)
            == mat_add(score_keys(ni, d_akk@, ke@, g), score_keys(ni, d_aqk@, q, g))(j, d) by {
            let f = |i: int| key(i, j, d);
            lemma_sum_blocks(nblocks as int, m as int, f);
            let blocks = |b: int| sum(m as int, |r: int| key(b * m + r, j, d));
            assert forall|b: int| 0 <= b < nblocks implies #[trigger] blocks(b) == sum(
                m as int,
                |r: int| f(b * (m as int) + r),
            ) by {
                lemma_sum_ext(
                    m as int,
                    |r: int| key(b * m + r, j, d),
                    |r: int| f(b * (m as int) + r),
                );
            }
            lemma_nested(nblocks as int, m as int, f, blocks);
            let x = |i: int| d_akk@(i, j) * (ke@(i, d) * span(g, i, j, d));
            let y = |i: int| d_aqk@(i, j) * (q(i, d) * span(g, i, j, d));
            lemma_sum_add(ni, x, y);
            lemma_sum_ext(ni, f, |i: int| x(i) + y(i));
        }
        let full = mat_add(
            score_gate(ni, d_aqk@, q, k, g),
            score_gate(ni, d_akk@, ke@, k, g),
        );
        assert forall|i: int, d: int| 0 <= i < n && 0 <= d < nk implies #[trigger] d_gc@(i, d)
            == full(i, d) by {
            let f = |a: int| term(a, i, d);
            lemma_sum_blocks(nblocks as int, m as int, f);
            let blocks = |b: int| sum(m as int, |r: int| term(b * m + r, i, d));
            assert forall|b: int| 0 <= b < nblocks implies #[trigger] blocks(b) == sum(
                m as int,
                |r: int| f(b * (m as int) + r),
            ) by {
                lemma_sum_ext(
                    m as int,
                    |r: int| term(b * m + r, i, d),
                    |r: int| f(b * (m as int) + r),
                );
            }
            lemma_nested(nblocks as int, m as int, f, blocks);
            assert(d_col_args@(i, d) == sum(ni, f));
            lemma_blocks(ni, m as int);
            assert(0 <= block_of(m as int, i) < nblocks);
            assert(d_refs@(block_of(m as int, i), d) == T::zero());
            assert(scattered@(i, d) == T::zero());
            lemma_add_zero(d_row_arg@(i, d));
            let rq = |j: int| score_term(d_aqk@, q, k, g, i, j, d);
            let rk = |j: int| score_term(d_akk@, ke@, k, g, i, j, d);
            let cq = |j: int| score_term(d_aqk@, q, k, g, j, i, d);
            let ck = |j: int| score_term(d_akk@, ke@, k, g, j, i, d);
            lemma_sum_add(ni, rq, rk);
            lemma_sum_add(ni, cq, ck);
            lemma_sum_ext(ni, |j: int| term(i, j, d), |j: int| rq(j) + rk(j));
            lemma_sum_ext(ni, f, |j: int| cq(j) + ck(j));
            crate::delta::backward::lemma_difference_of_sums(
                sum(ni, rq),
                sum(ni, rk),
                sum(ni, cq),
                sum(ni, ck),
            );
        }
    }
    ScoreGrads { d_ke, d_q, d_k, d_gc: Some(d_gc) }
}

/// A nested sum over blocks, however its terms are written.
proof fn lemma_nested<R: Ring>(nb: int, m: int, f: spec_fn(int) -> R, blocks: spec_fn(int) -> R)
    requires
        forall|b: int|
            0 <= b < nb ==> #[trigger] blocks(b) == sum(m, |r: int| f(b * m + r)),
    ensures
        sum(nb, blocks) == sum(nb, |b: int| sum(m, |r: int| f(b * m + r))),
{
    lemma_sum_ext(nb, blocks, |b: int| sum(m, |r: int| f(b * m + r)));
}

} // verus!
