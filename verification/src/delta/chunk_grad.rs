//! The gradient of one chunk.
use vstd::prelude::*;

use crate::delta::adjoint::{score_gate, score_keys, score_rows, score_term, span};
use crate::delta::backward::{causal, head_scores_backward, reduce_to_width, reduced};
use crate::delta::channel::channel_scores_backward;
use crate::delta::forward::{gate_at, gate_width, gated_by, Chunk, Wy};
use crate::delta::frame::{at_row, Cotangent, Frame};
use crate::mat::{
    agree, hadamard, lemma_mul_add_left, lemma_mul_add_right, lemma_mul_agree_left,
    lemma_mul_agree_right, lemma_mul_assoc, lemma_mul_neg_left, lemma_mul_neg_right,
    lemma_mul_sub_right, lemma_sub_as_add, lemma_transpose_mul, mat_add, mat_mul, mat_neg, mat_sub,
    transposed, tril, Mat,
};
use crate::matrix::Matrix;
use crate::ring::{
    lemma_expo_self, lemma_mul_commutes, lemma_mul_one, lemma_neg_zero, Ring, Scalar,
};
use crate::sum::{lemma_sum_add, lemma_sum_ext, sum};

verus! {

/// A chunk's inputs, as the gradient reads them.
pub open spec fn frame_of<R: Ring>(chunk: Chunk<R>) -> Frame<R> {
    Frame {
        q: chunk.q@,
        k: chunk.k@,
        v: chunk.v@,
        erase: chunk.erase_wide(),
        write: chunk.write_wide(),
        gate: chunk.gate(),
    }
}

/// What the gradient of a chunk is computed from.
pub open spec fn cotangent_of<R: Ring>(
    chunk: Chunk<R>,
    wy: Wy<R>,
    state: Mat<R>,
    dy: Mat<R>,
    d_state: Mat<R>,
) -> Cotangent<R> {
    Cotangent {
        dy,
        ds: d_state,
        s: state,
        u: wy.deltas(chunk.k.cols() as int, state),
        t: wy.t@,
    }
}

/// What walking the scan back over one chunk gives.
pub struct ScanGrads<T> {
    /// The gradient of `U`, and of the deltas.
    pub d_u: Matrix<T>,
    /// The gradient of `W`.
    pub d_w: Matrix<T>,
    /// The gradient of the causal scores, before the mask.
    pub d_attn: Matrix<T>,
    /// To the gradient of the scaled queries.
    pub d_q: Matrix<T>,
    /// To the gradient of the keys.
    pub d_k: Matrix<T>,
    /// To the gradient of the accumulated log decay, from the decay to the end of
    /// the chunk; `None` without a forget gate.
    pub d_gc: Option<Matrix<T>>,
    /// To the gradient of the decay from the start of the chunk.
    pub d_eg: Option<Matrix<T>>,
    /// The gradient of the state that enters the chunk.
    pub d_state: Matrix<T>,
}

impl<T: Ring> ScanGrads<T> {
    /// Whether these are the gradients of a chunk's step of the scan.
    pub open spec fn differentiates(&self, chunk: Chunk<T>, c: Cotangent<T>) -> bool {
        let nl = chunk.k.rows() as int;
        let nk = chunk.k.cols() as int;
        let nv = chunk.v.cols() as int;
        let f = frame_of(chunk);
        &&& self.d_u.has_shape(nl, nv)
        &&& self.d_w.has_shape(nl, nk)
        &&& self.d_attn.has_shape(nl, nl)
        &&& self.d_q.has_shape(nl, nk)
        &&& self.d_k.has_shape(nl, nk)
        &&& self.d_state.has_shape(nk, nv)
        &&& agree(nl, nv, self.d_u@, c.du(f, nl, nk))
        &&& self.d_w@ == mat_neg(mat_mul(nv, self.d_u@, transposed(c.s)))
        &&& self.d_attn@ == mat_mul(nv, c.dy, transposed(c.u))
        &&& agree(nl, nk, self.d_q@, hadamard(c.dqg(nv), f.eg()))
        &&& agree(nl, nk, self.d_k@, hadamard(c.dkc(nv), f.ec(nl)))
        &&& agree(nk, nv, self.d_state@, c.dstate(f, nl, nk))
        &&& self.d_gc is Some == chunk.gc is Some
        &&& self.d_eg is Some == chunk.gc is Some
        &&& self.d_gc matches Some(d_gc) ==> d_gc.has_shape(nl, nk) && agree(
            nl,
            nk,
            d_gc@,
            mat_add(
                mat_neg(c.dcarry(f, nl, nv)),
                at_row(nl - 1, |d: int| c.dlast(f, nl, nv, d)),
            ),
        )
        &&& self.d_eg matches Some(d_eg) ==> d_eg.has_shape(nl, nk) && agree(
            nl,
            nk,
            d_eg@,
            hadamard(c.dqg(nv), f.q),
        )
    }
}

/// Places a row at the last row of an otherwise zero matrix.
pub fn scatter_last_row<T: Scalar>(row: &Vec<T>, chunk_len: usize) -> (r: Matrix<T>)
    requires
        chunk_len > 0,
    ensures
        r.has_shape(chunk_len as int, row@.len() as int),
        forall|i: int, d: int|
            0 <= i < chunk_len && 0 <= d < row@.len() ==> #[trigger] r@(i, d) == (if i == chunk_len
                - 1 {
                row@[d]
            } else {
                T::zero()
            }),
{
    let f = |i: usize, d: usize| -> (r: T)
        requires
            i < chunk_len,
            d < row@.len(),
        ensures
            r == (if i == chunk_len - 1 {
                row@[d as int]
            } else {
                T::zero()
            }),
        {
            if i == chunk_len - 1 {
                row[d]
            } else {
                T::nil()
            }
        };
    Matrix::from_fn(chunk_len, row.len(), f)
}

/// Without a forget gate nothing decays.
proof fn lemma_ungated<R: Ring>(chunk: Chunk<R>)
    requires
        chunk.gc is None,
    ensures
        forall|i: int, d: int| #[trigger] frame_of(chunk).eg()(i, d) == R::one(),
        forall|nl: int, j: int, d: int| #[trigger] frame_of(chunk).ec(nl)(j, d) == R::one(),
{
    R::expo_zero();
    lemma_expo_self(R::zero());
}

/// The gradient of the state that enters a chunk, with `W` in place of what it is
/// made of.
proof fn lemma_state_gradient<R: Ring>(
    chunk: Chunk<R>,
    wy: Wy<R>,
    c: Cotangent<R>,
    du: Mat<R>,
    nl: int,
    nk: int,
    nv: int,
)
    requires
        wy.matches(chunk, nl, nk, nv),
        c.t == wy.t@,
        agree(nl, nv, du, c.du(frame_of(chunk), nl, nk)),
    ensures
        agree(
            nk,
            nv,
            mat_mul(nl, transposed(wy.w@), du),
            mat_mul(nl, transposed(frame_of(chunk).kg()), c.dvw(frame_of(chunk), nl, nk)),
        ),
{
    let f = frame_of(chunk);
    assert(f.kg() =~= wy.kg@);
    lemma_transpose_mul(nl, wy.t@, wy.kg@);
    let (kgt, tt) = (transposed(wy.kg@), transposed(wy.t@));
    lemma_mul_assoc(nl, nl, kgt, tt, du);
    lemma_mul_agree_right(nl, nv, tt, du, c.du(f, nl, nk));
    lemma_mul_agree_right(nl, nv, kgt, mat_mul(nl, tt, du), c.dvw(f, nl, nk));
}

/// Walks the scan back over one chunk: `state` entered it, `dy` is the gradient of
/// its outputs and `d_state` that of the state that left it.
pub fn reverse_step<T: Scalar>(
    chunk: &Chunk<T>,
    wy: &Wy<T>,
    state: &Matrix<T>,
    dy: &Matrix<T>,
    d_state: &Matrix<T>,
) -> (r: ScanGrads<T>)
    requires
        chunk.well_formed(),
        wy.matches(
            *chunk,
            chunk.k.rows() as int,
            chunk.k.cols() as int,
            chunk.v.cols() as int,
        ),
        state.has_shape(chunk.k.cols() as int, chunk.v.cols() as int),
        dy.has_shape(chunk.k.rows() as int, chunk.v.cols() as int),
        d_state.has_shape(chunk.k.cols() as int, chunk.v.cols() as int),
    ensures
        r.differentiates(*chunk, cotangent_of(*chunk, *wy, state@, dy@, d_state@)),
{
    let ghost (nl, nk, nv) = (
        chunk.k.rows() as int,
        chunk.k.cols() as int,
        chunk.v.cols() as int,
    );
    let ghost f = frame_of(*chunk);
    let ghost c = cotangent_of(*chunk, *wy, state@, dy@, d_state@);
    let u = chunk.deltas(wy, state);
    let kc = chunk.carried();
    let qr = chunk.decayed(&chunk.q);
    let state_t = state.transpose();
    let d_attn = dy.matmul(&u.transpose());
    let d_u = wy.attn.transpose().matmul(dy).plus(&kc.matmul(d_state));
    let d_kc = u.matmul(&d_state.transpose());
    let d_qr = dy.matmul(&state_t);
    let d_w = d_u.matmul(&state_t).negated();
    let d_next = qr.transpose().matmul(dy).minus(&wy.w.transpose().matmul(&d_u)).plus(
        &chunk.kept(d_state),
    );
    proof {
        let attn = tril(f.aqk(nk));
        assert(agree(nl, nl, transposed(wy.attn@), transposed(attn)));
        lemma_mul_agree_left(nl, nl, transposed(wy.attn@), transposed(attn), dy@);
        assert(kc@ =~= f.kc(nl));
        assert(agree(nl, nv, d_u@, c.du(f, nl, nk))) by {
            assert forall|i: int, b: int| 0 <= i < nl && 0 <= b < nv implies #[trigger] d_u@(i, b)
                == c.du(f, nl, nk)(i, b) by {
                assert(mat_mul(nl, transposed(wy.attn@), dy@)(i, b) == mat_mul(
                    nl,
                    transposed(attn),
                    dy@,
                )(i, b));
            }
        }
        lemma_state_gradient(*chunk, *wy, c, d_u@, nl, nk, nv);
        assert(qr@ =~= f.qg());
        assert forall|d: int, b: int| 0 <= d < nk && 0 <= b < nv implies #[trigger] d_next@(d, b)
            == c.dstate(f, nl, nk)(d, b) by {
            broadcast use lemma_mul_commutes;

            assert(mat_mul(nl, transposed(wy.w@), d_u@)(d, b) == mat_mul(
                nl,
                transposed(f.kg()),
                c.dvw(f, nl, nk),
            )(d, b));
        }
    }
    let ec = chunk.decay_to_end();
    match (&chunk.gc, &chunk.eg, &ec) {
        (Some(gc), Some(eg), Some(ec)) => {
            let d_k = d_kc.times(ec);
            let d_carry = d_kc.times(&chunk.k).times(ec);
            let d_q = gated_by(&d_qr, eg);
            let d_eg = d_qr.times(&chunk.q);
            let products = d_state.times(state);
            let last: usize = chunk.k.rows() - 1;
            let n: usize = chunk.k.cols();
            let mut d_last: Vec<T> = Vec::with_capacity(n);
            for d in 0..n
                invariant
                    chunk.well_formed(),
                    nl == chunk.k.rows(),
                    nk == chunk.k.cols(),
                    nv == chunk.v.cols(),
                    n == nk,
                    last == nl - 1,
                    f == frame_of(*chunk),
                    c == cotangent_of(*chunk, *wy, state@, dy@, d_state@),
                    chunk.gc matches Some(m) && m == gc,
                    d_carry.has_shape(nl, nk),
                    agree(nl, nk, d_carry@, c.dcarry(f, nl, nv)),
                    products.has_shape(nk, nv),
                    products@ == hadamard(d_state@, state@),
                    d_last@.len() == d,
                    forall|e: int| 0 <= e < d ==> #[trigger] d_last@[e] == c.dlast(f, nl, nv, e),
            {
                let e = gate_at(gc, last, d).exponential();
                let from_carry = d_carry.column_total(d);
                let from_state = products.row_total(d).times(e);
                proof {
                    lemma_sum_ext(
                        nl,
                        |j: int| d_carry@(j, d as int),
                        |j: int| c.dcarry(f, nl, nv)(j, d as int),
                    );
                    lemma_sum_ext(
                        nv,
                        |b: int| products@(d as int, b),
                        |b: int| hadamard(c.ds, c.s)(d as int, b),
                    );
                }
                d_last.push(from_carry.plus(from_state));
            }
            let d_gc = d_carry.negated().plus(&scatter_last_row(&d_last, chunk.k.rows()));
            ScanGrads {
                d_u,
                d_w,
                d_attn,
                d_q,
                d_k,
                d_gc: Some(d_gc),
                d_eg: Some(d_eg),
                d_state: d_next,
            }
        },
        _ => {
            proof {
                lemma_ungated(*chunk);
                broadcast use lemma_mul_one;

            }
            ScanGrads {
                d_u,
                d_w,
                d_attn,
                d_q: d_qr,
                d_k: d_kc,
                d_gc: None,
                d_eg: None,
                d_state: d_next,
            }
        },
    }
}

/// The gradient of the state that leaves chunk `n`: what the chunk after it gives, or
/// `d_last` for the last chunk.
pub open spec fn arriving<R: Ring>(grads: Seq<ScanGrads<R>>, d_last: Mat<R>, n: int) -> Mat<R> {
    if n + 1 < grads.len() {
        grads[n + 1].d_state@
    } else {
        d_last
    }
}

/// Whether `grads[n]` is what walking the scan back over chunk `n` gives, from the last
/// chunk to the first, for the gradient `dys[n]` of the outputs of each chunk and
/// `d_last` of the last state.
pub open spec fn walks_back<R: Ring>(
    chunks: Seq<Chunk<R>>,
    wys: Seq<Wy<R>>,
    states: Seq<Matrix<R>>,
    dys: Seq<Matrix<R>>,
    d_last: Mat<R>,
    grads: Seq<ScanGrads<R>>,
) -> bool {
    &&& grads.len() == chunks.len()
    &&& forall|n: int|
        0 <= n < chunks.len() ==> (#[trigger] grads[n]).differentiates(
            chunks[n],
            cotangent_of(chunks[n], wys[n], states[n]@, dys[n]@, arriving(grads, d_last, n)),
        )
}

/// Walks the scan back over all chunks, from the last to the first. `states[n]` entered
/// chunk `n`, `dys[n]` is the gradient of its outputs, and `d_last` that of the last
/// state. The results stand in the order of the chunks.
pub fn reverse_scan<T: Scalar>(
    chunks: &Vec<Chunk<T>>,
    wys: &Vec<Wy<T>>,
    states: &Vec<Matrix<T>>,
    dys: &Vec<Matrix<T>>,
    d_last: &Matrix<T>,
) -> (r: Vec<ScanGrads<T>>)
    requires
        wys@.len() == chunks@.len(),
        states@.len() == chunks@.len(),
        dys@.len() == chunks@.len(),
        forall|n: int|
            0 <= n < chunks@.len() ==> {
                let (nk, nv) = (d_last.rows() as int, d_last.cols() as int);
                let chunk = #[trigger] chunks@[n];
                &&& chunk.well_formed()
                &&& chunk.k.cols() == nk
                &&& chunk.v.cols() == nv
                &&& wys@[n].matches(chunk, chunk.k.rows() as int, nk, nv)
                &&& states@[n].has_shape(nk, nv)
                &&& dys@[n].has_shape(chunk.k.rows() as int, nv)
            },
    ensures
        walks_back(chunks@, wys@, states@, dys@, d_last@, r@),
{
    let count: usize = chunks.len();
    let mut reversed: Vec<ScanGrads<T>> = Vec::with_capacity(count);
    while reversed.len() < count
        invariant
            count == chunks@.len(),
            wys@.len() == count,
            states@.len() == count,
            dys@.len() == count,
            forall|n: int|
                0 <= n < count ==> {
                    let (nk, nv) = (d_last.rows() as int, d_last.cols() as int);
                    let chunk = #[trigger] chunks@[n];
                    &&& chunk.well_formed()
                    &&& chunk.k.cols() == nk
                    &&& chunk.v.cols() == nv
                    &&& wys@[n].matches(chunk, chunk.k.rows() as int, nk, nv)
                    &&& states@[n].has_shape(nk, nv)
                    &&& dys@[n].has_shape(chunk.k.rows() as int, nv)
                },
            reversed@.len() <= count,
            forall|j: int|
                0 <= j < reversed@.len() ==> (#[trigger] reversed@[j]).differentiates(
                    chunks@[count - 1 - j],
                    cotangent_of(
                        chunks@[count - 1 - j],
                        wys@[count - 1 - j],
                        states@[count - 1 - j]@,
                        dys@[count - 1 - j]@,
                        if j == 0 {
                            d_last@
                        } else {
                            reversed@[j - 1].d_state@
                        },
                    ),
                ),
        decreases count - reversed@.len(),
    {
        let done: usize = reversed.len();
        let n: usize = count - 1 - done;
        let chunk = &chunks[n];
        let d_state = if done == 0 {
            d_last
        } else {
            &reversed[done - 1].d_state
        };
        assert(chunks@[n as int].well_formed());
        assert(done > 0 ==> chunks@[n + 1].k.cols() == d_last.rows());
        let step = reverse_step(chunk, &wys[n], &states[n], &dys[n], d_state);
        reversed.push(step);
    }
    let ghost all = reversed@;
    let mut r: Vec<ScanGrads<T>> = Vec::with_capacity(count);
    while reversed.len() > 0
        invariant
            all.len() == count,
            reversed@.len() + r@.len() == count,
            forall|j: int| 0 <= j < reversed@.len() ==> #[trigger] reversed@[j] == all[j],
            forall|m: int| 0 <= m < r@.len() ==> #[trigger] r@[m] == all[count - 1 - m],
        decreases reversed@.len(),
    {
        let step = reversed.pop().unwrap();
        r.push(step);
    }
    proof {
        assert forall|n: int| 0 <= n < count implies (#[trigger] r@[n]).differentiates(
            chunks@[n],
            cotangent_of(
                chunks@[n],
                wys@[n],
                states@[n]@,
                dys@[n]@,
                arriving(r@, d_last@, n),
            ),
        ) by {
            let j = count - 1 - n;
            assert(all[j].d_state@ == r@[n].d_state@);
            if n + 1 < count {
                assert(r@[n + 1] == all[j - 1]);
            }
        }
    }
    r
}

/// The gradient of one chunk's inputs.
pub struct ChunkGrads<T> {
    /// Of the scaled queries.
    pub d_q: Matrix<T>,
    /// Of the keys.
    pub d_k: Matrix<T>,
    /// Of the values.
    pub d_v: Matrix<T>,
    /// Of the erase gate, at its own width.
    pub d_erase: Matrix<T>,
    /// Of the write gate, at its own width.
    pub d_write: Matrix<T>,
    /// Of the accumulated log decay, at its own width; `None` without one.
    pub d_gc: Option<Matrix<T>>,
}

impl<T: Ring> ChunkGrads<T> {
    /// Whether these are the gradients of a chunk's inputs.
    pub open spec fn differentiates(&self, chunk: Chunk<T>, c: Cotangent<T>) -> bool {
        let nl = chunk.k.rows() as int;
        let nk = chunk.k.cols() as int;
        let nv = chunk.v.cols() as int;
        let f = frame_of(chunk);
        let (we, ww) = (chunk.erase.cols() as int, chunk.write.cols() as int);
        &&& self.d_q.has_shape(nl, nk)
        &&& self.d_k.has_shape(nl, nk)
        &&& self.d_v.has_shape(nl, nv)
        &&& self.d_erase.has_shape(nl, we)
        &&& self.d_write.has_shape(nl, ww)
        &&& agree(nl, nk, self.d_q@, c.dq(f, nl, nv))
        &&& agree(nl, nk, self.d_k@, c.dk(f, nl, nk, nv))
        &&& agree(nl, nv, self.d_v@, c.dv(f, nl, nk))
        &&& agree(nl, we, self.d_erase@, reduced(we, nk, c.derase(f, nl, nk, nv)))
        &&& agree(nl, ww, self.d_write@, reduced(ww, nv, c.dwrite(f, nl, nk)))
        &&& self.d_gc is Some == chunk.gc is Some
        &&& self.d_gc matches Some(d_gc) ==> {
            let wg = chunk.gc->0.cols() as int;
            &&& d_gc.has_shape(nl, wg)
            &&& agree(nl, wg, d_gc@, reduced(wg, nk, c.dgate(f, nl, nk, nv)))
        }
    }
}

/// Gradients of scores depend only on the entries there are.
proof fn lemma_score_grads_depend<R: Ring>(
    nl: int,
    da: Mat<R>,
    db: Mat<R>,
    rows: Mat<R>,
    k: Mat<R>,
    g: Mat<R>,
)
    requires
        agree(nl, nl, da, db),
    ensures
        forall|i: int, d: int|
            0 <= i < nl ==> #[trigger] score_rows(nl, da, k, g)(i, d) == score_rows(nl, db, k, g)(
                i,
                d,
            ),
        forall|i: int, d: int|
            0 <= i < nl ==> #[trigger] score_keys(nl, da, rows, g)(i, d) == score_keys(
                nl,
                db,
                rows,
                g,
            )(i, d),
        forall|i: int, d: int|
            0 <= i < nl ==> #[trigger] score_gate(nl, da, rows, k, g)(i, d) == score_gate(
                nl,
                db,
                rows,
                k,
                g,
            )(i, d),
{
    assert forall|i: int, d: int| 0 <= i < nl implies #[trigger] score_rows(nl, da, k, g)(i, d)
        == score_rows(nl, db, k, g)(i, d) by {
        lemma_sum_ext(
            nl,
            |j: int| da(i, j) * (k(j, d) * span(g, i, j, d)),
            |j: int| db(i, j) * (k(j, d) * span(g, i, j, d)),
        );
    }
    assert forall|j: int, d: int| 0 <= j < nl implies #[trigger] score_keys(nl, da, rows, g)(j, d)
        == score_keys(nl, db, rows, g)(j, d) by {
        lemma_sum_ext(
            nl,
            |i: int| da(i, j) * (rows(i, d) * span(g, i, j, d)),
            |i: int| db(i, j) * (rows(i, d) * span(g, i, j, d)),
        );
    }
    assert forall|i: int, d: int| 0 <= i < nl implies #[trigger] score_gate(nl, da, rows, k, g)(
        i,
        d,
    ) == score_gate(nl, db, rows, k, g)(i, d) by {
        lemma_sum_ext(
            nl,
            |j: int| score_term(da, rows, k, g, i, j, d),
            |j: int| score_term(db, rows, k, g, i, j, d),
        );
        lemma_sum_ext(
            nl,
            |j: int| score_term(da, rows, k, g, j, i, d),
            |j: int| score_term(db, rows, k, g, j, i, d),
        );
    }
}

/// The differential of the inverse: seen through `T` on both sides, the gradients
/// of `U` and `W` combine to the gradient of the deltas times the deltas.
proof fn lemma_inverse_gradient<R: Ring>(
    nl: int,
    nk: int,
    nv: int,
    t: Mat<R>,
    vw: Mat<R>,
    kg: Mat<R>,
    s: Mat<R>,
    du: Mat<R>,
)
    ensures
        ({
            let dw = mat_neg(mat_mul(nv, du, transposed(s)));
            let dt = mat_add(
                mat_mul(nv, du, transposed(vw)),
                mat_mul(nk, dw, transposed(kg)),
            );
            let tt = transposed(t);
            let u = mat_sub(mat_mul(nl, t, vw), mat_mul(nk, mat_mul(nl, t, kg), s));
            &&& mat_mul(nl, mat_mul(nl, tt, dt), tt) == mat_mul(
                nv,
                mat_mul(nl, tt, du),
                transposed(u),
            )
            &&& mat_mul(nl, tt, dw) == mat_neg(mat_mul(nv, mat_mul(nl, tt, du), transposed(s)))
        }),
{
    let st = transposed(s);
    let dw = mat_neg(mat_mul(nv, du, st));
    let (vt, gt, tt) = (transposed(vw), transposed(kg), transposed(t));
    let (p, q) = (mat_mul(nv, du, vt), mat_mul(nk, dw, gt));
    let w = mat_mul(nl, tt, du);
    let (uu, ww) = (mat_mul(nl, t, vw), mat_mul(nl, t, kg));
    // T^T dW = -(T^T dU) S^T
    lemma_mul_neg_right(nl, tt, mat_mul(nv, du, st));
    lemma_mul_assoc(nl, nv, tt, du, st);
    let dkg = mat_neg(mat_mul(nv, w, st));
    assert(mat_mul(nl, tt, dw) == dkg);
    // T^T dT = w vw^T + dkg kg^T
    lemma_mul_add_right(nl, tt, p, q);
    lemma_mul_assoc(nl, nv, tt, du, vt);
    lemma_mul_assoc(nl, nk, tt, dw, gt);
    lemma_mul_add_left(nl, mat_mul(nv, w, vt), mat_mul(nk, dkg, gt), tt);
    // times T^T: w U^T + dkg W^T
    lemma_mul_assoc(nv, nl, w, vt, tt);
    lemma_mul_assoc(nk, nl, dkg, gt, tt);
    lemma_transpose_mul(nl, t, vw);
    lemma_transpose_mul(nl, t, kg);
    // dkg W^T = -(w S^T) W^T = -(w (W S)^T)
    lemma_mul_neg_left(nk, mat_mul(nv, w, st), transposed(ww));
    lemma_mul_assoc(nv, nk, w, st, transposed(ww));
    lemma_transpose_mul(nk, ww, s);
    let ws = mat_mul(nk, ww, s);
    lemma_mul_sub_right(nv, w, transposed(uu), transposed(ws));
    lemma_sub_as_add(mat_mul(nv, w, transposed(uu)), mat_mul(nv, w, transposed(ws)));
    assert(transposed(mat_sub(uu, ws)) =~= mat_sub(transposed(uu), transposed(ws)));
}

/// Reducing a sum to a gate's width is the sum of the reductions.
proof fn lemma_reduced_add<R: Ring>(width: int, n: int, a: Mat<R>, b: Mat<R>, i: int, d: int)
    ensures
        reduced(width, n, mat_add(a, b))(i, d) == reduced(width, n, a)(i, d) + reduced(
            width,
            n,
            b,
        )(i, d),
{
    let (x, y) = (|e: int| a(i, e), |e: int| b(i, e));
    lemma_sum_add(n, x, y);
    lemma_sum_ext(n, |e: int| mat_add(a, b)(i, e), |e: int| x(e) + y(e));
}

/// Reduction depends only on the channels there are.
proof fn lemma_reduced_agree<R: Ring>(
    width: int,
    nl: int,
    n: int,
    a: Mat<R>,
    b: Mat<R>,
    i: int,
    d: int,
)
    requires
        agree(nl, n, a, b),
        gate_width(width, n),
        0 <= i < nl,
        0 <= d < width,
    ensures
        reduced(width, n, a)(i, d) == reduced(width, n, b)(i, d),
{
    lemma_sum_ext(n, |e: int| a(i, e), |e: int| b(i, e));
    if width != 1 {
        assert(a(i, d) == b(i, d));
    }
}

/// The gradient of the inputs of one chunk, from what walking the scan back over
/// it gave.
pub(crate) fn chunk_backward<T: Scalar>(
    chunk: &Chunk<T>,
    wy: &Wy<T>,
    scan: &ScanGrads<T>,
    Ghost(c): Ghost<Cotangent<T>>,
) -> (r: ChunkGrads<T>)
    requires
        chunk.well_formed(),
        wy.matches(
            *chunk,
            chunk.k.rows() as int,
            chunk.k.cols() as int,
            chunk.v.cols() as int,
        ),
        scan.differentiates(*chunk, c),
        c.t == wy.t@,
        c.u == wy.deltas(chunk.k.cols() as int, c.s),
    ensures
        r.differentiates(*chunk, c),
{
    let ghost (nl, nk, nv) = (
        chunk.k.rows() as int,
        chunk.k.cols() as int,
        chunk.v.cols() as int,
    );
    let ghost f = frame_of(*chunk);
    // Back through the triangular system.
    let d_aqk = scan.d_attn.lower();
    let d_t = scan.d_u.matmul(&wy.vw.transpose()).plus(&scan.d_w.matmul(&wy.kg.transpose()));
    let tt = wy.t.transpose();
    let d_vw = tt.matmul(&scan.d_u);
    let d_kg = tt.matmul(&scan.d_w);
    let d_akk = tt.matmul(&d_t).matmul(&tt).strict_lower().negated();
    proof {
        lemma_inverse_gradient(nl, nk, nv, wy.t@, wy.vw@, wy.kg@, c.s, scan.d_u@);
        lemma_mul_agree_right(nl, nv, tt@, scan.d_u@, c.du(f, nl, nk));
        let dvw = c.dvw(f, nl, nk);
        assert(agree(nl, nv, d_vw@, dvw));
        lemma_mul_agree_left(nv, nl, d_vw@, dvw, transposed(c.s));
        assert(agree(nl, nk, d_kg@, c.dkg(f, nl, nk, nv)));
        lemma_mul_agree_left(nv, nl, d_vw@, dvw, transposed(c.u));
        assert(agree(nl, nl, d_akk@, c.dakk(f, nl, nk, nv)));
        assert(d_aqk@ =~= c.daqk(nv));
        lemma_neg_zero::<T>();
        assert(f.ke() =~= wy.ke@);
        let dakk = c.dakk(f, nl, nk, nv);
        lemma_score_grads_depend(nl, d_akk@, dakk, f.ke(), f.k, f.gate);
    }
    // Back through the scores.
    let scores = match &chunk.gc {
        Some(gc) if gc.cols() != 1 => channel_scores_backward(chunk, &wy.ke, &d_akk, &d_aqk),
        _ => head_scores_backward(chunk, &wy.ke, &d_akk, &d_aqk),
    };
    // Back through the decay from the start of the chunk.
    let d_kg_decayed = chunk.decayed(&d_kg);
    let d_ke = d_kg_decayed.plus(&scores.d_ke);
    let d_q = scan.d_q.plus(&scores.d_q);
    // Back through the gates.
    let d_k = scan.d_k.plus(&scores.d_k).plus(&gated_by(&d_ke, &chunk.erase));
    let d_erase = reduce_to_width(&d_ke.times(&chunk.k), chunk.erase.cols());
    let d_v = gated_by(&d_vw, &chunk.write);
    let d_write = reduce_to_width(&d_vw.times(&chunk.v), chunk.write.cols());
    proof {
        let dke = c.dke(f, nl, nk, nv);
        assert(agree(nl, nk, d_ke@, dke)) by {
            assert forall|i: int, d: int| 0 <= i < nl && 0 <= d < nk implies #[trigger] d_ke@(i, d)
                == dke(i, d) by {
                assert(scores.d_ke@(i, d) == score_rows(nl, d_akk@, f.k, f.gate)(i, d));
                assert(d_kg@(i, d) == c.dkg(f, nl, nk, nv)(i, d));
            }
        }
        assert forall|i: int, d: int| 0 <= i < nl && 0 <= d < nk implies #[trigger] d_q@(i, d)
            == c.dq(f, nl, nv)(i, d) by {
            assert(scores.d_q@(i, d) == score_rows(nl, d_aqk@, f.k, f.gate)(i, d));
            assert(scan.d_q@(i, d) == hadamard(c.dqg(nv), f.eg())(i, d));
        }
        assert forall|i: int, d: int| 0 <= i < nl && 0 <= d < nk implies #[trigger] d_k@(i, d)
            == c.dk(f, nl, nk, nv)(i, d) by {
            assert(d_ke@(i, d) == dke(i, d));
            assert(scan.d_k@(i, d) == hadamard(c.dkc(nv), f.ec(nl))(i, d));
            assert(scores.d_k@(i, d) == mat_add(
                score_keys(nl, d_akk@, f.ke(), f.gate),
                score_keys(nl, d_aqk@, f.q, f.gate),
            )(i, d));
        }
        assert forall|i: int, b: int| 0 <= i < nl && 0 <= b < nv implies #[trigger] d_v@(i, b)
            == c.dv(f, nl, nk)(i, b) by {
            assert(d_vw@(i, b) == c.dvw(f, nl, nk)(i, b));
        }
        let (ka, va) = (hadamard(d_ke@, chunk.k@), hadamard(d_vw@, chunk.v@));
        let (we, ww) = (chunk.erase.cols() as int, chunk.write.cols() as int);
        let (kb, vb) = (c.derase(f, nl, nk, nv), c.dwrite(f, nl, nk));
        assert(agree(nl, nk, ka, kb)) by {
            assert forall|i: int, d: int| 0 <= i < nl && 0 <= d < nk implies #[trigger] ka(i, d)
                == kb(i, d) by {
                assert(d_ke@(i, d) == dke(i, d));
            }
        }
        assert(agree(nl, nv, va, vb)) by {
            assert forall|i: int, b: int| 0 <= i < nl && 0 <= b < nv implies #[trigger] va(i, b)
                == vb(i, b) by {
                assert(d_vw@(i, b) == c.dvw(f, nl, nk)(i, b));
            }
        }
        assert forall|i: int, d: int| 0 <= i < nl && 0 <= d < we implies #[trigger] d_erase@(i, d)
            == reduced(we, nk, kb)(i, d) by {
            lemma_reduced_agree(we, nl, nk, ka, kb, i, d);
        }
        assert forall|i: int, b: int| 0 <= i < nl && 0 <= b < ww implies #[trigger] d_write@(i, b)
            == reduced(ww, nv, vb)(i, b) by {
            lemma_reduced_agree(ww, nl, nv, va, vb, i, b);
        }
    }
    let d_gc = match (&chunk.gc, &chunk.eg, &scan.d_gc, &scan.d_eg, &scores.d_gc) {
        (Some(gc), Some(eg), Some(from_scan), Some(scan_eg), Some(from_scores)) => {
            let d_eg = scan_eg.plus(&d_kg.times(&wy.ke));
            let full = from_scan.plus(&gated_by(&d_eg, eg));
            let width: usize = gc.cols();
            let d_gc = from_scores.plus(&reduce_to_width(&full, width));
            proof {
                let w = width as int;
                let ideal = c.dgate(f, nl, nk, nv);
                let rest = mat_add(
                    mat_neg(c.dcarry(f, nl, nv)),
                    at_row(nl - 1, |d: int| c.dlast(f, nl, nv, d)),
                );
                let start = hadamard(c.deg(f, nl, nk, nv), f.eg());
                let ds = c.dscore(f, nl, nk, nv);
                assert(agree(nl, nk, full@, mat_add(rest, start))) by {
                    assert forall|i: int, d: int| 0 <= i < nl && 0 <= d < nk implies
                        #[trigger] full@(i, d) == mat_add(rest, start)(i, d) by {
                        assert(from_scan@(i, d) == rest(i, d));
                        assert(scan_eg@(i, d) == hadamard(c.dqg(nv), f.q)(i, d));
                        assert(d_kg@(i, d) == c.dkg(f, nl, nk, nv)(i, d));
                        assert(d_eg@(i, d) == c.deg(f, nl, nk, nv)(i, d));
                    }
                }
                let found = mat_add(
                    score_gate(nl, d_aqk@, f.q, f.k, f.gate),
                    score_gate(nl, d_akk@, f.ke(), f.k, f.gate),
                );
                assert(agree(nl, nk, found, ds));
                assert forall|i: int, d: int| 0 <= i < nl && 0 <= d < w implies #[trigger] d_gc@(
                    i,
                    d,
                ) == reduced(w, nk, ideal)(i, d) by {
                    lemma_reduced_agree(w, nl, nk, full@, mat_add(rest, start), i, d);
                    lemma_reduced_agree(w, nl, nk, found, ds, i, d);
                    assert(from_scores@(i, d) == reduced(w, nk, found)(i, d));
                    lemma_reduced_add(w, nk, rest, start, i, d);
                    lemma_reduced_add(w, nk, mat_add(ds, rest), start, i, d);
                    lemma_reduced_add(w, nk, ds, rest, i, d);
                    T::add_associates(
                        reduced(w, nk, ds)(i, d),
                        reduced(w, nk, rest)(i, d),
                        reduced(w, nk, start)(i, d),
                    );
                }
            }
            Some(d_gc)
        },
        _ => None,
    };
    ChunkGrads { d_q, d_k, d_v, d_erase, d_write, d_gc }
}

} // verus!
