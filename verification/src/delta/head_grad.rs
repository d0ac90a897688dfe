//! The gradient of the chunkwise form for one head.
use vstd::prelude::*;

use crate::delta::backward::{lemma_reduced_pairs, reduced};
use crate::delta::chunk_grad::{
    arriving, chunk_backward, cotangent_of, frame_of, reverse_scan, walks_back, ChunkGrads,
    ScanGrads,
};
use crate::delta::forward::{widened, Chunk, Wy};
use crate::delta::frame::{chunk_pairing, re_frame, Cotangent};
use crate::delta::rates::{
    first_chunk, lemma_chunk_rates, lemma_run_values, output_rates, re_stream, with_rates,
};
use crate::delta::rule::{from_step, lemma_run_continues, state_after, Stream};
use crate::delta::scan::{
    all_match, chunk_count, entering, lemma_chunk_count, lemma_output_continues,
    lemma_scan_is_the_rule, padded_len, Chunked, Head, ScanMode,
};
use crate::delta::tri::TriSolve;
use crate::delta::wy::{
    lemma_idle_steps, lemma_output_depends, lemma_run_depends, streams_agree,
};
use crate::dual::{constant, eps_part, lemma_sum_parts, lifted, re_part, Dual};
use crate::mat::{agree, Mat};
use crate::matrix::{reversed_rows, row_sums, row_window, Matrix};
use crate::pair::{lemma_pair_agree, lemma_pair_cumulated, lemma_pair_ext, pair};
use crate::ring::{
    lemma_add_zero, lemma_mul_associates, lemma_mul_commutes, lemma_mul_zero, lemma_zero_mul, Ring,
    Scalar,
};
use crate::sum::{
    lemma_sum_add, lemma_sum_blocks, lemma_sum_ext, lemma_sum_truncate, lemma_sum_zero, sum,
};

verus! {

/// A head's inputs, each changing at the given rate. The rates of the gates are
/// given at the gates' own widths.
pub open spec fn moving<R: Ring>(head: Head<R>, rate: Stream<R>) -> Stream<Dual<R>> {
    Stream {
        q: lifted(head.q@, rate.q),
        k: lifted(head.k@, rate.k),
        v: lifted(head.v@, rate.v),
        erase: widened(head.erase.cols() as int, lifted(head.erase@, rate.erase)),
        write: widened(head.write.cols() as int, lifted(head.write@, rate.write)),
        g: match head.g {
            Some(g) => widened(g.cols() as int, lifted(g@, rate.g)),
            None => |t: int, d: int| constant(R::zero()),
        },
    }
}

/// The gradient of one head's inputs.
pub struct HeadGrads<T> {
    /// Of the queries: `[sequence, head_k_dim]`.
    pub d_q: Matrix<T>,
    /// Of the keys: `[sequence, head_k_dim]`.
    pub d_k: Matrix<T>,
    /// Of the values: `[sequence, head_v_dim]`.
    pub d_v: Matrix<T>,
    /// Of the erase gate, at its own width.
    pub d_erase: Matrix<T>,
    /// Of the write gate, at its own width.
    pub d_write: Matrix<T>,
    /// Of the log forget gate, at its own width; `None` without one.
    pub d_g: Option<Matrix<T>>,
}

impl<T: Ring> HeadGrads<T> {
    /// Whether the gradients have the shapes of the inputs, over `n` steps.
    pub open spec fn shaped(&self, head: Head<T>, n: int) -> bool {
        &&& self.d_q.has_shape(n, head.q.cols() as int)
        &&& self.d_k.has_shape(n, head.q.cols() as int)
        &&& self.d_v.has_shape(n, head.v.cols() as int)
        &&& self.d_erase.has_shape(n, head.erase.cols() as int)
        &&& self.d_write.has_shape(n, head.write.cols() as int)
        &&& self.d_g is Some == head.g is Some
        &&& self.d_g matches Some(d_g) ==> d_g.has_shape(n, head.g->0.cols() as int)
    }

    /// The pairing of the gradients with the rates of change of the inputs, over
    /// `n` steps.
    pub open spec fn pairing(&self, n: int, rate: Stream<T>) -> T {
        ((pair(n, self.d_q.cols() as int, self.d_q@, rate.q) + pair(
            n,
            self.d_k.cols() as int,
            self.d_k@,
            rate.k,
        )) + (pair(n, self.d_v.cols() as int, self.d_v@, rate.v) + pair(
            n,
            self.d_erase.cols() as int,
            self.d_erase@,
            rate.erase,
        ))) + (pair(n, self.d_write.cols() as int, self.d_write@, rate.write) + (match self.d_g {
            Some(d_g) => pair(n, d_g.cols() as int, d_g@, rate.g),
            None => T::zero(),
        }))
    }
}

/// Accumulated from the last of `n` rows on.
pub open spec fn from_the_end<R: Ring>(n: int, a: Mat<R>) -> Mat<R> {
    reversed_rows(n, row_sums(reversed_rows(n, a)))
}

/// Whether `p` holds the gradients of a chunk's inputs before the scale and the
/// accumulation of the log decay.
pub open spec fn finishes<R: Ring>(
    p: HeadGrads<R>,
    chunk: Chunk<R>,
    c: Cotangent<R>,
    scale: R,
) -> bool {
    let nl = chunk.k.rows() as int;
    let nk = chunk.k.cols() as int;
    let nv = chunk.v.cols() as int;
    let f = frame_of(chunk);
    let (we, ww) = (chunk.erase.cols() as int, chunk.write.cols() as int);
    &&& p.d_q.has_shape(nl, nk)
    &&& p.d_k.has_shape(nl, nk)
    &&& p.d_v.has_shape(nl, nv)
    &&& p.d_erase.has_shape(nl, we)
    &&& p.d_write.has_shape(nl, ww)
    &&& agree(nl, nk, p.d_q@, |i: int, d: int| c.dq(f, nl, nv)(i, d) * scale)
    &&& agree(nl, nk, p.d_k@, c.dk(f, nl, nk, nv))
    &&& agree(nl, nv, p.d_v@, c.dv(f, nl, nk))
    &&& agree(nl, we, p.d_erase@, reduced(we, nk, c.derase(f, nl, nk, nv)))
    &&& agree(nl, ww, p.d_write@, reduced(ww, nv, c.dwrite(f, nl, nk)))
    &&& p.d_g is Some == chunk.gc is Some
    &&& p.d_g matches Some(d_g) ==> {
        let wg = chunk.gc->0.cols() as int;
        &&& d_g.has_shape(nl, wg)
        &&& agree(nl, wg, d_g@, from_the_end(nl, reduced(wg, nk, c.dgate(f, nl, nk, nv))))
    }
}

/// Accumulating from the end depends only on the rows there are.
proof fn lemma_from_the_end_depends<R: Ring>(n: int, m: int, a: Mat<R>, b: Mat<R>)
    requires
        agree(n, m, a, b),
    ensures
        agree(n, m, from_the_end(n, a), from_the_end(n, b)),
{
    assert forall|i: int, j: int| 0 <= i < n && 0 <= j < m implies #[trigger] from_the_end(n, a)(
        i,
        j,
    ) == from_the_end(n, b)(i, j) by {
        let f = |t: int| reversed_rows(n, a)(t, j);
        let g = |t: int| reversed_rows(n, b)(t, j);
        assert forall|t: int| 0 <= t < n - i implies #[trigger] f(t) == g(t) by {
            assert(a(n - 1 - t, j) == b(n - 1 - t, j));
        }
        lemma_sum_ext(n - i, f, g);
    }
}

/// Applies the readout scale to the queries' gradient, and accumulates the
/// gradient of the log decay from the end of the chunk.
fn finish<T: Scalar>(
    grads: ChunkGrads<T>,
    chunk: &Chunk<T>,
    scale: T,
    Ghost(c): Ghost<Cotangent<T>>,
) -> (r: HeadGrads<T>)
    requires
        chunk.well_formed(),
        grads.differentiates(*chunk, c),
    ensures
        finishes(r, *chunk, c, scale),
{
    let d_q = grads.d_q.scaled(scale);
    let d_g = match &grads.d_gc {
        Some(d_gc) => {
            let d_g = d_gc.reversed().cumulated().reversed();
            proof {
                let (nl, nk, nv) = (
                    chunk.k.rows() as int,
                    chunk.k.cols() as int,
                    chunk.v.cols() as int,
                );
                let wg = chunk.gc->0.cols() as int;
                let ideal = reduced(wg, nk, c.dgate(frame_of(*chunk), nl, nk, nv));
                lemma_from_the_end_depends(nl, wg, d_gc@, ideal);
                assert(agree(nl, wg, d_g@, from_the_end(nl, d_gc@)));
                assert forall|i: int, d: int| 0 <= i < nl && 0 <= d < wg implies #[trigger] d_g@(
                    i,
                    d,
                ) == from_the_end(nl, ideal)(i, d) by {
                    assert(from_the_end(nl, d_gc@)(i, d) == from_the_end(nl, ideal)(i, d));
                }
            }
            Some(d_g)
        },
        None => None,
    };
    HeadGrads {
        d_q,
        d_k: grads.d_k,
        d_v: grads.d_v,
        d_erase: grads.d_erase,
        d_write: grads.d_write,
        d_g,
    }
}

/// The chunk's gradients paired with the rates of its own steps.
proof fn lemma_finished_pairing<R: Ring>(
    head: Head<R>,
    rate: Stream<R>,
    chunk: Chunk<R>,
    c: Cotangent<R>,
    scale: R,
    p: HeadGrads<R>,
    t0: int,
    nl: int,
    nk: int,
    nv: int,
)
    requires
        nl > 0,
        0 <= t0,
        chunk.shaped(nl, nk, nv),
        finishes(p, chunk, c, scale),
        chunk.erase.cols() == head.erase.cols(),
        chunk.write.cols() == head.write.cols(),
        chunk.gc is Some == head.g is Some,
        chunk.gc is Some ==> chunk.gc->0.cols() == head.g->0.cols(),
    ensures
        ({
            let x = from_step(moving(head, rate), t0);
            let f = with_rates(frame_of(chunk), first_chunk(x, constant(scale)));
            chunk_pairing(c, f, nl, nk, nv) == p.pairing(nl, from_step(rate, t0))
        }),
{
    let x = from_step(moving(head, rate), t0);
    let f = with_rates(frame_of(chunk), first_chunk(x, constant(scale)));
    let g = frame_of(chunk);
    let r = from_step(rate, t0);
    assert(re_frame(f) =~= g);
    // Queries: the scale moves from the rate to the gradient.
    let dq = c.dq(g, nl, nv);
    let dqs = |i: int, d: int| dq(i, d) * scale;
    assert forall|i: int, d: int|
        0 <= i < nl && 0 <= d < nk implies #[trigger] dq(i, d) * #[trigger] eps_part(f.q)(i, d)
        == dqs(i, d) * (r.q)(i, d) by {
        let (a, b) = (dq(i, d), (r.q)(i, d));
        assert(eps_part(f.q)(i, d) == b * scale) by {
            broadcast use {lemma_mul_zero, lemma_add_zero};

        }
        assert(a * (b * scale) == (a * scale) * b) by {
            broadcast use {lemma_mul_commutes, lemma_mul_associates};

        }
    }
    lemma_pair_ext(nl, nk, dq, eps_part(f.q), dqs, r.q);
    lemma_pair_agree(nl, nk, p.d_q@, r.q, dqs, r.q);
    assert(eps_part(f.k) =~= r.k);
    lemma_pair_agree(nl, nk, p.d_k@, r.k, c.dk(g, nl, nk, nv), r.k);
    assert(eps_part(f.v) =~= r.v);
    lemma_pair_agree(nl, nv, p.d_v@, r.v, c.dv(g, nl, nk), r.v);
    let (we, ww) = (chunk.erase.cols() as int, chunk.write.cols() as int);
    assert(eps_part(f.erase) =~= widened(we, r.erase));
    lemma_reduced_pairs(nl, nk, we, c.derase(g, nl, nk, nv), r.erase);
    lemma_pair_agree(
        nl,
        we,
        p.d_erase@,
        r.erase,
        reduced(we, nk, c.derase(g, nl, nk, nv)),
        r.erase,
    );
    assert(eps_part(f.write) =~= widened(ww, r.write));
    lemma_reduced_pairs(nl, nv, ww, c.dwrite(g, nl, nk), r.write);
    lemma_pair_agree(
        nl,
        ww,
        p.d_write@,
        r.write,
        reduced(ww, nv, c.dwrite(g, nl, nk)),
        r.write,
    );
    // The forget gate: accumulated on the way in, from the end on the way out.
    let dg = c.dgate(g, nl, nk, nv);
    let gd = eps_part(f.gate);
    match head.g {
        Some(hg) => {
            let wg = hg.cols() as int;
            assert forall|i: int, d: int| 0 <= i < nl && 0 <= d < nk implies #[trigger] gd(i, d)
                == widened(wg, row_sums(r.g))(i, d) by {
                let b: int = if wg == 1 {
                    0
                } else {
                    d
                };
                let terms = |j: int| (x.g)(j, d);
                lemma_sum_parts(i + 1, terms);
                lemma_sum_ext(i + 1, |j: int| terms(j).eps, |t: int| (r.g)(t, b));
            }
            lemma_pair_agree(nl, nk, dg, gd, dg, widened(wg, row_sums(r.g)));
            lemma_reduced_pairs(nl, nk, wg, dg, row_sums(r.g));
            let rd = reduced(wg, nk, dg);
            lemma_pair_cumulated(nl, wg, rd, r.g);
            lemma_pair_agree(nl, wg, p.d_g->0@, r.g, from_the_end(nl, rd), r.g);
        },
        None => {
            assert forall|i: int, d: int| 0 <= i < nl && 0 <= d < nk implies #[trigger] gd(i, d)
                == R::zero() by {
                let terms = |j: int| (x.g)(j, d);
                lemma_sum_parts(i + 1, terms);
                lemma_sum_zero(i + 1, |j: int| terms(j).eps);
            }
            let zeros = |i: int, d: int| R::zero();
            lemma_pair_agree(nl, nk, dg, gd, dg, zeros);
            let rows = |i: int| sum(nk, |d: int| dg(i, d) * zeros(i, d));
            assert forall|i: int| 0 <= i < nl implies #[trigger] rows(i) == R::zero() by {
                broadcast use lemma_mul_zero;

                lemma_sum_zero(nk, |d: int| dg(i, d) * zeros(i, d));
            }
            lemma_sum_zero(nl, rows);
        },
    }
}

/// Whether walking back over chunk `n` gave `p`, and took the gradient of the
/// state from `after` to `before`.
spec fn walked<R: Ring>(
    chunked: Chunked<R>,
    wys: Seq<Wy<R>>,
    s0: Mat<R>,
    dy: Mat<R>,
    scale: R,
    n: int,
    p: HeadGrads<R>,
    after: Mat<R>,
    before: Mat<R>,
) -> bool {
    let (nl, nk, nv) = (
        chunked.dims.chunk_len as int,
        chunked.dims.head_k_dim as int,
        chunked.dims.head_v_dim as int,
    );
    let chunk = chunked.chunks@[n];
    let c = cotangent_of(
        chunk,
        wys[n],
        entering(chunked.chunks@, wys, nl, nk, s0, n),
        row_window(dy, n * nl, nl),
        after,
    );
    &&& finishes(p, chunk, c, scale)
    &&& agree(nk, nv, before, c.dstate(frame_of(chunk), nl, nk))
}

/// Walking back over one chunk trades the rates of its outputs and of the state
/// that leaves it for the rates of its inputs and of the state that enters it.
proof fn lemma_walked_pairing<R: Ring>(
    head: Head<R>,
    chunked: Chunked<R>,
    wys: Seq<Wy<R>>,
    s0: Mat<R>,
    dy: Mat<R>,
    scale: R,
    n: int,
    p: HeadGrads<R>,
    after: Mat<R>,
    before: Mat<R>,
    rate: Stream<R>,
    sd: Mat<R>,
)
    requires
        chunked.holds(head.stream(), scale),
        chunked.dims.head_k_dim == head.q.cols(),
        chunked.dims.head_v_dim == head.v.cols(),
        all_match(
            chunked.chunks@,
            wys,
            chunked.dims.chunk_len as int,
            chunked.dims.head_k_dim as int,
            chunked.dims.head_v_dim as int,
        ),
        0 <= n < chunked.chunks@.len(),
        chunked.chunks@[n].erase.cols() == head.erase.cols(),
        chunked.chunks@[n].write.cols() == head.write.cols(),
        chunked.chunks@[n].gc is Some == head.g is Some,
        head.g is Some ==> chunked.chunks@[n].gc->0.cols() == head.g->0.cols(),
        walked(chunked, wys, s0, dy, scale, n, p, after, before),
    ensures
        ({
            let (nl, nk, nv) = (
                chunked.dims.chunk_len as int,
                chunked.dims.head_k_dim as int,
                chunked.dims.head_v_dim as int,
            );
            let x = moving(head, rate);
            let s = lifted(s0, sd);
            pair(
                nl,
                nv,
                row_window(dy, n * nl, nl),
                |i: int, c: int| output_rates(x, nk, scale, s)(n * nl + i, c),
            ) + pair(nk, nv, after, eps_part(state_after(x, nk, s, (n + 1) * nl))) == p.pairing(
                nl,
                from_step(rate, n * nl),
            ) + pair(nk, nv, before, eps_part(state_after(x, nk, s, n * nl)))
        }),
{
    let (nl, nk, nv) = (
        chunked.dims.chunk_len as int,
        chunked.dims.head_k_dim as int,
        chunked.dims.head_v_dim as int,
    );
    let x = moving(head, rate);
    let s = lifted(s0, sd);
    let t0 = n * nl;
    assert(0 <= t0 && (n + 1) * nl == t0 + nl) by (nonlinear_arith)
        requires
            t0 == n * nl,
            n >= 0,
            nl > 0,
    ;
    let y = from_step(x, t0);
    let chunk = chunked.chunks@[n];
    let wy = wys[n];
    let sn = state_after(x, nk, s, t0);
    let state = entering(chunked.chunks@, wys, nl, nk, s0, n);
    assert(re_stream(x).g =~= head.stream().g);
    assert(re_stream(x) =~= head.stream());
    assert(re_stream(y).g =~= from_step(head.stream(), t0).g);
    assert(re_stream(y) =~= from_step(head.stream(), t0));
    lemma_scan_is_the_rule(chunked, wys, head.stream(), scale, s0, n);
    lemma_run_values(x, nk, s, t0);
    assert(re_part(s) =~= s0);
    assert(chunk.holds(nl, nk, nv, re_stream(y), scale));
    assert(wy.matches(chunk, nl, nk, nv));
    let chunk_dy = row_window(dy, t0, nl);
    lemma_chunk_rates(chunk, wy, nl, nk, nv, y, scale, sn, state, chunk_dy, after);
    let c = cotangent_of(chunk, wy, state, chunk_dy, after);
    lemma_finished_pairing(head, rate, chunk, c, scale, p, t0, nl, nk, nv);
    lemma_run_continues(x, nk, s, t0, nl);
    let local = output_rates(y, nk, scale, sn);
    let global = |i: int, b: int| output_rates(x, nk, scale, s)(t0 + i, b);
    assert forall|i: int, b: int| 0 <= i < nl && 0 <= b < nv implies #[trigger] local(i, b)
        == global(i, b) by {
        lemma_output_continues(x, nk, constant(scale), s, t0, i, b);
    }
    lemma_pair_agree(nl, nv, chunk_dy, local, chunk_dy, global);
    lemma_pair_agree(
        nk,
        nv,
        before,
        eps_part(sn),
        c.dstate(frame_of(chunk), nl, nk),
        eps_part(sn),
    );
}

/// Pairings chunk by chunk add up to the pairing over the sequence, when one side
/// is zero past its end.
proof fn lemma_pair_chunks<R: Ring>(
    count: int,
    nl: int,
    sequence: int,
    w: int,
    parts: spec_fn(int) -> Mat<R>,
    rates: spec_fn(int) -> Mat<R>,
    a: Mat<R>,
    b: Mat<R>,
)
    requires
        0 <= count,
        0 < nl,
        0 <= sequence <= count * nl,
        forall|m: int, i: int, d: int|
            0 <= m < count && 0 <= i < nl && 0 <= d < w ==> #[trigger] parts(m)(i, d) * (
            #[trigger] rates(m)(i, d)) == (if m * nl + i < sequence {
                a(m * nl + i, d) * b(m * nl + i, d)
            } else {
                R::zero()
            }),
    ensures
        sum(count, |m: int| pair(nl, w, parts(m), rates(m))) == pair(sequence, w, a, b),
{
    let row = |t: int| sum(w, |d: int| a(t, d) * b(t, d));
    let f = |t: int|
        if t < sequence {
            row(t)
        } else {
            R::zero()
        };
    lemma_sum_blocks(count, nl, f);
    let inner = |m: int| sum(nl, |i: int| f(m * nl + i));
    let chunks = |m: int| pair(nl, w, parts(m), rates(m));
    assert forall|m: int| 0 <= m < count implies #[trigger] chunks(m) == inner(m) by {
        let rows = |i: int| sum(w, |d: int| parts(m)(i, d) * rates(m)(i, d));
        let named = |i: int| f(m * nl + i);
        assert forall|i: int| 0 <= i < nl implies #[trigger] rows(i) == named(i) by {
            let t = m * nl + i;
            let terms = |d: int| parts(m)(i, d) * rates(m)(i, d);
            if t < sequence {
                lemma_sum_ext(w, terms, |d: int| a(t, d) * b(t, d));
            } else {
                lemma_sum_zero(w, terms);
            }
        }
        lemma_sum_ext(nl, rows, named);
    }
    lemma_sum_ext(count, chunks, inner);
    lemma_sum_truncate(count * nl, sequence, f);
    lemma_sum_ext(sequence, f, row);
}

/// Walking back over all the chunks.
proof fn lemma_telescope<R: Ring>(
    head: Head<R>,
    chunked: Chunked<R>,
    wys: Seq<Wy<R>>,
    s0: Mat<R>,
    dy: Mat<R>,
    scale: R,
    parts: Seq<HeadGrads<R>>,
    ds: Seq<Mat<R>>,
    rate: Stream<R>,
    sd: Mat<R>,
    n: int,
)
    requires
        chunked.holds(head.stream(), scale),
        chunked.dims.head_k_dim == head.q.cols(),
        chunked.dims.head_v_dim == head.v.cols(),
        all_match(
            chunked.chunks@,
            wys,
            chunked.dims.chunk_len as int,
            chunked.dims.head_k_dim as int,
            chunked.dims.head_v_dim as int,
        ),
        forall|m: int|
            0 <= m < chunked.chunks@.len() ==> (#[trigger] chunked.chunks@[m]).erase.cols()
                == head.erase.cols(),
        forall|m: int|
            0 <= m < chunked.chunks@.len() ==> (#[trigger] chunked.chunks@[m]).write.cols()
                == head.write.cols(),
        forall|m: int|
            0 <= m < chunked.chunks@.len() ==> ((#[trigger] chunked.chunks@[m]).gc is Some
                == head.g is Some),
        forall|m: int|
            0 <= m < chunked.chunks@.len() && head.g is Some ==> (
            #[trigger] chunked.chunks@[m]).gc->0.cols() == head.g->0.cols(),
        parts.len() == chunked.chunks@.len(),
        ds.len() == chunked.chunks@.len() + 1,
        forall|m: int|
            0 <= m < parts.len() ==> walked(
                chunked,
                wys,
                s0,
                dy,
                scale,
                m,
                #[trigger] parts[m],
                ds[m + 1],
                ds[m],
            ),
        0 <= n <= parts.len(),
    ensures
        ({
            let (nl, nk, nv) = (
                chunked.dims.chunk_len as int,
                chunked.dims.head_k_dim as int,
                chunked.dims.head_v_dim as int,
            );
            let x = moving(head, rate);
            let s = lifted(s0, sd);
            sum(
                n,
                |m: int|
                    pair(
                        nl,
                        nv,
                        row_window(dy, m * nl, nl),
                        |i: int, c: int| output_rates(x, nk, scale, s)(m * nl + i, c),
                    ),
            ) + pair(nk, nv, ds[n], eps_part(state_after(x, nk, s, n * nl))) == sum(
                n,
                |m: int| parts[m].pairing(nl, from_step(rate, m * nl)),
            ) + pair(nk, nv, ds[0], sd)
        }),
    decreases n,
{
    let (nl, nk, nv) = (
        chunked.dims.chunk_len as int,
        chunked.dims.head_k_dim as int,
        chunked.dims.head_v_dim as int,
    );
    let x = moving(head, rate);
    let s = lifted(s0, sd);
    let ys = |m: int|
        pair(
            nl,
            nv,
            row_window(dy, m * nl, nl),
            |i: int, c: int| output_rates(x, nk, scale, s)(m * nl + i, c),
        );
    let gs = |m: int| parts[m].pairing(nl, from_step(rate, m * nl));
    let p = |m: int| pair(nk, nv, ds[m], eps_part(state_after(x, nk, s, m * nl)));
    if n > 0 {
        lemma_telescope(
            head,
            chunked,
            wys,
            s0,
            dy,
            scale,
            parts,
            ds,
            rate,
            sd,
            n - 1,
        );
        lemma_walked_pairing(
            head,
            chunked,
            wys,
            s0,
            dy,
            scale,
            n - 1,
            parts[n - 1],
            ds[n],
            ds[n - 1],
            rate,
            sd,
        );
        assert(ys(n - 1) + p(n) == gs(n - 1) + p(n - 1));
        let (a, b, c) = (sum(n - 1, ys), sum(n - 1, gs), pair(nk, nv, ds[0], sd));
        assert(a + p(n - 1) == b + c);
        assert(sum(n, ys) == a + ys(n - 1));
        assert(sum(n, gs) == b + gs(n - 1));
        R::add_associates(a, ys(n - 1), p(n));
        R::add_commutes(gs(n - 1), p(n - 1));
        R::add_associates(a, p(n - 1), gs(n - 1));
        R::add_associates(b, c, gs(n - 1));
        R::add_commutes(c, gs(n - 1));
        R::add_associates(b, gs(n - 1), c);
    } else {
        assert(0 * nl == 0);
        assert(state_after(x, nk, s, 0) == s);
        assert(eps_part(s) =~= sd);
    }
}

/// The gradient of the delta rule for one head: the pairing with the rates of the
/// outputs and of the last state is the pairing of the gradients with the rates of
/// the inputs and of the first state.
pub open spec fn head_adjoint<R: Ring>(
    head: Head<R>,
    scale: R,
    s0: Mat<R>,
    dy: Mat<R>,
    d_last: Mat<R>,
    grads: HeadGrads<R>,
    d_state: Mat<R>,
    rate: Stream<R>,
    sd: Mat<R>,
) -> bool {
    let (sequence, nk, nv) = (
        head.q.rows() as int,
        head.q.cols() as int,
        head.v.cols() as int,
    );
    let x = moving(head, rate);
    let s = lifted(s0, sd);
    pair(sequence, nv, dy, output_rates(x, nk, scale, s)) + pair(
        nk,
        nv,
        d_last,
        eps_part(state_after(x, nk, s, sequence)),
    ) == grads.pairing(sequence, rate) + pair(nk, nv, d_state, sd)
}

/// A rate of change that stops after `n` steps.
spec fn stopped<R: Ring>(n: int, a: Mat<R>) -> Mat<R> {
    |t: int, d: int|
        if t < n {
            a(t, d)
        } else {
            R::zero()
        }
}

/// Rates of change that stop after `n` steps.
spec fn stopped_rates<R: Ring>(n: int, rate: Stream<R>) -> Stream<R> {
    Stream {
        q: stopped(n, rate.q),
        k: stopped(n, rate.k),
        v: stopped(n, rate.v),
        erase: stopped(n, rate.erase),
        write: stopped(n, rate.write),
        g: stopped(n, rate.g),
    }
}

/// Whether a gradient over the sequence is made of those of its chunks.
spec fn gathered<R: Ring>(
    sequence: int,
    nl: int,
    w: int,
    parts: spec_fn(int) -> Mat<R>,
    a: Mat<R>,
) -> bool {
    forall|t: int, d: int|
        0 <= t < sequence && 0 <= d < w ==> #[trigger] a(t, d) == parts(t / nl)(t % nl, d)
}

/// The pairing of a gathered gradient with a rate that stops at the sequence's end.
proof fn lemma_gathered_pairs<R: Ring>(
    sequence: int,
    nl: int,
    w: int,
    parts: spec_fn(int) -> Mat<R>,
    a: Mat<R>,
    rate: Mat<R>,
)
    requires
        0 < nl,
        0 <= sequence,
        gathered(sequence, nl, w, parts, a),
    ensures
        sum(
            chunk_count(sequence, nl),
            |m: int|
                pair(nl, w, parts(m), |i: int, d: int| stopped(sequence, rate)(m * nl + i, d)),
        ) == pair(sequence, w, a, rate),
{
    lemma_chunk_count(sequence, nl);
    let count = chunk_count(sequence, nl);
    let b = stopped(sequence, rate);
    let rates = |m: int| |i: int, d: int| b(m * nl + i, d);
    assert forall|m: int, i: int, d: int|
        0 <= m < count && 0 <= i < nl && 0 <= d < w implies #[trigger] parts(m)(i, d) * (
    #[trigger] rates(m)(i, d)) == (if m * nl + i < sequence {
        a(m * nl + i, d) * b(m * nl + i, d)
    } else {
        R::zero()
    }) by {
        broadcast use lemma_mul_zero;

        lemma_step_of(nl, m, i);
        if m * nl + i < sequence {
            assert(a(m * nl + i, d) == parts((m * nl + i) / nl)((m * nl + i) % nl, d));
        }
    }
    lemma_pair_chunks(count, nl, sequence, w, parts, rates, a, b);
    lemma_pair_agree(sequence, w, a, b, a, rate);
    let f = |m: int| pair(nl, w, parts(m), rates(m));
    let g = |m: int|
        pair(nl, w, parts(m), |i: int, d: int| stopped(sequence, rate)(m * nl + i, d));
    assert forall|m: int| 0 <= m < count implies #[trigger] f(m) == g(m) by {
        lemma_pair_agree(
            nl,
            w,
            parts(m),
            rates(m),
            parts(m),
            |i: int, d: int| stopped(sequence, rate)(m * nl + i, d),
        );
    }
    lemma_sum_ext(count, f, g);
}

/// Step `i` of chunk `m` is step `m * nl + i` of the sequence.
proof fn lemma_step_of(nl: int, m: int, i: int)
    requires
        0 < nl,
        0 <= m,
        0 <= i < nl,
    ensures
        (m * nl + i) / nl == m,
        (m * nl + i) % nl == i,
        0 <= m * nl + i,
{
    vstd::arithmetic::div_mod::lemma_fundamental_div_mod_converse(m * nl + i, nl, m, i);
    assert(0 <= m * nl) by (nonlinear_arith)
        requires
            m >= 0,
            nl > 0,
    ;
}

/// The six pairings of the chunks add up one by one.
proof fn lemma_sum_six<R: Ring>(
    n: int,
    a: spec_fn(int) -> R,
    b: spec_fn(int) -> R,
    c: spec_fn(int) -> R,
    d: spec_fn(int) -> R,
    e: spec_fn(int) -> R,
    f: spec_fn(int) -> R,
)
    ensures
        sum(n, |m: int| ((a(m) + b(m)) + (c(m) + d(m))) + (e(m) + f(m))) == ((sum(n, a) + sum(n, b))
            + (sum(n, c) + sum(n, d))) + (sum(n, e) + sum(n, f)),
{
    let (ab, cd, ef) = (
        |m: int| a(m) + b(m),
        |m: int| c(m) + d(m),
        |m: int| e(m) + f(m),
    );
    let abcd = |m: int| ab(m) + cd(m);
    lemma_sum_add(n, a, b);
    lemma_sum_add(n, c, d);
    lemma_sum_add(n, e, f);
    lemma_sum_add(n, ab, cd);
    lemma_sum_add(n, abcd, ef);
    lemma_sum_ext(
        n,
        |m: int| ((a(m) + b(m)) + (c(m) + d(m))) + (e(m) + f(m)),
        |m: int| abcd(m) + ef(m),
    );
}

/// Whether the gradients over the sequence are made of those of its chunks.
spec fn all_gathered<R: Ring>(
    head: Head<R>,
    nl: int,
    parts: Seq<HeadGrads<R>>,
    grads: HeadGrads<R>,
) -> bool {
    let sequence = head.q.rows() as int;
    let (nk, nv) = (head.q.cols() as int, head.v.cols() as int);
    let (we, ww) = (head.erase.cols() as int, head.write.cols() as int);
    &&& grads.shaped(head, sequence)
    &&& parts.len() == chunk_count(sequence, nl)
    &&& forall|m: int| 0 <= m < parts.len() ==> (#[trigger] parts[m]).shaped(head, nl)
    &&& gathered(sequence, nl, nk, |m: int| parts[m].d_q@, grads.d_q@)
    &&& gathered(sequence, nl, nk, |m: int| parts[m].d_k@, grads.d_k@)
    &&& gathered(sequence, nl, nv, |m: int| parts[m].d_v@, grads.d_v@)
    &&& gathered(sequence, nl, we, |m: int| parts[m].d_erase@, grads.d_erase@)
    &&& gathered(sequence, nl, ww, |m: int| parts[m].d_write@, grads.d_write@)
    &&& grads.d_g matches Some(d_g) ==> gathered(
        sequence,
        nl,
        head.g->0.cols() as int,
        |m: int| parts[m].d_g->0@,
        d_g@,
    )
}

/// The pairings of the chunks, with rates that stop at the sequence's end, add up
/// to the pairing over the sequence.
proof fn lemma_all_gathered_pairs<R: Ring>(
    head: Head<R>,
    nl: int,
    parts: Seq<HeadGrads<R>>,
    grads: HeadGrads<R>,
    rate: Stream<R>,
)
    requires
        0 < nl,
        all_gathered(head, nl, parts, grads),
    ensures
        sum(
            parts.len() as int,
            |m: int|
                parts[m].pairing(
                    nl,
                    from_step(stopped_rates(head.q.rows() as int, rate), m * nl),
                ),
        ) == grads.pairing(head.q.rows() as int, rate),
{
    let sequence = head.q.rows() as int;
    let n = parts.len() as int;
    let (nk, nv) = (head.q.cols() as int, head.v.cols() as int);
    let (we, ww) = (head.erase.cols() as int, head.write.cols() as int);
    let (pq, pk, pv) = (
        |m: int| parts[m].d_q@,
        |m: int| parts[m].d_k@,
        |m: int| parts[m].d_v@,
    );
    let (pe, pw, pg) = (
        |m: int| parts[m].d_erase@,
        |m: int| parts[m].d_write@,
        |m: int| parts[m].d_g->0@,
    );
    lemma_gathered_pairs(sequence, nl, nk, pq, grads.d_q@, rate.q);
    lemma_gathered_pairs(sequence, nl, nk, pk, grads.d_k@, rate.k);
    lemma_gathered_pairs(sequence, nl, nv, pv, grads.d_v@, rate.v);
    lemma_gathered_pairs(sequence, nl, we, pe, grads.d_erase@, rate.erase);
    lemma_gathered_pairs(sequence, nl, ww, pw, grads.d_write@, rate.write);
    let fq = |m: int|
        pair(nl, nk, pq(m), |i: int, d: int| stopped(sequence, rate.q)(m * nl + i, d));
    let fk = |m: int|
        pair(nl, nk, pk(m), |i: int, d: int| stopped(sequence, rate.k)(m * nl + i, d));
    let fv = |m: int|
        pair(nl, nv, pv(m), |i: int, d: int| stopped(sequence, rate.v)(m * nl + i, d));
    let fe = |m: int|
        pair(nl, we, pe(m), |i: int, d: int| stopped(sequence, rate.erase)(m * nl + i, d));
    let fw = |m: int|
        pair(nl, ww, pw(m), |i: int, d: int| stopped(sequence, rate.write)(m * nl + i, d));
    let fg = |m: int|
        match head.g {
            Some(g) => pair(
                nl,
                g.cols() as int,
                pg(m),
                |i: int, d: int| stopped(sequence, rate.g)(m * nl + i, d),
            ),
            None => R::zero(),
        };
    match head.g {
        Some(g) => {
            let wg = g.cols() as int;
            lemma_gathered_pairs(sequence, nl, wg, pg, grads.d_g->0@, rate.g);
            lemma_sum_ext(
                n,
                fg,
                |m: int|
                    pair(nl, wg, pg(m), |i: int, d: int| stopped(sequence, rate.g)(m * nl + i, d)),
            );
        },
        None => {
            lemma_sum_zero(n, fg);
        },
    }
    lemma_sum_six(n, fq, fk, fv, fe, fw, fg);
    let whole = |m: int|
        parts[m].pairing(nl, from_step(stopped_rates(sequence, rate), m * nl));
    let split = |m: int| ((fq(m) + fk(m)) + (fv(m) + fe(m))) + (fw(m) + fg(m));
    assert forall|m: int| 0 <= m < n implies #[trigger] whole(m) == split(m) by {
        assert(parts[m].shaped(head, nl));
        let r = from_step(stopped_rates(sequence, rate), m * nl);
        assert(r.q =~= (|i: int, d: int| stopped(sequence, rate.q)(m * nl + i, d)));
        assert(r.k =~= (|i: int, d: int| stopped(sequence, rate.k)(m * nl + i, d)));
        assert(r.v =~= (|i: int, d: int| stopped(sequence, rate.v)(m * nl + i, d)));
        assert(r.erase =~= (|i: int, d: int| stopped(sequence, rate.erase)(m * nl + i, d)));
        assert(r.write =~= (|i: int, d: int| stopped(sequence, rate.write)(m * nl + i, d)));
        assert(r.g =~= (|i: int, d: int| stopped(sequence, rate.g)(m * nl + i, d)));
    }
    lemma_sum_ext(n, whole, split);
}

/// The gradient of one head, from walking back over all of its chunks.
proof fn lemma_head_gradient<R: Ring>(
    head: Head<R>,
    chunked: Chunked<R>,
    wys: Seq<Wy<R>>,
    s0: Mat<R>,
    dy: Matrix<R>,
    scale: R,
    parts: Seq<HeadGrads<R>>,
    ds: Seq<Mat<R>>,
    grads: HeadGrads<R>,
    rate: Stream<R>,
    sd: Mat<R>,
)
    requires
        head.well_formed(),
        dy.has_shape(head.q.rows() as int, head.v.cols() as int),
        chunked.holds(head.stream(), scale),
        chunked.dims.sequence == head.q.rows(),
        chunked.dims.head_k_dim == head.q.cols(),
        chunked.dims.head_v_dim == head.v.cols(),
        all_match(
            chunked.chunks@,
            wys,
            chunked.dims.chunk_len as int,
            chunked.dims.head_k_dim as int,
            chunked.dims.head_v_dim as int,
        ),
        forall|m: int|
            0 <= m < chunked.chunks@.len() ==> (#[trigger] chunked.chunks@[m]).erase.cols()
                == head.erase.cols(),
        forall|m: int|
            0 <= m < chunked.chunks@.len() ==> (#[trigger] chunked.chunks@[m]).write.cols()
                == head.write.cols(),
        forall|m: int|
            0 <= m < chunked.chunks@.len() ==> ((#[trigger] chunked.chunks@[m]).gc is Some
                == head.g is Some),
        forall|m: int|
            0 <= m < chunked.chunks@.len() && head.g is Some ==> (
            #[trigger] chunked.chunks@[m]).gc->0.cols() == head.g->0.cols(),
        parts.len() == chunked.chunks@.len(),
        ds.len() == chunked.chunks@.len() + 1,
        forall|m: int|
            0 <= m < parts.len() ==> walked(
                chunked,
                wys,
                s0,
                dy@,
                scale,
                m,
                #[trigger] parts[m],
                ds[m + 1],
                ds[m],
            ),
        all_gathered(head, chunked.dims.chunk_len as int, parts, grads),
    ensures
        head_adjoint(head, scale, s0, dy@, ds[parts.len() as int], grads, ds[0], rate, sd),
{
    let (nl, nk, nv) = (
        chunked.dims.chunk_len as int,
        head.q.cols() as int,
        head.v.cols() as int,
    );
    let sequence = head.q.rows() as int;
    let n = parts.len() as int;
    lemma_chunk_count(sequence, nl);
    let still = stopped_rates(sequence, rate);
    let (x, z) = (moving(head, rate), moving(head, still));
    let s = lifted(s0, sd);
    lemma_telescope(head, chunked, wys, s0, dy@, scale, parts, ds, still, sd, n);
    lemma_all_gathered_pairs(head, nl, parts, grads, rate);
    // The outputs and the last state do not see what comes after the sequence.
    assert(streams_agree(sequence, nk, nv, x, z));
    let (fast, slow) = (output_rates(x, nk, scale, s), output_rates(z, nk, scale, s));
    assert forall|t: int, c: int| 0 <= t < sequence && 0 <= c < nv implies #[trigger] fast(t, c)
        == slow(t, c) by {
        assert(streams_agree(t + 1, nk, nv, x, z));
        lemma_output_depends(x, z, nk, nv, constant(scale), s, s, t, c);
    }
    lemma_pair_agree(sequence, nv, dy@, fast, dy@, slow);
    lemma_run_depends(x, z, nk, nv, s, s, sequence);
    let padded = n * nl;
    assert forall|t: int, d: int| sequence <= t < padded && 0 <= d < nk implies #[trigger] (z.k)(
        t,
        d,
    ) == Dual::<R>::zero() by {
    }
    assert forall|t: int, d: int| sequence <= t < padded && 0 <= d < nk implies #[trigger] (z.g)(
        t,
        d,
    ) == Dual::<R>::zero() by {
    }
    lemma_idle_steps(z, nk, nv, s, sequence, padded);
    let (early, late) = (state_after(x, nk, s, sequence), state_after(z, nk, s, padded));
    assert forall|d: int, c: int| 0 <= d < nk && 0 <= c < nv implies #[trigger] eps_part(early)(
        d,
        c,
    ) == eps_part(late)(d, c) by {
        assert(early(d, c) == state_after(z, nk, s, sequence)(d, c));
        assert(late(d, c) == state_after(z, nk, s, sequence)(d, c));
    }
    lemma_pair_agree(nk, nv, ds[n], eps_part(early), ds[n], eps_part(late));
    // The outputs, chunk by chunk.
    let windows = |m: int| row_window(dy@, m * nl, nl);
    let rates = |m: int| |i: int, c: int| slow(m * nl + i, c);
    assert forall|m: int, i: int, c: int|
        0 <= m < n && 0 <= i < nl && 0 <= c < nv implies #[trigger] windows(m)(i, c) * (
    #[trigger] rates(m)(i, c)) == (if m * nl + i < sequence {
        dy@(m * nl + i, c) * slow(m * nl + i, c)
    } else {
        R::zero()
    }) by {
        broadcast use lemma_zero_mul;

    }
    lemma_pair_chunks(n, nl, sequence, nv, windows, rates, dy@, slow);
    let by_window = |m: int| pair(nl, nv, windows(m), rates(m));
    let named = |m: int|
        pair(
            nl,
            nv,
            row_window(dy@, m * nl, nl),
            |i: int, c: int| output_rates(z, nk, scale, s)(m * nl + i, c),
        );
    assert forall|m: int| 0 <= m < n implies #[trigger] by_window(m) == named(m) by {
        lemma_pair_agree(
            nl,
            nv,
            windows(m),
            rates(m),
            row_window(dy@, m * nl, nl),
            |i: int, c: int| output_rates(z, nk, scale, s)(m * nl + i, c),
        );
    }
    lemma_sum_ext(n, by_window, named);
}

/// Whether `f` may return `r` at the given chunk, step and channel.
spec fn yields<T, F: Fn(usize, usize, usize) -> T>(f: &F, m: usize, i: usize, d: usize, r: T) -> bool {
    f.ensures((m, i, d), r)
}

/// A matrix over the sequence from a function of chunk, step in it, and channel.
fn gather<T: Scalar, F: Fn(usize, usize, usize) -> T>(
    sequence: usize,
    chunk_len: usize,
    cols: usize,
    f: F,
) -> (r: Matrix<T>)
    requires
        chunk_len > 0,
        forall|m: usize, i: usize, d: usize|
            m < chunk_count(sequence as int, chunk_len as int) && i < chunk_len && d < cols
                ==> #[trigger] f.requires((m, i, d)),
    ensures
        r.has_shape(sequence as int, cols as int),
        forall|t: int, d: int|
            0 <= t < sequence && 0 <= d < cols ==> f.ensures(
                ((t / chunk_len as int) as usize, (t % chunk_len as int) as usize, d as usize),
                #[trigger] r@(t, d),
            ),
{
    proof {
        lemma_chunk_count(sequence as int, chunk_len as int);
    }
    let g = |t: usize, d: usize| -> (r: T)
        requires
            t < sequence,
            d < cols,
        ensures
            yields(&f, t / chunk_len, t % chunk_len, d, r),
        {
            proof {
                assert(0 <= t as int / chunk_len as int);
            }
            f(t / chunk_len, t % chunk_len, d)
        };
    Matrix::from_fn(sequence, cols, g)
}

/// The rows of a matrix, `chunk_len` at a time, with zeros behind the last.
fn chunk_windows<T: Scalar>(x: &Matrix<T>, count: usize, chunk_len: usize) -> (r: Vec<Matrix<T>>)
    requires
        chunk_len > 0,
        count * chunk_len <= usize::MAX,
    ensures
        r@.len() == count,
        forall|m: int|
            0 <= m < count ==> {
                &&& (#[trigger] r@[m]).has_shape(chunk_len as int, x.cols() as int)
                &&& r@[m]@ == row_window(x@, m * chunk_len, chunk_len as int)
            },
{
    let mut r: Vec<Matrix<T>> = Vec::with_capacity(count);
    for n in 0..count
        invariant
            chunk_len > 0,
            count * chunk_len <= usize::MAX,
            r@.len() == n,
            forall|m: int|
                0 <= m < n ==> {
                    &&& (#[trigger] r@[m]).has_shape(chunk_len as int, x.cols() as int)
                    &&& r@[m]@ == row_window(x@, m * chunk_len, chunk_len as int)
                },
    {
        assert(0 <= n * chunk_len && n * chunk_len + chunk_len <= count * chunk_len)
            by (nonlinear_arith)
            requires
                0 <= n,
                n + 1 <= count,
                chunk_len > 0,
        ;
        r.push(x.window(n * chunk_len, chunk_len));
    }
    r
}

/// The gradients of the inputs of every chunk, from what walking the scan back gave.
fn finish_all<T: Scalar>(
    chunked: &Chunked<T>,
    wys: &Vec<Wy<T>>,
    states: &Vec<Matrix<T>>,
    dys: &Vec<Matrix<T>>,
    d_last: &Matrix<T>,
    steps: &Vec<ScanGrads<T>>,
    scale: T,
) -> (parts: Vec<HeadGrads<T>>)
    requires
        chunked.shaped(),
        all_match(
            chunked.chunks@,
            wys@,
            chunked.dims.chunk_len as int,
            chunked.dims.head_k_dim as int,
            chunked.dims.head_v_dim as int,
        ),
        states@.len() == chunked.chunks@.len(),
        dys@.len() == chunked.chunks@.len(),
        walks_back(chunked.chunks@, wys@, states@, dys@, d_last@, steps@),
    ensures
        parts@.len() == chunked.chunks@.len(),
        forall|n: int|
            0 <= n < parts@.len() ==> finishes(
                #[trigger] parts@[n],
                chunked.chunks@[n],
                cotangent_of(
                    chunked.chunks@[n],
                    wys@[n],
                    states@[n]@,
                    dys@[n]@,
                    arriving(steps@, d_last@, n),
                ),
                scale,
            ),
{
    let count: usize = chunked.chunks.len();
    let mut parts: Vec<HeadGrads<T>> = Vec::with_capacity(count);
    for n in 0..count
        invariant
            count == chunked.chunks@.len(),
            chunked.shaped(),
            all_match(
                chunked.chunks@,
                wys@,
                chunked.dims.chunk_len as int,
                chunked.dims.head_k_dim as int,
                chunked.dims.head_v_dim as int,
            ),
            states@.len() == count,
            dys@.len() == count,
            walks_back(chunked.chunks@, wys@, states@, dys@, d_last@, steps@),
            parts@.len() == n,
            forall|m: int|
                0 <= m < n ==> finishes(
                    #[trigger] parts@[m],
                    chunked.chunks@[m],
                    cotangent_of(
                        chunked.chunks@[m],
                        wys@[m],
                        states@[m]@,
                        dys@[m]@,
                        arriving(steps@, d_last@, m),
                    ),
                    scale,
                ),
    {
        let chunk = &chunked.chunks[n];
        assert(wys@[n as int].matches(
            *chunk,
            chunked.dims.chunk_len as int,
            chunked.dims.head_k_dim as int,
            chunked.dims.head_v_dim as int,
        ));
        let ghost c = cotangent_of(
            *chunk,
            wys@[n as int],
            states@[n as int]@,
            dys@[n as int]@,
            arriving(steps@, d_last@, n as int),
        );
        assert(steps@[n as int].differentiates(*chunk, c));
        let grads = chunk_backward(chunk, &wys[n], &steps[n], Ghost(c));
        parts.push(finish(grads, chunk, scale, Ghost(c)));
    }
    parts
}

/// The gradient of the chunkwise form for one head: the gradients of its inputs,
/// and of the state it starts from. `dy` is the gradient of the outputs, `d_last`
/// that of the last state.
pub fn head_backward<T: Scalar>(
    head: &Head<T>,
    state: &Matrix<T>,
    dy: &Matrix<T>,
    d_last: &Matrix<T>,
    batch: usize,
    nheads: usize,
    chunk_len: usize,
    scale: T,
) -> (r: (HeadGrads<T>, Matrix<T>))
    requires
        head.well_formed(),
        state.has_shape(head.q.cols() as int, head.v.cols() as int),
        dy.has_shape(head.q.rows() as int, head.v.cols() as int),
        d_last.has_shape(head.q.cols() as int, head.v.cols() as int),
        chunk_len > 0,
        padded_len(head.q.rows() as int, chunk_len as int) <= usize::MAX,
    ensures
        r.0.shaped(*head, head.q.rows() as int),
        r.1.has_shape(head.q.cols() as int, head.v.cols() as int),
        forall|rate: Stream<T>, sd: Mat<T>| #[trigger]
            head_adjoint(*head, scale, state@, dy@, d_last@, r.0, r.1@, rate, sd),
{
    let ghost (nl, nk, nv) = (
        chunk_len as int,
        head.q.cols() as int,
        head.v.cols() as int,
    );
    let chunked = Chunked::prepare(head, batch, nheads, chunk_len, scale);
    let wys = chunked.wy(TriSolve::Blocked);
    let states = chunked.scan(&wys, state, ScanMode::States).states.unwrap();
    let count: usize = chunked.chunks.len();
    let dys = chunk_windows(dy, count, chunk_len);
    proof {
        assert forall|n: int| 0 <= n < count implies {
            let chunk = #[trigger] chunked.chunks@[n];
            &&& chunk.well_formed()
            &&& chunk.k.cols() == nk
            &&& chunk.v.cols() == nv
            &&& wys@[n].matches(chunk, chunk.k.rows() as int, nk, nv)
            &&& states@[n].has_shape(nk, nv)
            &&& dys@[n].has_shape(chunk.k.rows() as int, nv)
        } by {
            assert(chunked.chunks@[n].shaped(nl, nk, nv));
            assert(wys@[n].matches(chunked.chunks@[n], nl, nk, nv));
        }
    }
    let steps = reverse_scan(&chunked.chunks, &wys, &states, &dys, d_last);
    let parts = finish_all(&chunked, &wys, &states, &dys, d_last, &steps, scale);
    let d_state = if count == 0 {
        d_last.copy()
    } else {
        steps[0].d_state.copy()
    };
    let ghost ds = Seq::new(
        (count + 1) as nat,
        |m: int|
            if m < count {
                steps@[m].d_state@
            } else {
                d_last@
            },
    );
    proof {
        assert forall|m: int| 0 <= m < count implies walked(
            chunked,
            wys@,
            state@,
            dy@,
            scale,
            m,
            #[trigger] parts@[m],
            ds[m + 1],
            ds[m],
        ) by {
            assert(ds[m + 1] == arriving(steps@, d_last@, m));
            assert(states@[m]@ == entering(chunked.chunks@, wys@, nl, nk, state@, m));
            assert(dys@[m]@ == row_window(dy@, m * nl, nl));
            assert(finishes(
                parts@[m],
                chunked.chunks@[m],
                cotangent_of(
                    chunked.chunks@[m],
                    wys@[m],
                    states@[m]@,
                    dys@[m]@,
                    arriving(steps@, d_last@, m),
                ),
                scale,
            ));
            assert(chunked.chunks@[m].shaped(nl, nk, nv));
        }
        if count > 0 {
            assert(chunked.chunks@[0].shaped(nl, nk, nv));
            assert(steps@[0].d_state.has_shape(nk, nv));
        }
        assert forall|m: int| 0 <= m < count implies (#[trigger] parts@[m]).shaped(
            *head,
            nl,
        ) by {
            assert(walked(
                chunked,
                wys@,
                state@,
                dy@,
                scale,
                m,
                parts@[m],
                ds[m + 1],
                ds[m],
            ));
            assert(chunked.chunks@[m].shaped(nl, nk, nv));
            assert(chunked.chunks@[m].erase.cols() == head.erase.cols());
            assert(chunked.chunks@[m].write.cols() == head.write.cols());
        }
    }
    let sequence: usize = head.q.rows();
    let fq = |m: usize, i: usize, d: usize| -> (r: T)
        requires
            m < count,
            i < chunk_len,
            d < head.q.cols(),
        ensures
            r == parts@[m as int].d_q@(i as int, d as int),
        { parts[m].d_q.at(i, d) };
    let fk = |m: usize, i: usize, d: usize| -> (r: T)
        requires
            m < count,
            i < chunk_len,
            d < head.q.cols(),
        ensures
            r == parts@[m as int].d_k@(i as int, d as int),
        { parts[m].d_k.at(i, d) };
    let fv = |m: usize, i: usize, d: usize| -> (r: T)
        requires
            m < count,
            i < chunk_len,
            d < head.v.cols(),
        ensures
            r == parts@[m as int].d_v@(i as int, d as int),
        { parts[m].d_v.at(i, d) };
    let fe = |m: usize, i: usize, d: usize| -> (r: T)
        requires
            m < count,
            i < chunk_len,
            d < head.erase.cols(),
        ensures
            r == parts@[m as int].d_erase@(i as int, d as int),
        { parts[m].d_erase.at(i, d) };
    let fw = |m: usize, i: usize, d: usize| -> (r: T)
        requires
            m < count,
            i < chunk_len,
            d < head.write.cols(),
        ensures
            r == parts@[m as int].d_write@(i as int, d as int),
        { parts[m].d_write.at(i, d) };
    let d_g = match &head.g {
        Some(g) => {
            let fg = |m: usize, i: usize, d: usize| -> (r: T)
                requires
                    m < count,
                    i < chunk_len,
                    d < g.cols(),
                ensures
                    r == parts@[m as int].d_g->0@(i as int, d as int),
                { parts[m].d_g.as_ref().unwrap().at(i, d) };
            Some(gather(sequence, chunk_len, g.cols(), fg))
        },
        None => None,
    };
    let grads = HeadGrads {
        d_q: gather(sequence, chunk_len, head.q.cols(), fq),
        d_k: gather(sequence, chunk_len, head.q.cols(), fk),
        d_v: gather(sequence, chunk_len, head.v.cols(), fv),
        d_erase: gather(sequence, chunk_len, head.erase.cols(), fe),
        d_write: gather(sequence, chunk_len, head.write.cols(), fw),
        d_g,
    };
    proof {
        lemma_chunk_count(sequence as int, nl);
        assert(all_gathered(*head, nl, parts@, grads));
        assert forall|rate: Stream<T>, sd: Mat<T>| #[trigger]
            head_adjoint(*head, scale, state@, dy@, d_last@, grads, d_state@, rate, sd) by {
            lemma_head_gradient(
                *head,
                chunked,
                wys@,
                state@,
                *dy,
                scale,
                parts@,
                ds,
                grads,
                rate,
                sd,
            );
        }
    }
    (grads, d_state)
}

} // verus!
