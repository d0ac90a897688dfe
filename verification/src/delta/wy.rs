//! Why the chunkwise form computes the delta rule.
//!
//! Over a chunk, the deltas solve a unit lower-triangular system whose right-hand
//! side needs only the state that enters the chunk. Its inverse `T` turns the
//! written values and the erase keys into `U` and `W`, and then
//!
//! ```text
//!   V' = U - W S              the deltas
//!   Y  = Q S + tril(Q K^T) V' the outputs
//!   S' = S + K^T V'           the state that leaves the chunk
//! ```
//!
//! with the decay between each two steps carried by the queries, keys and scores.
use vstd::prelude::*;

use crate::delta::rule::{
    carried_keys, corrections, cumulative, decayed_rows, decayed_scores, erase_keys, forgotten,
    lemma_corrections_solve, lemma_output_expands, lemma_state_expands, next_state, output,
    correction, scaled_queries, state_after, write_values, Stream,
};
use crate::delta::tri::{is_inverse, unit_lower};
use crate::mat::{
    agree, eye, lemma_eye_mul, lemma_mul_agree_left, lemma_mul_agree_right, lemma_mul_assoc,
    lemma_mul_sub_left, lemma_mul_sub_right, mat_add, mat_mul, mat_neg, mat_sub, transposed, tril,
    tril_strict, Mat,
};
use crate::ring::{
    group_add, lemma_add_zero, lemma_neg_mul, lemma_one_mul, lemma_zero_mul, Ring,
};
use crate::sum::{lemma_sum_ext, lemma_sum_neg, lemma_sum_truncate, sum};

verus! {

/// The deltas of a chunk are `U - W S`, with `U` and `W` from the inverse of its
/// triangular system.
pub proof fn lemma_chunk_deltas<R: Ring>(
    x: Stream<R>,
    nk: int,
    nv: int,
    nl: int,
    s0: Mat<R>,
    vw: Mat<R>,
    kg: Mat<R>,
    akk: Mat<R>,
    t: Mat<R>,
)
    requires
        agree(nl, nv, vw, write_values(x)),
        agree(nl, nk, kg, decayed_rows(erase_keys(x), cumulative(x.g))),
        forall|i: int, j: int|
            0 <= j < i < nl ==> #[trigger] akk(i, j) == decayed_scores(
                nk,
                erase_keys(x),
                x.k,
                cumulative(x.g),
            )(i, j),
        is_inverse(nl, t, unit_lower(mat_neg(akk))),
    ensures
        agree(
            nl,
            nv,
            mat_sub(mat_mul(nl, t, vw), mat_mul(nk, mat_mul(nl, t, kg), s0)),
            corrections(x, nk, s0),
        ),
{
    let u = corrections(x, nk, s0);
    let m = unit_lower(mat_neg(akk));
    let strict = tril_strict(mat_neg(akk));
    let b = mat_sub(vw, mat_mul(nk, kg, s0));
    let ideal = decayed_rows(erase_keys(x), cumulative(x.g));
    lemma_mul_agree_left(nk, nl, kg, ideal, s0);
    lemma_mul_sub_left(nl, eye(), strict, u);
    assert forall|i: int, c: int| 0 <= i < nl && 0 <= c < nv implies #[trigger] mat_mul(nl, m, u)(
        i,
        c,
    ) == b(i, c) by {
        lemma_eye_mul(nl, u, i, c);
        lemma_corrections_solve(x, nk, s0, i, c);
        let scores = decayed_scores(nk, erase_keys(x), x.k, cumulative(x.g));
        let terms = |j: int| scores(i, j) * u(j, c);
        let masked = |j: int| strict(i, j) * u(j, c);
        assert forall|j: int| i <= j < nl implies #[trigger] masked(j) == R::zero() by {
            lemma_zero_mul(u(j, c));
        }
        lemma_sum_truncate(nl, i, masked);
        assert forall|j: int| 0 <= j < i implies #[trigger] masked(j) == -terms(j) by {
            assert(akk(i, j) == scores(i, j));
            lemma_neg_mul(akk(i, j), u(j, c));
        }
        lemma_sum_neg(i, terms);
        lemma_sum_ext(i, masked, |j: int| -terms(j));
        assert(mat_mul(nk, kg, s0)(i, c) == mat_mul(nk, ideal, s0)(i, c));
        let (v, r, w) = (vw(i, c), mat_mul(nk, kg, s0)(i, c), sum(i, terms));
        assert(u(i, c) == v - (r + w));
        assert((v - (r + w)) - (-w) == v - r) by {
            broadcast use group_add;

        }
    }
    lemma_mul_assoc(nl, nl, t, m, u);
    lemma_mul_agree_left(nl, nl, mat_mul(nl, t, m), eye(), u);
    lemma_mul_agree_right(nl, nv, t, mat_mul(nl, m, u), b);
    lemma_mul_sub_right(nl, t, vw, mat_mul(nk, kg, s0));
    lemma_mul_assoc(nl, nk, t, kg, s0);
    assert forall|i: int, c: int| 0 <= i < nl && 0 <= c < nv implies #[trigger] mat_sub(
        mat_mul(nl, t, vw),
        mat_mul(nk, mat_mul(nl, t, kg), s0),
    )(i, c) == u(i, c) by {
        lemma_eye_mul(nl, u, i, c);
        assert(mat_mul(nl, t, mat_mul(nl, m, u))(i, c) == mat_mul(nl, t, b)(i, c));
        assert(mat_mul(nl, mat_mul(nl, t, m), u)(i, c) == mat_mul(nl, eye(), u)(i, c));
    }
}

/// The outputs of a chunk: a read of the entering state, and the causal scores
/// against the chunk's own deltas.
pub proof fn lemma_chunk_outputs<R: Ring>(
    x: Stream<R>,
    nk: int,
    nv: int,
    nl: int,
    scale: R,
    s0: Mat<R>,
    qg: Mat<R>,
    attn: Mat<R>,
    deltas: Mat<R>,
)
    requires
        agree(nl, nk, qg, decayed_rows(scaled_queries(x, scale), cumulative(x.g))),
        agree(
            nl,
            nl,
            attn,
            tril(decayed_scores(nk, scaled_queries(x, scale), x.k, cumulative(x.g))),
        ),
        agree(nl, nv, deltas, corrections(x, nk, s0)),
    ensures
        forall|i: int, c: int|
            0 <= i < nl && 0 <= c < nv ==> #[trigger] mat_add(
                mat_mul(nk, qg, s0),
                mat_mul(nl, attn, deltas),
            )(i, c) == output(x, nk, scale, s0, i, c),
{
    let u = corrections(x, nk, s0);
    let ideal = decayed_rows(scaled_queries(x, scale), cumulative(x.g));
    let scores = decayed_scores(nk, scaled_queries(x, scale), x.k, cumulative(x.g));
    lemma_mul_agree_left(nk, nl, qg, ideal, s0);
    lemma_mul_agree_left(nl, nl, attn, tril(scores), deltas);
    lemma_mul_agree_right(nl, nv, tril(scores), deltas, u);
    assert forall|i: int, c: int| 0 <= i < nl && 0 <= c < nv implies #[trigger] mat_add(
        mat_mul(nk, qg, s0),
        mat_mul(nl, attn, deltas),
    )(i, c) == output(x, nk, scale, s0, i, c) by {
        lemma_output_expands(x, nk, scale, s0, i, c);
        assert(mat_mul(nk, qg, s0)(i, c) == mat_mul(nk, ideal, s0)(i, c));
        assert(mat_mul(nl, attn, deltas)(i, c) == mat_mul(nl, tril(scores), deltas)(i, c));
        assert(mat_mul(nl, tril(scores), deltas)(i, c) == mat_mul(nl, tril(scores), u)(i, c));
        let masked = |j: int| tril(scores)(i, j) * u(j, c);
        assert forall|j: int| i + 1 <= j < nl implies #[trigger] masked(j) == R::zero() by {
            lemma_zero_mul(u(j, c));
        }
        lemma_sum_truncate(nl, i + 1, masked);
        lemma_sum_ext(i + 1, masked, |j: int| scores(i, j) * u(j, c));
    }
}

/// The state that leaves a chunk: what is left of the entering one, and each
/// delta written with its key, carried to the end of the chunk.
pub proof fn lemma_chunk_state<R: Ring>(
    x: Stream<R>,
    nk: int,
    nv: int,
    nl: int,
    s0: Mat<R>,
    kept: Mat<R>,
    kc: Mat<R>,
    deltas: Mat<R>,
)
    requires
        0 < nl,
        agree(nk, nv, kept, |d: int, c: int| cumulative(x.g)(nl - 1, d).expo() * s0(d, c)),
        agree(
            nl,
            nk,
            kc,
            |j: int, d: int|
                (x.k)(j, d) * (cumulative(x.g)(nl - 1, d) - cumulative(x.g)(j, d)).expo(),
        ),
        agree(nl, nv, deltas, corrections(x, nk, s0)),
    ensures
        agree(
            nk,
            nv,
            mat_add(kept, mat_mul(nl, transposed(kc), deltas)),
            state_after(x, nk, s0, nl),
        ),
{
    let u = corrections(x, nk, s0);
    assert forall|d: int, c: int| 0 <= d < nk && 0 <= c < nv implies #[trigger] mat_add(
        kept,
        mat_mul(nl, transposed(kc), deltas),
    )(d, c) == state_after(x, nk, s0, nl)(d, c) by {
        lemma_state_expands(x, nk, s0, nl, d, c);
        lemma_sum_ext(
            nl,
            |j: int| transposed(kc)(d, j) * deltas(j, c),
            |j: int| carried_keys(x, nl)(j, d) * u(j, c),
        );
        assert(kept(d, c) == cumulative(x.g)(nl - 1, d).expo() * s0(d, c));
    }
}

/// Whether two streams agree over the first `nt` steps, on `nk` key and `nv`
/// value channels.
pub open spec fn streams_agree<R>(nt: int, nk: int, nv: int, x: Stream<R>, y: Stream<R>) -> bool {
    &&& agree(nt, nk, x.q, y.q)
    &&& agree(nt, nk, x.k, y.k)
    &&& agree(nt, nv, x.v, y.v)
    &&& agree(nt, nk, x.erase, y.erase)
    &&& agree(nt, nv, x.write, y.write)
    &&& agree(nt, nk, x.g, y.g)
}

/// A run depends only on the steps it takes and the channels there are.
pub proof fn lemma_run_depends<R: Ring>(
    x: Stream<R>,
    y: Stream<R>,
    nk: int,
    nv: int,
    s: Mat<R>,
    r: Mat<R>,
    t: int,
)
    requires
        streams_agree(t, nk, nv, x, y),
        agree(nk, nv, s, r),
    ensures
        agree(nk, nv, state_after(x, nk, s, t), state_after(y, nk, r, t)),
    decreases t,
{
    if t > 0 {
        lemma_run_depends(x, y, nk, nv, s, r, t - 1);
        let (a, b) = (state_after(x, nk, s, t - 1), state_after(y, nk, r, t - 1));
        lemma_correction_depends(x, y, nk, nv, a, b, t - 1);
        assert forall|d: int, c: int| 0 <= d < nk && 0 <= c < nv implies #[trigger] state_after(
            x,
            nk,
            s,
            t,
        )(d, c) == state_after(y, nk, r, t)(d, c) by {
            assert(a(d, c) == b(d, c));
            assert((x.g)(t - 1, d) == (y.g)(t - 1, d));
            assert((x.k)(t - 1, d) == (y.k)(t - 1, d));
            assert(next_state(x, nk, a, t - 1)(d, c) == next_state(y, nk, b, t - 1)(d, c));
        }
    }
}

/// A delta depends only on its own step and the channels there are.
proof fn lemma_correction_depends<R: Ring>(
    x: Stream<R>,
    y: Stream<R>,
    nk: int,
    nv: int,
    s: Mat<R>,
    r: Mat<R>,
    t: int,
)
    requires
        0 <= t,
        streams_agree(t + 1, nk, nv, x, y),
        agree(nk, nv, s, r),
    ensures
        forall|c: int|
            0 <= c < nv ==> #[trigger] correction(x, nk, s, t, c) == correction(y, nk, r, t, c),
{
    assert forall|c: int| 0 <= c < nv implies #[trigger] correction(x, nk, s, t, c) == correction(
        y,
        nk,
        r,
        t,
        c,
    ) by {
        let f = |d: int| ((x.k)(t, d) * (x.erase)(t, d)) * forgotten(x, s, t)(d, c);
        let h = |d: int| ((y.k)(t, d) * (y.erase)(t, d)) * forgotten(y, r, t)(d, c);
        assert forall|d: int| 0 <= d < nk implies #[trigger] f(d) == h(d) by {
            assert((x.k)(t, d) == (y.k)(t, d));
            assert((x.erase)(t, d) == (y.erase)(t, d));
            assert((x.g)(t, d) == (y.g)(t, d));
            assert(s(d, c) == r(d, c));
        }
        lemma_sum_ext(nk, f, h);
        assert((x.v)(t, c) == (y.v)(t, c));
        assert((x.write)(t, c) == (y.write)(t, c));
    }
}

/// An output depends only on the steps up to it and the channels there are.
pub proof fn lemma_output_depends<R: Ring>(
    x: Stream<R>,
    y: Stream<R>,
    nk: int,
    nv: int,
    scale: R,
    s: Mat<R>,
    r: Mat<R>,
    t: int,
    c: int,
)
    requires
        0 <= t,
        streams_agree(t + 1, nk, nv, x, y),
        agree(nk, nv, s, r),
        0 <= c < nv,
    ensures
        output(x, nk, scale, s, t, c) == output(y, nk, scale, r, t, c),
{
    lemma_run_depends(x, y, nk, nv, s, r, t + 1);
    let (a, b) = (state_after(x, nk, s, t + 1), state_after(y, nk, r, t + 1));
    let f = |d: int| ((x.q)(t, d) * scale) * a(d, c);
    let h = |d: int| ((y.q)(t, d) * scale) * b(d, c);
    assert forall|d: int| 0 <= d < nk implies #[trigger] f(d) == h(d) by {
        assert((x.q)(t, d) == (y.q)(t, d));
        assert(a(d, c) == b(d, c));
    }
    lemma_sum_ext(nk, f, h);
}

/// Steps with a zero key and no decay leave the state as it is.
pub proof fn lemma_idle_steps<R: Ring>(x: Stream<R>, nk: int, nv: int, s0: Mat<R>, from: int, t: int)
    requires
        0 <= from <= t,
        forall|i: int, d: int| from <= i < t && 0 <= d < nk ==> #[trigger] (x.k)(i, d) == R::zero(),
        forall|i: int, d: int| from <= i < t && 0 <= d < nk ==> #[trigger] (x.g)(i, d) == R::zero(),
    ensures
        agree(nk, nv, state_after(x, nk, s0, t), state_after(x, nk, s0, from)),
    decreases t,
{
    if t > from {
        lemma_idle_steps(x, nk, nv, s0, from, t - 1);
        let (s, end) = (state_after(x, nk, s0, t - 1), state_after(x, nk, s0, from));
        assert forall|d: int, c: int| 0 <= d < nk && 0 <= c < nv implies #[trigger] state_after(
            x,
            nk,
            s0,
            t,
        )(d, c) == end(d, c) by {
            broadcast use {lemma_zero_mul, lemma_one_mul, lemma_add_zero};

            R::expo_zero();
            assert((x.k)(t - 1, d) == R::zero());
            assert((x.g)(t - 1, d) == R::zero());
            assert(s(d, c) == end(d, c));
        }
    }
}

/// The deltas of a run depend only on the steps so far and the channels there are.
pub proof fn lemma_corrections_depend<R: Ring>(
    x: Stream<R>,
    nk: int,
    nv: int,
    s: Mat<R>,
    r: Mat<R>,
    nl: int,
)
    requires
        agree(nk, nv, s, r),
    ensures
        agree(nl, nv, corrections(x, nk, s), corrections(x, nk, r)),
{
    assert forall|i: int, c: int| 0 <= i < nl && 0 <= c < nv implies #[trigger] corrections(
        x,
        nk,
        s,
    )(i, c) == corrections(x, nk, r)(i, c) by {
        lemma_run_depends(x, x, nk, nv, s, r, i);
        lemma_correction_depends(
            x,
            x,
            nk,
            nv,
            state_after(x, nk, s, i),
            state_after(x, nk, r, i),
            i,
        );
        assert(correction(x, nk, state_after(x, nk, s, i), i, c) == correction(
            x,
            nk,
            state_after(x, nk, r, i),
            i,
            c,
        ));
    }
}

} // verus!
