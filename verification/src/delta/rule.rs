//! The delta rule itself: the recurrence every evaluation computes.
//!
//! One associative memory `S` per head, written with an error-correcting update:
//!
//! ```text
//!   S-  = exp(g) S                        forget, channel by channel
//!   u   = write v - S-^T (erase k)        the delta: target minus retrieved
//!   S'  = S- + k u^T                      a rank-one correction
//!   y   = S'^T (scale q)                  read the updated state
//! ```
//!
//! and its closed form over a run of steps, which the chunkwise evaluation
//! computes with matrix products.
use vstd::prelude::*;

use crate::mat::{mat_mul, Mat};
use crate::ring::{group_add, group_mul, lemma_expo_self, Ring};
use crate::sum::{
    lemma_sum_add, lemma_sum_ext, lemma_sum_scale, lemma_sum_scale_right, lemma_sum_swap, sum,
};

verus! {

/// What one head reads at each step, as functions of the step and the channel.
#[verifier::ext_equal]
pub struct Stream<R> {
    /// Queries, on the key channels.
    pub q: Mat<R>,
    /// Keys.
    pub k: Mat<R>,
    /// Values.
    pub v: Mat<R>,
    /// The erase gate, on the key channels.
    pub erase: Mat<R>,
    /// The write gate, on the value channels.
    pub write: Mat<R>,
    /// The logarithm of the forget gate, on the key channels.
    pub g: Mat<R>,
}

/// The state after the forget gate of step `t`.
pub open spec fn forgotten<R: Ring>(x: Stream<R>, s: Mat<R>, t: int) -> Mat<R> {
    |d: int, c: int| (x.g)(t, d).expo() * s(d, c)
}

/// The delta of step `t`: what is to be written less what the state retrieves.
pub open spec fn correction<R: Ring>(x: Stream<R>, nk: int, s: Mat<R>, t: int, c: int) -> R {
    (x.v)(t, c) * (x.write)(t, c) - sum(
        nk,
        |d: int| ((x.k)(t, d) * (x.erase)(t, d)) * forgotten(x, s, t)(d, c),
    )
}

/// The state after step `t`.
pub open spec fn next_state<R: Ring>(x: Stream<R>, nk: int, s: Mat<R>, t: int) -> Mat<R> {
    |d: int, c: int| forgotten(x, s, t)(d, c) + (x.k)(t, d) * correction(x, nk, s, t, c)
}

/// The state after the first `t` steps.
pub open spec fn state_after<R: Ring>(x: Stream<R>, nk: int, s0: Mat<R>, t: int) -> Mat<R>
    decreases t,
{
    if t <= 0 {
        s0
    } else {
        next_state(x, nk, state_after(x, nk, s0, t - 1), t - 1)
    }
}

/// What reading a state with the query of step `t` returns.
pub open spec fn read<R: Ring>(x: Stream<R>, nk: int, scale: R, s: Mat<R>, t: int, c: int) -> R {
    sum(nk, |d: int| ((x.q)(t, d) * scale) * s(d, c))
}

/// The output of step `t`: the state after it, read with its query.
pub open spec fn output<R: Ring>(
    x: Stream<R>,
    nk: int,
    scale: R,
    s0: Mat<R>,
    t: int,
    c: int,
) -> R {
    read(x, nk, scale, state_after(x, nk, s0, t + 1), t, c)
}

/// The stream from step `t0` on.
pub open spec fn from_step<R>(x: Stream<R>, t0: int) -> Stream<R> {
    Stream {
        q: |t: int, d: int| (x.q)(t0 + t, d),
        k: |t: int, d: int| (x.k)(t0 + t, d),
        v: |t: int, c: int| (x.v)(t0 + t, c),
        erase: |t: int, d: int| (x.erase)(t0 + t, d),
        write: |t: int, c: int| (x.write)(t0 + t, c),
        g: |t: int, d: int| (x.g)(t0 + t, d),
    }
}

/// A run of steps continues from the state that the steps before it left.
pub proof fn lemma_run_continues<R: Ring>(x: Stream<R>, nk: int, s0: Mat<R>, t0: int, t: int)
    requires
        0 <= t0,
        0 <= t,
    ensures
        state_after(x, nk, s0, t0 + t) == state_after(
            from_step(x, t0),
            nk,
            state_after(x, nk, s0, t0),
            t,
        ),
    decreases t,
{
    if t > 0 {
        lemma_run_continues(x, nk, s0, t0, t - 1);
        let s = state_after(x, nk, s0, t0 + t - 1);
        lemma_step_shifts(x, nk, s, t0, t - 1);
    }
}

/// A step of the shifted stream is the step of the stream itself.
proof fn lemma_step_shifts<R: Ring>(x: Stream<R>, nk: int, s: Mat<R>, t0: int, t: int)
    ensures
        next_state(from_step(x, t0), nk, s, t) == next_state(x, nk, s, t0 + t),
{
    let y = from_step(x, t0);
    assert(forgotten(y, s, t) =~= forgotten(x, s, t0 + t));
    assert forall|c: int| #[trigger] correction(y, nk, s, t, c) == correction(
        x,
        nk,
        s,
        t0 + t,
        c,
    ) by {
        lemma_sum_ext(
            nk,
            |d: int| ((y.k)(t, d) * (y.erase)(t, d)) * forgotten(y, s, t)(d, c),
            |d: int|
                ((x.k)(t0 + t, d) * (x.erase)(t0 + t, d)) * forgotten(x, s, t0 + t)(d, c),
        );
    }
    assert(next_state(y, nk, s, t) =~= next_state(x, nk, s, t0 + t));
}

/// The sum of the log decay over the first `i` steps.
pub open spec fn decay_sum<R: Ring>(g: Mat<R>, i: int, d: int) -> R {
    sum(i, |j: int| g(j, d))
}

/// The cumulative log decay: the sum over the steps up to `i`, that one included.
pub open spec fn cumulative<R: Ring>(g: Mat<R>) -> Mat<R> {
    |i: int, d: int| decay_sum(g, i + 1, d)
}

/// The keys as the erase gate leaves them.
pub open spec fn erase_keys<R: Ring>(x: Stream<R>) -> Mat<R> {
    |i: int, d: int| (x.k)(i, d) * (x.erase)(i, d)
}

/// The values as the write gate leaves them.
pub open spec fn write_values<R: Ring>(x: Stream<R>) -> Mat<R> {
    |i: int, c: int| (x.v)(i, c) * (x.write)(i, c)
}

/// The queries times the readout scale.
pub open spec fn scaled_queries<R: Ring>(x: Stream<R>, scale: R) -> Mat<R> {
    |i: int, d: int| (x.q)(i, d) * scale
}

/// Rows decayed from the start of the run to their own step.
pub open spec fn decayed_rows<R: Ring>(rows: Mat<R>, gc: Mat<R>) -> Mat<R> {
    |i: int, d: int| rows(i, d) * gc(i, d).expo()
}

/// The scores of rows against keys, each pair of steps with the decay between them.
pub open spec fn decayed_scores<R: Ring>(nk: int, rows: Mat<R>, k: Mat<R>, gc: Mat<R>) -> Mat<R> {
    |i: int, j: int|
        sum(nk, |d: int| (rows(i, d) * k(j, d)) * (gc(i, d) - gc(j, d)).expo())
}

/// The deltas of a run that starts from state `s0`.
pub open spec fn corrections<R: Ring>(x: Stream<R>, nk: int, s0: Mat<R>) -> Mat<R> {
    |j: int, c: int| correction(x, nk, state_after(x, nk, s0, j), j, c)
}

/// The keys decayed from their own step to the end of `i` steps.
pub open spec fn carried_keys<R: Ring>(x: Stream<R>, i: int) -> Mat<R> {
    |j: int, d: int| (x.k)(j, d) * (decay_sum(x.g, i, d) - decay_sum(x.g, j + 1, d)).expo()
}

/// One forget gate further, a run's state is the sum of what is left of its
/// start and of the writes so far.
proof fn lemma_forgotten_expands<R: Ring>(x: Stream<R>, nk: int, s0: Mat<R>, i: int, d: int, c: int)
    requires
        0 <= i,
        state_after(x, nk, s0, i)(d, c) == decay_sum(x.g, i, d).expo() * s0(d, c) + sum(
            i,
            |j: int| carried_keys(x, i)(j, d) * corrections(x, nk, s0)(j, c),
        ),
    ensures
        forgotten(x, state_after(x, nk, s0, i), i)(d, c) == decay_sum(x.g, i + 1, d).expo() * s0(
            d,
            c,
        ) + sum(i, |j: int| carried_keys(x, i + 1)(j, d) * corrections(x, nk, s0)(j, c)),
{
    let u = corrections(x, nk, s0);
    let (before, after) = (decay_sum(x.g, i, d), decay_sum(x.g, i + 1, d));
    let g = (x.g)(i, d);
    assert(after == before + g);
    let old_terms = |j: int| carried_keys(x, i)(j, d) * u(j, c);
    let new_terms = |j: int| carried_keys(x, i + 1)(j, d) * u(j, c);
    R::mul_distributes(g.expo(), before.expo() * s0(d, c), sum(i, old_terms));
    R::expo_add(before, g);
    R::mul_associates(g.expo(), before.expo(), s0(d, c));
    R::mul_commutes(g.expo(), before.expo());
    lemma_sum_scale(i, g.expo(), old_terms);
    assert forall|j: int| 0 <= j < i implies g.expo() * #[trigger] old_terms(j) == new_terms(
        j,
    ) by {
        let start = decay_sum(x.g, j + 1, d);
        assert((before + g) - start == (before - start) + g) by {
            broadcast use group_add;

        }
        R::expo_add(before - start, g);
        let (e, f, k, w) = (g.expo(), (before - start).expo(), (x.k)(j, d), u(j, c));
        assert(e * ((k * f) * w) == (k * (f * e)) * w) by {
            broadcast use group_mul;

        }
    }
    lemma_sum_ext(i, |j: int| g.expo() * old_terms(j), new_terms);
}

/// The closed form of a run: the decayed start plus every write decayed from its step.
pub proof fn lemma_state_expands<R: Ring>(x: Stream<R>, nk: int, s0: Mat<R>, i: int, d: int, c: int)
    requires
        0 <= i,
    ensures
        state_after(x, nk, s0, i)(d, c) == decay_sum(x.g, i, d).expo() * s0(d, c) + sum(
            i,
            |j: int| carried_keys(x, i)(j, d) * corrections(x, nk, s0)(j, c),
        ),
    decreases i,
{
    let u = corrections(x, nk, s0);
    if i == 0 {
        R::expo_zero();
        broadcast use {group_mul, group_add};

    } else {
        lemma_state_expands(x, nk, s0, i - 1, d, c);
        lemma_forgotten_expands(x, nk, s0, i - 1, d, c);
        let terms = |j: int| carried_keys(x, i)(j, d) * u(j, c);
        assert(sum(i, terms) == sum(i - 1, terms) + terms(i - 1));
        lemma_expo_self(decay_sum(x.g, i, d));
        R::mul_one((x.k)(i - 1, d));
        assert(terms(i - 1) == (x.k)(i - 1, d) * u(i - 1, c));
        R::add_associates(
            decay_sum(x.g, i, d).expo() * s0(d, c),
            sum(i - 1, terms),
            terms(i - 1),
        );
    }
}

/// Contracting a closed form with a row: the row reads the start, and scores
/// against every write.
proof fn lemma_row_reads<R: Ring>(
    nk: int,
    m: int,
    row: spec_fn(int) -> R,
    e: spec_fn(int) -> R,
    k: Mat<R>,
    f: Mat<R>,
    u: spec_fn(int) -> R,
    s: spec_fn(int) -> R,
)
    ensures
        sum(nk, |d: int| row(d) * (e(d) * s(d) + sum(m, |j: int| (k(j, d) * f(j, d)) * u(j))))
            == sum(nk, |d: int| (row(d) * e(d)) * s(d)) + sum(
            m,
            |j: int| sum(nk, |d: int| (row(d) * k(j, d)) * f(j, d)) * u(j),
        ),
{
    let whole = |d: int| row(d) * (e(d) * s(d) + sum(m, |j: int| (k(j, d) * f(j, d)) * u(j)));
    let first = |d: int| (row(d) * e(d)) * s(d);
    let pair = |d: int, j: int| ((row(d) * k(j, d)) * f(j, d)) * u(j);
    let second = |d: int| sum(m, |j: int| pair(d, j));
    assert forall|d: int| 0 <= d < nk implies #[trigger] whole(d) == first(d) + second(d) by {
        let writes = |j: int| (k(j, d) * f(j, d)) * u(j);
        R::mul_distributes(row(d), e(d) * s(d), sum(m, writes));
        R::mul_associates(row(d), e(d), s(d));
        lemma_sum_scale(m, row(d), writes);
        assert forall|j: int| 0 <= j < m implies row(d) * #[trigger] writes(j) == pair(d, j) by {
            R::mul_associates(row(d), k(j, d) * f(j, d), u(j));
            R::mul_associates(row(d), k(j, d), f(j, d));
        }
        lemma_sum_ext(m, |j: int| row(d) * writes(j), |j: int| pair(d, j));
    }
    lemma_sum_ext(nk, whole, |d: int| first(d) + second(d));
    lemma_sum_add(nk, first, second);
    lemma_sum_swap(nk, m, pair);
    let columns = |j: int| sum(nk, |d: int| pair(d, j));
    let scores = |j: int| sum(nk, |d: int| (row(d) * k(j, d)) * f(j, d)) * u(j);
    assert forall|j: int| 0 <= j < m implies #[trigger] columns(j) == scores(j) by {
        let inner = |d: int| (row(d) * k(j, d)) * f(j, d);
        lemma_sum_scale_right(nk, inner, u(j));
        lemma_sum_ext(nk, |d: int| inner(d) * u(j), |d: int| pair(d, j));
    }
    lemma_sum_ext(m, columns, scores);
}

/// Each delta of a run in terms of the start and of the deltas before it.
pub proof fn lemma_corrections_solve<R: Ring>(x: Stream<R>, nk: int, s0: Mat<R>, i: int, c: int)
    requires
        0 <= i,
    ensures
        corrections(x, nk, s0)(i, c) == write_values(x)(i, c) - (mat_mul(
            nk,
            decayed_rows(erase_keys(x), cumulative(x.g)),
            s0,
        )(i, c) + sum(
            i,
            |j: int|
                decayed_scores(nk, erase_keys(x), x.k, cumulative(x.g))(i, j) * corrections(
                    x,
                    nk,
                    s0,
                )(j, c),
        )),
{
    let u = corrections(x, nk, s0);
    let s = state_after(x, nk, s0, i);
    let ke = erase_keys(x);
    let gc = cumulative(x.g);
    let row = |d: int| ke(i, d);
    let e = |d: int| gc(i, d).expo();
    let f = |j: int, d: int| (gc(i, d) - gc(j, d)).expo();
    let uc = |j: int| u(j, c);
    let sc = |d: int| s0(d, c);
    let taken = |d: int| ((x.k)(i, d) * (x.erase)(i, d)) * forgotten(x, s, i)(d, c);
    let expanded = |d: int|
        row(d) * (e(d) * sc(d) + sum(i, |j: int| ((x.k)(j, d) * f(j, d)) * uc(j)));
    assert forall|d: int| 0 <= d < nk implies #[trigger] taken(d) == expanded(d) by {
        lemma_state_expands(x, nk, s0, i, d, c);
        lemma_forgotten_expands(x, nk, s0, i, d, c);
        lemma_sum_ext(
            i,
            |j: int| carried_keys(x, i + 1)(j, d) * u(j, c),
            |j: int| ((x.k)(j, d) * f(j, d)) * uc(j),
        );
    }
    lemma_sum_ext(nk, taken, expanded);
    lemma_row_reads(nk, i, row, e, x.k, f, uc, sc);
    lemma_sum_ext(
        nk,
        |d: int| (row(d) * e(d)) * sc(d),
        |d: int| decayed_rows(ke, gc)(i, d) * s0(d, c),
    );
    let scores = |j: int| sum(nk, |d: int| (row(d) * (x.k)(j, d)) * f(j, d)) * uc(j);
    let named = |j: int| decayed_scores(nk, ke, x.k, gc)(i, j) * u(j, c);
    assert forall|j: int| 0 <= j < i implies #[trigger] scores(j) == named(j) by {
        lemma_sum_ext(
            nk,
            |d: int| (row(d) * (x.k)(j, d)) * f(j, d),
            |d: int| (ke(i, d) * (x.k)(j, d)) * (gc(i, d) - gc(j, d)).expo(),
        );
    }
    lemma_sum_ext(i, scores, named);
}

/// The output of a run's step in terms of the start and of the deltas so far.
pub proof fn lemma_output_expands<R: Ring>(
    x: Stream<R>,
    nk: int,
    scale: R,
    s0: Mat<R>,
    i: int,
    c: int,
)
    requires
        0 <= i,
    ensures
        output(x, nk, scale, s0, i, c) == mat_mul(
            nk,
            decayed_rows(scaled_queries(x, scale), cumulative(x.g)),
            s0,
        )(i, c) + sum(
            i + 1,
            |j: int|
                decayed_scores(nk, scaled_queries(x, scale), x.k, cumulative(x.g))(i, j)
                    * corrections(x, nk, s0)(j, c),
        ),
{
    let u = corrections(x, nk, s0);
    let s = state_after(x, nk, s0, i + 1);
    let qs = scaled_queries(x, scale);
    let gc = cumulative(x.g);
    let row = |d: int| qs(i, d);
    let e = |d: int| gc(i, d).expo();
    let f = |j: int, d: int| (gc(i, d) - gc(j, d)).expo();
    let uc = |j: int| u(j, c);
    let sc = |d: int| s0(d, c);
    let m = i + 1;
    let seen = |d: int| ((x.q)(i, d) * scale) * s(d, c);
    let expanded = |d: int|
        row(d) * (e(d) * sc(d) + sum(m, |j: int| ((x.k)(j, d) * f(j, d)) * uc(j)));
    assert forall|d: int| 0 <= d < nk implies #[trigger] seen(d) == expanded(d) by {
        lemma_state_expands(x, nk, s0, m, d, c);
        lemma_sum_ext(
            m,
            |j: int| carried_keys(x, m)(j, d) * u(j, c),
            |j: int| ((x.k)(j, d) * f(j, d)) * uc(j),
        );
    }
    lemma_sum_ext(nk, seen, expanded);
    lemma_row_reads(nk, m, row, e, x.k, f, uc, sc);
    lemma_sum_ext(
        nk,
        |d: int| (row(d) * e(d)) * sc(d),
        |d: int| decayed_rows(qs, gc)(i, d) * s0(d, c),
    );
    let scores = |j: int| sum(nk, |d: int| (row(d) * (x.k)(j, d)) * f(j, d)) * uc(j);
    let named = |j: int| decayed_scores(nk, qs, x.k, gc)(i, j) * u(j, c);
    assert forall|j: int| 0 <= j < m implies #[trigger] scores(j) == named(j) by {
        lemma_sum_ext(
            nk,
            |d: int| (row(d) * (x.k)(j, d)) * f(j, d),
            |d: int| (qs(i, d) * (x.k)(j, d)) * (gc(i, d) - gc(j, d)).expo(),
        );
    }
    lemma_sum_ext(m, scores, named);
}

} // verus!
