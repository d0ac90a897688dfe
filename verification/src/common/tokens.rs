//! What a block does with a token, from its columns to its output and its state.
//!
//! A head's state `S` is decayed once, then written `n_householder` times, then read
//! once:
//!
//! ```text
//!   S <- diag(exp(g)) S
//!   S <- S + k_j (w_j * v_j - S^T (b_j * k_j))^T      for every step j
//!   y  = S^T q / sqrt(head_k_dim)
//! ```
//!
//! What is read is divided by its root mean square, scaled, gated, and projected back
//! together with what the other heads read.
use vstd::prelude::*;

use crate::common::block::{entering_states, entering_windows, token_outs};
use crate::common::cache::DeltaCache;
use crate::common::columns::{
    differ_in_folding, erase_entry, key_entry, lemma_erase, lemma_folded_entries, lemma_key,
    lemma_query, lemma_value, lemma_write, query_entry, squashed, value_entry, write_entry,
};
use crate::common::index::lemma_flat;
use crate::common::norm::OutNorm;
use crate::common::pipeline::{states, Pipeline};
use crate::delta::laws::transition_of;
use crate::delta::rule::{forgotten, state_after};
use crate::mat::Mat;
use crate::matrix::Matrix;
use crate::ring::{lemma_one_mul, lemma_zero_add, Real};
use crate::sum::{lemma_sum_blocks, lemma_sum_ext, sum};
use crate::tensor::{Ten3, Tensor3, Tensor4};

verus! {

/// The state of head `h` inside token `t`: after the decay, and after its first `j`
/// writes.
pub open spec fn inside_token<R: Real>(
    p: Pipeline<R>,
    w: Mat<R>,
    x: Mat<R>,
    s: Mat<R>,
    t: int,
    h: int,
    j: int,
) -> Mat<R>
    decreases j,
{
    let q = p.qkv;
    if j <= 0 {
        |d: int, e: int| (p.decay)(q.raw(x, t), h, d).expo() * s(d, e)
    } else {
        let m = inside_token(p, w, x, s, t, h, j - 1);
        |d: int, e: int|
            m(d, e) + key_entry(q, w, x, t, j - 1, h, d) * (value_entry(q, w, x, t, j - 1, h, e)
                * write_entry(q, x, t, j - 1, h, e) - sum(
                q.head_k_dim as int,
                |i: int|
                    (key_entry(q, w, x, t, j - 1, h, i) * erase_entry(q, x, t, j - 1, h, i)) * m(
                        i,
                        e,
                    ),
            ))
    }
}

/// The state of head `h` after its first `n` tokens.
pub open spec fn after_tokens<R: Real>(
    p: Pipeline<R>,
    w: Mat<R>,
    x: Mat<R>,
    s: Mat<R>,
    h: int,
    n: int,
) -> Mat<R>
    decreases n,
{
    if n <= 0 {
        s
    } else {
        inside_token(
            p,
            w,
            x,
            after_tokens(p, w, x, s, h, n - 1),
            n - 1,
            h,
            p.qkv.n_householder as int,
        )
    }
}

/// What is inside a token depends only on the entries of the state there are.
proof fn lemma_inside_depends<R: Real>(
    p: Pipeline<R>,
    w: Mat<R>,
    x: Mat<R>,
    s: Mat<R>,
    z: Mat<R>,
    t: int,
    h: int,
    j: int,
)
    requires
        forall|d: int, e: int|
            0 <= d < p.qkv.head_k_dim && 0 <= e < p.qkv.head_v_dim ==> #[trigger] s(d, e) == z(
                d,
                e,
            ),
    ensures
        forall|d: int, e: int|
            0 <= d < p.qkv.head_k_dim && 0 <= e < p.qkv.head_v_dim ==> #[trigger] inside_token(
                p,
                w,
                x,
                s,
                t,
                h,
                j,
            )(d, e) == inside_token(p, w, x, z, t, h, j)(d, e),
    decreases j,
{
    if j > 0 {
        lemma_inside_depends(p, w, x, s, z, t, h, j - 1);
        let q = p.qkv;
        let (m, n) = (inside_token(p, w, x, s, t, h, j - 1), inside_token(p, w, x, z, t, h, j - 1));
        assert forall|d: int, e: int| 0 <= d < q.head_k_dim && 0 <= e < q.head_v_dim implies
            #[trigger] inside_token(p, w, x, s, t, h, j)(d, e) == inside_token(
            p,
            w,
            x,
            z,
            t,
            h,
            j,
        )(d, e) by {
            assert(m(d, e) == n(d, e));
            let f = |i: int|
                (key_entry(q, w, x, t, j - 1, h, i) * erase_entry(q, x, t, j - 1, h, i)) * m(i, e);
            let g = |i: int|
                (key_entry(q, w, x, t, j - 1, h, i) * erase_entry(q, x, t, j - 1, h, i)) * n(i, e);
            assert forall|i: int| 0 <= i < q.head_k_dim implies #[trigger] f(i) == g(i) by {
                assert(m(i, e) == n(i, e));
            }
            lemma_sum_ext(q.head_k_dim as int, f, g);
        }
    }
}

/// The steps of a token, one after the other.
proof fn lemma_inside<R: Real>(
    p: Pipeline<R>,
    w: Mat<R>,
    x: Mat<R>,
    s: Mat<R>,
    t: int,
    h: int,
    j: int,
)
    requires
        p.valid(),
        0 <= t,
        0 <= h < p.qkv.n_value_heads,
        0 < j <= p.qkv.n_householder,
    ensures
        forall|d: int, e: int|
            0 <= d < p.qkv.head_k_dim && 0 <= e < p.qkv.head_v_dim ==> #[trigger] state_after(
                p.stream(x, w, h),
                p.qkv.head_k_dim as int,
                s,
                t * p.qkv.n_householder + j,
            )(d, e) == inside_token(
                p,
                w,
                x,
                state_after(
                    p.stream(x, w, h),
                    p.qkv.head_k_dim as int,
                    s,
                    t * p.qkv.n_householder,
                ),
                t,
                h,
                j,
            )(d, e),
    decreases j,
{
    let q = p.qkv;
    let (u, nk, nv) = (q.n_householder as int, q.head_k_dim as int, q.head_v_dim as int);
    let stream = p.stream(x, w, h);
    let n = t * u + j - 1;
    lemma_flat(t, t + 1, j - 1, u);
    assert(n / u == t && n % u == j - 1);
    let start = state_after(stream, nk, s, t * u);
    let old = state_after(stream, nk, s, n);
    let m = inside_token(p, w, x, start, t, h, j - 1);
    if j > 1 {
        lemma_inside(p, w, x, s, t, h, j - 1);
    }
    // What the step finds is what the decay or the steps before it left.
    assert forall|d: int, e: int| 0 <= d < nk && 0 <= e < nv implies #[trigger] forgotten(
        stream,
        old,
        n,
    )(d, e) == m(d, e) by {
        if j > 1 {
            R::expo_zero();
            lemma_one_mul(old(d, e));
            assert(old(d, e) == m(d, e));
        }
    }
    assert forall|d: int, e: int| 0 <= d < nk && 0 <= e < nv implies #[trigger] state_after(
        stream,
        nk,
        s,
        t * u + j,
    )(d, e) == inside_token(p, w, x, start, t, h, j)(d, e) by {
        assert(t * u + j == n + 1);
        assert(forgotten(stream, old, n)(d, e) == m(d, e));
        lemma_key(q, w, x, t, j - 1, h, d);
        lemma_value(q, w, x, t, j - 1, h, e);
        lemma_write(q, x, t, j - 1, h, e);
        let f = |i: int| ((stream.k)(n, i) * (stream.erase)(n, i)) * forgotten(stream, old, n)(i, e);
        let g = |i: int|
            (key_entry(q, w, x, t, j - 1, h, i) * erase_entry(q, x, t, j - 1, h, i)) * m(i, e);
        assert forall|i: int| 0 <= i < nk implies #[trigger] f(i) == g(i) by {
            lemma_key(q, w, x, t, j - 1, h, i);
            lemma_erase(q, x, t, j - 1, h, i);
            assert(forgotten(stream, old, n)(i, e) == m(i, e));
        }
        lemma_sum_ext(nk, f, g);
        lemma_sum_ext(
            nk,
            |d: int| ((stream.k)(n, d) * (stream.erase)(n, d)) * forgotten(stream, old, n)(d, e),
            f,
        );
    }
}

/// The state of a head after a number of tokens is what the tokens' decays and writes
/// leave of the state before them.
pub proof fn law_states_follow_the_tokens<R: Real>(
    p: Pipeline<R>,
    w: Mat<R>,
    x: Mat<R>,
    s: Mat<R>,
    h: int,
    n: int,
)
    requires
        p.valid(),
        0 <= n,
        0 <= h < p.qkv.n_value_heads,
    ensures
        forall|d: int, e: int|
            0 <= d < p.qkv.head_k_dim && 0 <= e < p.qkv.head_v_dim ==> #[trigger] p.state_at(
                x,
                w,
                s,
                h,
                n,
            )(d, e) == after_tokens(p, w, x, s, h, n)(d, e),
    decreases n,
{
    let u = p.qkv.n_householder as int;
    if n > 0 {
        law_states_follow_the_tokens(p, w, x, s, h, n - 1);
        lemma_inside(p, w, x, s, n - 1, h, u);
        assert((n - 1) * u + u == n * u) by (nonlinear_arith);
        lemma_inside_depends(
            p,
            w,
            x,
            p.state_at(x, w, s, h, n - 1),
            after_tokens(p, w, x, s, h, n - 1),
            n - 1,
            h,
            u,
        );
    } else {
        assert(0 * u == 0);
    }
}

/// What head `h` reads of a state with the query of token `t`.
pub open spec fn reading<R: Real>(
    p: Pipeline<R>,
    w: Mat<R>,
    x: Mat<R>,
    s: Mat<R>,
    t: int,
    h: int,
    e: int,
) -> R {
    sum(
        p.qkv.head_k_dim as int,
        |d: int|
            (query_entry(p.qkv, w, x, t, h, d) * R::count(p.qkv.head_k_dim).root().recip()) * s(
                d,
                e,
            ),
    )
}

/// A channel over the root mean square of its row, scaled, and gated if there is a gate.
pub open spec fn rms_scaled<R: Real>(
    gamma: R,
    epsilon: R,
    n: usize,
    y: spec_fn(int) -> R,
    z: Option<R>,
    e: int,
) -> R {
    let mean = sum(n as int, |i: int| y(i) * y(i)) * R::count(n).recip();
    let r = (y(e) * (mean + epsilon).root().recip()) * gamma;
    match z {
        Some(z) => r * (z * squashed(z)),
        None => r,
    }
}

/// A normed channel is divided by the root mean square of its own head alone.
pub proof fn law_norms_divide_by_the_root_mean_square<R: Real>(
    norm: OutNorm<R>,
    y: spec_fn(int) -> R,
    z: Option<spec_fn(int) -> R>,
    e: int,
)
    requires
        norm.gamma_v@.len() <= usize::MAX,
    ensures
        norm.normed(y, z, e) == rms_scaled(
            norm.gamma_v@[e],
            norm.epsilon,
            norm.gamma_v@.len() as usize,
            y,
            match z {
                Some(z) => Some(z(e)),
                None => None,
            },
            e,
        ),
{
}

/// Channel `e` of head `h`'s part of token `t`, from the states that the heads were
/// entered with.
pub open spec fn head_channel<R: Real>(
    p: Pipeline<R>,
    w: Mat<R>,
    x: Mat<R>,
    s: spec_fn(int) -> Mat<R>,
    t: int,
    h: int,
    e: int,
) -> R {
    let y = |i: int| reading(p, w, x, after_tokens(p, w, x, s(h), h, t + 1), t, h, i);
    rms_scaled(
        p.norm.gamma_v@[e],
        p.norm.epsilon,
        p.qkv.head_v_dim,
        y,
        match p.gate {
            Some(z) => Some(z(p.qkv.raw(x, t), h, e)),
            None => None,
        },
        e,
    )
}

/// What a head reads at a token.
proof fn lemma_readout<R: Real>(
    p: Pipeline<R>,
    w: Mat<R>,
    x: Mat<R>,
    s: Mat<R>,
    t: int,
    h: int,
    e: int,
)
    requires
        p.valid(),
        0 <= t,
        0 <= h < p.qkv.n_value_heads,
        0 <= e < p.qkv.head_v_dim,
    ensures
        p.readout(x, w, s, t, h)(e) == reading(
            p,
            w,
            x,
            after_tokens(p, w, x, s, h, t + 1),
            t,
            h,
            e,
        ),
{
    let q = p.qkv;
    let (u, nk) = (q.n_householder as int, q.head_k_dim as int);
    let stream = p.stream(x, w, h);
    let n = t * u + (u - 1);
    lemma_flat(t, t + 1, u - 1, u);
    assert(n + 1 == (t + 1) * u) by (nonlinear_arith)
        requires
            n == t * u + (u - 1),
    ;
    let (left, right) = (p.state_at(x, w, s, h, t + 1), after_tokens(p, w, x, s, h, t + 1));
    law_states_follow_the_tokens(p, w, x, s, h, t + 1);
    let f = |d: int| ((stream.q)(n, d) * p.scale()) * left(d, e);
    let g = |d: int|
        (query_entry(q, w, x, t, h, d) * R::count(q.head_k_dim).root().recip()) * right(d, e);
    assert forall|d: int| 0 <= d < nk implies #[trigger] f(d) == g(d) by {
        lemma_query(q, w, x, t, h, d);
        assert(left(d, e) == right(d, e));
    }
    lemma_sum_ext(nk, f, g);
    lemma_sum_ext(
        nk,
        |d: int| ((stream.q)(n, d) * p.scale()) * state_after(stream, nk, s, n + 1)(d, e),
        f,
    );
}

/// The output of a token: the channels of every head times their own rows of the output
/// projection, head by head.
pub proof fn law_outputs_follow_the_tokens<R: Real>(
    p: Pipeline<R>,
    w: Mat<R>,
    x: Mat<R>,
    s: spec_fn(int) -> Mat<R>,
    t: int,
    c: int,
)
    requires
        p.valid(),
        0 <= t,
    ensures
        ({
            let nv = p.qkv.head_v_dim as int;
            let total = sum(
                p.qkv.n_value_heads as int,
                |h: int|
                    sum(
                        nv,
                        |e: int|
                            head_channel(p, w, x, s, t, h, e) * p.out_proj.weight@(h * nv + e, c),
                    ),
            );
            p.out(x, w, s, t, c) == (match p.out_proj.bias {
                Some(b) => total + b@[c],
                None => total,
            })
        }),
{
    let (n, nv) = (p.qkv.n_value_heads as int, p.qkv.head_v_dim as int);
    let heads = p.heads_out(x, w, s, t);
    let flat = |i: int| heads(i) * p.out_proj.weight@(i, c);
    lemma_sum_blocks(n, nv, flat);
    lemma_sum_ext(n * nv, |d: int| heads(d) * p.out_proj.weight@(d, c), flat);
    let blocks = |h: int| sum(nv, |e: int| flat(h * nv + e));
    let named = |h: int|
        sum(
            nv,
            |e: int| head_channel(p, w, x, s, t, h, e) * p.out_proj.weight@(h * nv + e, c),
        );
    assert forall|h: int| 0 <= h < n implies #[trigger] blocks(h) == named(h) by {
        let (f, g) = (
            |e: int| flat(h * nv + e),
            |e: int| head_channel(p, w, x, s, t, h, e) * p.out_proj.weight@(h * nv + e, c),
        );
        assert forall|e: int| 0 <= e < nv implies #[trigger] f(e) == g(e) by {
            lemma_flat(h, n, e, nv);
            lemma_head_channel(p, w, x, s, t, h, e);
        }
        lemma_sum_ext(nv, f, g);
    }
    lemma_sum_ext(n, blocks, named);
    lemma_sum_ext(n, |h: int| sum(nv, |e: int| flat(h * nv + e)), blocks);
    assert(p.out_proj.weight.rows() == n * nv);
}

proof fn lemma_head_channel<R: Real>(
    p: Pipeline<R>,
    w: Mat<R>,
    x: Mat<R>,
    s: spec_fn(int) -> Mat<R>,
    t: int,
    h: int,
    e: int,
)
    requires
        p.valid(),
        0 <= t,
        0 <= h < p.qkv.n_value_heads,
        0 <= e < p.qkv.head_v_dim,
    ensures
        p.heads_out(x, w, s, t)(h * p.qkv.head_v_dim + e) == head_channel(p, w, x, s, t, h, e),
{
    let (n, nv) = (p.qkv.n_value_heads as int, p.qkv.head_v_dim as int);
    lemma_flat(h, n, e, nv);
    let row = p.readout(x, w, s(h), t, h);
    let y = |i: int| reading(p, w, x, after_tokens(p, w, x, s(h), h, t + 1), t, h, i);
    assert forall|i: int| 0 <= i < nv implies #[trigger] row(i) == y(i) by {
        lemma_readout(p, w, x, s(h), t, h, i);
    }
    law_norms_divide_by_the_root_mean_square(p.norm, row, p.gate_of(x, t, h), e);
    lemma_sum_ext(nv, |i: int| row(i) * row(i), |i: int| y(i) * y(i));
    assert(row(e) == y(e));
}

/// A block's results, from its tokens alone: the output of every token, and the state
/// that is left behind. Every sequence and every head goes its own way.
pub proof fn law_blocks_follow_the_tokens<R: Real>(
    p: Pipeline<R>,
    batch: int,
    sequence: int,
    x: spec_fn(int) -> Mat<R>,
    w: spec_fn(int) -> Mat<R>,
    s: spec_fn(int, int) -> Mat<R>,
    out: Ten3<R>,
    next_window: Option<Tensor3<R>>,
    next_state: Tensor4<R>,
    a: int,
)
    requires
        p.valid(),
        p.evaluates(batch, sequence, x, w, s, out, next_window, next_state),
        0 <= sequence,
        0 <= a < batch,
    ensures
        forall|t: int, c: int|
            0 <= t < sequence && 0 <= c < p.out_proj.weight.cols() ==> #[trigger] out(a, t, c) == ({
                let nv = p.qkv.head_v_dim as int;
                let total = sum(
                    p.qkv.n_value_heads as int,
                    |h: int|
                        sum(
                            nv,
                            |e: int|
                                head_channel(p, w(a), x(a), |g: int| s(a, g), t, h, e)
                                    * p.out_proj.weight@(h * nv + e, c),
                        ),
                );
                match p.out_proj.bias {
                    Some(b) => total + b@[c],
                    None => total,
                }
            }),
        forall|h: int, d: int, e: int|
            0 <= h < p.qkv.n_value_heads && 0 <= d < p.qkv.head_k_dim && 0 <= e < p.qkv.head_v_dim
                ==> #[trigger] next_state@(a, h, d, e) == after_tokens(
                p,
                w(a),
                x(a),
                s(a, h),
                h,
                sequence,
            )(d, e),
{
    let ss = |g: int| s(a, g);
    assert forall|t: int, c: int| 0 <= t < sequence && 0 <= c < p.out_proj.weight.cols() implies
        #[trigger] out(a, t, c) == ({
        let nv = p.qkv.head_v_dim as int;
        let total = sum(
            p.qkv.n_value_heads as int,
            |h: int|
                sum(
                    nv,
                    |e: int|
                        head_channel(p, w(a), x(a), |g: int| s(a, g), t, h, e)
                            * p.out_proj.weight@(h * nv + e, c),
                ),
        );
        match p.out_proj.bias {
            Some(b) => total + b@[c],
            None => total,
        }
    }) by {
        law_outputs_follow_the_tokens(p, w(a), x(a), ss, t, c);
        assert(out(a, t, c) == p.out(x(a), w(a), |h: int| s(a, h), t, c));
        assert((|h: int| s(a, h)) =~= ss);
        assert((|g: int| s(a, g)) =~= ss);
    }
    assert forall|h: int, d: int, e: int|
        0 <= h < p.qkv.n_value_heads && 0 <= d < p.qkv.head_k_dim && 0 <= e
            < p.qkv.head_v_dim implies #[trigger] next_state@(a, h, d, e) == after_tokens(
        p,
        w(a),
        x(a),
        s(a, h),
        h,
        sequence,
    )(d, e) by {
        law_states_follow_the_tokens(p, w(a), x(a), s(a, h), h, sequence);
        assert(next_state@(a, h, d, e) == p.state_at(x(a), w(a), s(a, h), h, sequence)(d, e));
    }
}

/// A token of two steps that decays and writes nothing applies two transitions, one per
/// key: the second to what the first has made of the state. Where both gates are two and
/// both keys have unit length, these are two reflections, each along its own key.
pub proof fn law_two_steps_are_two_transitions<R: Real>(
    p: Pipeline<R>,
    w: Mat<R>,
    x: Mat<R>,
    s: Mat<R>,
    t: int,
    h: int,
    b: spec_fn(int) -> R,
    d: int,
    e: int,
)
    requires
        p.valid(),
        p.qkv.n_householder == 2,
        0 <= t,
        0 <= h < p.qkv.n_value_heads,
        0 <= d < p.qkv.head_k_dim,
        0 <= e < p.qkv.head_v_dim,
        forall|i: int|
            0 <= i < p.qkv.head_k_dim ==> #[trigger] (p.decay)(p.qkv.raw(x, t), h, i) == R::zero(),
        forall|j: int, i: int|
            0 <= j < 2 && 0 <= i < p.qkv.head_k_dim ==> #[trigger] erase_entry(
                p.qkv,
                x,
                t,
                j,
                h,
                i,
            ) == b(j),
        forall|j: int|
            0 <= j < 2 ==> #[trigger] value_entry(p.qkv, w, x, t, j, h, e) == R::zero(),
    ensures
        p.state_at(x, w, s, h, t + 1)(d, e) == ({
            let nk = p.qkv.head_k_dim as int;
            let k = |j: int| |i: int| key_entry(p.qkv, w, x, t, j, h, i);
            let first = |i: int|
                transition_of(nk, k(0), b(0), |l: int| p.state_at(x, w, s, h, t)(l, e), i);
            transition_of(nk, k(1), b(1), first, d)
        }),
{
    let q = p.qkv;
    let nk = q.head_k_dim as int;
    let k = |j: int| |i: int| key_entry(q, w, x, t, j, h, i);
    let start = p.state_at(x, w, s, h, t);
    let column = |l: int| start(l, e);
    let first = |i: int| transition_of(nk, k(0), b(0), column, i);
    lemma_inside(p, w, x, s, t, h, 2);
    assert(t * 2 + 2 == (t + 1) * 2);
    assert forall|i: int| 0 <= i < nk implies #[trigger] inside_token(p, w, x, start, t, h, 0)(i, e)
        == column(i) by {
        assert((p.decay)(q.raw(x, t), h, i) == R::zero());
        R::expo_zero();
        lemma_one_mul(column(i));
    }
    assert forall|i: int| 0 <= i < nk implies #[trigger] inside_token(p, w, x, start, t, h, 1)(i, e)
        == first(i) by {
        lemma_written_nothing(p, w, x, start, t, h, 1, b(0), column, i, e);
    }
    lemma_written_nothing(p, w, x, start, t, h, 2, b(1), first, d, e);
}

/// A step that writes nothing applies the transition of its key.
proof fn lemma_written_nothing<R: Real>(
    p: Pipeline<R>,
    w: Mat<R>,
    x: Mat<R>,
    s: Mat<R>,
    t: int,
    h: int,
    j: int,
    b: R,
    column: spec_fn(int) -> R,
    d: int,
    e: int,
)
    requires
        0 < j,
        0 <= d < p.qkv.head_k_dim,
        forall|i: int|
            0 <= i < p.qkv.head_k_dim ==> #[trigger] erase_entry(p.qkv, x, t, j - 1, h, i) == b,
        value_entry(p.qkv, w, x, t, j - 1, h, e) == R::zero(),
        forall|i: int|
            0 <= i < p.qkv.head_k_dim ==> #[trigger] inside_token(p, w, x, s, t, h, j - 1)(i, e)
                == column(i),
    ensures
        inside_token(p, w, x, s, t, h, j)(d, e) == transition_of(
            p.qkv.head_k_dim as int,
            |i: int| key_entry(p.qkv, w, x, t, j - 1, h, i),
            b,
            column,
            d,
        ),
{
    let q = p.qkv;
    let nk = q.head_k_dim as int;
    let m = inside_token(p, w, x, s, t, h, j - 1);
    let k = |i: int| key_entry(q, w, x, t, j - 1, h, i);
    let f = |i: int| (k(i) * erase_entry(q, x, t, j - 1, h, i)) * m(i, e);
    let dot = |i: int| k(i) * column(i);
    let scaled = |i: int| b * dot(i);
    assert forall|i: int| 0 <= i < nk implies #[trigger] f(i) == scaled(i) by {
        assert(m(i, e) == column(i));
        let (y, z) = (k(i), column(i));
        assert((y * b) * z == b * (y * z)) by {
            broadcast use {crate::ring::lemma_mul_commutes, crate::ring::lemma_mul_associates};

        }
    }
    lemma_sum_ext(nk, f, scaled);
    crate::sum::lemma_sum_scale(nk, b, dot);
    lemma_sum_ext(
        nk,
        |i: int| (key_entry(q, w, x, t, j - 1, h, i) * erase_entry(q, x, t, j - 1, h, i)) * m(i, e),
        f,
    );
    crate::delta::laws::lemma_transition_of(nk, k, b, column, d);
    lemma_sum_ext(nk, |i: int| k(i) * column(i), dot);
    let (g, r) = (write_entry(q, x, t, j - 1, h, e), b * sum(nk, dot));
    crate::ring::lemma_zero_mul(g);
    assert(m(d, e) == column(d));
    assert(column(d) + k(d) * (R::zero() - r) == column(d) - k(d) * r) by {
        R::sub_is_add_neg(R::zero(), r);
        lemma_zero_add(-r);
        crate::ring::lemma_mul_neg(k(d), r);
        R::sub_is_add_neg(column(d), k(d) * r);
    }
}

/// Whether two blocks differ at most in where the SiLU is applied: the convolution of the
/// first applies it, that of the second leaves it to what follows.
pub open spec fn blocks_differ_in_folding<R: Real>(p: Pipeline<R>, q: Pipeline<R>) -> bool {
    &&& differ_in_folding(p.qkv, q.qkv)
    &&& p.decay == q.decay
    &&& p.gate == q.gate
    &&& p.norm == q.norm
    &&& p.out_proj == q.out_proj
}

proof fn lemma_folded_inside<R: Real>(
    p: Pipeline<R>,
    q: Pipeline<R>,
    w: Mat<R>,
    x: Mat<R>,
    s: Mat<R>,
    t: int,
    h: int,
    j: int,
)
    requires
        blocks_differ_in_folding(p, q),
    ensures
        inside_token(p, w, x, s, t, h, j) == inside_token(q, w, x, s, t, h, j),
    decreases j,
{
    assert(p.qkv.raw(x, t) =~= q.qkv.raw(x, t));
    if j > 0 {
        lemma_folded_inside(p, q, w, x, s, t, h, j - 1);
        let m = inside_token(p, w, x, s, t, h, j - 1);
        assert forall|d: int, e: int| #[trigger] inside_token(p, w, x, s, t, h, j)(d, e)
            == inside_token(q, w, x, s, t, h, j)(d, e) by {
            lemma_folded_entries(p.qkv, q.qkv, w, x, t, j - 1, h, d);
            lemma_folded_entries(p.qkv, q.qkv, w, x, t, j - 1, h, e);
            let left = |i: int|
                (key_entry(p.qkv, w, x, t, j - 1, h, i) * erase_entry(p.qkv, x, t, j - 1, h, i))
                    * m(i, e);
            let right = |i: int|
                (key_entry(q.qkv, w, x, t, j - 1, h, i) * erase_entry(q.qkv, x, t, j - 1, h, i))
                    * m(i, e);
            assert forall|i: int| #[trigger] left(i) == right(i) by {
                lemma_folded_entries(p.qkv, q.qkv, w, x, t, j - 1, h, i);
            }
            assert(left =~= right);
        }
    }
    assert(inside_token(p, w, x, s, t, h, j) =~= inside_token(q, w, x, s, t, h, j));
}

proof fn lemma_folded_tokens<R: Real>(
    p: Pipeline<R>,
    q: Pipeline<R>,
    w: Mat<R>,
    x: Mat<R>,
    s: Mat<R>,
    h: int,
    n: int,
)
    requires
        blocks_differ_in_folding(p, q),
    ensures
        after_tokens(p, w, x, s, h, n) == after_tokens(q, w, x, s, h, n),
    decreases n,
{
    if n > 0 {
        lemma_folded_tokens(p, q, w, x, s, h, n - 1);
        let before = after_tokens(p, w, x, s, h, n - 1);
        lemma_folded_inside(p, q, w, x, before, n - 1, h, p.qkv.n_householder as int);
    }
}

/// Folding the activation into the convolution changes nothing of a block: outputs and
/// states are those of the same block whose convolution applies none.
pub proof fn law_folded_blocks_agree<R: Real>(
    p: Pipeline<R>,
    q: Pipeline<R>,
    w: Mat<R>,
    x: Mat<R>,
    s: spec_fn(int) -> Mat<R>,
    t: int,
    c: int,
)
    requires
        p.valid(),
        q.valid(),
        blocks_differ_in_folding(p, q),
        0 <= t,
    ensures
        p.out(x, w, s, t, c) == q.out(x, w, s, t, c),
        forall|h: int, d: int, e: int|
            0 <= h < p.qkv.n_value_heads && 0 <= d < p.qkv.head_k_dim && 0 <= e < p.qkv.head_v_dim
                ==> #[trigger] p.state_at(x, w, s(h), h, t)(d, e) == q.state_at(x, w, s(h), h, t)(
                d,
                e,
            ),
{
    law_outputs_follow_the_tokens(p, w, x, s, t, c);
    law_outputs_follow_the_tokens(q, w, x, s, t, c);
    let (n, nk, nv) = (
        p.qkv.n_value_heads as int,
        p.qkv.head_k_dim as int,
        p.qkv.head_v_dim as int,
    );
    assert(p.qkv.raw(x, t) =~= q.qkv.raw(x, t));
    assert forall|h: int, e: int| #[trigger] head_channel(p, w, x, s, t, h, e) == head_channel(
        q,
        w,
        x,
        s,
        t,
        h,
        e,
    ) by {
        lemma_folded_tokens(p, q, w, x, s(h), h, t + 1);
        let m = after_tokens(p, w, x, s(h), h, t + 1);
        let (y, z) = (|i: int| reading(p, w, x, m, t, h, i), |i: int| reading(q, w, x, m, t, h, i));
        assert forall|i: int| #[trigger] y(i) == z(i) by {
            let scale = R::count(p.qkv.head_k_dim).root().recip();
            let left = |d: int| (query_entry(p.qkv, w, x, t, h, d) * scale) * m(d, i);
            let right = |d: int| (query_entry(q.qkv, w, x, t, h, d) * scale) * m(d, i);
            assert forall|d: int| #[trigger] left(d) == right(d) by {
                lemma_folded_entries(p.qkv, q.qkv, w, x, t, 0, h, d);
            }
            assert(left =~= right);
            lemma_sum_ext(nk, left, right);
        }
        assert(y =~= z);
    }
    let outer = |h: int|
        sum(nv, |e: int| head_channel(p, w, x, s, t, h, e) * p.out_proj.weight@(h * nv + e, c));
    let other = |h: int|
        sum(nv, |e: int| head_channel(q, w, x, s, t, h, e) * q.out_proj.weight@(h * nv + e, c));
    assert forall|h: int| #[trigger] outer(h) == other(h) by {
        lemma_sum_ext(
            nv,
            |e: int| head_channel(p, w, x, s, t, h, e) * p.out_proj.weight@(h * nv + e, c),
            |e: int| head_channel(q, w, x, s, t, h, e) * q.out_proj.weight@(h * nv + e, c),
        );
    }
    assert(outer =~= other);
    assert forall|h: int, d: int, e: int|
        0 <= h < n && 0 <= d < nk && 0 <= e < nv implies #[trigger] p.state_at(x, w, s(h), h, t)(
        d,
        e,
    ) == q.state_at(x, w, s(h), h, t)(d, e) by {
        law_states_follow_the_tokens(p, w, x, s(h), h, t);
        law_states_follow_the_tokens(q, w, x, s(h), h, t);
        lemma_folded_tokens(p, q, w, x, s(h), h, t);
    }
}

/// What a cache is read as: entry by entry, and zeros where there is none.
pub proof fn law_caches_are_read_entry_by_entry<R: Real>(
    cache: DeltaCache<R>,
    y: Matrix<R>,
    a: int,
    h: int,
    d: int,
    e: int,
)
    ensures
        states(Some(cache.state_bhkv))(a, h)(d, e) == cache.state_bhkv@(a, h, d, e),
        states::<R>(None)(a, h)(d, e) == R::zero(),
        entering_states(Some(cache))(a, h)(d, e) == cache.state_bhkv@(a, h, d, e),
        entering_states::<R>(None)(a, h)(d, e) == R::zero(),
        cache.conv_bwc matches Some(w) ==> entering_windows(Some(cache))(a)(d, e) == w@(a, d, e),
        entering_windows::<R>(None)(a)(d, e) == R::zero(),
        token_outs(y)(a, h, d) == y@(a, d),
{
}

} // verus!
