//! What holds of every block.
use vstd::prelude::*;

use crate::common::conv::{law_window_continues, law_windows_chain};
use crate::common::index::{lemma_flat, lemma_token};
use crate::common::linear::{Linear, Row};
use crate::common::pipeline::{states, Pipeline};
use crate::common::qkv::windows;
use crate::delta::rule::{from_step, lemma_run_continues, output};
use crate::delta::scan::lemma_output_continues;
use crate::delta::wy::{lemma_output_depends, lemma_run_depends, streams_agree};
use crate::dual::Dual;
use crate::mat::{agree, Mat};
use crate::ring::{Real, Ring};
use crate::sum::lemma_sum_ext;
use crate::tensor::{Ten3, Tensor3, Tensor4};

verus! {

/// An image depends only on the inputs there are.
proof fn lemma_image_depends<R: Ring>(map: Linear<R>, x: Row<R>, y: Row<R>)
    requires
        forall|d: int| 0 <= d < map.weight.rows() ==> #[trigger] x(d) == y(d),
    ensures
        map.image(x) == map.image(y),
{
    assert forall|c: int| #[trigger] map.image(x)(c) == map.image(y)(c) by {
        lemma_sum_ext(
            map.weight.rows() as int,
            |d: int| x(d) * map.weight@(d, c),
            |d: int| y(d) * map.weight@(d, c),
        );
    }
    assert(map.image(x) =~= map.image(y));
}

/// Whether `rest` reads, for `n` tokens, what `x` reads from token `t0` on.
pub open spec fn continues<R: Real>(
    p: Pipeline<R>,
    x: Mat<R>,
    rest: Mat<R>,
    t0: int,
    n: int,
) -> bool {
    forall|i: int, d: int|
        0 <= i < n && 0 <= d < p.qkv.in_proj.weight.rows() ==> #[trigger] rest(i, d) == x(t0 + i, d)
}

/// Whether `middle` is the window that the first `t0` tokens of `x` leave.
pub open spec fn window_reached<R: Real>(
    p: Pipeline<R>,
    x: Mat<R>,
    window: Mat<R>,
    middle: Mat<R>,
    t0: int,
) -> bool {
    p.qkv.conv matches Some(conv) ==> forall|c: int, j: int|
        0 <= c < p.qkv.shape().mixed() && 0 <= j < conv.weight.cols() ==> #[trigger] middle(c, j)
            == conv.window_after(window, |i: int, c: int| p.qkv.raw(x, i)(c), t0)(c, j)
}

/// The raw rows of the rest are those of the whole.
proof fn lemma_raw_continues<R: Real>(
    p: Pipeline<R>,
    x: Mat<R>,
    rest: Mat<R>,
    t0: int,
    n: int,
    t: int,
)
    requires
        continues(p, x, rest, t0, n),
        0 <= t < n,
    ensures
        p.qkv.raw(rest, t) == p.qkv.raw(x, t0 + t),
{
    lemma_image_depends(p.qkv.in_proj, |d: int| rest(t, d), |d: int| x(t0 + t, d));
}

/// The mixed rows of the rest are those of the whole.
proof fn lemma_mixed_continues<R: Real>(
    p: Pipeline<R>,
    x: Mat<R>,
    window: Mat<R>,
    rest: Mat<R>,
    middle: Mat<R>,
    t0: int,
    n: int,
    t: int,
)
    requires
        p.valid(),
        0 <= t0,
        continues(p, x, rest, t0, n),
        window_reached(p, x, window, middle, t0),
        0 <= t < n,
    ensures
        p.qkv.mixed(middle, rest, t) == p.qkv.mixed(window, x, t0 + t),
{
    let q = p.qkv;
    let (xs, rs) = (|i: int, c: int| q.raw(x, i)(c), |i: int, c: int| q.raw(rest, i)(c));
    assert forall|i: int| 0 <= i <= t implies #[trigger] q.raw(rest, i) == q.raw(x, t0 + i) by {
        lemma_raw_continues(p, x, rest, t0, n, i);
    }
    match q.conv {
        Some(conv) => {
            let (l, r) = (q.mixed(middle, rest, t), q.mixed(window, x, t0 + t));
            assert forall|c: int| #[trigger] l(c) == r(c) by {
                if 0 <= c < q.shape().mixed() {
                    let exact = conv.window_after(window, xs, t0);
                    assert forall|i: int| 0 <= i <= t implies #[trigger] rs(i, c) == xs(
                        t0 + i,
                        c,
                    ) by {
                        assert(q.raw(rest, i) == q.raw(x, t0 + i));
                    }
                    crate::common::conv::lemma_filtered_depends(
                        conv,
                        middle,
                        exact,
                        rs,
                        rs,
                        t,
                        c,
                    );
                    law_window_continues(conv, window, xs, rs, t0, t, c);
                }
            }
            assert(l =~= r);
        },
        None => {
            assert(q.raw(rest, t) == q.raw(x, t0 + t));
        },
    }
}

/// What a head reads over the rest is what it reads over the whole, from there on.
proof fn lemma_stream_continues<R: Real>(
    p: Pipeline<R>,
    x: Mat<R>,
    window: Mat<R>,
    rest: Mat<R>,
    middle: Mat<R>,
    t0: int,
    n: int,
    h: int,
)
    requires
        p.valid(),
        0 <= t0,
        continues(p, x, rest, t0, n),
        window_reached(p, x, window, middle, t0),
    ensures
        streams_agree(
            n * p.qkv.n_householder,
            p.qkv.head_k_dim as int,
            p.qkv.head_v_dim as int,
            p.stream(rest, middle, h),
            from_step(p.stream(x, window, h), t0 * p.qkv.n_householder),
        ),
{
    let u = p.qkv.n_householder as int;
    let (w, z) = (p.stream(rest, middle, h), from_step(p.stream(x, window, h), t0 * u));
    assert forall|s: int, d: int| 0 <= s < n * u implies {
        &&& #[trigger] (w.q)(s, d) == (z.q)(s, d)
        &&& (w.k)(s, d) == (z.k)(s, d)
        &&& (w.v)(s, d) == (z.v)(s, d)
        &&& (w.erase)(s, d) == (z.erase)(s, d)
        &&& (w.write)(s, d) == (z.write)(s, d)
        &&& (w.g)(s, d) == (z.g)(s, d)
    } by {
        lemma_token(s, n, u);
        let (t, j) = (s / u, s % u);
        vstd::arithmetic::div_mod::lemma_fundamental_div_mod(s, u);
        assert(t0 * u + s == (t0 + t) * u + j) by (nonlinear_arith)
            requires
                s == u * t + j,
        ;
        vstd::arithmetic::div_mod::lemma_fundamental_div_mod_converse(t0 * u + s, u, t0 + t, j);
        lemma_raw_continues(p, x, rest, t0, n, t);
        lemma_mixed_continues(p, x, window, rest, middle, t0, n, t);
    }
    assert forall|s: int, d: int| 0 <= s < n * u && 0 <= d < p.qkv.head_k_dim implies (w.q)(s, d)
        == (z.q)(s, d) && #[trigger] (w.k)(s, d) == (z.k)(s, d) by {
        assert((w.q)(s, d) == (z.q)(s, d));
    }
    assert forall|s: int, d: int| 0 <= s < n * u && 0 <= d < p.qkv.head_k_dim implies
        #[trigger] (w.erase)(s, d) == (z.erase)(s, d) by {
        assert((w.q)(s, d) == (z.q)(s, d));
    }
    assert forall|s: int, d: int| 0 <= s < n * u && 0 <= d < p.qkv.head_k_dim implies
        #[trigger] (w.g)(s, d) == (z.g)(s, d) by {
        assert((w.q)(s, d) == (z.q)(s, d));
    }
    assert forall|s: int, e: int| 0 <= s < n * u && 0 <= e < p.qkv.head_v_dim implies
        #[trigger] (w.v)(s, e) == (z.v)(s, e) by {
        assert((w.q)(s, e) == (z.q)(s, e));
    }
    assert forall|s: int, e: int| 0 <= s < n * u && 0 <= e < p.qkv.head_v_dim implies
        #[trigger] (w.write)(s, e) == (z.write)(s, e) by {
        assert((w.q)(s, e) == (z.q)(s, e));
    }
}

/// Whether `middle` holds the states that the first `t0` tokens of `x` leave.
pub open spec fn state_reached<R: Real>(
    p: Pipeline<R>,
    x: Mat<R>,
    window: Mat<R>,
    state: spec_fn(int) -> Mat<R>,
    middle: spec_fn(int) -> Mat<R>,
    t0: int,
) -> bool {
    forall|h: int|
        0 <= h < p.qkv.n_value_heads ==> agree(
            p.qkv.head_k_dim as int,
            p.qkv.head_v_dim as int,
            #[trigger] middle(h),
            p.state_at(x, window, state(h), h, t0),
        )
}

/// A block that goes on from where another call stopped computes what one call
/// over both would: the output of every token, from the window and the states that
/// the earlier tokens left.
pub proof fn law_outputs_continue<R: Real>(
    p: Pipeline<R>,
    x: Mat<R>,
    window: Mat<R>,
    state: spec_fn(int) -> Mat<R>,
    rest: Mat<R>,
    middle: Mat<R>,
    states: spec_fn(int) -> Mat<R>,
    t0: int,
    n: int,
    t: int,
    c: int,
)
    requires
        p.valid(),
        0 <= t0,
        continues(p, x, rest, t0, n),
        window_reached(p, x, window, middle, t0),
        state_reached(p, x, window, state, states, t0),
        0 <= t < n,
    ensures
        p.out(rest, middle, states, t, c) == p.out(x, window, state, t0 + t, c),
{
    let q = p.qkv;
    let (u, nk, nv) = (q.n_householder as int, q.head_k_dim as int, q.head_v_dim as int);
    q.shape().lemma_parts();
    lemma_raw_continues(p, x, rest, t0, n, t);
    let (l, r) = (p.heads_out(rest, middle, states, t), p.heads_out(x, window, state, t0 + t));
    assert forall|i: int| #[trigger] l(i) == r(i) by {
        if 0 <= i < q.shape().values() {
            lemma_token(i, q.n_value_heads as int, nv);
            let h = i / nv;
            lemma_stream_continues(p, x, window, rest, middle, t0, n, h);
            let (w, y) = (p.stream(rest, middle, h), p.stream(x, window, h));
            let z = from_step(y, t0 * u);
            let s = t * u + (u - 1);
            lemma_flat(t, n, u - 1, u);
            assert(t0 * u >= 0) by (nonlinear_arith)
                requires
                    t0 >= 0,
                    u > 0,
            ;
            assert((t0 + t) * u + (u - 1) == t0 * u + s) by (nonlinear_arith)
                requires
                    s == t * u + (u - 1),
            ;
            let (a, b) = (
                p.readout(rest, middle, states(h), t, h),
                p.readout(x, window, state(h), t0 + t, h),
            );
            assert forall|e: int| #[trigger] a(e) == b(e) by {
                if 0 <= e < nv {
                    lemma_output_depends(
                        w,
                        z,
                        nk,
                        nv,
                        p.scale(),
                        states(h),
                        p.state_at(x, window, state(h), h, t0),
                        s,
                        e,
                    );
                    lemma_output_continues(y, nk, p.scale(), state(h), t0 * u, s, e);
                }
            }
            assert(a =~= b);
        }
    }
    assert(l =~= r);
}

/// The states that a call leaves which goes on from where another stopped are those
/// that one call over both leaves.
pub proof fn law_states_continue<R: Real>(
    p: Pipeline<R>,
    x: Mat<R>,
    window: Mat<R>,
    state: spec_fn(int) -> Mat<R>,
    rest: Mat<R>,
    middle: Mat<R>,
    states: spec_fn(int) -> Mat<R>,
    t0: int,
    n: int,
    h: int,
)
    requires
        p.valid(),
        0 <= t0,
        0 <= n,
        continues(p, x, rest, t0, n),
        window_reached(p, x, window, middle, t0),
        state_reached(p, x, window, state, states, t0),
        0 <= h < p.qkv.n_value_heads,
    ensures
        agree(
            p.qkv.head_k_dim as int,
            p.qkv.head_v_dim as int,
            p.state_at(rest, middle, states(h), h, n),
            p.state_at(x, window, state(h), h, t0 + n),
        ),
{
    let q = p.qkv;
    let (u, nk, nv) = (q.n_householder as int, q.head_k_dim as int, q.head_v_dim as int);
    lemma_stream_continues(p, x, window, rest, middle, t0, n, h);
    let (w, y) = (p.stream(rest, middle, h), p.stream(x, window, h));
    let exact = p.state_at(x, window, state(h), h, t0);
    lemma_run_depends(w, from_step(y, t0 * u), nk, nv, states(h), exact, n * u);
    assert(0 <= t0 * u && 0 <= n * u && (t0 + n) * u == t0 * u + n * u) by (nonlinear_arith)
        requires
            t0 >= 0,
            n >= 0,
            u > 0,
    ;
    lemma_run_continues(y, nk, state(h), t0 * u, n * u);
}

/// The window that a call leaves which goes on from where another stopped is the
/// one that one call over both leaves.
pub proof fn law_windows_continue<R: Real>(
    p: Pipeline<R>,
    x: Mat<R>,
    window: Mat<R>,
    rest: Mat<R>,
    middle: Mat<R>,
    last: Mat<R>,
    t0: int,
    n: int,
)
    requires
        p.valid(),
        0 <= t0,
        0 <= n,
        continues(p, x, rest, t0, n),
        window_reached(p, x, window, middle, t0),
        window_reached(p, rest, middle, last, n),
    ensures
        window_reached(p, x, window, last, t0 + n),
{
    let q = p.qkv;
    if q.conv is Some {
        let conv = q.conv->0;
        let kernel = conv.weight.cols() as int;
        let (xs, rs) = (|i: int, c: int| q.raw(x, i)(c), |i: int, c: int| q.raw(rest, i)(c));
        assert forall|c: int, j: int| 0 <= c < q.shape().mixed() && 0 <= j < kernel implies
            #[trigger] last(c, j) == conv.window_after(window, xs, t0 + n)(c, j) by {
            let exact = conv.window_after(window, xs, t0);
            assert forall|i: int| 0 <= i < n implies #[trigger] rs(i, c) == xs(t0 + i, c) by {
                lemma_raw_continues(p, x, rest, t0, n, i);
            }
            law_windows_chain(conv, window, xs, rs, t0, n, c, j);
            let i = n - kernel + j;
            if i < 0 {
                assert(middle(c, kernel + i) == exact(c, kernel + i));
            }
        }
    }
}

/// What a call leaves is what the next one is entered with.
proof fn lemma_reached<R: Real>(
    p: Pipeline<R>,
    batch: int,
    sequence: int,
    x: spec_fn(int) -> Mat<R>,
    window: spec_fn(int) -> Mat<R>,
    state: spec_fn(int, int) -> Mat<R>,
    out: Ten3<R>,
    next_window: Option<Tensor3<R>>,
    next_state: Tensor4<R>,
    a: int,
)
    requires
        p.evaluates(batch, sequence, x, window, state, out, next_window, next_state),
        0 <= a < batch,
    ensures
        window_reached(p, x(a), window(a), windows(next_window)(a), sequence),
        state_reached(
            p,
            x(a),
            window(a),
            |h: int| state(a, h),
            |h: int| states(Some(next_state))(a, h),
            sequence,
        ),
{
    let q = p.qkv;
    if q.conv is Some {
        let (conv, next) = (q.conv->0, next_window->0);
        let middle = windows(next_window)(a);
        assert forall|c: int, j: int|
            0 <= c < q.shape().mixed() && 0 <= j < conv.weight.cols() implies #[trigger] middle(
            c,
            j,
        ) == conv.window_after(window(a), |i: int, c: int| q.raw(x(a), i)(c), sequence)(c, j) by {
            assert(middle(c, j) == next@(a, c, j));
        }
    }
    let middle = |h: int| states(Some(next_state))(a, h);
    let (nk, nv) = (q.head_k_dim as int, q.head_v_dim as int);
    assert forall|h: int| 0 <= h < q.n_value_heads implies agree(
        nk,
        nv,
        #[trigger] middle(h),
        p.state_at(x(a), window(a), state(a, h), h, sequence),
    ) by {
        let exact = p.state_at(x(a), window(a), state(a, h), h, sequence);
        assert forall|d: int, e: int| 0 <= d < nk && 0 <= e < nv implies #[trigger] middle(h)(d, e)
            == exact(d, e) by {
            assert(next_state@(a, h, d, e) == exact(d, e));
        }
    }
}

/// A batch evaluated in two calls, the second from the cache that the first left,
/// gives the outputs and the cache of one call over all of it.
pub proof fn law_split_forward<R: Real>(
    p: Pipeline<R>,
    batch: int,
    t0: int,
    n: int,
    x: spec_fn(int) -> Mat<R>,
    rest: spec_fn(int) -> Mat<R>,
    window: spec_fn(int) -> Mat<R>,
    state: spec_fn(int, int) -> Mat<R>,
    whole: (Ten3<R>, Option<Tensor3<R>>, Tensor4<R>),
    first: (Ten3<R>, Option<Tensor3<R>>, Tensor4<R>),
    second: (Ten3<R>, Option<Tensor3<R>>, Tensor4<R>),
)
    requires
        p.valid(),
        0 <= t0,
        0 <= n,
        forall|a: int| 0 <= a < batch ==> continues(p, x(a), #[trigger] rest(a), t0, n),
        p.evaluates(batch, t0 + n, x, window, state, whole.0, whole.1, whole.2),
        p.evaluates(batch, t0, x, window, state, first.0, first.1, first.2),
        p.evaluates(
            batch,
            n,
            rest,
            windows(first.1),
            states(Some(first.2)),
            second.0,
            second.1,
            second.2,
        ),
    ensures
        forall|a: int, t: int, c: int|
            0 <= a < batch && 0 <= t < t0 && 0 <= c < p.out_proj.weight.cols()
                ==> #[trigger] first.0(a, t, c) == whole.0(a, t, c),
        forall|a: int, t: int, c: int|
            0 <= a < batch && 0 <= t < n && 0 <= c < p.out_proj.weight.cols()
                ==> #[trigger] second.0(a, t, c) == whole.0(a, t0 + t, c),
        second.2@ == whole.2@,
        windows_equal(p, second.1, whole.1),
{
    assert forall|a: int, t: int, c: int|
        0 <= a < batch && 0 <= t < t0 && 0 <= c < p.out_proj.weight.cols() implies
        #[trigger] first.0(a, t, c) == whole.0(a, t, c) by {
        assert(whole.0(a, t, c) == p.out(x(a), window(a), |h: int| state(a, h), t, c));
    }
    assert forall|a: int| 0 <= a < batch implies {
        &&& window_reached(p, x(a), window(a), windows(first.1)(a), t0)
        &&& state_reached(
            p,
            x(a),
            window(a),
            |h: int| state(a, h),
            |h: int| states(Some(first.2))(a, h),
            t0,
        )
        &&& continues(p, x(a), #[trigger] rest(a), t0, n)
    } by {
        lemma_reached(p, batch, t0, x, window, state, first.0, first.1, first.2, a);
    }
    assert forall|a: int, t: int, c: int|
        0 <= a < batch && 0 <= t < n && 0 <= c < p.out_proj.weight.cols() implies
        #[trigger] second.0(a, t, c) == whole.0(a, t0 + t, c) by {
        assert(continues(p, x(a), rest(a), t0, n));
        law_outputs_continue(
            p,
            x(a),
            window(a),
            |h: int| state(a, h),
            rest(a),
            windows(first.1)(a),
            |h: int| states(Some(first.2))(a, h),
            t0,
            n,
            t,
            c,
        );
        assert(whole.0(a, t0 + t, c) == p.out(
            x(a),
            window(a),
            |h: int| state(a, h),
            t0 + t,
            c,
        ));
    }
    let (nheads, nk, nv) = (
        p.qkv.n_value_heads as int,
        p.qkv.head_k_dim as int,
        p.qkv.head_v_dim as int,
    );
    assert forall|a: int, h: int, d: int, e: int|
        #[trigger] second.2@(a, h, d, e) == whole.2@(a, h, d, e) by {
        if 0 <= a < batch && 0 <= h < nheads && 0 <= d < nk && 0 <= e < nv {
            assert(continues(p, x(a), rest(a), t0, n));
            let (old, new) = (|h: int| state(a, h), |h: int| states(Some(first.2))(a, h));
            law_states_continue(
                p,
                x(a),
                window(a),
                old,
                rest(a),
                windows(first.1)(a),
                new,
                t0,
                n,
                h,
            );
            assert(whole.2@(a, h, d, e) == p.state_at(
                x(a),
                window(a),
                state(a, h),
                h,
                t0 + n,
            )(d, e));
            assert(second.2@(a, h, d, e) == p.state_at(
                rest(a),
                windows(first.1)(a),
                new(h),
                h,
                n,
            )(d, e));
        }
    }
    assert(second.2@ =~= whole.2@);
    if p.qkv.conv is Some {
        let conv = p.qkv.conv->0;
        let (w, z) = (second.1->0, whole.1->0);
        assert forall|a: int, c: int, j: int| #[trigger] w@(a, c, j) == z@(a, c, j) by {
            if 0 <= a < batch && 0 <= c < p.qkv.shape().mixed() && 0 <= j < conv.weight.cols() {
                assert(continues(p, x(a), rest(a), t0, n));
                lemma_reached(
                    p,
                    batch,
                    n,
                    rest,
                    windows(first.1),
                    states(Some(first.2)),
                    second.0,
                    second.1,
                    second.2,
                    a,
                );
                let last = windows(second.1)(a);
                law_windows_continue(
                    p,
                    x(a),
                    window(a),
                    rest(a),
                    windows(first.1)(a),
                    last,
                    t0,
                    n,
                );
                assert(last(c, j) == w@(a, c, j));
                assert(z@(a, c, j) == conv.window_after(
                    window(a),
                    |i: int, c: int| p.qkv.raw(x(a), i)(c),
                    t0 + n,
                )(c, j));
            }
        }
        assert(w@ =~= z@);
    }
}

/// Whether two windows hold the same, where there is a convolution.
pub open spec fn windows_equal<R: Real>(
    p: Pipeline<R>,
    a: Option<Tensor3<R>>,
    b: Option<Tensor3<R>>,
) -> bool {
    match (a, b) {
        (Some(a), Some(b)) => a@ == b@,
        (None, None) => true,
        _ => false,
    }
}

/// Whether every token of a batch is evaluated on its own, each call from the cache
/// that the one before left.
pub open spec fn unrolled<R: Real>(
    p: Pipeline<R>,
    batch: int,
    n: int,
    x: spec_fn(int) -> Mat<R>,
    window: spec_fn(int) -> Mat<R>,
    state: spec_fn(int, int) -> Mat<R>,
    token: spec_fn(int) -> spec_fn(int) -> Mat<R>,
    outs: spec_fn(int) -> Ten3<R>,
    ws: spec_fn(int) -> Option<Tensor3<R>>,
    ss: spec_fn(int) -> Tensor4<R>,
) -> bool {
    forall|t: int| 0 <= t < n ==> #[trigger] unrolled_at(
        p,
        batch,
        x,
        window,
        state,
        token,
        outs,
        ws,
        ss,
        t,
    )
}

/// Whether token `t` of a batch is evaluated on its own, from the cache that the
/// token before left.
pub open spec fn unrolled_at<R: Real>(
    p: Pipeline<R>,
    batch: int,
    x: spec_fn(int) -> Mat<R>,
    window: spec_fn(int) -> Mat<R>,
    state: spec_fn(int, int) -> Mat<R>,
    token: spec_fn(int) -> spec_fn(int) -> Mat<R>,
    outs: spec_fn(int) -> Ten3<R>,
    ws: spec_fn(int) -> Option<Tensor3<R>>,
    ss: spec_fn(int) -> Tensor4<R>,
    t: int,
) -> bool {
    let (w, s) = if t == 0 {
        (window, state)
    } else {
        (windows(ws(t - 1)), states(Some(ss(t - 1))))
    };
    &&& forall|a: int| 0 <= a < batch ==> continues(p, x(a), #[trigger] token(t)(a), t, 1)
    &&& p.evaluates(batch, 1, token(t), w, s, outs(t), ws(t), ss(t))
}

/// The caches along an unrolled evaluation are those of the sequence.
proof fn lemma_unrolled<R: Real>(
    p: Pipeline<R>,
    batch: int,
    n: int,
    x: spec_fn(int) -> Mat<R>,
    window: spec_fn(int) -> Mat<R>,
    state: spec_fn(int, int) -> Mat<R>,
    token: spec_fn(int) -> spec_fn(int) -> Mat<R>,
    outs: spec_fn(int) -> Ten3<R>,
    ws: spec_fn(int) -> Option<Tensor3<R>>,
    ss: spec_fn(int) -> Tensor4<R>,
    a: int,
    t: int,
)
    requires
        p.valid(),
        unrolled(p, batch, n, x, window, state, token, outs, ws, ss),
        0 <= a < batch,
        0 <= t < n,
    ensures
        window_reached(p, x(a), window(a), windows(ws(t))(a), t + 1),
        state_reached(
            p,
            x(a),
            window(a),
            |h: int| state(a, h),
            |h: int| states(Some(ss(t)))(a, h),
            t + 1,
        ),
        forall|c: int|
            0 <= c < p.out_proj.weight.cols() ==> #[trigger] outs(t)(a, 0, c) == p.out(
                x(a),
                window(a),
                |h: int| state(a, h),
                t,
                c,
            ),
    decreases t,
{
    assert(unrolled_at(p, batch, x, window, state, token, outs, ws, ss, t));
    let (w, s) = if t == 0 {
        (window, state)
    } else {
        (windows(ws(t - 1)), states(Some(ss(t - 1))))
    };
    let (old, now) = (|h: int| state(a, h), |h: int| s(a, h));
    assert(window_reached(p, x(a), window(a), w(a), t) && state_reached(
        p,
        x(a),
        window(a),
        old,
        now,
        t,
    )) by {
        if t > 0 {
            lemma_unrolled(p, batch, n, x, window, state, token, outs, ws, ss, a, t - 1);
        } else {
            lemma_nothing_read(p, x(a), window(a), old);
        }
    }
    assert(continues(p, x(a), token(t)(a), t, 1));
    lemma_reached(p, batch, 1, token(t), w, s, outs(t), ws(t), ss(t), a);
    law_windows_continue(p, x(a), window(a), token(t)(a), w(a), windows(ws(t))(a), t, 1);
    let next = |h: int| states(Some(ss(t)))(a, h);
    let (nk, nv) = (p.qkv.head_k_dim as int, p.qkv.head_v_dim as int);
    assert forall|h: int| 0 <= h < p.qkv.n_value_heads implies agree(
        nk,
        nv,
        #[trigger] next(h),
        p.state_at(x(a), window(a), old(h), h, t + 1),
    ) by {
        law_states_continue(p, x(a), window(a), old, token(t)(a), w(a), now, t, 1, h);
        let (l, m, r) = (
            next(h),
            p.state_at(token(t)(a), w(a), now(h), h, 1),
            p.state_at(x(a), window(a), old(h), h, t + 1),
        );
        assert(agree(nk, nv, l, m));
        assert forall|d: int, e: int| 0 <= d < nk && 0 <= e < nv implies #[trigger] l(d, e) == r(
            d,
            e,
        ) by {
            assert(m(d, e) == r(d, e));
        }
    }
    assert forall|c: int| 0 <= c < p.out_proj.weight.cols() implies #[trigger] outs(t)(a, 0, c)
        == p.out(x(a), window(a), old, t, c) by {
        law_outputs_continue(p, x(a), window(a), old, token(t)(a), w(a), now, t, 1, 0, c);
    }
}

/// Before the first token, the window and the states are those a call is entered
/// with.
proof fn lemma_nothing_read<R: Real>(
    p: Pipeline<R>,
    x: Mat<R>,
    window: Mat<R>,
    state: spec_fn(int) -> Mat<R>,
)
    ensures
        window_reached(p, x, window, window, 0),
        state_reached(p, x, window, state, state, 0),
{
    assert forall|h: int| 0 <= h < p.qkv.n_value_heads implies agree(
        p.qkv.head_k_dim as int,
        p.qkv.head_v_dim as int,
        #[trigger] state(h),
        p.state_at(x, window, state(h), h, 0),
    ) by {
        assert(0 * p.qkv.n_householder == 0) by (nonlinear_arith);
    }
}

/// Evaluating a sequence at once is evaluating its tokens one by one from the same
/// cache: the outputs are the same, and so is the cache at the end.
pub proof fn law_forward_is_step_unrolled<R: Real>(
    p: Pipeline<R>,
    batch: int,
    n: int,
    x: spec_fn(int) -> Mat<R>,
    window: spec_fn(int) -> Mat<R>,
    state: spec_fn(int, int) -> Mat<R>,
    token: spec_fn(int) -> spec_fn(int) -> Mat<R>,
    outs: spec_fn(int) -> Ten3<R>,
    ws: spec_fn(int) -> Option<Tensor3<R>>,
    ss: spec_fn(int) -> Tensor4<R>,
    out: Ten3<R>,
    last_window: Option<Tensor3<R>>,
    last_state: Tensor4<R>,
)
    requires
        p.valid(),
        n > 0,
        unrolled(p, batch, n, x, window, state, token, outs, ws, ss),
        p.evaluates(batch, n, x, window, state, out, last_window, last_state),
    ensures
        forall|a: int, t: int, c: int|
            0 <= a < batch && 0 <= t < n && 0 <= c < p.out_proj.weight.cols()
                ==> #[trigger] out(a, t, c) == outs(t)(a, 0, c),
        ss(n - 1)@ == last_state@,
        windows_equal(p, ws(n - 1), last_window),
{
    assert forall|a: int, t: int, c: int|
        0 <= a < batch && 0 <= t < n && 0 <= c < p.out_proj.weight.cols() implies #[trigger] out(
        a,
        t,
        c,
    ) == outs(t)(a, 0, c) by {
        lemma_unrolled(p, batch, n, x, window, state, token, outs, ws, ss, a, t);
    }
    assert(unrolled_at(p, batch, x, window, state, token, outs, ws, ss, n - 1));
    let (nheads, nk, nv) = (
        p.qkv.n_value_heads as int,
        p.qkv.head_k_dim as int,
        p.qkv.head_v_dim as int,
    );
    let (s, l) = (ss(n - 1), last_state);
    assert forall|a: int, h: int, d: int, e: int| #[trigger] s@(a, h, d, e) == l@(a, h, d, e) by {
        if 0 <= a < batch && 0 <= h < nheads && 0 <= d < nk && 0 <= e < nv {
            lemma_unrolled(p, batch, n, x, window, state, token, outs, ws, ss, a, n - 1);
            let reached = |h: int| states(Some(ss(n - 1)))(a, h);
            let exact = p.state_at(x(a), window(a), state(a, h), h, n);
            assert(agree(nk, nv, reached(h), exact));
            assert(reached(h)(d, e) == exact(d, e));
            assert(l@(a, h, d, e) == exact(d, e));
        }
    }
    assert(s@ =~= l@);
    if p.qkv.conv is Some {
        let conv = p.qkv.conv->0;
        let (w, z) = (ws(n - 1)->0, last_window->0);
        assert forall|a: int, c: int, j: int| #[trigger] w@(a, c, j) == z@(a, c, j) by {
            if 0 <= a < batch && 0 <= c < p.qkv.shape().mixed() && 0 <= j < conv.weight.cols() {
                lemma_unrolled(p, batch, n, x, window, state, token, outs, ws, ss, a, n - 1);
                let reached = windows(ws(n - 1))(a);
                assert(reached(c, j) == w@(a, c, j));
                assert(z@(a, c, j) == conv.window_after(
                    window(a),
                    |i: int, c: int| p.qkv.raw(x(a), i)(c),
                    n,
                )(c, j));
            }
        }
        assert(w@ =~= z@);
    }
}

/// They also change alike: with a rate of change on any parameter, on the tokens or on
/// the cache, the outputs and the last state have the same rates of change, whether
/// the sequence is evaluated at once or one token after the other.
pub proof fn law_forward_and_step_agree_on_rates<R: Real>(
    p: Pipeline<Dual<R>>,
    batch: int,
    n: int,
    x: spec_fn(int) -> Mat<Dual<R>>,
    window: spec_fn(int) -> Mat<Dual<R>>,
    state: spec_fn(int, int) -> Mat<Dual<R>>,
    token: spec_fn(int) -> spec_fn(int) -> Mat<Dual<R>>,
    outs: spec_fn(int) -> Ten3<Dual<R>>,
    ws: spec_fn(int) -> Option<Tensor3<Dual<R>>>,
    ss: spec_fn(int) -> Tensor4<Dual<R>>,
    out: Ten3<Dual<R>>,
    last_window: Option<Tensor3<Dual<R>>>,
    last_state: Tensor4<Dual<R>>,
)
    requires
        p.valid(),
        n > 0,
        unrolled(p, batch, n, x, window, state, token, outs, ws, ss),
        p.evaluates(batch, n, x, window, state, out, last_window, last_state),
    ensures
        forall|a: int, t: int, c: int|
            0 <= a < batch && 0 <= t < n && 0 <= c < p.out_proj.weight.cols()
                ==> #[trigger] out(a, t, c).eps == outs(t)(a, 0, c).eps,
        forall|a: int, h: int, d: int, e: int|
            #[trigger] last_state@(a, h, d, e).eps == ss(n - 1)@(a, h, d, e).eps,
{
    law_forward_is_step_unrolled(
        p,
        batch,
        n,
        x,
        window,
        state,
        token,
        outs,
        ws,
        ss,
        out,
        last_window,
        last_state,
    );
}

} // verus!
