//! What the blocks share: entering caches and the shapes of their results.
use vstd::prelude::*;

use crate::common::cache::DeltaCache;
use crate::common::gate::ForgetGate;
use crate::common::linear::Row;
use crate::common::pipeline::{states, Pipeline};
use crate::common::qkv::{raw_rows, windows, Qkv, QkvProjection};
use crate::delta::forward::widened;
use crate::mat::Mat;
use crate::matrix::Matrix;
use crate::ring::{Real, Ring};
use crate::tensor::{head_plane, Ten3, Tensor3, Tensor4};

verus! {

/// The outputs of a batch of tokens, as a batch of sequences of one step.
pub open spec fn token_outs<R: Ring>(y: Matrix<R>) -> Ten3<R> {
    |a: int, t: int, c: int| y@(a, c)
}

/// The windows that a call is entered with: zero without a cache.
pub open spec fn entering_windows<R: Ring>(cache: Option<DeltaCache<R>>) -> spec_fn(int) -> Mat<R> {
    match cache {
        Some(cache) => windows(cache.conv_bwc),
        None => windows::<R>(None),
    }
}

/// The states that a call is entered with: zero without a cache.
pub open spec fn entering_states<R: Ring>(cache: Option<DeltaCache<R>>) -> spec_fn(
    int,
    int,
) -> Mat<R> {
    match cache {
        Some(cache) => states(Some(cache.state_bhkv)),
        None => states::<R>(None),
    }
}

/// Whether a window and a state have the shapes that a block with this front end
/// is entered with.
pub open spec fn enters<R: Real>(
    qkv: QkvProjection<R>,
    batch: int,
    conv_bwc: Option<Tensor3<R>>,
    state_bhkv: Tensor4<R>,
) -> bool {
    &&& qkv.takes(batch, conv_bwc)
    &&& state_bhkv.has_shape(
        batch,
        qkv.n_value_heads as int,
        qkv.head_k_dim as int,
        qkv.head_v_dim as int,
    )
}

/// Whether a cache, if there is one, has the shapes that a block with this front
/// end is entered with.
pub open spec fn enters_with<R: Real>(
    qkv: QkvProjection<R>,
    batch: int,
    cache: Option<DeltaCache<R>>,
) -> bool {
    cache matches Some(cache) ==> enters(qkv, batch, cache.conv_bwc, cache.state_bhkv)
}

/// The output gate that the front end projects, if it does.
pub open spec fn projected_gate<R: Real>(qkv: QkvProjection<R>) -> Option<
    spec_fn(Row<R>, int, int) -> R,
> {
    if qkv.has_gate {
        Some(|raw: Row<R>, h: int, e: int| qkv.out_gate(raw, h, e))
    } else {
        None
    }
}

/// The window and the state before the first token.
pub(crate) fn empty_parts<T: Real>(qkv: &QkvProjection<T>, batch: usize) -> (r: (
    Option<Tensor3<T>>,
    Tensor4<T>,
))
    requires
        qkv.valid(),
    ensures
        enters(*qkv, batch as int, r.0, r.1),
        windows(r.0) == windows::<T>(None),
        states(Some(r.1)) == states::<T>(None),
{
    let w = qkv.zero_conv_window(batch);
    let s = Tensor4::zeros(batch, qkv.n_value_heads, qkv.head_k_dim, qkv.head_v_dim);
    proof {
        assert(windows(w) =~= windows::<T>(None));
        assert forall|a: int, h: int| #[trigger] states(Some(s))(a, h) == states::<T>(None)(
            a,
            h,
        ) by {
            assert(states(Some(s))(a, h) =~= states::<T>(None)(a, h));
        }
        assert(states(Some(s)) =~= states::<T>(None));
    }
    (w, s)
}

/// The window and the state that a call is entered with.
pub(crate) fn entering_parts<T: Real>(
    qkv: &QkvProjection<T>,
    batch: usize,
    cache: Option<DeltaCache<T>>,
) -> (r: (Option<Tensor3<T>>, Tensor4<T>))
    requires
        qkv.valid(),
        enters_with(*qkv, batch as int, cache),
    ensures
        enters(*qkv, batch as int, r.0, r.1),
        windows(r.0) == entering_windows(cache),
        states(Some(r.1)) == entering_states(cache),
{
    match cache {
        Some(cache) => (cache.conv_bwc, cache.state_bhkv),
        None => empty_parts(qkv, batch),
    }
}

/// A `[batch, sequence, nheads]` gate as one of width one.
pub(crate) fn per_head<T: Real>(g: &Tensor3<T>) -> (r: Tensor4<T>)
    ensures
        r.has_shape(g.dims().0 as int, g.dims().1 as int, g.dims().2 as int, 1),
        forall|a: int, t: int, h: int|
            0 <= a < g.dims().0 && 0 <= t < g.dims().1 && 0 <= h < g.dims().2 ==> #[trigger] r@(
                a,
                t,
                h,
                0,
            ) == g@(a, t, h),
{
    let f = |a: usize, t: usize, h: usize, d: usize| -> (r: T)
        requires
            a < g.dims().0,
            t < g.dims().1,
            h < g.dims().2,
        ensures
            r == g@(a as int, t as int, h as int),
        { g.at(a, t, h) };
    Tensor4::from_fn(g.dims().0, g.dims().1, g.dims().2, 1, f)
}

/// The decay of a gate per head is what the delta rule is given.
pub(crate) proof fn lemma_head_decay<R: Real>(
    p: Pipeline<R>,
    gate: ForgetGate<R>,
    read: Qkv<R>,
    g: Option<Tensor4<R>>,
    x: spec_fn(int) -> Mat<R>,
    window: spec_fn(int) -> Mat<R>,
)
    requires
        p.qkv.extra_channels == p.qkv.n_value_heads,
        p.qkv.n_value_heads > 0,
        read.follows(
            p.qkv,
            x,
            window,
            read.q_bshk.dims().0 as int,
            read.q_bshk.dims().1 as int,
        ),
        forall|raw: Row<R>, h: int, d: int| #[trigger]
            (p.decay)(raw, h, d) == gate.decay(p.qkv.extra(raw, h), h),
        g is Some,
        g->0.has_shape(
            read.q_bshk.dims().0 as int,
            read.q_bshk.dims().1 as int,
            p.qkv.n_value_heads as int,
            1,
        ),
        forall|a: int, t: int, h: int|
            0 <= a < read.q_bshk.dims().0 && 0 <= t < read.q_bshk.dims().1 && 0 <= h
                < p.qkv.n_value_heads ==> #[trigger] g->0@(a, t, h, 0) == gate.decay(
                read.extra_bsx->0@(a, t, h),
                h,
            ),
    ensures
        p.decays(read.q_bshk.dims().0 as int, read.q_bshk.dims().1 as int, x, g),
{
    let (batch, sequence) = (read.q_bshk.dims().0 as int, read.q_bshk.dims().1 as int);
    let (z, extra) = (g->0, read.extra_bsx->0);
    assert forall|a: int, t: int, h: int, d: int|
        0 <= a < batch && 0 <= t < sequence && 0 <= h < p.qkv.n_value_heads && 0 <= d
            < p.qkv.head_k_dim implies #[trigger] (p.decay)(p.qkv.raw(x(a), t), h, d) == widened(
        z.dims().3 as int,
        head_plane(z@, a, h),
    )(t, d) by {
        assert(z@(a, t, h, 0) == gate.decay(extra@(a, t, h), h));
        assert(extra@(a, t, h) == p.qkv.extra(raw_rows(p.qkv, x)(a, t), h));
    }
}

} // verus!
