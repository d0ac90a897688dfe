//! Where the forget gate and the output gate of each family come from.
//!
//! ```text
//!   DeltaNet        no forget gate
//!   Gated DeltaNet  g_h    = -exp(a_h) clamp(softplus(dt_h + bias_h))
//!   DeltaProduct    the same, or none
//!   GDN-2           g_h,d  = lower_bound sigmoid(exp(a_h) (up(low rank)_h,d + bias_h,d))
//! ```
//!
//! `dt` is the trailing segment of the projection, one column per value head; the low
//! rank inputs of GDN-2 stand there as well, those of the forget gate first.
use vstd::prelude::*;

use crate::common::columns::{
    affine, group_start, law_raw_rows, mixed_width, squashed, write_widths,
};
use crate::common::exchange::{lemma_same_column, same_column};
use crate::common::gate::{ChannelForgetGate, ForgetGate};
use crate::common::index::lemma_flat;
use crate::common::linear::Linear;
use crate::common::qkv::QkvProjection;
use crate::delta_product::delta_product::DeltaProduct;
use crate::deltanet::deltanet::DeltaNet;
use crate::gated_deltanet::gated_deltanet_1::GatedDeltaNet1;
use crate::gdn2::cache::GatedDeltaNet2Cache;
use crate::gdn2::gdn2::{entering_states2, entering_windows2, GatedDeltaNet2};
use crate::mat::Mat;
use crate::ring::Real;
use crate::sum::{lemma_sum_ext, sum};

verus! {

/// `ln(1 + exp(x))`, between the bounds.
pub open spec fn held_step<R: Real>(lo: R, hi: R, x: R) -> R {
    let step = if x.positive() {
        x + (R::one() + (-x).expo()).ln()
    } else {
        (R::one() + x.expo()).ln()
    };
    let low = if (step - hi).positive() {
        hi
    } else {
        step
    };
    if (lo - low).positive() {
        lo
    } else {
        low
    }
}

/// Entry `i` of the trailing segment of token `t`: the columns of the projection end
/// with the segment.
pub open spec fn trailing<R: Real>(p: QkvProjection<R>, x: Mat<R>, t: int, i: int) -> R {
    affine(p.in_proj, x, t, p.in_proj.weight.cols() - p.extra_channels + i)
}

/// The log decay of head `h` at token `t`, from the head's own trailing column.
pub open spec fn head_decay<R: Real>(
    p: QkvProjection<R>,
    gate: ForgetGate<R>,
    x: Mat<R>,
    t: int,
    h: int,
) -> R {
    let dt = trailing(p, x, t, h) + gate.dt_bias_h@[h];
    held_step(gate.dt_limit.0, gate.dt_limit.1, dt) * -(gate.a_log_h@[h].expo())
}

/// A trailing channel of a raw row is its column.
proof fn lemma_trailing<R: Real>(p: QkvProjection<R>, x: Mat<R>, t: int, i: int)
    requires
        p.valid(),
        0 <= i < p.extra_channels,
    ensures
        p.extra(p.raw(x, t), i) == trailing(p, x, t, i),
{
    p.shape().lemma_parts();
    law_raw_rows(p, x, t, p.in_proj.weight.cols() - p.extra_channels + i);
}

/// A Gated DeltaNet head decays by its own column of the projection, its own bias and
/// its own rate, the same on all its key channels.
pub proof fn law_gated_deltanet_decay<R: Real>(
    block: GatedDeltaNet1<R>,
    x: Mat<R>,
    t: int,
    h: int,
    d: int,
)
    requires
        block.valid(),
        0 <= h < block.qkv.n_value_heads,
    ensures
        (block.pipeline().decay)(block.qkv.raw(x, t), h, d) == head_decay(
            block.qkv,
            block.gate,
            x,
            t,
            h,
        ),
{
    lemma_trailing(block.qkv, x, t, h);
}

/// A DeltaProduct head decays as a Gated DeltaNet head does, or not at all.
pub proof fn law_delta_product_decay<R: Real>(
    block: DeltaProduct<R>,
    x: Mat<R>,
    t: int,
    h: int,
    d: int,
)
    requires
        block.valid(),
        0 <= h < block.qkv.n_value_heads,
    ensures
        (block.pipeline().decay)(block.qkv.raw(x, t), h, d) == (match block.gate {
            Some(gate) => head_decay(block.qkv, gate, x, t, h),
            None => R::zero(),
        }),
{
    if block.gate is Some {
        lemma_trailing(block.qkv, x, t, h);
    }
}

/// A DeltaNet head never decays.
pub proof fn law_deltanet_decay<R: Real>(block: DeltaNet<R>, x: Mat<R>, t: int, h: int, d: int)
    ensures
        (block.pipeline().decay)(block.qkv.raw(x, t), h, d) == R::zero(),
{
}

/// Output `c` of an affine map of `n` trailing entries, from entry `first` on.
pub open spec fn lifted<R: Real>(
    up: Linear<R>,
    p: QkvProjection<R>,
    first: int,
    x: Mat<R>,
    t: int,
    c: int,
) -> R {
    let total = sum(
        up.weight.rows() as int,
        |i: int| trailing(p, x, t, first + i) * up.weight@(i, c),
    );
    match up.bias {
        Some(b) => total + b@[c],
        None => total,
    }
}

/// The log decay of key channel `d` of head `h` at token `t`: channel `d` of the head's
/// group in the low-rank projection, with a bias of its own and the group's rate.
pub open spec fn channel_decay<R: Real>(
    p: QkvProjection<R>,
    gate: ChannelForgetGate<R>,
    x: Mat<R>,
    t: int,
    h: int,
    d: int,
) -> R {
    let q = h / (p.n_value_heads as int / p.nheads as int);
    let i = group_start(p, h) + d;
    gate.lower_bound * squashed(
        gate.a_log_h@[q].expo() * (lifted(gate.up, p, 0, x, t, i) + gate.dt_bias_i@[i]),
    )
}

/// A GDN-2 head decays channel by channel, from the first half of the trailing segment.
pub proof fn law_gdn2_decay<R: Real>(block: GatedDeltaNet2<R>, x: Mat<R>, t: int, h: int, d: int)
    requires
        block.valid(),
        0 <= h < block.qkv.n_value_heads,
        0 <= d < block.qkv.head_k_dim,
    ensures
        (block.pipeline().decay)(block.qkv.raw(x, t), h, d) == channel_decay(
            block.qkv,
            block.gate,
            x,
            t,
            h,
            d,
        ),
{
    let (p, gate) = (block.qkv, block.gate);
    let raw = p.raw(x, t);
    let i = group_start(p, h) + d;
    p.shape().lemma_groups(h);
    let left = |c: int| block.decay_in(raw)(c) * gate.up.weight@(c, i);
    let right = |c: int| trailing(p, x, t, 0 + c) * gate.up.weight@(c, i);
    assert forall|c: int| 0 <= c < gate.up.weight.rows() implies #[trigger] left(c) == right(
        c,
    ) by {
        lemma_trailing(p, x, t, c);
    }
    lemma_sum_ext(gate.up.weight.rows() as int, left, right);
}

/// The output gate of a GDN-2 head comes from the second half of the trailing segment.
pub proof fn law_gdn2_out_gate<R: Real>(
    block: GatedDeltaNet2<R>,
    x: Mat<R>,
    t: int,
    h: int,
    e: int,
)
    requires
        block.valid(),
        0 <= h < block.qkv.n_value_heads,
        0 <= e < block.qkv.head_v_dim,
    ensures
        block.pipeline().gate is Some == block.out_gate is Some,
        block.out_gate matches Some(up) ==> (block.pipeline().gate->0)(block.qkv.raw(x, t), h, e)
            == lifted(
            up,
            block.qkv,
            block.gate.up.weight.rows() as int,
            x,
            t,
            h * block.qkv.head_v_dim + e,
        ),
{
    if block.out_gate is Some {
        let (p, up) = (block.qkv, block.out_gate->0);
        let n = block.gate.up.weight.rows() as int;
        let raw = p.raw(x, t);
        let i = h * p.head_v_dim + e;
        lemma_flat(h, p.n_value_heads as int, e, p.head_v_dim as int);
        let left = |c: int| block.gate_in(raw)(c) * up.weight@(c, i);
        let right = |c: int| trailing(p, x, t, n + c) * up.weight@(c, i);
        assert forall|c: int| 0 <= c < up.weight.rows() implies #[trigger] left(c) == right(c) by {
            lemma_trailing(p, x, t, n + c);
        }
        lemma_sum_ext(up.weight.rows() as int, left, right);
    }
}

/// The output gate of the other families is projected, for each value channel from its
/// own column behind the write gates.
pub proof fn law_projected_out_gates<R: Real>(
    plain: DeltaNet<R>,
    gated: GatedDeltaNet1<R>,
    product: DeltaProduct<R>,
    x: Mat<R>,
    t: int,
    h: int,
    e: int,
)
    ensures
        plain.valid() ==> projects(plain.qkv, plain.pipeline().gate, x, t, h, e),
        gated.valid() ==> projects(gated.qkv, gated.pipeline().gate, x, t, h, e),
        product.valid() ==> projects(product.qkv, product.pipeline().gate, x, t, h, e),
{
    if plain.valid() {
        lemma_projects(plain.qkv, x, t, h, e);
    }
    if gated.valid() {
        lemma_projects(gated.qkv, x, t, h, e);
    }
    if product.valid() {
        lemma_projects(product.qkv, x, t, h, e);
    }
}

/// Whether a gate is there exactly when the front end projects one, and is its column.
pub open spec fn projects<R: Real>(
    p: QkvProjection<R>,
    gate: Option<spec_fn(spec_fn(int) -> R, int, int) -> R>,
    x: Mat<R>,
    t: int,
    h: int,
    e: int,
) -> bool {
    &&& gate is Some == p.has_gate
    &&& gate is Some && 0 <= h < p.n_value_heads && 0 <= e < p.head_v_dim ==> (gate->0)(
        p.raw(x, t),
        h,
        e,
    ) == affine(p.in_proj, x, t, mixed_width(p) + write_widths(p) + h * p.head_v_dim + e)
}

proof fn lemma_projects<R: Real>(p: QkvProjection<R>, x: Mat<R>, t: int, h: int, e: int)
    requires
        p.valid(),
    ensures
        projects(p, crate::common::block::projected_gate(p), x, t, h, e),
{
    if p.has_gate && 0 <= h < p.n_value_heads && 0 <= e < p.head_v_dim {
        p.shape().lemma_positions(0, h, 0, e);
        p.shape().lemma_parts();
        law_raw_rows(p, x, t, p.shape().gate_at(h, e));
    }
}

/// What a GDN-2 cache is read as: entry by entry, and zeros where there is none.
pub proof fn law_gdn2_caches_are_read_entry_by_entry<R: Real>(
    cache: GatedDeltaNet2Cache<R>,
    a: int,
    h: int,
    d: int,
    e: int,
)
    ensures
        entering_states2(Some(cache))(a, h)(d, e) == cache.state_bhkv@(a, h, d, e),
        entering_states2::<R>(None)(a, h)(d, e) == R::zero(),
        cache.conv_bwc matches Some(w) ==> entering_windows2(Some(cache))(a)(d, e) == w@(a, d, e),
        entering_windows2::<R>(None)(a)(d, e) == R::zero(),
{
}

/// A head's decay is decided by its own trailing column, bias and rate: where these
/// stand in another block as those of some head, that head decays the same.
pub proof fn law_head_decays_go_with_their_columns<R: Real>(
    p: GatedDeltaNet1<R>,
    q: GatedDeltaNet1<R>,
    x: Mat<R>,
    t: int,
    h: int,
    g: int,
    d: int,
    e: int,
)
    requires
        p.valid(),
        q.valid(),
        0 <= h < p.qkv.n_value_heads,
        0 <= g < q.qkv.n_value_heads,
        same_column(
            p.qkv.in_proj,
            p.qkv.in_proj.weight.cols() - p.qkv.extra_channels + h,
            q.qkv.in_proj,
            q.qkv.in_proj.weight.cols() - q.qkv.extra_channels + g,
        ),
        p.gate.dt_bias_h@[h] == q.gate.dt_bias_h@[g],
        p.gate.a_log_h@[h] == q.gate.a_log_h@[g],
        p.gate.dt_limit == q.gate.dt_limit,
    ensures
        (p.pipeline().decay)(p.qkv.raw(x, t), h, d) == (q.pipeline().decay)(
            q.qkv.raw(x, t),
            g,
            e,
        ),
{
    law_gated_deltanet_decay(p, x, t, h, d);
    law_gated_deltanet_decay(q, x, t, g, e);
    let c = p.qkv.in_proj.weight.cols() - p.qkv.extra_channels + h;
    let i = q.qkv.in_proj.weight.cols() - q.qkv.extra_channels + g;
    lemma_same_column(p.qkv.in_proj, c, q.qkv.in_proj, i, x, t);
}

/// A GDN-2 channel's decay is decided by the inputs of its bottleneck and by its own
/// column behind it, bias and slope: where these stand in another block as those of some
/// channel, that channel decays the same.
pub proof fn law_channel_decays_go_with_their_columns<R: Real>(
    p: GatedDeltaNet2<R>,
    q: GatedDeltaNet2<R>,
    x: Mat<R>,
    t: int,
    h: int,
    d: int,
    g: int,
    e: int,
)
    requires
        p.valid(),
        q.valid(),
        0 <= h < p.qkv.n_value_heads,
        0 <= g < q.qkv.n_value_heads,
        0 <= d < p.qkv.head_k_dim,
        0 <= e < q.qkv.head_k_dim,
        forall|i: int|
            0 <= i < p.gate.up.weight.rows() ==> #[trigger] same_trailing(p.qkv, q.qkv, i),
        same_column(p.gate.up, group_start(p.qkv, h) + d, q.gate.up, group_start(q.qkv, g) + e),
        p.gate.dt_bias_i@[group_start(p.qkv, h) + d] == q.gate.dt_bias_i@[group_start(q.qkv, g)
            + e],
        p.gate.a_log_h@[h / (p.qkv.n_value_heads as int / p.qkv.nheads as int)]
            == q.gate.a_log_h@[g / (q.qkv.n_value_heads as int / q.qkv.nheads as int)],
        p.gate.lower_bound == q.gate.lower_bound,
    ensures
        (p.pipeline().decay)(p.qkv.raw(x, t), h, d) == (q.pipeline().decay)(
            q.qkv.raw(x, t),
            g,
            e,
        ),
{
    law_gdn2_decay(p, x, t, h, d);
    law_gdn2_decay(q, x, t, g, e);
    let (c, i) = (group_start(p.qkv, h) + d, group_start(q.qkv, g) + e);
    let left = |k: int| trailing(p.qkv, x, t, 0 + k) * p.gate.up.weight@(k, c);
    let right = |k: int| trailing(q.qkv, x, t, 0 + k) * q.gate.up.weight@(k, i);
    assert forall|k: int| 0 <= k < p.gate.up.weight.rows() implies #[trigger] left(k) == right(
        k,
    ) by {
        assert(same_trailing(p.qkv, q.qkv, k));
        lemma_same_column(
            p.qkv.in_proj,
            p.qkv.in_proj.weight.cols() - p.qkv.extra_channels + k,
            q.qkv.in_proj,
            q.qkv.in_proj.weight.cols() - q.qkv.extra_channels + k,
            x,
            t,
        );
    }
    lemma_sum_ext(p.gate.up.weight.rows() as int, left, right);
}

/// Whether two front ends have the same column at entry `i` of their trailing segments.
pub open spec fn same_trailing<R: Real>(
    p: QkvProjection<R>,
    q: QkvProjection<R>,
    i: int,
) -> bool {
    same_column(
        p.in_proj,
        p.in_proj.weight.cols() - p.extra_channels + i,
        q.in_proj,
        q.in_proj.weight.cols() - q.extra_channels + i,
    )
}

} // verus!
