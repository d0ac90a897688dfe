//! What blocks are made of: their widths, their weights and their gates before any
//! training, from their configurations and the draws alone.
use vstd::prelude::*;

use crate::common::config::{
    block_fits, block_made, BlockDraws, QkvDraws, QkvProjectionConfig, Ratio,
};
use crate::common::conv::ConvActivation;
use crate::common::gate::{ChannelForgetGate, ForgetGate, GateDraws};
use crate::common::linear::Linear;
use crate::common::norm::{OutNorm, QkActivation, QkNorm};
use crate::common::order::logarithmic;
use crate::common::qkv::QkvProjection;
use crate::common::shape::WriteGate;
use crate::delta::path::DeltaPath;
use crate::delta_product::config::DeltaProductConfig;
use crate::deltanet::config::DeltaNetConfig;
use crate::gated_deltanet::config::{gate_made, GatedDeltaNet1Config};
use crate::gdn2::config::{channel_gate_made, ChannelDraws, GatedDeltaNet2Config};
use crate::ring::{lemma_add_zero, lemma_one_mul, lemma_zero_mul, Real};

verus! {

/// A front end has the lengths that were asked for, as many value heads as query heads
/// where none are named, and one column per channel of each segment.
pub proof fn law_front_ends_are_made_to_measure<R: Real>(
    config: QkvProjectionConfig,
    draws: QkvDraws<R>,
    p: QkvProjection<R>,
)
    requires
        config.makes(draws, p),
    ensures
        p.nheads == config.nheads,
        p.n_value_heads == (if config.n_value_heads == 0 {
            config.nheads
        } else {
            config.n_value_heads
        }),
        p.head_k_dim == config.head_k_dim,
        p.head_v_dim == config.head_v_dim,
        p.n_householder == config.n_householder,
        p.write_gate == config.write_gate,
        p.has_gate == config.has_gate,
        p.extra_channels == config.extra_channels,
        p.allow_neg_eigval == config.allow_neg_eigval,
        p.qk_norm == config.qk_norm,
        p.qk_activation == config.qk_activation,
        p.in_proj.weight.rows() == config.d_model,
        ({
            let (k, v) = (p.nheads * p.head_k_dim, p.n_value_heads * p.head_v_dim);
            let u = p.n_householder as int;
            p.in_proj.weight.cols() == (k + u * k + u * v) + (match p.write_gate {
                WriteGate::Fixed => 0,
                WriteGate::Scalar => u * p.n_value_heads,
                WriteGate::Channel => u * k + u * v,
            }) + (if p.has_gate {
                v
            } else {
                0
            }) + p.extra_channels
        }),
        p.conv is Some == config.use_short_conv,
        p.conv matches Some(conv) ==> {
            &&& conv.weight.rows() == p.nheads * p.head_k_dim + p.n_householder * (p.nheads
                * p.head_k_dim) + p.n_householder * (p.n_value_heads * p.head_v_dim)
            &&& conv.weight.cols() == config.conv_kernel
            &&& conv.activation == ConvActivation::Silu <==> config.qk_activation
                == QkActivation::Silu
        },
{
    p.shape().lemma_parts();
    crate::common::columns::law_widths(p);
}

/// Each weight is its own draw over the root of the number of inputs: `d_model` for the
/// projection, the window for the convolution.
pub proof fn law_front_ends_are_drawn_to_scale<R: Real>(
    config: QkvProjectionConfig,
    draws: QkvDraws<R>,
    p: QkvProjection<R>,
    i: int,
    c: int,
)
    requires
        config.makes(draws, p),
        config.fits(draws),
    ensures
        p.in_proj.weight@(i, c) == draws.in_proj@(i, c) * R::count(config.d_model).root().recip(),
        p.in_proj.bias is Some == config.has_proj_bias,
        p.in_proj.bias is Some && 0 <= c < p.in_proj.weight.cols() ==> p.in_proj.bias->0@[c]
            == draws.in_proj_bias->0@[c] * R::count(config.d_model).root().recip(),
        p.conv is Some ==> p.conv->0.weight@(c, i) == draws.conv->0@(c, i) * R::count(
            config.conv_kernel,
        ).root().recip(),
        p.conv is Some ==> p.conv->0.bias is Some == config.conv_bias,
        p.conv is Some && config.conv_bias && 0 <= c < p.conv->0.weight.rows()
            ==> p.conv->0.bias->0@[c] == draws.conv_bias->0@[c] * R::count(
            config.conv_kernel,
        ).root().recip(),
{
}

/// A block starts with a norm that scales by one, and with an output projection whose
/// weights are their own draws over the root of the number of value channels.
pub proof fn law_blocks_are_drawn_to_scale<R: Real>(
    front: QkvProjectionConfig,
    draws: BlockDraws<R>,
    epsilon: R,
    qkv: QkvProjection<R>,
    norm: OutNorm<R>,
    out_proj: Linear<R>,
    i: int,
    c: int,
    n: usize,
)
    requires
        block_made(front, draws, epsilon, qkv, norm, out_proj),
        block_fits(front, draws),
        n == qkv.n_value_heads * qkv.head_v_dim,
    ensures
        norm.epsilon == epsilon,
        norm.gamma_v@.len() == qkv.head_v_dim,
        0 <= i < qkv.head_v_dim ==> norm.gamma_v@[i] == R::one(),
        out_proj.weight.rows() == n,
        out_proj.weight.cols() == front.d_model,
        out_proj.weight@(i, c) == draws.out_proj@(i, c) * R::count(n).root().recip(),
        out_proj.bias is Some == front.has_proj_bias,
        out_proj.bias is Some && 0 <= c < front.d_model ==> out_proj.bias->0@[c]
            == draws.out_bias->0@[c] * R::count(n).root().recip(),
{
}

/// A time step is drawn between its ends, evenly in its logarithm, and held above the
/// floor; a rate is drawn between its ends, evenly. The ends are reached at the ends of
/// the draw.
pub proof fn law_gates_are_drawn_between_their_ends<R: Real>(g: GateDraws<R>, draw: R)
    requires
        logarithmic::<R>(),
        g.dt_min.positive(),
        g.dt_max.positive(),
    ensures
        ({
            let even = g.dt_min.ln() + draw * (g.dt_max.ln() - g.dt_min.ln());
            g.dt(draw) == (if (g.dt_init_floor - even.expo()).positive() {
                g.dt_init_floor
            } else {
                even.expo()
            })
        }),
        g.dt(R::zero()) == (if (g.dt_init_floor - g.dt_min).positive() {
            g.dt_init_floor
        } else {
            g.dt_min
        }),
        g.dt(R::one()) == (if (g.dt_init_floor - g.dt_max).positive() {
            g.dt_init_floor
        } else {
            g.dt_max
        }),
        ({
            let even = g.a_init_range.0 + draw * (g.a_init_range.1 - g.a_init_range.0);
            even.positive() ==> g.a_log(draw).expo() == even
        }),
{
    let (a, b) = (g.dt_min.ln(), g.dt_max.ln());
    lemma_zero_mul(b - a);
    lemma_add_zero(a);
    lemma_one_mul(b - a);
    assert(a + (b - a) == b) by {
        R::sub_is_add_neg(b, a);
        R::add_commutes(b, -a);
        R::add_associates(a, -a, b);
        R::add_neg(a);
        crate::ring::lemma_zero_add(b);
    }
    assert(a.expo() == g.dt_min && b.expo() == g.dt_max);
}

/// A gate per head starts with one draw of each sort for each head, in order, and keeps
/// the bounds it was given.
pub proof fn law_head_gates_are_made_in_order<R: Real>(
    forget: GateDraws<R>,
    dt_limit: (R, R),
    dt: Vec<R>,
    a: Vec<R>,
    gate: ForgetGate<R>,
    h: int,
)
    requires
        gate_made(forget, dt_limit, dt, a, gate),
        0 <= h < a@.len(),
    ensures
        gate.dt_bias_h@.len() == a@.len(),
        gate.a_log_h@.len() == a@.len(),
        gate.dt_limit == dt_limit,
        gate.a_log_h@[h] == forget.a_log(a@[h]),
        gate.dt_bias_h@[h] == forget.dt_bias(dt@[h]),
{
}

/// A gate per channel starts with one bias for each key channel and one slope for each
/// query head, in order, and with a projection that carries no bias, whose weights are
/// their own draws over the root of the bottleneck.
pub proof fn law_channel_gates_are_made_in_order<R: Real>(
    forget: GateDraws<R>,
    lower_bound: R,
    draws: ChannelDraws<R>,
    gate: ChannelForgetGate<R>,
    i: int,
    c: int,
)
    requires
        channel_gate_made(forget, lower_bound, draws, gate),
    ensures
        gate.lower_bound == lower_bound,
        gate.up.bias is None,
        gate.up.weight.rows() == draws.up.rows(),
        gate.up.weight.cols() == draws.up.cols(),
        gate.up.weight@(i, c) == draws.up@(i, c) * R::count(draws.up.rows()).root().recip(),
        0 <= i < draws.a@.len() ==> gate.a_log_h@[i] == forget.a_log(draws.a@[i]),
        0 <= c < draws.dt@.len() ==> gate.dt_bias_i@[c] == forget.dt_bias(draws.dt@[c]),
{
}

/// A part of a width, multiplied out, is the width times the numerator.
proof fn lemma_part(ratio: Ratio, width: int)
    requires
        ratio.whole(width),
    ensures
        ratio.of(width) * ratio.den == width * ratio.num,
{
    vstd::arithmetic::div_mod::lemma_fundamental_div_mod(width * ratio.num, ratio.den as int);
    let (q, d) = (ratio.of(width), ratio.den as int);
    assert(q * d == d * q) by (nonlinear_arith);
}

/// A DeltaNet block has as many key and value channels as its parts of the model width
/// say, one step per token, and no trailing segment.
pub proof fn law_deltanet_widths<R: Real>(
    config: DeltaNetConfig,
    draws: QkvDraws<R>,
    p: QkvProjection<R>,
)
    requires
        config.valid(),
        config.front().fits(draws),
        config.front().makes(draws, p),
    ensures
        p.nheads == config.nheads,
        p.n_value_heads == config.nheads,
        (p.nheads * p.head_k_dim) * config.expand_k.den == config.d_model * config.expand_k.num,
        (p.nheads * p.head_v_dim) * config.expand_v.den == config.d_model * config.expand_v.num,
        p.n_householder == 1,
        p.write_gate == (if config.use_beta {
            WriteGate::Scalar
        } else {
            WriteGate::Fixed
        }),
        p.has_gate == config.use_gate,
        p.extra_channels == 0,
        p.allow_neg_eigval == config.allow_neg_eigval,
        p.qk_activation == config.qk_activation,
        p.qk_norm == config.qk_norm,
        p.conv is Some == config.use_short_conv,
        p.conv is Some ==> p.conv->0.weight.cols() == config.conv_kernel,
        p.conv is Some ==> p.conv->0.bias is Some == config.conv_bias,
        p.in_proj.weight.rows() == config.d_model,
        p.in_proj.bias is Some == config.has_proj_bias,
{
    let n = config.nheads as int;
    let (k, v) = (config.expand_k.of(config.d_model as int), config.expand_v.of(
        config.d_model as int,
    ));
    lemma_part(config.expand_k, config.d_model as int);
    lemma_part(config.expand_v, config.d_model as int);
    vstd::arithmetic::div_mod::lemma_fundamental_div_mod(k, n);
    vstd::arithmetic::div_mod::lemma_fundamental_div_mod(v, n);
    assert(0 <= k / n <= k && 0 <= v / n <= v) by (nonlinear_arith)
        requires
            k >= 1,
            v >= 1,
            n > 0,
    ;
}

/// A Gated DeltaNet block has the heads that were asked for, values that are a part of
/// its keys, one step per token, one write gate per head, and one trailing column per
/// value head.
pub proof fn law_gated_deltanet_widths<R: Real>(
    config: GatedDeltaNet1Config<R>,
    draws: QkvDraws<R>,
    p: QkvProjection<R>,
)
    requires
        config.valid(),
        config.front().fits(draws),
        config.front().makes(draws, p),
    ensures
        p.nheads == config.nheads,
        p.n_value_heads == (if config.n_value_heads == 0 {
            config.nheads
        } else {
            config.n_value_heads
        }),
        p.head_k_dim == config.head_k_dim,
        p.head_v_dim * config.expand_v.den == p.head_k_dim * config.expand_v.num,
        p.n_householder == 1,
        p.write_gate == WriteGate::Scalar,
        p.has_gate == config.use_gate,
        p.extra_channels == p.n_value_heads,
        p.allow_neg_eigval == config.allow_neg_eigval,
        p.qk_activation == QkActivation::Silu,
        p.qk_norm == QkNorm::L2,
        p.conv is Some == config.use_short_conv,
        p.conv is Some ==> p.conv->0.weight.cols() == config.conv_kernel,
        p.conv is Some ==> p.conv->0.bias is Some == config.conv_bias,
        p.in_proj.weight.rows() == config.d_model,
        p.in_proj.bias is Some == config.has_proj_bias,
{
    lemma_part(config.expand_v, config.head_k_dim as int);
    lemma_part_is_not_negative(config.expand_v, config.head_k_dim as int);
}

proof fn lemma_part_is_not_negative(ratio: Ratio, width: int)
    requires
        ratio.den > 0,
        0 <= width,
    ensures
        0 <= ratio.of(width),
{
    let (num, den) = (ratio.num as int, ratio.den as int);
    assert(0 <= width * num) by (nonlinear_arith)
        requires
            0 <= width,
            0 <= num,
    ;
    vstd::arithmetic::div_mod::lemma_div_pos_is_pos(width * num, den);
}

/// A DeltaProduct block has the steps per token that were asked for; otherwise it is
/// laid out as Gated DeltaNet is, with trailing columns only for a forget gate.
pub proof fn law_delta_product_widths<R: Real>(
    config: DeltaProductConfig<R>,
    draws: QkvDraws<R>,
    p: QkvProjection<R>,
)
    requires
        config.valid(),
        config.front().fits(draws),
        config.front().makes(draws, p),
    ensures
        p.nheads == config.nheads,
        p.n_value_heads == (if config.n_value_heads == 0 {
            config.nheads
        } else {
            config.n_value_heads
        }),
        p.head_k_dim == config.head_k_dim,
        p.head_v_dim * config.expand_v.den == p.head_k_dim * config.expand_v.num,
        p.n_householder == config.n_householder,
        p.write_gate == WriteGate::Scalar,
        p.has_gate == config.use_gate,
        p.extra_channels == (if config.use_forget_gate {
            p.n_value_heads as int
        } else {
            0
        }),
        p.allow_neg_eigval == config.allow_neg_eigval,
        p.qk_activation == QkActivation::Silu,
        p.qk_norm == QkNorm::L2,
        p.conv is Some == config.use_short_conv,
        p.conv is Some ==> p.conv->0.weight.cols() == config.conv_kernel,
        p.conv is Some ==> p.conv->0.bias is Some == config.conv_bias,
        p.in_proj.weight.rows() == config.d_model,
        p.in_proj.bias is Some == config.has_proj_bias,
{
    lemma_part(config.expand_v, config.head_k_dim as int);
    lemma_part_is_not_negative(config.expand_v, config.head_k_dim as int);
}

/// A GDN-2 block has one write gate per channel, projects no output gate of full width,
/// and has a trailing segment that feeds one bottleneck or two.
pub proof fn law_gdn2_widths<R: Real>(
    config: GatedDeltaNet2Config<R>,
    draws: QkvDraws<R>,
    p: QkvProjection<R>,
)
    requires
        config.valid(),
        config.front().fits(draws),
        config.front().makes(draws, p),
    ensures
        p.nheads == config.nheads,
        p.n_value_heads == (if config.n_value_heads == 0 {
            config.nheads
        } else {
            config.n_value_heads
        }),
        p.head_k_dim == config.head_k_dim,
        p.head_v_dim * config.expand_v.den == p.head_k_dim * config.expand_v.num,
        p.n_householder == 1,
        p.write_gate == WriteGate::Channel,
        !p.has_gate,
        ({
            let rank = if config.bottleneck == 0 {
                p.head_v_dim
            } else {
                config.bottleneck
            };
            p.extra_channels == (if config.use_gate {
                rank + rank
            } else {
                rank as int
            })
        }),
        p.allow_neg_eigval == config.allow_neg_eigval,
        p.qk_activation == QkActivation::Silu,
        p.qk_norm == QkNorm::L2,
        p.conv is Some == config.use_short_conv,
        p.conv is Some ==> p.conv->0.weight.cols() == config.conv_kernel,
        p.conv is Some ==> p.conv->0.bias is Some == config.conv_bias,
        p.in_proj.weight.rows() == config.d_model,
        p.in_proj.bias is Some == config.has_proj_bias,
{
    lemma_part(config.expand_v, config.head_k_dim as int);
    lemma_part_is_not_negative(config.expand_v, config.head_k_dim as int);
}

/// The defaults that the configurations start from.
pub proof fn law_defaults(
    d_model: usize,
    nheads: usize,
    head_k_dim: usize,
    head_v_dim: usize,
    c: DeltaNetConfig,
    q: QkvProjectionConfig,
)
    requires
        c == DeltaNetConfig::defaults(d_model),
        q == QkvProjectionConfig::defaults(d_model, nheads, head_k_dim, head_v_dim),
    ensures
        c.d_model == d_model,
        c.nheads == 4,
        c.expand_k.num == 1 && c.expand_k.den == 1,
        c.expand_v.num == 1 && c.expand_v.den == 1,
        c.use_beta && c.use_short_conv,
        !c.use_gate && !c.allow_neg_eigval && !c.conv_bias && !c.has_proj_bias,
        c.conv_kernel == 4,
        c.qk_activation == QkActivation::Silu && c.qk_norm == QkNorm::L2,
        q.d_model == d_model && q.nheads == nheads,
        q.head_k_dim == head_k_dim && q.head_v_dim == head_v_dim,
        q.n_value_heads == 0 && q.n_householder == 1 && q.extra_channels == 0,
        q.write_gate == WriteGate::Scalar,
        q.use_short_conv && q.conv_kernel == 4,
        !q.has_gate && !q.allow_neg_eigval && !q.conv_bias && !q.has_proj_bias,
        q.qk_activation == QkActivation::Silu && q.qk_norm == QkNorm::L2,
        (DeltaPath::ChunkRecalculated { chunk_len: None }).spec_chunk_len() == 64,
        DeltaPath::Recurrent.spec_chunk_len() == 1,
{
}

} // verus!
