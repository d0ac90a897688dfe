//! What is let through: which configurations can be made into blocks, which inputs and
//! caches hold numbers, and which caches a block can be entered with.
use vstd::prelude::*;

use crate::common::block::enters;
use crate::common::cache::{DeltaCache, DeltaCacheConfig};
use crate::common::config::{QkvProjectionConfig, Ratio};
use crate::common::gate::GateDraws;
use crate::common::norm::{QkActivation, QkNorm};
use crate::common::shape::{QkvShape, WriteGate};
use crate::delta::path::DeltaInput;
use crate::delta_product::config::DeltaProductConfig;
use crate::delta_product::delta_product::DeltaProduct;
use crate::deltanet::config::DeltaNetConfig;
use crate::deltanet::deltanet::DeltaNet;
use crate::gated_deltanet::cache::{GatedDeltaNetCache, GatedDeltaNetCacheConfig};
use crate::gated_deltanet::config::GatedDeltaNet1Config;
use crate::gated_deltanet::gated_deltanet_1::GatedDeltaNet1;
use crate::gdn2::cache::{GatedDeltaNet2Cache, GatedDeltaNet2CacheConfig};
use crate::gdn2::config::GatedDeltaNet2Config;
use crate::gdn2::gdn2::GatedDeltaNet2;
use crate::ring::Real;
use crate::tensor::{Tensor3, Tensor4};

verus! {

/// Whether entry `(a, b, i, j)` is a number, or is none of the tensor's.
pub open spec fn number_at<R: Real>(x: Tensor4<R>, a: int, b: int, i: int, j: int) -> bool {
    (0 <= a < x.dims().0 && 0 <= b < x.dims().1 && 0 <= i < x.dims().2 && 0 <= j < x.dims().3)
        ==> x@(a, b, i, j).finite()
}

/// Whether entry `(a, i, j)` of a window is a number, or is none of the window's.
pub open spec fn number_in<R: Real>(x: Option<Tensor3<R>>, a: int, i: int, j: int) -> bool {
    x matches Some(w) ==> (0 <= a < w.dims().0 && 0 <= i < w.dims().1 && 0 <= j < w.dims().2)
        ==> w@(a, i, j).finite()
}

/// Inputs are sane where their shapes agree and every entry of all seven is a number,
/// and only there.
pub proof fn law_sane_inputs_hold_numbers<R: Real>(x: DeltaInput<R>)
    ensures
        x.sane() == (x.valid() && forall|a: int, b: int, i: int, j: int| #[trigger]
            numbers_at(x, a, b, i, j)),
{
    if x.valid() && forall|a: int, b: int, i: int, j: int| #[trigger] numbers_at(x, a, b, i, j) {
        assert forall|a: int, b: int, i: int, j: int| #[trigger]
            number_at(x.q_bshk, a, b, i, j) by {
            assert(numbers_at(x, a, b, i, j));
        }
        lemma_numbers(x.q_bshk);
        assert forall|a: int, b: int, i: int, j: int| #[trigger]
            number_at(x.k_bshk, a, b, i, j) by {
            assert(numbers_at(x, a, b, i, j));
        }
        lemma_numbers(x.k_bshk);
        assert forall|a: int, b: int, i: int, j: int| #[trigger]
            number_at(x.v_bshv, a, b, i, j) by {
            assert(numbers_at(x, a, b, i, j));
        }
        lemma_numbers(x.v_bshv);
        assert forall|a: int, b: int, i: int, j: int| #[trigger]
            number_at(x.erase_bshK, a, b, i, j) by {
            assert(numbers_at(x, a, b, i, j));
        }
        lemma_numbers(x.erase_bshK);
        assert forall|a: int, b: int, i: int, j: int| #[trigger]
            number_at(x.write_bshV, a, b, i, j) by {
            assert(numbers_at(x, a, b, i, j));
        }
        lemma_numbers(x.write_bshV);
        assert forall|a: int, b: int, i: int, j: int| #[trigger]
            number_at(x.state_bhkv, a, b, i, j) by {
            assert(numbers_at(x, a, b, i, j));
        }
        lemma_numbers(x.state_bhkv);
        if x.g_bshK is Some {
            let g = x.g_bshK->0;
            assert forall|a: int, b: int, i: int, j: int| #[trigger] number_at(g, a, b, i, j) by {
                assert(numbers_at(x, a, b, i, j));
            }
            lemma_numbers(g);
        }
    }
}

/// Whether entry `(a, b, i, j)` of every input is a number, where there is one.
pub open spec fn numbers_at<R: Real>(x: DeltaInput<R>, a: int, b: int, i: int, j: int) -> bool {
    &&& number_at(x.q_bshk, a, b, i, j)
    &&& number_at(x.k_bshk, a, b, i, j)
    &&& number_at(x.v_bshv, a, b, i, j)
    &&& number_at(x.erase_bshK, a, b, i, j)
    &&& number_at(x.write_bshV, a, b, i, j)
    &&& number_at(x.state_bhkv, a, b, i, j)
    &&& x.g_bshK matches Some(g) ==> number_at(g, a, b, i, j)
}

proof fn lemma_numbers<R: Real>(x: Tensor4<R>)
    requires
        forall|a: int, b: int, i: int, j: int| #[trigger] number_at(x, a, b, i, j),
    ensures
        crate::common::finite::finite4(x),
{
    assert forall|a: int, b: int, i: int, j: int|
        0 <= a < x.dims().0 && 0 <= b < x.dims().1 && 0 <= i < x.dims().2 && 0 <= j
            < x.dims().3 implies (#[trigger] x@(a, b, i, j)).finite() by {
        assert(number_at(x, a, b, i, j));
    }
}

/// A cache is sane where every entry of its window and its state is a number, and only
/// there, whichever family it belongs to.
pub proof fn law_sane_caches_hold_numbers<R: Real>(
    plain: DeltaCache<R>,
    gated: GatedDeltaNetCache<R>,
    two: GatedDeltaNet2Cache<R>,
)
    ensures
        plain.sane() == holds_numbers(plain.conv_bwc, plain.state_bhkv),
        gated.sane() == holds_numbers(gated.conv_bwc, gated.state_bhkv),
        two.sane() == holds_numbers(two.conv_bwc, two.state_bhkv),
{
    lemma_held(plain.conv_bwc, plain.state_bhkv);
    lemma_held(gated.conv_bwc, gated.state_bhkv);
    lemma_held(two.conv_bwc, two.state_bhkv);
}

/// Whether every entry of a window and a state is a number.
pub open spec fn holds_numbers<R: Real>(window: Option<Tensor3<R>>, state: Tensor4<R>) -> bool {
    &&& forall|a: int, i: int, j: int| #[trigger] number_in(window, a, i, j)
    &&& forall|a: int, b: int, i: int, j: int| #[trigger] number_at(state, a, b, i, j)
}

proof fn lemma_held<R: Real>(window: Option<Tensor3<R>>, state: Tensor4<R>)
    ensures
        holds_numbers(window, state) == ((window matches Some(w)
            ==> crate::common::finite::finite3(w)) && crate::common::finite::finite4(state)),
{
    if holds_numbers(window, state) {
        lemma_numbers(state);
        if window is Some {
            let w = window->0;
            assert forall|a: int, i: int, j: int|
                0 <= a < w.dims().0 && 0 <= i < w.dims().1 && 0 <= j < w.dims().2 implies (
            #[trigger] w@(a, i, j)).finite() by {
                assert(number_in(window, a, i, j));
            }
        }
    }
}

/// The columns that a layout calls for.
pub open spec fn counted(s: QkvShape) -> int {
    let (k, v, u) = (s.nheads * s.head_k_dim, s.n_value_heads * s.head_v_dim, s.n_householder);
    (k + u * k + u * v) + (match s.write_gate {
        WriteGate::Fixed => 0,
        WriteGate::Scalar => u * s.n_value_heads,
        WriteGate::Channel => u * k + u * v,
    }) + (if s.has_gate {
        v
    } else {
        0
    }) + s.extra_channels
}

proof fn lemma_counted(s: QkvShape)
    ensures
        s.channels() == counted(s),
{
    let (k, v, u) = (s.nheads * s.head_k_dim, s.n_value_heads * s.head_v_dim, s.n_householder);
    assert(u * (k + v) == u * k + u * v) by (nonlinear_arith);
    assert(u * 0 == 0);
}

/// A front end can be made where there is at least one of everything, the value heads
/// divide among the query heads, a convolution has a window, no channel that may be
/// negative is divided by a sum, and the columns can be counted; and only there.
pub proof fn law_which_front_ends_can_be_made(config: QkvProjectionConfig)
    ensures
        config.valid() == ({
            let n = if config.n_value_heads == 0 {
                config.nheads
            } else {
                config.n_value_heads
            };
            &&& config.nheads > 0 && n > 0 && n as int % config.nheads as int == 0
            &&& config.head_k_dim > 0 && config.head_v_dim > 0 && config.n_householder > 0
            &&& !(config.use_short_conv && config.conv_kernel == 0)
            &&& !(config.qk_norm == QkNorm::Sum && config.qk_activation == QkActivation::Silu)
            &&& counted(
                QkvShape {
                    nheads: config.nheads,
                    n_value_heads: n,
                    head_k_dim: config.head_k_dim,
                    head_v_dim: config.head_v_dim,
                    n_householder: config.n_householder,
                    write_gate: config.write_gate,
                    has_gate: config.has_gate,
                    extra_channels: config.extra_channels,
                },
            ) <= usize::MAX
        }),
{
    lemma_counted(config.shape());
}

/// Whether a part of a width is a whole number of channels that can be counted.
pub open spec fn divides(ratio: Ratio, width: int) -> bool {
    &&& ratio.den > 0
    &&& (width * ratio.num) % ratio.den as int == 0
    &&& (width * ratio.num) / ratio.den as int <= usize::MAX
}

/// Whether a gate can be drawn: rates from zero up, time steps above zero, and neither
/// range empty.
pub open spec fn can_be_drawn<R: Real>(g: GateDraws<R>) -> bool {
    &&& !(R::zero() - g.a_init_range.0).positive()
    &&& (g.a_init_range.1 - g.a_init_range.0).positive()
    &&& g.dt_min.positive()
    &&& (g.dt_max - g.dt_min).positive()
}

/// A block can be made where its front end can, its widths come out whole, and its gate
/// can be drawn; and only there.
pub proof fn law_which_blocks_can_be_made<R: Real>(
    plain: DeltaNetConfig,
    gated: GatedDeltaNet1Config<R>,
    product: DeltaProductConfig<R>,
    two: GatedDeltaNet2Config<R>,
)
    ensures
        plain.valid() == ({
            let (k, v) = (plain.expand_k, plain.expand_v);
            let n = plain.nheads as int;
            &&& divides(k, plain.d_model as int) && divides(v, plain.d_model as int)
            &&& (plain.d_model * k.num) / k.den as int >= 1
            &&& (plain.d_model * v.num) / v.den as int >= 1
            &&& n > 0
            &&& ((plain.d_model * k.num) / k.den as int) % n == 0
            &&& ((plain.d_model * v.num) / v.den as int) % n == 0
            &&& plain.front().valid()
        }),
        gated.valid() == (divides(gated.expand_v, gated.head_k_dim as int) && can_be_drawn(
            gated.forget,
        ) && gated.front().valid()),
        product.valid() == (divides(product.expand_v, product.head_k_dim as int) && (
        product.use_forget_gate ==> can_be_drawn(product.forget)) && product.front().valid()),
        two.valid() == ({
            let rank = if two.bottleneck == 0 {
                (two.head_k_dim * two.expand_v.num) / two.expand_v.den as int
            } else {
                two.bottleneck as int
            };
            &&& divides(two.expand_v, two.head_k_dim as int)
            &&& can_be_drawn(two.forget)
            &&& rank > 0
            &&& (if two.use_gate {
                rank + rank
            } else {
                rank
            }) <= usize::MAX
            &&& two.front().valid()
        }),
{
    lemma_from_zero(gated.forget.a_init_range.0);
    lemma_from_zero(product.forget.a_init_range.0);
    lemma_from_zero(two.forget.a_init_range.0);
}

proof fn lemma_from_zero<R: Real>(a: R)
    ensures
        R::zero() - a == -a,
{
    R::sub_is_add_neg(R::zero(), a);
    crate::ring::lemma_zero_add(-a);
}

/// A cache of the shape that a block asks for can be entered: it has a window exactly
/// where the block has a convolution, with a row per query, key and value channel, and a
/// state per value head.
pub proof fn law_fresh_caches_can_be_entered<R: Real>(
    plain: DeltaNet<R>,
    gated: GatedDeltaNet1<R>,
    product: DeltaProduct<R>,
    two: GatedDeltaNet2<R>,
    batch: usize,
    cache: DeltaCache<R>,
    cache2: GatedDeltaNet2Cache<R>,
)
    ensures
        plain.valid() && plain.cache_shape(batch).shapes(cache) ==> enters(
            plain.qkv,
            batch as int,
            cache.conv_bwc,
            cache.state_bhkv,
        ),
        gated.valid() && gated.cache_shape(batch).shapes(cache) ==> enters(
            gated.qkv,
            batch as int,
            cache.conv_bwc,
            cache.state_bhkv,
        ),
        product.valid() && product.cache_shape(batch).shapes(cache) ==> enters(
            product.qkv,
            batch as int,
            cache.conv_bwc,
            cache.state_bhkv,
        ),
        two.valid() && two.cache_shape(batch).shapes(cache2) ==> enters(
            two.qkv,
            batch as int,
            cache2.conv_bwc,
            cache2.state_bhkv,
        ),
{
    if plain.valid() {
        plain.qkv.shape().lemma_parts();
    }
    if gated.valid() {
        gated.qkv.shape().lemma_parts();
    }
    if product.valid() {
        product.qkv.shape().lemma_parts();
    }
    if two.valid() {
        two.qkv.shape().lemma_parts();
    }
}

/// The shapes of a cache of any family: a window per sequence, of one row per channel and
/// one column per step of the filter, and none without a filter; and a state per head of
/// each sequence, of one row per key channel and one column per value channel.
pub proof fn law_cache_shapes<R: Real>(
    c: DeltaCacheConfig,
    plain: DeltaCache<R>,
    g: GatedDeltaNetCacheConfig,
    gated: GatedDeltaNetCache<R>,
    t: GatedDeltaNet2CacheConfig,
    two: GatedDeltaNet2Cache<R>,
)
    ensures
        c.shapes(plain) == ({
            &&& plain.conv_bwc is Some == (c.conv_kernel != 0)
            &&& plain.conv_bwc is Some ==> plain.conv_bwc->0.dims() == (
                c.batch,
                c.conv_dim,
                c.conv_kernel,
            )
            &&& plain.state_bhkv.dims() == (c.batch, c.nheads, c.head_k_dim, c.head_v_dim)
        }),
        g.shapes(gated) == ({
            &&& gated.conv_bwc is Some == (g.conv_kernel != 0)
            &&& gated.conv_bwc is Some ==> gated.conv_bwc->0.dims() == (
                g.batch,
                g.conv_dim,
                g.conv_kernel,
            )
            &&& gated.state_bhkv.dims() == (g.batch, g.nheads, g.head_k_dim, g.head_v_dim)
        }),
        t.shapes(two) == ({
            &&& two.conv_bwc is Some == (t.conv_kernel != 0)
            &&& two.conv_bwc is Some ==> two.conv_bwc->0.dims() == (
                t.batch,
                t.conv_dim,
                t.conv_kernel,
            )
            &&& two.state_bhkv.dims() == (t.batch, t.nheads, t.head_k_dim, t.head_v_dim)
        }),
{
}

} // verus!
