//! Which columns of the projection each part of a token comes from, and what becomes of
//! them on the way.
//!
//! The columns are counted here from the lengths alone: with `K = nheads * head_k_dim`
//! and `V = n_value_heads * head_v_dim`, a token has `K` query channels, then
//! `n_householder` keys of `K` channels, then `n_householder` values of `V` channels,
//! then the write gates, the output gate and the trailing segment. A value head reads
//! the query, the keys and the erase gates of the query head of its group.
use vstd::prelude::*;

use crate::common::config::{QkvDraws, QkvProjectionConfig};
use crate::common::conv::{history, ConvActivation, ShortConv};
use crate::common::index::lemma_flat;
use crate::common::linear::{within, Linear};
use crate::common::norm::{QkActivation, QkNorm};
use crate::common::qkv::{mixed_rows, raw_rows, sequences, tokens, windows, Qkv, QkvProjection};
use crate::common::shape::WriteGate;
use crate::mat::Mat;
use crate::matrix::Matrix;
use crate::ring::{lemma_mul_associates, lemma_mul_commutes, lemma_zero_mul, Real, Ring};
use crate::sum::{lemma_sum_ext, lemma_sum_scale_right, sum};
use crate::tensor::Tensor3;

verus! {

/// Output `c` of an affine map at step `t`: the inputs of that step times column `c` of
/// the weight, plus offset `c`.
pub open spec fn affine<R: Ring>(map: Linear<R>, x: Mat<R>, t: int, c: int) -> R {
    let total = sum(map.weight.rows() as int, |i: int| x(t, i) * map.weight@(i, c));
    match map.bias {
        Some(b) => total + b@[c],
        None => total,
    }
}

/// Output `c` of a filter at step `t`, before any activation: the last inputs of channel
/// `c`, the newest times the last weight, those before step `0` out of the window.
pub open spec fn swept<R: Real>(conv: ShortConv<R>, w: Mat<R>, x: Mat<R>, t: int, c: int) -> R {
    let n = conv.weight.cols() as int;
    let total = sum(
        n,
        |j: int|
            (if t + 1 + j >= n {
                x(t + 1 + j - n, c)
            } else {
                w(c, t + 1 + j)
            }) * conv.weight@(c, j),
    );
    match conv.bias {
        Some(b) => total + b@[c],
        None => total,
    }
}

/// `1 / (1 + exp(-x))`
pub open spec fn squashed<R: Real>(x: R) -> R {
    (R::one() + (-x).expo()).recip()
}

/// What a query, key or value channel is before any activation.
pub open spec fn linear_channel<R: Real>(
    p: QkvProjection<R>,
    w: Mat<R>,
    x: Mat<R>,
    t: int,
    c: int,
) -> R {
    match p.conv {
        Some(conv) => swept(conv, w, |i: int, c: int| affine(p.in_proj, x, i, c), t, c),
        None => affine(p.in_proj, x, t, c),
    }
}

/// What the convolution hands on of a channel.
pub open spec fn convolved_channel<R: Real>(
    p: QkvProjection<R>,
    w: Mat<R>,
    x: Mat<R>,
    t: int,
    c: int,
) -> R {
    let y = linear_channel(p, w, x, t, c);
    if p.conv is Some && p.conv->0.activation == ConvActivation::Silu {
        y * squashed(y)
    } else {
        y
    }
}

/// Whether the convolution has applied the activation that all channels share.
pub open spec fn is_folded<R>(p: QkvProjection<R>) -> bool {
    &&& p.qk_activation == QkActivation::Silu
    &&& p.conv is Some
    &&& p.conv->0.activation == ConvActivation::Silu
}

/// A query or key channel before it is normalised.
pub open spec fn active_channel<R: Real>(
    p: QkvProjection<R>,
    w: Mat<R>,
    x: Mat<R>,
    t: int,
    c: int,
) -> R {
    let y = convolved_channel(p, w, x, t, c);
    if is_folded(p) {
        y
    } else {
        match p.qk_activation {
            QkActivation::Identity => y,
            QkActivation::Silu => y * squashed(y),
            QkActivation::Relu => if y.positive() {
                y
            } else {
                R::zero()
            },
            QkActivation::EluPlusOne => if (-y).positive() {
                y.expo()
            } else {
                y + R::one()
            },
        }
    }
}

/// What a row of `n` channels is divided by when it is normalised, as a factor.
pub open spec fn norm_factor<R: Real>(norm: QkNorm, n: int, y: spec_fn(int) -> R) -> R {
    match norm {
        QkNorm::L2 => (sum(n, |i: int| y(i) * y(i)) + R::count(1_000_000).recip()).root().recip(),
        QkNorm::Sum => (sum(n, y) + R::guard()).recip(),
        QkNorm::Identity => R::one(),
    }
}

/// The first channel of query head `h`'s group, among the channels of one key.
pub open spec fn group_start<R>(p: QkvProjection<R>, h: int) -> int {
    (h / (p.n_value_heads as int / p.nheads as int)) * p.head_k_dim
}

/// The channels of one key.
pub open spec fn key_width<R>(p: QkvProjection<R>) -> int {
    p.nheads * p.head_k_dim
}

/// The channels of one value.
pub open spec fn value_width<R>(p: QkvProjection<R>) -> int {
    p.n_value_heads * p.head_v_dim
}

/// The channels of the query, the keys and the values.
pub open spec fn mixed_width<R>(p: QkvProjection<R>) -> int {
    key_width(p) + p.n_householder * key_width(p) + p.n_householder * value_width(p)
}

/// The channels of the write gates.
pub open spec fn write_widths<R>(p: QkvProjection<R>) -> int {
    match p.write_gate {
        WriteGate::Fixed => 0,
        WriteGate::Scalar => p.n_householder * p.n_value_heads,
        WriteGate::Channel => p.n_householder * key_width(p) + p.n_householder * value_width(p),
    }
}

/// The widths that the layout is counted with.
proof fn lemma_widths<R: Real>(p: QkvProjection<R>)
    requires
        p.valid(),
    ensures
        p.shape().keys() == key_width(p),
        p.shape().values() == value_width(p),
        p.shape().mixed() == mixed_width(p),
        p.shape().writes() == write_widths(p),
        p.shape().gates() == (if p.has_gate {
            value_width(p)
        } else {
            0
        }),
        p.in_proj.weight.cols() == mixed_width(p) + write_widths(p) + p.shape().gates()
            + p.extra_channels,
        0 < key_width(p),
        0 < value_width(p),
        0 < mixed_width(p) <= p.in_proj.weight.cols(),
{
    p.shape().lemma_parts();
}

/// A projection has one column per channel of each segment, and a filter one row per
/// query, key and value channel.
pub proof fn law_widths<R: Real>(p: QkvProjection<R>)
    requires
        p.valid(),
    ensures
        p.in_proj.weight.cols() == mixed_width(p) + write_widths(p) + (if p.has_gate {
            value_width(p)
        } else {
            0
        }) + p.extra_channels,
        p.conv matches Some(conv) ==> conv.weight.rows() == mixed_width(p),
{
    lemma_widths(p);
}

/// A projected channel.
proof fn lemma_raw<R: Real>(p: QkvProjection<R>, x: Mat<R>, t: int, c: int)
    requires
        0 <= c < p.shape().channels(),
    ensures
        p.raw(x, t)(c) == affine(p.in_proj, x, t, c),
{
    let row = |d: int| x(t, d);
    lemma_sum_ext(
        p.in_proj.weight.rows() as int,
        |d: int| row(d) * p.in_proj.weight@(d, c),
        |i: int| x(t, i) * p.in_proj.weight@(i, c),
    );
}

/// A filtered channel is swept, then activated.
pub proof fn law_filters_sweep_their_own_channel<R: Real>(
    conv: ShortConv<R>,
    w: Mat<R>,
    x: Mat<R>,
    t: int,
    c: int,
)
    ensures
        conv.filtered(w, x, t, c) == (match conv.activation {
            ConvActivation::Silu => swept(conv, w, x, t, c) * squashed(swept(conv, w, x, t, c)),
            ConvActivation::Identity => swept(conv, w, x, t, c),
        }),
{
    let n = conv.weight.cols() as int;
    lemma_sum_ext(
        n,
        |j: int| history(n, w, x, t - (n - 1) + j, c) * conv.weight@(c, j),
        |j: int|
            (if t + 1 + j >= n {
                x(t + 1 + j - n, c)
            } else {
                w(c, t + 1 + j)
            }) * conv.weight@(c, j),
    );
}

/// A window holds the last inputs of each channel, the newest last: the inputs of the
/// steps there were, and before them the end of the window that came before.
pub proof fn law_windows_hold_the_last_inputs<R: Real>(
    conv: ShortConv<R>,
    w: Mat<R>,
    x: Mat<R>,
    t: int,
    c: int,
    j: int,
)
    requires
        0 <= t,
        0 <= j < conv.weight.cols(),
    ensures
        conv.window_after(w, x, t)(c, j) == (if t + j >= conv.weight.cols() {
            x(t + j - conv.weight.cols(), c)
        } else {
            w(c, t + j)
        }),
{
}

/// A filter without an activation answers an impulse with its weights, last to first,
/// in the impulse's channel alone.
pub proof fn law_impulse_response<R: Real>(
    conv: ShortConv<R>,
    w: Mat<R>,
    x: Mat<R>,
    t0: int,
    c0: int,
    t: int,
    c: int,
)
    requires
        conv.activation == ConvActivation::Identity,
        conv.bias is None,
        0 <= t0 <= t < t0 + conv.weight.cols(),
        forall|i: int, j: int| #[trigger] w(i, j) == R::zero(),
        forall|i: int, j: int|
            #[trigger] x(i, j) == (if i == t0 && j == c0 {
                R::one()
            } else {
                R::zero()
            }),
    ensures
        conv.filtered(w, x, t, c) == (if c == c0 {
            conv.weight@(c, conv.weight.cols() - 1 - (t - t0))
        } else {
            R::zero()
        }),
{
    law_filters_sweep_their_own_channel(conv, w, x, t, c);
    let n = conv.weight.cols() as int;
    let k = n - 1 - (t - t0);
    let terms = |j: int|
        (if t + 1 + j >= n {
            x(t + 1 + j - n, c)
        } else {
            w(c, t + 1 + j)
        }) * conv.weight@(c, j);
    assert forall|j: int| 0 <= j < n && (j != k || c != c0) implies #[trigger] terms(j)
        == R::zero() by {
        lemma_zero_mul(conv.weight@(c, j));
    }
    if c == c0 {
        crate::sum::lemma_sum_single(n, k, terms);
        crate::ring::lemma_one_mul(conv.weight@(c, k));
    } else {
        crate::sum::lemma_sum_zero(n, terms);
    }
}

/// A query, key or value channel after the convolution.
proof fn lemma_mixed<R: Real>(p: QkvProjection<R>, w: Mat<R>, x: Mat<R>, t: int, c: int)
    requires
        p.valid(),
        0 <= t,
        0 <= c < p.shape().mixed(),
    ensures
        p.mixed(w, x, t)(c) == convolved_channel(p, w, x, t, c),
{
    p.shape().lemma_parts();
    match p.conv {
        Some(conv) => {
            let raws = |i: int, c: int| p.raw(x, i)(c);
            let columns = |i: int, c: int| affine(p.in_proj, x, i, c);
            assert forall|i: int| 0 <= i <= t implies #[trigger] raws(i, c) == columns(i, c) by {
                lemma_raw(p, x, i, c);
            }
            crate::common::conv::lemma_filtered_depends(conv, w, w, raws, columns, t, c);
            law_filters_sweep_their_own_channel(conv, w, columns, t, c);
        },
        None => {
            lemma_raw(p, x, t, c);
        },
    }
}

/// A query or key channel before it is normalised.
proof fn lemma_active<R: Real>(p: QkvProjection<R>, w: Mat<R>, x: Mat<R>, t: int, c: int)
    requires
        p.valid(),
        0 <= t,
        0 <= c < p.shape().mixed(),
    ensures
        p.active(p.mixed(w, x, t)(c)) == active_channel(p, w, x, t, c),
{
    lemma_mixed(p, w, x, t, c);
}

/// A normalised row is the row times one factor.
proof fn lemma_normed<R: Real>(
    norm: QkNorm,
    n: int,
    y: spec_fn(int) -> R,
    z: spec_fn(int) -> R,
    d: int,
)
    requires
        0 <= d < n,
        forall|i: int| 0 <= i < n ==> #[trigger] y(i) == z(i),
    ensures
        norm.normed(n, y)(d) == z(d) * norm_factor(norm, n, z),
{
    assert(y(d) == z(d));
    lemma_sum_ext(n, |i: int| y(i) * y(i), |i: int| z(i) * z(i));
    lemma_sum_ext(n, y, z);
    crate::ring::lemma_mul_one(z(d));
}

/// The step of a sequence that step `j` of token `t` is.
proof fn lemma_step_of(t: int, sequence: int, j: int, u: int)
    requires
        0 <= t < sequence,
        0 <= j < u,
    ensures
        0 <= t * u + j < sequence * u,
        (t * u + j) / u == t,
        (t * u + j) % u == j,
{
    lemma_flat(t, sequence, j, u);
}

/// Channel `d` of the query of head `h` at token `t`: the channels of its group's query
/// head among the first, after convolution and activation, over their common length.
pub open spec fn query_entry<R: Real>(
    p: QkvProjection<R>,
    w: Mat<R>,
    x: Mat<R>,
    t: int,
    h: int,
    d: int,
) -> R {
    let y = |i: int| active_channel(p, w, x, t, group_start(p, h) + i);
    y(d) * norm_factor(p.qk_norm, p.head_k_dim as int, y)
}

/// Channel `d` of key `j` of head `h` at token `t`: the key has `nheads * head_k_dim`
/// channels of its own behind those of the query and of the keys before it; the head
/// reads its group's part of them, after convolution and activation, over their common
/// length.
pub open spec fn key_entry<R: Real>(
    p: QkvProjection<R>,
    w: Mat<R>,
    x: Mat<R>,
    t: int,
    j: int,
    h: int,
    d: int,
) -> R {
    let y = |i: int| key_channel(p, w, x, t, j, h, i);
    y(d) * norm_factor(p.qk_norm, p.head_k_dim as int, y)
}

pub(crate) proof fn lemma_query<R: Real>(
    p: QkvProjection<R>,
    w: Mat<R>,
    x: Mat<R>,
    t: int,
    h: int,
    d: int,
)
    requires
        p.valid(),
        0 <= t,
        0 <= h < p.n_value_heads,
        0 <= d < p.head_k_dim,
    ensures
        p.query(p.mixed(w, x, t), h)(d) == query_entry(p, w, x, t, h, d),
{
    let (n, row) = (p.head_k_dim as int, p.mixed(w, x, t));
    let y = |i: int| active_channel(p, w, x, t, group_start(p, h) + i);
    let z = within(n, |i: int| p.active(row(p.shape().query_at(h, i))));
    assert forall|i: int| 0 <= i < n implies #[trigger] z(i) == y(i) by {
        p.shape().lemma_positions(0, h, i, 0);
        p.shape().lemma_parts();
        lemma_active(p, w, x, t, group_start(p, h) + i);
    }
    lemma_normed(p.qk_norm, n, z, y, d);
}

pub(crate) proof fn lemma_key<R: Real>(
    p: QkvProjection<R>,
    w: Mat<R>,
    x: Mat<R>,
    t: int,
    j: int,
    h: int,
    d: int,
)
    requires
        p.valid(),
        0 <= t,
        0 <= j < p.n_householder,
        0 <= h < p.n_value_heads,
        0 <= d < p.head_k_dim,
    ensures
        p.key(p.mixed(w, x, t), j, h)(d) == key_entry(p, w, x, t, j, h, d),
{
    let (n, row) = (p.head_k_dim as int, p.mixed(w, x, t));
    let y = |i: int| key_channel(p, w, x, t, j, h, i);
    let z = within(n, |i: int| p.active(row(p.shape().key_at(j, h, i))));
    assert forall|i: int| 0 <= i < n implies #[trigger] z(i) == y(i) by {
        p.shape().lemma_positions(j, h, i, 0);
        p.shape().lemma_parts();
        lemma_active(
            p,
            w,
            x,
            t,
            key_width(p) + j * key_width(p) + group_start(p, h) + i,
        );
    }
    lemma_normed(p.qk_norm, n, z, y, d);
}

/// The queries that the front end hands over come from their own columns.
pub proof fn law_queries<R: Real>(
    p: QkvProjection<R>,
    x: spec_fn(int) -> Mat<R>,
    w: spec_fn(int) -> Mat<R>,
    batch: int,
    sequence: int,
    read: Qkv<R>,
    a: int,
    t: int,
    h: int,
    d: int,
)
    requires
        p.valid(),
        read.follows(p, x, w, batch, sequence),
        0 <= a < batch,
        0 <= t < sequence,
        0 <= h < p.n_value_heads,
        0 <= d < p.head_k_dim,
    ensures
        read.q_bshk@(a, t, h, d) == query_entry(p, w(a), x(a), t, h, d),
{
    lemma_query(p, w(a), x(a), t, h, d);
    assert(read.q_bshk@(a, t, h, d) == p.query(mixed_rows(p, x, w)(a, t), h)(d));
}

/// The keys that the front end hands over come from their own columns: step `j` of a
/// token has the token's key `j`.
pub proof fn law_keys<R: Real>(
    p: QkvProjection<R>,
    x: spec_fn(int) -> Mat<R>,
    w: spec_fn(int) -> Mat<R>,
    batch: int,
    sequence: int,
    read: Qkv<R>,
    a: int,
    t: int,
    j: int,
    h: int,
    d: int,
)
    requires
        p.valid(),
        read.follows(p, x, w, batch, sequence),
        0 <= a < batch,
        0 <= t < sequence,
        0 <= j < p.n_householder,
        0 <= h < p.n_value_heads,
        0 <= d < p.head_k_dim,
    ensures
        read.k_bShk@(a, t * p.n_householder + j, h, d) == key_entry(p, w(a), x(a), t, j, h, d),
{
    let u = p.n_householder as int;
    lemma_key(p, w(a), x(a), t, j, h, d);
    lemma_step_of(t, sequence, j, u);
    let s = t * u + j;
    assert(read.k_bShk@(a, s, h, d) == p.key(mixed_rows(p, x, w)(a, s / u), s % u, h)(d));
}

/// Channel `i` of key `j` of head `h` before it is normalised.
pub open spec fn key_channel<R: Real>(
    p: QkvProjection<R>,
    w: Mat<R>,
    x: Mat<R>,
    t: int,
    j: int,
    h: int,
    i: int,
) -> R {
    active_channel(p, w, x, t, key_width(p) + j * key_width(p) + group_start(p, h) + i)
}

/// Keys of one token are as far apart as the channels they come from: where those of
/// two keys are at right angles, so are the keys. It holds of two heads as well.
pub proof fn law_keys_keep_right_angles<R: Real>(
    p: QkvProjection<R>,
    x: spec_fn(int) -> Mat<R>,
    w: spec_fn(int) -> Mat<R>,
    batch: int,
    sequence: int,
    read: Qkv<R>,
    a: int,
    t: int,
    j: int,
    h: int,
    l: int,
    g: int,
)
    requires
        p.valid(),
        read.follows(p, x, w, batch, sequence),
        0 <= a < batch,
        0 <= t < sequence,
        0 <= j < p.n_householder,
        0 <= l < p.n_householder,
        0 <= h < p.n_value_heads,
        0 <= g < p.n_value_heads,
        sum(
            p.head_k_dim as int,
            |i: int|
                key_channel(p, w(a), x(a), t, j, h, i) * key_channel(p, w(a), x(a), t, l, g, i),
        ) == R::zero(),
    ensures
        sum(
            p.head_k_dim as int,
            |d: int|
                read.k_bShk@(a, t * p.n_householder + j, h, d) * read.k_bShk@(
                    a,
                    t * p.n_householder + l,
                    g,
                    d,
                ),
        ) == R::zero(),
{
    let (n, u) = (p.head_k_dim as int, p.n_householder as int);
    let y = |i: int| key_channel(p, w(a), x(a), t, j, h, i);
    let z = |i: int| key_channel(p, w(a), x(a), t, l, g, i);
    let (b, c) = (norm_factor(p.qk_norm, n, y), norm_factor(p.qk_norm, n, z));
    let dots = |i: int|
        key_channel(p, w(a), x(a), t, j, h, i) * key_channel(p, w(a), x(a), t, l, g, i);
    let scaled = |d: int| dots(d) * (b * c);
    let keys = |d: int| read.k_bShk@(a, t * u + j, h, d) * read.k_bShk@(a, t * u + l, g, d);
    assert forall|d: int| 0 <= d < n implies #[trigger] keys(d) == scaled(d) by {
        law_keys(p, x, w, batch, sequence, read, a, t, j, h, d);
        law_keys(p, x, w, batch, sequence, read, a, t, l, g, d);
        let (e, f) = (y(d), z(d));
        assert((e * b) * (f * c) == (e * f) * (b * c)) by {
            broadcast use {lemma_mul_commutes, lemma_mul_associates};

        }
    }
    lemma_sum_ext(n, keys, scaled);
    lemma_sum_scale_right(n, dots, b * c);
    lemma_zero_mul(b * c);
    lemma_sum_ext(
        n,
        |d: int|
            read.k_bShk@(a, t * p.n_householder + j, h, d) * read.k_bShk@(
                a,
                t * p.n_householder + l,
                g,
                d,
            ),
        keys,
    );
}

/// Where channel `e` of value `j` of head `h` stands.
pub open spec fn value_column<R>(p: QkvProjection<R>, j: int, h: int, e: int) -> int {
    key_width(p) + p.n_householder * key_width(p) + j * value_width(p) + h * p.head_v_dim + e
}

/// Channel `e` of value `j` of head `h` at token `t`: its own channel behind those of the
/// keys, after convolution, with a SiLU on top unless the convolution has applied it.
pub open spec fn value_entry<R: Real>(
    p: QkvProjection<R>,
    w: Mat<R>,
    x: Mat<R>,
    t: int,
    j: int,
    h: int,
    e: int,
) -> R {
    let y = convolved_channel(p, w, x, t, value_column(p, j, h, e));
    if is_folded(p) {
        y
    } else {
        y * squashed(y)
    }
}

pub(crate) proof fn lemma_value<R: Real>(
    p: QkvProjection<R>,
    w: Mat<R>,
    x: Mat<R>,
    t: int,
    j: int,
    h: int,
    e: int,
)
    requires
        p.valid(),
        0 <= t,
        0 <= j < p.n_householder,
        0 <= h < p.n_value_heads,
        0 <= e < p.head_v_dim,
    ensures
        p.value(p.mixed(w, x, t), j, h, e) == value_entry(p, w, x, t, j, h, e),
{
    p.shape().lemma_positions(j, h, 0, e);
    lemma_mixed(p, w, x, t, value_column(p, j, h, e));
}

/// The values that the front end hands over come from their own columns: step `j` of a
/// token has the token's value `j`.
pub proof fn law_values<R: Real>(
    p: QkvProjection<R>,
    x: spec_fn(int) -> Mat<R>,
    w: spec_fn(int) -> Mat<R>,
    batch: int,
    sequence: int,
    read: Qkv<R>,
    a: int,
    t: int,
    j: int,
    h: int,
    e: int,
)
    requires
        p.valid(),
        read.follows(p, x, w, batch, sequence),
        0 <= a < batch,
        0 <= t < sequence,
        0 <= j < p.n_householder,
        0 <= h < p.n_value_heads,
        0 <= e < p.head_v_dim,
    ensures
        read.v_bShv@(a, t * p.n_householder + j, h, e) == value_entry(p, w(a), x(a), t, j, h, e),
{
    let u = p.n_householder as int;
    lemma_value(p, w(a), x(a), t, j, h, e);
    lemma_step_of(t, sequence, j, u);
    let s = t * u + j;
    assert(read.v_bShv@(a, s, h, e) == p.value(mixed_rows(p, x, w)(a, s / u), s % u, h, e));
}

/// Values are activated exactly once, whatever the configuration that the front end was
/// made from: with or without a convolution, and wherever the activation is applied.
pub proof fn law_values_are_activated_once<R: Real>(
    config: QkvProjectionConfig,
    draws: QkvDraws<R>,
    p: QkvProjection<R>,
    x: spec_fn(int) -> Mat<R>,
    w: spec_fn(int) -> Mat<R>,
    batch: int,
    sequence: int,
    read: Qkv<R>,
    a: int,
    t: int,
    j: int,
    h: int,
    e: int,
)
    requires
        config.makes(draws, p),
        read.follows(p, x, w, batch, sequence),
        0 <= a < batch,
        0 <= t < sequence,
        0 <= j < p.n_householder,
        0 <= h < p.n_value_heads,
        0 <= e < p.head_v_dim,
    ensures
        ({
            let y = linear_channel(p, w(a), x(a), t, value_column(p, j, h, e));
            read.v_bShv@(a, t * p.n_householder + j, h, e) == y * squashed(y)
        }),
{
    law_values(p, x, w, batch, sequence, read, a, t, j, h, e);
}

/// Queries and keys are activated exactly once as well: their channels are the linear
/// ones under the activation that was asked for.
pub proof fn law_keys_are_activated_once<R: Real>(
    config: QkvProjectionConfig,
    draws: QkvDraws<R>,
    p: QkvProjection<R>,
    w: Mat<R>,
    x: Mat<R>,
    t: int,
    c: int,
)
    requires
        config.makes(draws, p),
    ensures
        ({
            let y = linear_channel(p, w, x, t, c);
            active_channel(p, w, x, t, c) == (match config.qk_activation {
                QkActivation::Identity => y,
                QkActivation::Silu => y * squashed(y),
                QkActivation::Relu => if y.positive() {
                    y
                } else {
                    R::zero()
                },
                QkActivation::EluPlusOne => if (-y).positive() {
                    y.expo()
                } else {
                    y + R::one()
                },
            })
        }),
{
}

/// Whether two front ends differ at most in where the SiLU is applied: one convolution
/// applies it, the other leaves it to what follows.
pub open spec fn differ_in_folding<R>(p: QkvProjection<R>, q: QkvProjection<R>) -> bool {
    &&& p.conv is Some
    &&& q.conv is Some
    &&& p.conv->0.activation == ConvActivation::Silu
    &&& q.conv->0.activation == ConvActivation::Identity
    &&& p.qk_activation == QkActivation::Silu
    &&& q == (QkvProjection {
        conv: Some(ShortConv { activation: ConvActivation::Identity, ..p.conv->0 }),
        ..p
    })
}

/// Folding the activation into the convolution changes nothing: queries, keys and values
/// are those of the same front end whose convolution applies none.
pub proof fn law_folding_changes_nothing<R: Real>(
    p: QkvProjection<R>,
    q: QkvProjection<R>,
    x: spec_fn(int) -> Mat<R>,
    w: spec_fn(int) -> Mat<R>,
    batch: int,
    sequence: int,
    read: Qkv<R>,
    other: Qkv<R>,
)
    requires
        p.valid(),
        q.valid(),
        differ_in_folding(p, q),
        read.follows(p, x, w, batch, sequence),
        other.follows(q, x, w, batch, sequence),
        0 <= sequence,
    ensures
        read.q_bshk@ == other.q_bshk@,
        read.k_bShk@ == other.k_bShk@,
        read.v_bShv@ == other.v_bShv@,
{
    let (n, u) = (p.head_k_dim as int, p.n_householder as int);
    assert forall|a: int, t: int, c: int| #[trigger]
        active_channel(p, w(a), x(a), t, c) == active_channel(q, w(a), x(a), t, c) by {
        lemma_folding(p, q, w(a), x(a), t, c);
    }
    assert forall|a: int, t: int, h: int, d: int| #[trigger]
        read.q_bshk@(a, t, h, d) == other.q_bshk@(a, t, h, d) by {
        if 0 <= a < batch && 0 <= t < sequence && 0 <= h < p.n_value_heads && 0 <= d < n {
            law_queries(p, x, w, batch, sequence, read, a, t, h, d);
            law_queries(q, x, w, batch, sequence, other, a, t, h, d);
            let y = |i: int| active_channel(p, w(a), x(a), t, group_start(p, h) + i);
            let z = |i: int| active_channel(q, w(a), x(a), t, group_start(q, h) + i);
            assert(y =~= z);
        }
    }
    assert(read.q_bshk@ =~= other.q_bshk@);
    assert forall|a: int, s: int, h: int, d: int| #[trigger]
        read.k_bShk@(a, s, h, d) == other.k_bShk@(a, s, h, d) by {
        if 0 <= a < batch && 0 <= s < sequence * u && 0 <= h < p.n_value_heads && 0 <= d < n {
            let (t, j) = (s / u, s % u);
            crate::common::index::lemma_token(s, sequence, u);
            vstd::arithmetic::div_mod::lemma_fundamental_div_mod(s, u);
            assert(t * u + j == s) by (nonlinear_arith)
                requires
                    s == u * t + j,
            ;
            law_keys(p, x, w, batch, sequence, read, a, t, j, h, d);
            law_keys(q, x, w, batch, sequence, other, a, t, j, h, d);
            let y = |i: int| key_channel(p, w(a), x(a), t, j, h, i);
            let z = |i: int| key_channel(q, w(a), x(a), t, j, h, i);
            assert forall|i: int| #[trigger] y(i) == z(i) by {
                let c = key_width(p) + j * key_width(p) + group_start(p, h) + i;
                assert(active_channel(p, w(a), x(a), t, c) == active_channel(q, w(a), x(a), t, c));
            }
            assert(y =~= z);
        }
    }
    assert(read.k_bShk@ =~= other.k_bShk@);
    assert forall|a: int, s: int, h: int, e: int| #[trigger]
        read.v_bShv@(a, s, h, e) == other.v_bShv@(a, s, h, e) by {
        if 0 <= a < batch && 0 <= s < sequence * u && 0 <= h < p.n_value_heads && 0 <= e
            < p.head_v_dim {
            let (t, j) = (s / u, s % u);
            crate::common::index::lemma_token(s, sequence, u);
            vstd::arithmetic::div_mod::lemma_fundamental_div_mod(s, u);
            assert(t * u + j == s) by (nonlinear_arith)
                requires
                    s == u * t + j,
            ;
            law_values(p, x, w, batch, sequence, read, a, t, j, h, e);
            law_values(q, x, w, batch, sequence, other, a, t, j, h, e);
            lemma_folding(p, q, w(a), x(a), t, value_column(p, j, h, e));
        }
    }
    assert(read.v_bShv@ =~= other.v_bShv@);
}

proof fn lemma_folding<R: Real>(
    p: QkvProjection<R>,
    q: QkvProjection<R>,
    w: Mat<R>,
    x: Mat<R>,
    t: int,
    c: int,
)
    requires
        differ_in_folding(p, q),
    ensures
        linear_channel(p, w, x, t, c) == linear_channel(q, w, x, t, c),
        active_channel(p, w, x, t, c) == active_channel(q, w, x, t, c),
{
}

/// What two front ends read where they differ at most in where the SiLU is applied.
pub(crate) proof fn lemma_folded_entries<R: Real>(
    p: QkvProjection<R>,
    q: QkvProjection<R>,
    w: Mat<R>,
    x: Mat<R>,
    t: int,
    j: int,
    h: int,
    i: int,
)
    requires
        differ_in_folding(p, q),
    ensures
        query_entry(p, w, x, t, h, i) == query_entry(q, w, x, t, h, i),
        key_entry(p, w, x, t, j, h, i) == key_entry(q, w, x, t, j, h, i),
        value_entry(p, w, x, t, j, h, i) == value_entry(q, w, x, t, j, h, i),
        erase_entry(p, x, t, j, h, i) == erase_entry(q, x, t, j, h, i),
        write_entry(p, x, t, j, h, i) == write_entry(q, x, t, j, h, i),
{
    let y = |i: int| active_channel(p, w, x, t, group_start(p, h) + i);
    let z = |i: int| active_channel(q, w, x, t, group_start(q, h) + i);
    assert forall|i: int| #[trigger] y(i) == z(i) by {
        lemma_folding(p, q, w, x, t, group_start(p, h) + i);
    }
    assert(y =~= z);
    let k = |i: int| key_channel(p, w, x, t, j, h, i);
    let l = |i: int| key_channel(q, w, x, t, j, h, i);
    assert forall|i: int| #[trigger] k(i) == l(i) by {
        lemma_folding(p, q, w, x, t, key_width(p) + j * key_width(p) + group_start(p, h) + i);
    }
    assert(k =~= l);
    lemma_folding(p, q, w, x, t, value_column(p, j, h, i));
}

/// A write gate, doubled where it may reach two.
pub open spec fn reaching<R: Real>(p: QkvProjection<R>, x: R) -> R {
    if p.allow_neg_eigval {
        x + x
    } else {
        x
    }
}

/// The erase gate on key channel `d` of step `j` of head `h` at token `t`. One gate per
/// channel reads, for each channel, its own column behind the query, key and value
/// channels; one per head reads the head's own column there; a fixed one reads none.
pub open spec fn erase_entry<R: Real>(
    p: QkvProjection<R>,
    x: Mat<R>,
    t: int,
    j: int,
    h: int,
    d: int,
) -> R {
    reaching(
        p,
        match p.write_gate {
            WriteGate::Fixed => R::one(),
            WriteGate::Scalar => squashed(
                affine(p.in_proj, x, t, mixed_width(p) + j * p.n_value_heads + h),
            ),
            WriteGate::Channel => squashed(
                affine(
                    p.in_proj,
                    x,
                    t,
                    mixed_width(p) + j * key_width(p) + group_start(p, h) + d,
                ),
            ),
        },
    )
}

pub(crate) proof fn lemma_erase<R: Real>(
    p: QkvProjection<R>,
    x: Mat<R>,
    t: int,
    j: int,
    h: int,
    d: int,
)
    requires
        p.valid(),
        0 <= j < p.n_householder,
        0 <= h < p.n_value_heads,
        p.write_gate == WriteGate::Channel ==> 0 <= d < p.head_k_dim,
    ensures
        p.erase(p.raw(x, t), j, h, d) == erase_entry(p, x, t, j, h, d),
{
    lemma_widths(p);
    let raw = p.raw(x, t);
    match p.write_gate {
        WriteGate::Fixed => {},
        WriteGate::Scalar => {
            p.shape().lemma_positions(j, h, 0, 0);
            lemma_raw(p, x, t, p.shape().beta_at(j, h));
        },
        WriteGate::Channel => {
            p.shape().lemma_positions(j, h, d, 0);
            lemma_raw(p, x, t, p.shape().erase_at(j, h, d));
        },
    }
    let b = match p.write_gate {
        WriteGate::Fixed => R::one(),
        WriteGate::Scalar => squashed(raw(p.shape().beta_at(j, h))),
        WriteGate::Channel => squashed(raw(p.shape().erase_at(j, h, d))),
    };
    lemma_twice(b);
}

/// The erase gates that the front end hands over come from their own columns, one value
/// per key channel or one per head.
pub proof fn law_erase_gates<R: Real>(
    p: QkvProjection<R>,
    x: spec_fn(int) -> Mat<R>,
    w: spec_fn(int) -> Mat<R>,
    batch: int,
    sequence: int,
    read: Qkv<R>,
    a: int,
    t: int,
    j: int,
    h: int,
    d: int,
)
    requires
        p.valid(),
        read.follows(p, x, w, batch, sequence),
        0 <= a < batch,
        0 <= t < sequence,
        0 <= j < p.n_householder,
        0 <= h < p.n_value_heads,
        0 <= d < read.erase_bShK.dims().3,
    ensures
        read.erase_bShK.dims().3 == (if p.write_gate == WriteGate::Channel {
            p.head_k_dim
        } else {
            1
        }),
        read.erase_bShK@(a, t * p.n_householder + j, h, d) == erase_entry(p, x(a), t, j, h, d),
{
    let u = p.n_householder as int;
    lemma_erase(p, x(a), t, j, h, d);
    lemma_step_of(t, sequence, j, u);
    let s = t * u + j;
    assert(read.erase_bShK@(a, s, h, d) == p.erase(raw_rows(p, x)(a, s / u), s % u, h, d));
}

/// Twice a number is the number and the number again.
proof fn lemma_twice<R: Real>(x: R)
    ensures
        x * (R::one() + R::one()) == x + x,
{
    R::mul_distributes(x, R::one(), R::one());
    crate::ring::lemma_mul_one(x);
}

/// The write gate on value channel `e` of step `j` of head `h` at token `t`. One gate per
/// channel reads, for each channel, its own column behind the erase gates; one per head
/// is the erase gate itself; a fixed one is one.
pub open spec fn write_entry<R: Real>(
    p: QkvProjection<R>,
    x: Mat<R>,
    t: int,
    j: int,
    h: int,
    e: int,
) -> R {
    match p.write_gate {
        WriteGate::Fixed => R::one(),
        WriteGate::Scalar => reaching(
            p,
            squashed(affine(p.in_proj, x, t, mixed_width(p) + j * p.n_value_heads + h)),
        ),
        WriteGate::Channel => squashed(
            affine(
                p.in_proj,
                x,
                t,
                mixed_width(p) + p.n_householder * key_width(p) + j * value_width(p) + h
                    * p.head_v_dim + e,
            ),
        ),
    }
}

pub(crate) proof fn lemma_write<R: Real>(
    p: QkvProjection<R>,
    x: Mat<R>,
    t: int,
    j: int,
    h: int,
    e: int,
)
    requires
        p.valid(),
        0 <= j < p.n_householder,
        0 <= h < p.n_value_heads,
        p.write_gate == WriteGate::Channel ==> 0 <= e < p.head_v_dim,
    ensures
        p.write(p.raw(x, t), j, h, e) == write_entry(p, x, t, j, h, e),
{
    lemma_widths(p);
    let raw = p.raw(x, t);
    match p.write_gate {
        WriteGate::Fixed => {},
        WriteGate::Scalar => {
            p.shape().lemma_positions(j, h, 0, 0);
            lemma_raw(p, x, t, p.shape().beta_at(j, h));
            lemma_twice(squashed(raw(p.shape().beta_at(j, h))));
        },
        WriteGate::Channel => {
            p.shape().lemma_positions(j, h, 0, e);
            lemma_raw(p, x, t, p.shape().write_at(j, h, e));
        },
    }
}

/// The write gates that the front end hands over come from their own columns, one value
/// per value channel or one per head.
pub proof fn law_write_gates<R: Real>(
    p: QkvProjection<R>,
    x: spec_fn(int) -> Mat<R>,
    w: spec_fn(int) -> Mat<R>,
    batch: int,
    sequence: int,
    read: Qkv<R>,
    a: int,
    t: int,
    j: int,
    h: int,
    e: int,
)
    requires
        p.valid(),
        read.follows(p, x, w, batch, sequence),
        0 <= a < batch,
        0 <= t < sequence,
        0 <= j < p.n_householder,
        0 <= h < p.n_value_heads,
        0 <= e < read.write_bShV.dims().3,
    ensures
        read.write_bShV.dims().3 == (if p.write_gate == WriteGate::Channel {
            p.head_v_dim
        } else {
            1
        }),
        read.write_bShV@(a, t * p.n_householder + j, h, e) == write_entry(p, x(a), t, j, h, e),
{
    let u = p.n_householder as int;
    lemma_write(p, x(a), t, j, h, e);
    lemma_step_of(t, sequence, j, u);
    let s = t * u + j;
    assert(read.write_bShV@(a, s, h, e) == p.write(raw_rows(p, x)(a, s / u), s % u, h, e));
}

/// The output gate of a token's head, if there is one: for each value channel its own
/// column behind the write gates.
pub proof fn law_out_gates<R: Real>(
    p: QkvProjection<R>,
    x: spec_fn(int) -> Mat<R>,
    w: spec_fn(int) -> Mat<R>,
    batch: int,
    sequence: int,
    read: Qkv<R>,
    a: int,
    t: int,
    h: int,
    e: int,
)
    requires
        p.valid(),
        read.follows(p, x, w, batch, sequence),
        0 <= a < batch,
        0 <= t < sequence,
        0 <= h < p.n_value_heads,
        0 <= e < p.head_v_dim,
    ensures
        read.gate_bshv is Some == p.has_gate,
        p.has_gate ==> read.gate_bshv->0@(a, t, h, e) == affine(
            p.in_proj,
            x(a),
            t,
            mixed_width(p) + write_widths(p) + h * p.head_v_dim + e,
        ),
{
    lemma_widths(p);
    if p.has_gate {
        p.shape().lemma_positions(0, h, 0, e);
        lemma_raw(p, x(a), t, p.shape().gate_at(h, e));
        assert(read.gate_bshv->0@(a, t, h, e) == p.out_gate(raw_rows(p, x)(a, t), h, e));
    }
}

/// The trailing segment of a token, if there is one: its last columns, in order.
pub proof fn law_trailing_segment<R: Real>(
    p: QkvProjection<R>,
    x: spec_fn(int) -> Mat<R>,
    w: spec_fn(int) -> Mat<R>,
    batch: int,
    sequence: int,
    read: Qkv<R>,
    a: int,
    t: int,
    i: int,
)
    requires
        p.valid(),
        read.follows(p, x, w, batch, sequence),
        0 <= a < batch,
        0 <= t < sequence,
        0 <= i < p.extra_channels,
    ensures
        read.extra_bsx is Some,
        read.extra_bsx->0@(a, t, i) == affine(
            p.in_proj,
            x(a),
            t,
            p.in_proj.weight.cols() - p.extra_channels + i,
        ),
{
    lemma_widths(p);
    p.shape().lemma_parts();
    lemma_raw(p, x(a), t, p.shape().extra_at(i));
    assert(read.extra_bsx->0@(a, t, i) == p.extra(raw_rows(p, x)(a, t), i));
}

/// A raw row is the projected columns of its token, all of them.
pub proof fn law_raw_rows<R: Real>(p: QkvProjection<R>, x: Mat<R>, t: int, c: int)
    requires
        p.valid(),
        0 <= c < p.in_proj.weight.cols(),
    ensures
        p.raw(x, t)(c) == affine(p.in_proj, x, t, c),
{
    lemma_widths(p);
    lemma_raw(p, x, t, c);
}

/// The window that is left behind holds the last projected inputs of every query, key
/// and value channel, and before them the end of the window that was entered with.
pub proof fn law_windows_slide<R: Real>(
    p: QkvProjection<R>,
    x: spec_fn(int) -> Mat<R>,
    w: spec_fn(int) -> Mat<R>,
    batch: int,
    sequence: int,
    next: Option<Tensor3<R>>,
    a: int,
    c: int,
    j: int,
)
    requires
        p.valid(),
        p.slides(batch, x, w, sequence, next),
        0 <= sequence,
        p.conv is Some,
        0 <= a < batch,
        0 <= c < mixed_width(p),
        0 <= j < p.conv->0.weight.cols(),
    ensures
        next is Some,
        next->0@(a, c, j) == (if sequence + j >= p.conv->0.weight.cols() {
            affine(p.in_proj, x(a), sequence + j - p.conv->0.weight.cols(), c)
        } else {
            w(a)(c, sequence + j)
        }),
{
    lemma_widths(p);
    let conv = p.conv->0;
    let raws = |i: int, c: int| p.raw(x(a), i)(c);
    assert(next->0@(a, c, j) == conv.window_after(w(a), raws, sequence)(c, j));
    law_windows_hold_the_last_inputs(conv, w(a), raws, sequence, c, j);
    if sequence + j >= conv.weight.cols() {
        lemma_raw(p, x(a), sequence + j - conv.weight.cols(), c);
    }
}

/// What a batch of sequences, of tokens and of windows is read as: entry by entry, each
/// sequence by itself, and zeros where there is no window.
pub proof fn law_batches_are_read_entry_by_entry<R: Real>(
    x: Tensor3<R>,
    y: Matrix<R>,
    w: Tensor3<R>,
    a: int,
    t: int,
    c: int,
)
    ensures
        sequences(x)(a)(t, c) == x@(a, t, c),
        tokens(y)(a)(0, c) == y@(a, c),
        windows(Some(w))(a)(t, c) == w@(a, t, c),
        windows::<R>(None)(a)(t, c) == R::zero(),
{
}

} // verus!
