//! What two front ends have in common where they have columns in common.
//!
//! Each part of a token is decided by columns of its own. Where those of one front end
//! stand in another, at the place of the same part or of another part of its sort, the
//! second hands over what the first does there, whatever its other columns hold.
use vstd::prelude::*;

use crate::common::columns::{
    active_channel, affine, convolved_channel, group_start, key_channel, key_width, law_erase_gates,
    law_keys, law_out_gates, law_queries, law_trailing_segment, law_values, law_write_gates,
    linear_channel, mixed_width, swept, value_column, value_width, write_widths,
};
use crate::common::conv::ShortConv;
use crate::common::linear::Linear;
use crate::common::qkv::{Qkv, QkvProjection};
use crate::common::shape::WriteGate;
use crate::mat::Mat;
use crate::ring::Real;
use crate::sum::lemma_sum_ext;

verus! {

/// Whether two front ends differ at most in what their projections and filters hold.
pub open spec fn built_alike<R>(p: QkvProjection<R>, q: QkvProjection<R>) -> bool {
    q == (QkvProjection { in_proj: q.in_proj, conv: q.conv, ..p })
}

/// Whether column `c` of one projection is column `d` of the other.
pub open spec fn same_column<R: Real>(p: Linear<R>, c: int, q: Linear<R>, d: int) -> bool {
    &&& p.weight.rows() == q.weight.rows()
    &&& forall|i: int|
        0 <= i < p.weight.rows() ==> #[trigger] p.weight@(i, c) == q.weight@(i, d)
    &&& match (p.bias, q.bias) {
        (Some(b), Some(e)) => b@[c] == e@[d],
        (None, None) => true,
        _ => false,
    }
}

/// Whether channel `c` of one filter is channel `d` of the other, their windows included.
pub open spec fn same_filter<R: Real>(
    p: ShortConv<R>,
    w: Mat<R>,
    c: int,
    q: ShortConv<R>,
    z: Mat<R>,
    d: int,
) -> bool {
    &&& p.activation == q.activation
    &&& p.weight.cols() == q.weight.cols()
    &&& forall|j: int|
        0 <= j < p.weight.cols() ==> #[trigger] p.weight@(c, j) == q.weight@(d, j)
    &&& forall|j: int| 0 <= j < p.weight.cols() ==> #[trigger] w(c, j) == z(d, j)
    &&& match (p.bias, q.bias) {
        (Some(b), Some(e)) => b@[c] == e@[d],
        (None, None) => true,
        _ => false,
    }
}

/// Whether query, key or value channel `c` of one front end is channel `d` of the other.
pub open spec fn same_channel<R: Real>(
    p: QkvProjection<R>,
    w: Mat<R>,
    c: int,
    q: QkvProjection<R>,
    z: Mat<R>,
    d: int,
) -> bool {
    &&& same_column(p.in_proj, c, q.in_proj, d)
    &&& match (p.conv, q.conv) {
        (Some(f), Some(g)) => same_filter(f, w, c, g, z, d),
        (None, None) => true,
        _ => false,
    }
}

/// A column that two projections share gives the same output.
pub(crate) proof fn lemma_same_column<R: Real>(
    p: Linear<R>,
    c: int,
    q: Linear<R>,
    d: int,
    x: Mat<R>,
    t: int,
)
    requires
        same_column(p, c, q, d),
    ensures
        affine(p, x, t, c) == affine(q, x, t, d),
{
    lemma_sum_ext(
        p.weight.rows() as int,
        |i: int| x(t, i) * p.weight@(i, c),
        |i: int| x(t, i) * q.weight@(i, d),
    );
}

proof fn lemma_same_channel<R: Real>(
    p: QkvProjection<R>,
    w: Mat<R>,
    c: int,
    q: QkvProjection<R>,
    z: Mat<R>,
    d: int,
    x: Mat<R>,
    t: int,
)
    requires
        built_alike(p, q),
        same_channel(p, w, c, q, z, d),
        0 <= t,
    ensures
        convolved_channel(p, w, x, t, c) == convolved_channel(q, z, x, t, d),
        active_channel(p, w, x, t, c) == active_channel(q, z, x, t, d),
{
    lemma_same_column(p.in_proj, c, q.in_proj, d, x, t);
    if p.conv is Some {
        let (f, g) = (p.conv->0, q.conv->0);
        let n = f.weight.cols() as int;
        let y = |i: int, c: int| affine(p.in_proj, x, i, c);
        let v = |i: int, c: int| affine(q.in_proj, x, i, c);
        let left = |j: int|
            (if t + 1 + j >= n {
                y(t + 1 + j - n, c)
            } else {
                w(c, t + 1 + j)
            }) * f.weight@(c, j);
        let right = |j: int|
            (if t + 1 + j >= n {
                v(t + 1 + j - n, d)
            } else {
                z(d, t + 1 + j)
            }) * g.weight@(d, j);
        assert forall|j: int| 0 <= j < n implies #[trigger] left(j) == right(j) by {
            lemma_same_column(p.in_proj, c, q.in_proj, d, x, t + 1 + j - n);
            assert(f.weight@(c, j) == g.weight@(d, j));
            if t + 1 + j < n {
                assert(w(c, t + 1 + j) == z(d, t + 1 + j));
            }
        }
        lemma_sum_ext(n, left, right);
        assert(swept(f, w, y, t, c) == swept(g, z, v, t, d));
    }
    assert(linear_channel(p, w, x, t, c) == linear_channel(q, z, x, t, d));
}

/// Where channel `i` of the query of head `h` stands.
pub open spec fn query_column<R>(p: QkvProjection<R>, h: int, i: int) -> int {
    group_start(p, h) + i
}

/// Where channel `i` of key `j` of head `h` stands.
pub open spec fn key_column<R>(p: QkvProjection<R>, j: int, h: int, i: int) -> int {
    key_width(p) + j * key_width(p) + group_start(p, h) + i
}

/// A query is decided by its own head's channels: where these stand in another front
/// end as those of some query head, that one's query is the same.
pub proof fn law_queries_go_with_their_columns<R: Real>(
    p: QkvProjection<R>,
    q: QkvProjection<R>,
    x: spec_fn(int) -> Mat<R>,
    w: spec_fn(int) -> Mat<R>,
    z: spec_fn(int) -> Mat<R>,
    batch: int,
    sequence: int,
    read: Qkv<R>,
    other: Qkv<R>,
    a: int,
    t: int,
    h: int,
    g: int,
    d: int,
)
    requires
        p.valid(),
        q.valid(),
        built_alike(p, q),
        read.follows(p, x, w, batch, sequence),
        other.follows(q, x, z, batch, sequence),
        0 <= a < batch,
        0 <= t < sequence,
        0 <= h < p.n_value_heads,
        0 <= g < p.n_value_heads,
        0 <= d < p.head_k_dim,
        forall|i: int|
            0 <= i < p.head_k_dim ==> same_channel(
                p,
                w(a),
                #[trigger] query_column(p, h, i),
                q,
                z(a),
                query_column(q, g, i),
            ),
    ensures
        read.q_bshk@(a, t, h, d) == other.q_bshk@(a, t, g, d),
{
    law_queries(p, x, w, batch, sequence, read, a, t, h, d);
    law_queries(q, x, z, batch, sequence, other, a, t, g, d);
    let n = p.head_k_dim as int;
    let y = |i: int| active_channel(p, w(a), x(a), t, group_start(p, h) + i);
    let v = |i: int| active_channel(q, z(a), x(a), t, group_start(q, g) + i);
    assert forall|i: int| 0 <= i < n implies #[trigger] y(i) == v(i) by {
        let c = query_column(p, h, i);
        lemma_same_channel(p, w(a), c, q, z(a), query_column(q, g, i), x(a), t);
    }
    lemma_factors(p, n, y, v);
    assert(y(d) == v(d));
}

/// The factor of a row depends only on the channels there are.
proof fn lemma_factors<R: Real>(
    p: QkvProjection<R>,
    n: int,
    y: spec_fn(int) -> R,
    v: spec_fn(int) -> R,
)
    requires
        forall|i: int| 0 <= i < n ==> #[trigger] y(i) == v(i),
    ensures
        crate::common::columns::norm_factor(p.qk_norm, n, y)
            == crate::common::columns::norm_factor(p.qk_norm, n, v),
{
    lemma_sum_ext(n, |i: int| y(i) * y(i), |i: int| v(i) * v(i));
    lemma_sum_ext(n, y, v);
}

/// Key `j` of a head is decided by its own channels: where these stand in another front
/// end as those of key `l` of some query head, that key is the same. What the other keys
/// are made from makes no difference.
pub proof fn law_keys_go_with_their_columns<R: Real>(
    p: QkvProjection<R>,
    q: QkvProjection<R>,
    x: spec_fn(int) -> Mat<R>,
    w: spec_fn(int) -> Mat<R>,
    z: spec_fn(int) -> Mat<R>,
    batch: int,
    sequence: int,
    read: Qkv<R>,
    other: Qkv<R>,
    a: int,
    t: int,
    j: int,
    h: int,
    l: int,
    g: int,
    d: int,
)
    requires
        p.valid(),
        q.valid(),
        built_alike(p, q),
        read.follows(p, x, w, batch, sequence),
        other.follows(q, x, z, batch, sequence),
        0 <= a < batch,
        0 <= t < sequence,
        0 <= j < p.n_householder,
        0 <= l < p.n_householder,
        0 <= h < p.n_value_heads,
        0 <= g < p.n_value_heads,
        0 <= d < p.head_k_dim,
        forall|i: int|
            0 <= i < p.head_k_dim ==> same_channel(
                p,
                w(a),
                #[trigger] key_column(p, j, h, i),
                q,
                z(a),
                key_column(q, l, g, i),
            ),
    ensures
        read.k_bShk@(a, t * p.n_householder + j, h, d) == other.k_bShk@(
            a,
            t * p.n_householder + l,
            g,
            d,
        ),
{
    law_keys(p, x, w, batch, sequence, read, a, t, j, h, d);
    law_keys(q, x, z, batch, sequence, other, a, t, l, g, d);
    let n = p.head_k_dim as int;
    let y = |i: int| key_channel(p, w(a), x(a), t, j, h, i);
    let v = |i: int| key_channel(q, z(a), x(a), t, l, g, i);
    assert forall|i: int| 0 <= i < n implies #[trigger] y(i) == v(i) by {
        let c = key_column(p, j, h, i);
        let e = key_column(q, l, g, i);
        lemma_same_channel(p, w(a), c, q, z(a), e, x(a), t);
    }
    lemma_factors(p, n, y, v);
    assert(y(d) == v(d));
}

/// A channel of a value is decided by one channel: where it stands in another front end
/// as a channel of some value, that channel is the same.
pub proof fn law_values_go_with_their_columns<R: Real>(
    p: QkvProjection<R>,
    q: QkvProjection<R>,
    x: spec_fn(int) -> Mat<R>,
    w: spec_fn(int) -> Mat<R>,
    z: spec_fn(int) -> Mat<R>,
    batch: int,
    sequence: int,
    read: Qkv<R>,
    other: Qkv<R>,
    a: int,
    t: int,
    j: int,
    h: int,
    e: int,
    l: int,
    g: int,
    f: int,
)
    requires
        p.valid(),
        q.valid(),
        built_alike(p, q),
        read.follows(p, x, w, batch, sequence),
        other.follows(q, x, z, batch, sequence),
        0 <= a < batch,
        0 <= t < sequence,
        0 <= j < p.n_householder,
        0 <= l < p.n_householder,
        0 <= h < p.n_value_heads,
        0 <= g < p.n_value_heads,
        0 <= e < p.head_v_dim,
        0 <= f < p.head_v_dim,
        same_channel(p, w(a), value_column(p, j, h, e), q, z(a), value_column(q, l, g, f)),
    ensures
        read.v_bShv@(a, t * p.n_householder + j, h, e) == other.v_bShv@(
            a,
            t * p.n_householder + l,
            g,
            f,
        ),
{
    law_values(p, x, w, batch, sequence, read, a, t, j, h, e);
    law_values(q, x, z, batch, sequence, other, a, t, l, g, f);
    let (c, i) = (value_column(p, j, h, e), value_column(q, l, g, f));
    lemma_same_channel(p, w(a), c, q, z(a), i, x(a), t);
}

/// A channel of an erase gate is decided by one column: where it stands in another front
/// end as a column of some erase gate, that channel is the same. With one gate per head,
/// the one value is decided so.
pub proof fn law_erase_gates_go_with_their_columns<R: Real>(
    p: QkvProjection<R>,
    q: QkvProjection<R>,
    x: spec_fn(int) -> Mat<R>,
    w: spec_fn(int) -> Mat<R>,
    z: spec_fn(int) -> Mat<R>,
    batch: int,
    sequence: int,
    read: Qkv<R>,
    other: Qkv<R>,
    a: int,
    t: int,
    j: int,
    h: int,
    d: int,
    l: int,
    g: int,
    i: int,
)
    requires
        p.valid(),
        q.valid(),
        built_alike(p, q),
        read.follows(p, x, w, batch, sequence),
        other.follows(q, x, z, batch, sequence),
        0 <= a < batch,
        0 <= t < sequence,
        0 <= j < p.n_householder,
        0 <= l < p.n_householder,
        0 <= h < p.n_value_heads,
        0 <= g < p.n_value_heads,
        0 <= d < read.erase_bShK.dims().3,
        0 <= i < read.erase_bShK.dims().3,
        p.write_gate == WriteGate::Channel ==> same_column(
            p.in_proj,
            mixed_width(p) + j * key_width(p) + group_start(p, h) + d,
            q.in_proj,
            mixed_width(q) + l * key_width(q) + group_start(q, g) + i,
        ),
        p.write_gate == WriteGate::Scalar ==> same_column(
            p.in_proj,
            mixed_width(p) + j * p.n_value_heads + h,
            q.in_proj,
            mixed_width(q) + l * q.n_value_heads + g,
        ),
    ensures
        read.erase_bShK@(a, t * p.n_householder + j, h, d) == other.erase_bShK@(
            a,
            t * p.n_householder + l,
            g,
            i,
        ),
{
    law_erase_gates(p, x, w, batch, sequence, read, a, t, j, h, d);
    assert(other.erase_bShK.dims().3 == read.erase_bShK.dims().3);
    law_erase_gates(q, x, z, batch, sequence, other, a, t, l, g, i);
    if p.write_gate == WriteGate::Channel {
        let c = mixed_width(p) + j * key_width(p) + group_start(p, h) + d;
        let e = mixed_width(q) + l * key_width(q) + group_start(q, g) + i;
        lemma_same_column(p.in_proj, c, q.in_proj, e, x(a), t);
    }
    if p.write_gate == WriteGate::Scalar {
        let c = mixed_width(p) + j * p.n_value_heads + h;
        let e = mixed_width(q) + l * q.n_value_heads + g;
        lemma_same_column(p.in_proj, c, q.in_proj, e, x(a), t);
    }
}

/// Where channel `e` of the write gate of step `j` of head `h` stands.
pub open spec fn write_column<R>(p: QkvProjection<R>, j: int, h: int, e: int) -> int {
    mixed_width(p) + p.n_householder * key_width(p) + j * value_width(p) + h * p.head_v_dim + e
}

/// A channel of a write gate is decided by one column: where it stands in another front
/// end as a column of some write gate, that channel is the same.
pub proof fn law_write_gates_go_with_their_columns<R: Real>(
    p: QkvProjection<R>,
    q: QkvProjection<R>,
    x: spec_fn(int) -> Mat<R>,
    w: spec_fn(int) -> Mat<R>,
    z: spec_fn(int) -> Mat<R>,
    batch: int,
    sequence: int,
    read: Qkv<R>,
    other: Qkv<R>,
    a: int,
    t: int,
    j: int,
    h: int,
    e: int,
    l: int,
    g: int,
    i: int,
)
    requires
        p.valid(),
        q.valid(),
        built_alike(p, q),
        read.follows(p, x, w, batch, sequence),
        other.follows(q, x, z, batch, sequence),
        0 <= a < batch,
        0 <= t < sequence,
        0 <= j < p.n_householder,
        0 <= l < p.n_householder,
        0 <= h < p.n_value_heads,
        0 <= g < p.n_value_heads,
        0 <= e < read.write_bShV.dims().3,
        0 <= i < read.write_bShV.dims().3,
        p.write_gate == WriteGate::Channel ==> same_column(
            p.in_proj,
            write_column(p, j, h, e),
            q.in_proj,
            write_column(q, l, g, i),
        ),
        p.write_gate == WriteGate::Scalar ==> same_column(
            p.in_proj,
            mixed_width(p) + j * p.n_value_heads + h,
            q.in_proj,
            mixed_width(q) + l * q.n_value_heads + g,
        ),
    ensures
        read.write_bShV@(a, t * p.n_householder + j, h, e) == other.write_bShV@(
            a,
            t * p.n_householder + l,
            g,
            i,
        ),
{
    law_write_gates(p, x, w, batch, sequence, read, a, t, j, h, e);
    assert(other.write_bShV.dims().3 == read.write_bShV.dims().3);
    law_write_gates(q, x, z, batch, sequence, other, a, t, l, g, i);
    if p.write_gate == WriteGate::Channel {
        let (c, f) = (write_column(p, j, h, e), write_column(q, l, g, i));
        lemma_same_column(p.in_proj, c, q.in_proj, f, x(a), t);
    }
    if p.write_gate == WriteGate::Scalar {
        let c = mixed_width(p) + j * p.n_value_heads + h;
        let f = mixed_width(q) + l * q.n_value_heads + g;
        lemma_same_column(p.in_proj, c, q.in_proj, f, x(a), t);
    }
}

/// A channel of an output gate is decided by one column, and handed over as it is.
pub proof fn law_out_gates_go_with_their_columns<R: Real>(
    p: QkvProjection<R>,
    q: QkvProjection<R>,
    x: spec_fn(int) -> Mat<R>,
    w: spec_fn(int) -> Mat<R>,
    z: spec_fn(int) -> Mat<R>,
    batch: int,
    sequence: int,
    read: Qkv<R>,
    other: Qkv<R>,
    a: int,
    t: int,
    h: int,
    e: int,
    g: int,
    f: int,
)
    requires
        p.valid(),
        q.valid(),
        built_alike(p, q),
        p.has_gate,
        read.follows(p, x, w, batch, sequence),
        other.follows(q, x, z, batch, sequence),
        0 <= a < batch,
        0 <= t < sequence,
        0 <= h < p.n_value_heads,
        0 <= g < p.n_value_heads,
        0 <= e < p.head_v_dim,
        0 <= f < p.head_v_dim,
        same_column(
            p.in_proj,
            mixed_width(p) + write_widths(p) + h * p.head_v_dim + e,
            q.in_proj,
            mixed_width(q) + write_widths(q) + g * q.head_v_dim + f,
        ),
    ensures
        read.gate_bshv->0@(a, t, h, e) == other.gate_bshv->0@(a, t, g, f),
{
    law_out_gates(p, x, w, batch, sequence, read, a, t, h, e);
    law_out_gates(q, x, z, batch, sequence, other, a, t, g, f);
    let c = mixed_width(p) + write_widths(p) + h * p.head_v_dim + e;
    let i = mixed_width(q) + write_widths(q) + g * q.head_v_dim + f;
    lemma_same_column(p.in_proj, c, q.in_proj, i, x(a), t);
}

/// An entry of the trailing segment is decided by one column, counted from the last:
/// where it stands in another front end as a trailing column, that entry is the same.
pub proof fn law_trailing_segments_go_with_their_columns<R: Real>(
    p: QkvProjection<R>,
    q: QkvProjection<R>,
    x: spec_fn(int) -> Mat<R>,
    w: spec_fn(int) -> Mat<R>,
    z: spec_fn(int) -> Mat<R>,
    batch: int,
    sequence: int,
    read: Qkv<R>,
    other: Qkv<R>,
    a: int,
    t: int,
    i: int,
    l: int,
)
    requires
        p.valid(),
        q.valid(),
        built_alike(p, q),
        read.follows(p, x, w, batch, sequence),
        other.follows(q, x, z, batch, sequence),
        0 <= a < batch,
        0 <= t < sequence,
        0 <= i < p.extra_channels,
        0 <= l < p.extra_channels,
        same_column(
            p.in_proj,
            p.in_proj.weight.cols() - p.extra_channels + i,
            q.in_proj,
            q.in_proj.weight.cols() - q.extra_channels + l,
        ),
    ensures
        read.extra_bsx is Some,
        other.extra_bsx is Some,
        read.extra_bsx->0@(a, t, i) == other.extra_bsx->0@(a, t, l),
{
    law_trailing_segment(p, x, w, batch, sequence, read, a, t, i);
    law_trailing_segment(q, x, z, batch, sequence, other, a, t, l);
    let c = p.in_proj.weight.cols() - p.extra_channels + i;
    let e = q.in_proj.weight.cols() - q.extra_channels + l;
    lemma_same_column(p.in_proj, c, q.in_proj, e, x(a), t);
}

/// The value heads of a group read the same queries, keys and erase gates: those of their
/// query head. Where gates are one per head, each value head has its own.
pub proof fn law_groups_share_what_they_read<R: Real>(
    p: QkvProjection<R>,
    x: spec_fn(int) -> Mat<R>,
    w: spec_fn(int) -> Mat<R>,
    batch: int,
    sequence: int,
    read: Qkv<R>,
    a: int,
    t: int,
    j: int,
    h: int,
    g: int,
    d: int,
)
    requires
        p.valid(),
        read.follows(p, x, w, batch, sequence),
        0 <= a < batch,
        0 <= t < sequence,
        0 <= j < p.n_householder,
        0 <= h < p.n_value_heads,
        0 <= g < p.n_value_heads,
        0 <= d < p.head_k_dim,
        h / (p.n_value_heads as int / p.nheads as int) == g / (p.n_value_heads as int
            / p.nheads as int),
    ensures
        read.q_bshk@(a, t, h, d) == read.q_bshk@(a, t, g, d),
        read.k_bShk@(a, t * p.n_householder + j, h, d) == read.k_bShk@(
            a,
            t * p.n_householder + j,
            g,
            d,
        ),
        p.write_gate == WriteGate::Channel ==> read.erase_bShK@(
            a,
            t * p.n_householder + j,
            h,
            d,
        ) == read.erase_bShK@(a, t * p.n_householder + j, g, d),
{
    law_queries(p, x, w, batch, sequence, read, a, t, h, d);
    law_queries(p, x, w, batch, sequence, read, a, t, g, d);
    law_keys(p, x, w, batch, sequence, read, a, t, j, h, d);
    law_keys(p, x, w, batch, sequence, read, a, t, j, g, d);
    let (y, v) = (
        |i: int| key_channel(p, w(a), x(a), t, j, h, i),
        |i: int| key_channel(p, w(a), x(a), t, j, g, i),
    );
    assert(y =~= v);
    let (k, l) = (
        |i: int| active_channel(p, w(a), x(a), t, group_start(p, h) + i),
        |i: int| active_channel(p, w(a), x(a), t, group_start(p, g) + i),
    );
    assert(k =~= l);
    if p.write_gate == WriteGate::Channel {
        assert(read.erase_bShK.dims().3 == p.head_k_dim);
        law_erase_gates(p, x, w, batch, sequence, read, a, t, j, h, d);
        law_erase_gates(p, x, w, batch, sequence, read, a, t, j, g, d);
    }
}

} // verus!
