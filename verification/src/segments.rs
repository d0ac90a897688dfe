//! Where the segments of a fused weight begin, and which of them an optimizer may own.
//!
//! The segments stand in the order in which the front end reads them. Those that project
//! one number per head, the write strengths and the time steps, are left out.
use vstd::prelude::*;

use crate::common::muon::{columns, ProjSegment};
use crate::common::shape::{total_width, QkvShape, WriteGate};
use crate::delta_product::config::DeltaProductConfig;
use crate::deltanet::config::DeltaNetConfig;
use crate::gated_deltanet::config::GatedDeltaNet1Config;
use crate::gdn2::config::GatedDeltaNet2Config;
use crate::ring::Real;

verus! {

/// The segments of a projection stand in order, each as wide as what it projects.
pub proof fn law_segments_stand_in_order(shape: QkvShape)
    requires
        shape.sound(),
        shape.channels() <= usize::MAX,
    ensures
        ({
            let l = shape.layout();
            let (k, v) = (shape.nheads * shape.head_k_dim, shape.n_value_heads * shape.head_v_dim);
            let u = shape.n_householder as int;
            let n = match shape.write_gate {
                WriteGate::Fixed => 3int,
                WriteGate::Scalar => 4,
                WriteGate::Channel => 5,
            };
            let m = if shape.has_gate {
                n + 1
            } else {
                n
            };
            &&& l[0].0 == "q" && l[0].1 == k
            &&& l[1].0 == "k" && l[1].1 == u * k
            &&& l[2].0 == "v" && l[2].1 == u * v
            &&& total_width(l, 3) == k + u * k + u * v
            &&& shape.write_gate == WriteGate::Scalar ==> l[3].0 == "beta" && l[3].1 == u
                * shape.n_value_heads
            &&& shape.write_gate == WriteGate::Channel ==> {
                &&& l[3].0 == "erase" && l[3].1 == u * k
                &&& l[4].0 == "write" && l[4].1 == u * v
            }
            &&& shape.has_gate ==> l[n].0 == "gate" && l[n].1 == v
            &&& shape.extra_channels > 0 ==> l[m].0 == "extra" && l[m].1 == shape.extra_channels
            &&& l.len() == (if shape.extra_channels > 0 {
                m + 1
            } else {
                m
            })
        }),
{
    shape.lemma_parts();
    reveal_with_fuel(total_width, 4);
    let (k, v) = (shape.nheads * shape.head_k_dim, shape.n_value_heads * shape.head_v_dim);
    let u = shape.n_householder as int;
    assert(u * (k + v) == u * k + u * v) by (nonlinear_arith);
    assert(0 <= u * k && 0 <= u * v && 0 <= u * shape.n_value_heads) by (nonlinear_arith)
        requires
            0 < u,
            0 < k,
            0 < v,
            0 < shape.n_value_heads,
    ;
}

/// A value head reads the query head of its run: the value heads are divided among the
/// query heads in order, as many to each.
pub proof fn law_value_heads_are_grouped_in_order(shape: QkvShape, q: int, i: int)
    requires
        shape.sound(),
        0 <= q < shape.nheads,
        0 <= i < shape.n_value_heads as int / shape.nheads as int,
    ensures
        shape.query_head(q * (shape.n_value_heads as int / shape.nheads as int) + i) == q,
        q * (shape.n_value_heads as int / shape.nheads as int) + i < shape.n_value_heads,
{
    let g = shape.n_value_heads as int / shape.nheads as int;
    crate::common::index::lemma_flat(q, shape.nheads as int, i, g);
    vstd::arithmetic::div_mod::lemma_fundamental_div_mod(
        shape.n_value_heads as int,
        shape.nheads as int,
    );
    assert(shape.nheads * g == g * shape.nheads) by (nonlinear_arith);
}

/// Whether a segment has the given name and width, and whether it is owned.
pub open spec fn stands(s: ProjSegment, name: &'static str, width: int, owned: bool) -> bool {
    s.name == name && s.width == width && s.muon == owned
}

/// The segments of a DeltaNet weight: all but the write strengths are owned.
pub proof fn law_deltanet_segments(config: DeltaNetConfig)
    requires
        config.sized(),
    ensures
        ({
            let s = config.segments();
            let shape = config.front().shape();
            let (k, v) = (shape.nheads * shape.head_k_dim, shape.n_value_heads * shape.head_v_dim);
            let n = if config.use_beta {
                4int
            } else {
                3
            };
            &&& stands(s[0], "q", k, true)
            &&& stands(s[1], "k", k, true)
            &&& stands(s[2], "v", v, true)
            &&& config.use_beta ==> stands(s[3], "beta", config.nheads as int, false)
            &&& config.use_gate ==> stands(s[n], "gate", v, true)
            &&& s.len() == (if config.use_gate {
                n + 1
            } else {
                n
            })
        }),
{
    let n = config.nheads as int;
    let (k, v) = (config.expand_k.of(config.d_model as int), config.expand_v.of(
        config.d_model as int,
    ));
    vstd::arithmetic::div_mod::lemma_fundamental_div_mod(k, n);
    vstd::arithmetic::div_mod::lemma_fundamental_div_mod(v, n);
    assert(0 <= k / n <= k && 0 <= v / n <= v) by (nonlinear_arith)
        requires
            k >= 1,
            v >= 1,
            n > 0,
    ;
}

/// The segments of a Gated DeltaNet weight: all but the write strengths and the time
/// steps are owned.
pub proof fn law_gated_deltanet_segments<R: Real>(config: GatedDeltaNet1Config<R>)
    requires
        config.sized(),
    ensures
        ({
            let s = config.segments();
            let shape = config.front().shape();
            let (k, v) = (shape.nheads * shape.head_k_dim, shape.n_value_heads * shape.head_v_dim);
            let n = shape.n_value_heads as int;
            &&& stands(s[0], "q", k, true)
            &&& stands(s[1], "k", k, true)
            &&& stands(s[2], "v", v, true)
            &&& stands(s[3], "beta", n, false)
            &&& config.use_gate ==> stands(s[4], "gate", v, true) && stands(s[5], "dt", n, false)
                && s.len() == 6
            &&& !config.use_gate ==> stands(s[4], "dt", n, false) && s.len() == 5
        }),
{
    lemma_counts(config.front().shape());
}

/// Counts are not negative.
proof fn lemma_counts(shape: QkvShape)
    ensures
        0 <= shape.nheads * shape.head_k_dim,
        0 <= shape.n_value_heads * shape.head_v_dim,
{
    let (a, b) = (shape.nheads as int, shape.head_k_dim as int);
    let (c, d) = (shape.n_value_heads as int, shape.head_v_dim as int);
    assert(0 <= a * b && 0 <= c * d) by (nonlinear_arith)
        requires
            0 <= a,
            0 <= b,
            0 <= c,
            0 <= d,
    ;
}

/// The segments of a DeltaProduct weight: each step has a key and a value matrix of its
/// own, which begins where the front end reads the step's key or value, and is owned.
pub proof fn law_delta_product_segments<R: Real>(config: DeltaProductConfig<R>, i: int)
    requires
        config.sized(),
        0 <= i < config.n_householder,
    ensures
        ({
            let s = config.segments();
            let shape = config.front().shape();
            let (k, v) = (shape.nheads * shape.head_k_dim, shape.n_value_heads * shape.head_v_dim);
            let (u, n) = (config.n_householder as int, shape.n_value_heads as int);
            let m = if config.use_gate {
                2 * u + 3
            } else {
                2 * u + 2
            };
            &&& stands(s[0], "q", k, true)
            &&& stands(s[1 + i], "k", k, true) && columns(s, 1 + i) == k + i * k
            &&& stands(s[1 + u + i], "v", v, true) && columns(s, 1 + u + i) == k + u * k + i * v
            &&& stands(s[2 * u + 1], "beta", u * n, false)
            &&& columns(s, 2 * u + 1) == k + u * k + u * v
            &&& config.use_gate ==> stands(s[2 * u + 2], "gate", v, true)
            &&& config.use_forget_gate ==> stands(s[m], "dt", n, false)
            &&& s.len() == (if config.use_forget_gate {
                m + 1
            } else {
                m
            })
        }),
{
    let s = config.segments();
    let shape = config.front().shape();
    let (k, v) = (shape.nheads * shape.head_k_dim, shape.n_value_heads * shape.head_v_dim);
    let u = config.n_householder as int;
    lemma_counts(shape);
    assert(0 <= u * shape.n_value_heads) by (nonlinear_arith)
        requires
            0 <= u,
            0 <= shape.n_value_heads,
    ;
    assert forall|j: int| 0 <= j < u implies (#[trigger] s[1 + j]).width == k by {}
    assert forall|j: int| 0 <= j < u implies (#[trigger] s[1 + u + j]).width == v by {}
    reveal_with_fuel(columns, 2);
    assert(columns(s, 1) == k);
    lemma_run(s, 1, k, i);
    lemma_run(s, 1, k, u);
    lemma_run(s, 1 + u, v, i);
    lemma_run(s, 1 + u, v, u);
}

/// The columns of a run of segments that are as wide as each other.
proof fn lemma_run(s: Seq<ProjSegment>, first: int, width: int, n: int)
    requires
        0 <= first,
        0 <= n,
        forall|j: int| 0 <= j < n ==> (#[trigger] s[first + j]).width == width,
    ensures
        columns(s, first + n) == columns(s, first) + n * width,
    decreases n,
{
    if n > 0 {
        lemma_run(s, first, width, n - 1);
        assert(s[first + (n - 1)].width == width);
        assert(n * width == (n - 1) * width + width) by (nonlinear_arith);
    } else {
        assert(0 * width == 0) by (nonlinear_arith);
    }
}

/// The segments of a GDN-2 weight: every one is a matrix, and owned.
pub proof fn law_gdn2_segments<R: Real>(config: GatedDeltaNet2Config<R>)
    requires
        config.sized(),
    ensures
        ({
            let s = config.segments();
            let shape = config.front().shape();
            let (k, v) = (shape.nheads * shape.head_k_dim, shape.n_value_heads * shape.head_v_dim);
            let rank = if config.bottleneck == 0 {
                shape.head_v_dim as int
            } else {
                config.bottleneck as int
            };
            &&& stands(s[0], "q", k, true)
            &&& stands(s[1], "k", k, true)
            &&& stands(s[2], "v", v, true)
            &&& stands(s[3], "erase", k, true)
            &&& stands(s[4], "write", v, true)
            &&& stands(s[5], "dt_in", rank, true)
            &&& config.use_gate ==> stands(s[6], "gate_in", rank, true) && s.len() == 7
            &&& !config.use_gate ==> s.len() == 6
        }),
{
    lemma_counts(config.front().shape());
    let (num, den) = (config.expand_v.num as int, config.expand_v.den as int);
    let width = config.head_k_dim as int;
    assert(0 <= width * num) by (nonlinear_arith)
        requires
            0 <= width,
            0 <= num,
    ;
    vstd::arithmetic::div_mod::lemma_div_pos_is_pos(width * num, den);
}

} // verus!
