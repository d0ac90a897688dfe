//! Hyperparameters of a DeltaProduct block.
use vstd::prelude::*;

use crate::common::config::{
    block_fits, block_made, heads_or, make_block, BlockDraws, QkvProjectionConfig, Ratio,
};
use crate::common::gate::{ForgetGateConfig, GateDraws};
use crate::common::muon::{
    columns, lemma_columns_add, lemma_columns_repeat, muon_columns, plain_columns, ProjSegment,
    ProjSpec,
};
use crate::common::norm::{QkActivation, QkNorm};
use crate::common::shape::WriteGate;
use crate::delta_product::delta_product::DeltaProduct;
use crate::gated_deltanet::config::gate_made;
use crate::ring::Real;

verus! {

/// The hyperparameters of a [`DeltaProduct`].
pub struct DeltaProductConfig<T> {
    /// The model width.
    pub d_model: usize,
    /// The steps of the delta rule per token.
    pub n_householder: usize,
    /// The number of query and key heads.
    pub nheads: usize,
    /// The number of value heads, a multiple of the query heads; zero stands for as
    /// many.
    pub n_value_heads: usize,
    /// The key channels of each head.
    pub head_k_dim: usize,
    /// The value channels of each head, as a part of the key channels.
    pub expand_v: Ratio,
    /// Whether there is a forget gate, applied once per token.
    pub use_forget_gate: bool,
    /// Whether an output gate is projected.
    pub use_gate: bool,
    /// Whether the erase gate reaches two instead of one.
    pub allow_neg_eigval: bool,
    /// Whether there is a short convolution.
    pub use_short_conv: bool,
    /// The window length.
    pub conv_kernel: usize,
    /// Whether the convolution carries a bias.
    pub conv_bias: bool,
    /// What the parameters of the forget gate are drawn with.
    pub forget: GateDraws<T>,
    /// The range that the forget gate's time step is held to.
    pub dt_limit: (T, T),
    /// Whether the projections carry biases.
    pub has_proj_bias: bool,
}

/// What the parameters of a [`DeltaProduct`] are made from.
pub struct ProductDraws<T> {
    /// For the weights: draws from `[-1, 1)`.
    pub block: BlockDraws<T>,
    /// For the initial time steps of the forget gate: draws from `[0, 1)`.
    pub dt: Vec<T>,
    /// For the rates of the forget gate: draws from `[0, 1)`.
    pub a: Vec<T>,
}

impl<T: Real> DeltaProductConfig<T> {
    /// The defaults for a model width.
    pub fn new(d_model: usize) -> (r: Self)
        ensures
            r.d_model == d_model,
            r.n_householder == 2,
            r.use_forget_gate,
            r.nheads == 4,
            r.n_value_heads == 0,
            r.head_k_dim == 64,
            r.expand_v == (Ratio { num: 1, den: 1 }),
            r.use_gate,
            r.allow_neg_eigval == true,
            r.use_short_conv,
            r.conv_kernel == 4,
            !r.conv_bias,
            r.forget.a_init_range == (T::zero(), T::count(16)),
            r.forget.dt_min == T::count(1000).recip(),
            r.forget.dt_max == T::count(10).recip(),
            r.forget.dt_init_floor == T::count(10000).recip(),
            !r.has_proj_bias,
            r.dt_limit == (T::zero(), T::count(65504)),
    {
        DeltaProductConfig {
            d_model,
            n_householder: 2,
            use_forget_gate: true,
            nheads: 4,
            n_value_heads: 0,
            head_k_dim: 64,
            expand_v: Ratio { num: 1, den: 1 },
            use_gate: true,
            allow_neg_eigval: true,
            use_short_conv: true,
            conv_kernel: 4,
            conv_bias: false,
            forget: GateDraws {
                a_init_range: (T::nil(), T::from_count(16)),
                dt_min: T::from_count(1000).reciprocal(),
                dt_max: T::from_count(10).reciprocal(),
                dt_init_floor: T::from_count(10000).reciprocal(),
            },
            dt_limit: (T::nil(), T::from_count(65504)),
            has_proj_bias: false,
        }
    }

    /// The hyperparameters of the front end.
    pub open spec fn front(&self) -> QkvProjectionConfig {
        QkvProjectionConfig {
            d_model: self.d_model,
            nheads: self.nheads,
            head_k_dim: self.head_k_dim,
            head_v_dim: self.expand_v.of(self.head_k_dim as int) as usize,
            n_value_heads: self.n_value_heads,
            n_householder: self.n_householder,
            write_gate: WriteGate::Scalar,
            has_gate: self.use_gate,
            allow_neg_eigval: self.allow_neg_eigval,
            use_short_conv: self.use_short_conv,
            conv_kernel: self.conv_kernel,
            conv_bias: self.conv_bias,
            qk_activation: QkActivation::Silu,
            qk_norm: QkNorm::L2,
            extra_channels: if self.use_forget_gate {
                heads_or(self.n_value_heads, self.nheads)
            } else {
                0
            },
            has_proj_bias: self.has_proj_bias,
        }
    }

    /// Whether the channels of a value are a whole number, and the widths of the
    /// projections can be counted.
    pub open spec fn sized(&self) -> bool {
        &&& self.expand_v.whole(self.head_k_dim as int)
        &&& self.nheads * self.head_k_dim <= usize::MAX
        &&& heads_or(self.n_value_heads, self.nheads) * self.expand_v.of(self.head_k_dim as int)
            <= usize::MAX
        &&& self.n_householder * heads_or(self.n_value_heads, self.nheads) <= usize::MAX
    }

    /// Whether a block can be made.
    pub open spec fn valid(&self) -> bool {
        &&& self.expand_v.whole(self.head_k_dim as int)
        &&& self.use_forget_gate ==> self.forget.valid()
        &&& self.front().valid()
    }

    /// The number of value heads.
    pub fn n_value_heads_resolved(&self) -> (r: usize)
        ensures
            r == heads_or(self.n_value_heads, self.nheads),
    {
        if self.n_value_heads == 0 {
            self.nheads
        } else {
            self.n_value_heads
        }
    }

    /// The value channels of each head.
    pub fn head_v_dim(&self) -> (r: usize)
        requires
            self.expand_v.whole(self.head_k_dim as int),
        ensures
            r == self.expand_v.of(self.head_k_dim as int),
    {
        match self.expand_v.scaled(self.head_k_dim) {
            Some(n) => n,
            None => 0,
        }
    }

    /// The key channels of all heads.
    pub fn key_dim(&self) -> (r: usize)
        requires
            self.nheads * self.head_k_dim <= usize::MAX,
        ensures
            r == self.nheads * self.head_k_dim,
    {
        self.nheads * self.head_k_dim
    }

    /// The value channels of all heads.
    pub fn value_dim(&self) -> (r: usize)
        requires
            self.expand_v.whole(self.head_k_dim as int),
            heads_or(self.n_value_heads, self.nheads) * self.expand_v.of(self.head_k_dim as int)
                <= usize::MAX,
        ensures
            r == heads_or(self.n_value_heads, self.nheads) * self.expand_v.of(
                self.head_k_dim as int,
            ),
    {
        self.n_value_heads_resolved() * self.head_v_dim()
    }

    /// The hyperparameters of the front end.
    pub fn front_config(&self) -> (r: QkvProjectionConfig)
        requires
            self.expand_v.whole(self.head_k_dim as int),
        ensures
            r == self.front(),
    {
        QkvProjectionConfig {
            n_value_heads: self.n_value_heads,
            n_householder: self.n_householder,
            write_gate: WriteGate::Scalar,
            has_gate: self.use_gate,
            allow_neg_eigval: self.allow_neg_eigval,
            use_short_conv: self.use_short_conv,
            conv_kernel: self.conv_kernel,
            conv_bias: self.conv_bias,
            extra_channels: if self.use_forget_gate {
                self.n_value_heads_resolved()
            } else {
                0
            },
            has_proj_bias: self.has_proj_bias,
            ..QkvProjectionConfig::new(
                self.d_model,
                self.nheads,
                self.head_k_dim,
                self.head_v_dim(),
            )
        }
    }

    /// Whether a block can be made.
    pub fn is_valid(&self) -> (r: bool)
        ensures
            r == self.valid(),
    {
        self.expand_v.scaled(self.head_k_dim).is_some() && (!self.use_forget_gate
            || self.forget.is_valid()) && self.front_config().is_valid()
    }

    /// The block whose parameters come from the given draws, with the given term under
    /// the root of its norm. Without a forget gate, its draws are not read.
    pub fn init(&self, draws: &ProductDraws<T>, epsilon: T) -> (r: DeltaProduct<T>)
        requires
            self.valid(),
            block_fits(self.front(), draws.block),
            self.use_forget_gate ==> draws.dt@.len() == heads_or(self.n_value_heads, self.nheads),
            self.use_forget_gate ==> draws.a@.len() == heads_or(self.n_value_heads, self.nheads),
        ensures
            r.valid(),
            block_made(self.front(), draws.block, epsilon, r.qkv, r.norm, r.out_proj),
            r.gate is Some == self.use_forget_gate,
            r.gate matches Some(gate) ==> gate_made(
                self.forget,
                self.dt_limit,
                draws.dt,
                draws.a,
                gate,
            ),
    {
        let front = self.front_config();
        let (qkv, norm, out_proj) = make_block(&front, &draws.block, epsilon);
        let gate = if self.use_forget_gate {
            Some(
                ForgetGateConfig {
                    nheads: self.n_value_heads_resolved(),
                    draws: GateDraws {
                        a_init_range: self.forget.a_init_range,
                        dt_min: self.forget.dt_min,
                        dt_max: self.forget.dt_max,
                        dt_init_floor: self.forget.dt_init_floor,
                    },
                    dt_limit: self.dt_limit,
                }.init(&draws.dt, &draws.a),
            )
        } else {
            None
        };
        DeltaProduct { qkv, gate, norm, out_proj }
    }

    /// The segments of the fused weight, for an optimizer: each step has a key and a
    /// value matrix of its own.
    pub open spec fn segments(&self) -> Seq<ProjSegment> {
        let (k, v) = (self.front().shape().keys(), self.front().shape().values());
        let n = heads_or(self.n_value_heads, self.nheads) as int;
        let u = self.n_householder;
        seq![muon_columns("q", k)] + Seq::new(u as nat, |i: int| muon_columns("k", k)) + Seq::new(
            u as nat,
            |i: int| muon_columns("v", v),
        ) + self.gate_segments(u * n, v, n)
    }

    /// The segments that follow the keys and values.
    pub open spec fn gate_segments(&self, betas: int, v: int, n: int) -> Seq<ProjSegment> {
        let gate = if self.use_gate {
            seq![muon_columns("gate", v)]
        } else {
            seq![]
        };
        let dt = if self.use_forget_gate {
            seq![plain_columns("dt", n)]
        } else {
            seq![]
        };
        seq![plain_columns("beta", betas)] + gate + dt
    }

    /// The matrices of the block that an orthogonalising optimizer may own.
    pub fn muon_projections(&self) -> (r: Vec<ProjSpec>)
        requires
            self.sized(),
        ensures
            r@.len() == 2,
            r@[0].is_block("qkv.in_proj.weight", self.segments()),
            r@[1].is_whole("out_proj.weight", self.d_model as int),
    {
        let (n, u) = (self.n_value_heads_resolved(), self.n_householder);
        let (keys, values) = (self.key_dim(), self.value_dim());
        let mut segments: Vec<ProjSegment> = Vec::new();
        segments.push(ProjSegment::muon("q", keys));
        for i in 0..u
            invariant
                segments@ == seq![muon_columns("q", keys as int)] + Seq::new(
                    i as nat,
                    |j: int| muon_columns("k", keys as int),
                ),
        {
            segments.push(ProjSegment::muon("k", keys));
            assert(segments@ =~= seq![muon_columns("q", keys as int)] + Seq::new(
                (i + 1) as nat,
                |j: int| muon_columns("k", keys as int),
            ));
        }
        let ghost before = segments@;
        for i in 0..u
            invariant
                segments@ == before + Seq::new(
                    i as nat,
                    |j: int| muon_columns("v", values as int),
                ),
        {
            segments.push(ProjSegment::muon("v", values));
            assert(segments@ =~= before + Seq::new(
                (i + 1) as nat,
                |j: int| muon_columns("v", values as int),
            ));
        }
        segments.push(ProjSegment::adamw("beta", u * n));
        if self.use_gate {
            segments.push(ProjSegment::muon("gate", values));
        }
        if self.use_forget_gate {
            segments.push(ProjSegment::adamw("dt", n));
        }
        assert(segments@ =~= self.segments());
        let mut r: Vec<ProjSpec> = Vec::new();
        r.push(ProjSpec::Block { weight: "qkv.in_proj.weight", segments });
        r.push(ProjSpec::Whole { weight: "out_proj.weight", width: self.d_model });
        r
    }
}

/// The optimizer's segments cover the fused weight of the block.
pub proof fn law_segments_cover_the_weight<T: Real>(config: DeltaProductConfig<T>)
    requires
        config.sized(),
    ensures
        columns(config.segments(), config.segments().len() as int)
            == config.front().shape().channels(),
{
    let shape = config.front().shape();
    let (k, v, u) = (shape.keys(), shape.values(), config.n_householder as int);
    let n = heads_or(config.n_value_heads, config.nheads) as int;
    let q = seq![muon_columns("q", k)];
    let ks = Seq::new(u as nat, |i: int| muon_columns("k", k));
    let vs = Seq::new(u as nat, |i: int| muon_columns("v", v));
    let tail = config.gate_segments(u * n, v, n);
    lemma_columns_add(q, ks, u);
    lemma_columns_add(q + ks, vs, u);
    lemma_columns_add(q + ks + vs, tail, tail.len() as int);
    lemma_columns_repeat(ks, k, u);
    lemma_columns_repeat(vs, v, u);
    assert(u * (k + v) == u * k + u * v) by (nonlinear_arith);
    reveal_with_fuel(columns, 4);
}

} // verus!
