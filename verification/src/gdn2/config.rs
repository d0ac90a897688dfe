//! Hyperparameters of a GDN-2 block.
use vstd::prelude::*;

use crate::common::config::{
    block_fits, block_made, heads_or, make_block, BlockDraws, QkvProjectionConfig, Ratio,
};
use crate::common::gate::{ChannelForgetGate, ChannelForgetGateConfig, GateDraws};
use crate::common::linear::{fan_in_bound, spread, spread_bias, Linear};
use crate::common::muon::{columns, muon_columns, ProjSegment, ProjSpec};
use crate::common::norm::{QkActivation, QkNorm};
use crate::common::shape::WriteGate;
use crate::gdn2::gdn2::GatedDeltaNet2;
use crate::matrix::Matrix;
use crate::ring::Real;

verus! {

/// The hyperparameters of a [`GatedDeltaNet2`].
pub struct GatedDeltaNet2Config<T> {
    /// The model width.
    pub d_model: usize,
    /// The number of query and key heads.
    pub nheads: usize,
    /// The number of value heads, a multiple of the query heads; zero stands for as
    /// many.
    pub n_value_heads: usize,
    /// The key channels of each head.
    pub head_k_dim: usize,
    /// The value channels of each head, as a part of the key channels.
    pub expand_v: Ratio,
    /// The width of the bottlenecks; zero stands for the value channels of a head.
    pub bottleneck: usize,
    /// Whether an output gate is projected.
    pub use_gate: bool,
    /// Whether the erase gate reaches two instead of one.
    pub allow_neg_eigval: bool,
    /// Whether there is a short convolution.
    pub use_short_conv: bool,
    /// The window length.
    pub conv_kernel: usize,
    /// Whether the convolution carries a bias.
    pub conv_bias: bool,
    /// What the parameters of the forget gate are drawn with.
    pub forget: GateDraws<T>,
    /// What the log decay stays above.
    pub lower_bound: T,
    /// Whether the projections carry biases.
    pub has_proj_bias: bool,
}

/// What the parameters of a [`GatedDeltaNet2`] are made from.
pub struct ChannelDraws<T> {
    /// For the weights: draws from `[-1, 1)`.
    pub block: BlockDraws<T>,
    /// For the forget gate's projection, `[bottleneck, key_dim]`: draws from
    /// `[-1, 1)`.
    pub up: Matrix<T>,
    /// For the initial time steps of the forget gate: draws from `[0, 1)`.
    pub dt: Vec<T>,
    /// For the slopes of the forget gate: draws from `[0, 1)`.
    pub a: Vec<T>,
    /// For the output gate's projection, `[bottleneck, value_dim]`, and its bias:
    /// draws from `[-1, 1)`.
    pub out_gate: Option<(Matrix<T>, Vec<T>)>,
}

/// Whether `gate` is the forget gate that the configuration makes from the draws.
pub open spec fn channel_gate_made<T: Real>(
    forget: GateDraws<T>,
    lower_bound: T,
    draws: ChannelDraws<T>,
    gate: ChannelForgetGate<T>,
) -> bool {
    &&& gate.valid()
    &&& gate.lower_bound == lower_bound
    &&& gate.up.bias is None
    &&& gate.up.weight.has_shape(draws.up.rows() as int, draws.up.cols() as int)
    &&& spread(draws.up@, fan_in_bound(draws.up.rows()), gate.up.weight@)
    &&& forall|i: int|
        0 <= i < draws.dt@.len() ==> #[trigger] gate.dt_bias_i@[i] == forget.dt_bias(draws.dt@[i])
    &&& forall|h: int|
        0 <= h < draws.a@.len() ==> #[trigger] gate.a_log_h@[h] == forget.a_log(draws.a@[h])
}

impl<T: Real> GatedDeltaNet2Config<T> {
    /// The defaults for a model width.
    pub fn new(d_model: usize) -> (r: Self)
        ensures
            r.d_model == d_model,
            r.bottleneck == 0,
            r.nheads == 4,
            r.n_value_heads == 0,
            r.head_k_dim == 64,
            r.expand_v == (Ratio { num: 1, den: 1 }),
            r.use_gate,
            r.allow_neg_eigval == false,
            r.use_short_conv,
            r.conv_kernel == 4,
            !r.conv_bias,
            r.forget.a_init_range == (T::one(), T::count(16)),
            r.forget.dt_min == T::count(1000).recip(),
            r.forget.dt_max == T::count(10).recip(),
            r.forget.dt_init_floor == T::count(10000).recip(),
            !r.has_proj_bias,
            r.lower_bound == -T::count(5),
    {
        GatedDeltaNet2Config {
            d_model,
            bottleneck: 0,
            nheads: 4,
            n_value_heads: 0,
            head_k_dim: 64,
            expand_v: Ratio { num: 1, den: 1 },
            use_gate: true,
            allow_neg_eigval: false,
            use_short_conv: true,
            conv_kernel: 4,
            conv_bias: false,
            forget: GateDraws {
                a_init_range: (T::unit(), T::from_count(16)),
                dt_min: T::from_count(1000).reciprocal(),
                dt_max: T::from_count(10).reciprocal(),
                dt_init_floor: T::from_count(10000).reciprocal(),
            },
            lower_bound: T::from_count(5).negated(),
            has_proj_bias: false,
        }
    }

    /// The hyperparameters of the front end.
    pub open spec fn front(&self) -> QkvProjectionConfig {
        QkvProjectionConfig {
            d_model: self.d_model,
            nheads: self.nheads,
            head_k_dim: self.head_k_dim,
            head_v_dim: self.expand_v.of(self.head_k_dim as int) as usize,
            n_value_heads: self.n_value_heads,
            n_householder: 1,
            write_gate: WriteGate::Channel,
            has_gate: false,
            allow_neg_eigval: self.allow_neg_eigval,
            use_short_conv: self.use_short_conv,
            conv_kernel: self.conv_kernel,
            conv_bias: self.conv_bias,
            qk_activation: QkActivation::Silu,
            qk_norm: QkNorm::L2,
            extra_channels: self.extra() as usize,
            has_proj_bias: self.has_proj_bias,
        }
    }

    /// Whether the channels of a value are a whole number, and the widths of the
    /// projections can be counted.
    pub open spec fn sized(&self) -> bool {
        &&& self.expand_v.whole(self.head_k_dim as int)
        &&& self.nheads * self.head_k_dim <= usize::MAX
        &&& heads_or(self.n_value_heads, self.nheads) * self.expand_v.of(self.head_k_dim as int)
            <= usize::MAX
    }

    /// Whether a block can be made.
    pub open spec fn valid(&self) -> bool {
        &&& self.expand_v.whole(self.head_k_dim as int)
        &&& self.forget.valid()
        &&& self.rank() > 0
        &&& self.extra() <= usize::MAX
        &&& self.front().valid()
    }

    /// The number of value heads.
    pub fn n_value_heads_resolved(&self) -> (r: usize)
        ensures
            r == heads_or(self.n_value_heads, self.nheads),
    {
        if self.n_value_heads == 0 {
            self.nheads
        } else {
            self.n_value_heads
        }
    }

    /// The value channels of each head.
    pub fn head_v_dim(&self) -> (r: usize)
        requires
            self.expand_v.whole(self.head_k_dim as int),
        ensures
            r == self.expand_v.of(self.head_k_dim as int),
    {
        match self.expand_v.scaled(self.head_k_dim) {
            Some(n) => n,
            None => 0,
        }
    }

    /// The width of the bottlenecks, in specifications.
    pub open spec fn rank(&self) -> int {
        if self.bottleneck == 0 {
            self.expand_v.of(self.head_k_dim as int)
        } else {
            self.bottleneck as int
        }
    }

    /// The channels that enter the bottlenecks: one for the forget gate, and one for
    /// the output gate where there is one.
    pub open spec fn extra(&self) -> int {
        self.rank() + if self.use_gate {
            self.rank()
        } else {
            0
        }
    }

    /// The width of the bottlenecks.
    pub fn bottleneck_resolved(&self) -> (r: usize)
        requires
            self.bottleneck == 0 ==> self.expand_v.whole(self.head_k_dim as int),
        ensures
            r == self.rank(),
    {
        if self.bottleneck == 0 {
            self.head_v_dim()
        } else {
            self.bottleneck
        }
    }

    /// The key channels of all heads.
    pub fn key_dim(&self) -> (r: usize)
        requires
            self.nheads * self.head_k_dim <= usize::MAX,
        ensures
            r == self.nheads * self.head_k_dim,
    {
        self.nheads * self.head_k_dim
    }

    /// The value channels of all heads.
    pub fn value_dim(&self) -> (r: usize)
        requires
            self.expand_v.whole(self.head_k_dim as int),
            heads_or(self.n_value_heads, self.nheads) * self.expand_v.of(self.head_k_dim as int)
                <= usize::MAX,
        ensures
            r == heads_or(self.n_value_heads, self.nheads) * self.expand_v.of(
                self.head_k_dim as int,
            ),
    {
        self.n_value_heads_resolved() * self.head_v_dim()
    }

    /// The hyperparameters of the front end.
    pub fn front_config(&self) -> (r: QkvProjectionConfig)
        requires
            self.expand_v.whole(self.head_k_dim as int),
            self.extra() <= usize::MAX,
        ensures
            r == self.front(),
    {
        let rank: usize = self.bottleneck_resolved();
        let extra_channels: usize = rank + if self.use_gate {
            rank
        } else {
            0
        };
        QkvProjectionConfig {
            n_value_heads: self.n_value_heads,
            n_householder: 1,
            write_gate: WriteGate::Channel,
            has_gate: false,
            allow_neg_eigval: self.allow_neg_eigval,
            use_short_conv: self.use_short_conv,
            conv_kernel: self.conv_kernel,
            conv_bias: self.conv_bias,
            extra_channels: extra_channels,
            has_proj_bias: self.has_proj_bias,
            ..QkvProjectionConfig::new(
                self.d_model,
                self.nheads,
                self.head_k_dim,
                self.head_v_dim(),
            )
        }
    }

    /// Whether a block can be made.
    pub fn is_valid(&self) -> (r: bool)
        ensures
            r == self.valid(),
    {
        if self.expand_v.scaled(self.head_k_dim).is_none() {
            return false;
        }
        let rank: usize = self.bottleneck_resolved();
        rank > 0 && (!self.use_gate || rank <= usize::MAX / 2) && self.forget.is_valid()
            && self.front_config().is_valid()
    }

    /// Whether the draws have the shapes that the block calls for.
    pub open spec fn fits(&self, draws: ChannelDraws<T>) -> bool {
        let shape = self.front().shape();
        &&& block_fits(self.front(), draws.block)
        &&& draws.up.has_shape(self.rank(), shape.keys())
        &&& draws.dt@.len() == shape.keys()
        &&& draws.a@.len() == self.nheads
        &&& draws.out_gate is Some == self.use_gate
        &&& draws.out_gate matches Some(z) ==> {
            &&& z.0.has_shape(self.rank(), shape.values())
            &&& z.1@.len() == shape.values()
        }
    }

    /// The block whose parameters come from the given draws, with the given term under
    /// the root of its norm.
    pub fn init(&self, draws: ChannelDraws<T>, epsilon: T) -> (r: GatedDeltaNet2<T>)
        requires
            self.valid(),
            self.fits(draws),
        ensures
            r.valid(),
            block_made(self.front(), draws.block, epsilon, r.qkv, r.norm, r.out_proj),
            channel_gate_made(self.forget, self.lower_bound, draws, r.gate),
            match (r.out_gate, draws.out_gate) {
                (Some(up), Some(z)) => {
                    &&& up.weight.has_shape(z.0.rows() as int, z.0.cols() as int)
                    &&& spread(z.0@, fan_in_bound(z.0.rows()), up.weight@)
                    &&& spread_bias(Some(z.1), fan_in_bound(z.0.rows()), up.bias)
                },
                (None, None) => true,
                _ => false,
            },
    {
        proof {
            self.front().shape().lemma_parts();
        }
        let front = self.front_config();
        let (qkv, norm, out_proj) = make_block(&front, &draws.block, epsilon);
        let config = ChannelForgetGateConfig {
            bottleneck: self.bottleneck_resolved(),
            nheads: self.nheads,
            head_k_dim: self.head_k_dim,
            draws: GateDraws {
                a_init_range: self.forget.a_init_range,
                dt_min: self.forget.dt_min,
                dt_max: self.forget.dt_max,
                dt_init_floor: self.forget.dt_init_floor,
            },
            lower_bound: self.lower_bound,
        };
        let gate = config.init(&draws.up, &draws.dt, &draws.a);
        let out_gate = match draws.out_gate {
            Some((weight, bias)) => Some(Linear::from_draws(&weight, &Some(bias))),
            None => None,
        };
        GatedDeltaNet2 { qkv, gate, out_gate, norm, out_proj }
    }

    /// The segments of the fused weight, for an optimizer: every one is a matrix.
    pub open spec fn segments(&self) -> Seq<ProjSegment> {
        let (k, v) = (self.front().shape().keys(), self.front().shape().values());
        let mixed = seq![
            muon_columns("q", k),
            muon_columns("k", k),
            muon_columns("v", v),
            muon_columns("erase", k),
            muon_columns("write", v),
            muon_columns("dt_in", self.rank()),
        ];
        let gate = if self.use_gate {
            seq![muon_columns("gate_in", self.rank())]
        } else {
            seq![]
        };
        mixed + gate
    }

    /// The matrices of the block that an orthogonalising optimizer may own.
    pub fn muon_projections(&self) -> (r: Vec<ProjSpec>)
        requires
            self.sized(),
        ensures
            r@.len() == if self.use_gate {
                4
            } else {
                3int
            },
            r@[0].is_block("qkv.in_proj.weight", self.segments()),
            self.use_gate ==> r@[1].is_whole(
                "out_gate.weight",
                self.front().shape().values(),
            ),
            r@[r@.len() - 2].is_whole("gate.up.weight", self.front().shape().keys()),
            r@[r@.len() - 1].is_whole("out_proj.weight", self.d_model as int),
    {
        let rank: usize = self.bottleneck_resolved();
        let (keys, values) = (self.key_dim(), self.value_dim());
        let mut segments: Vec<ProjSegment> = Vec::new();
        segments.push(ProjSegment::muon("q", keys));
        segments.push(ProjSegment::muon("k", keys));
        segments.push(ProjSegment::muon("v", values));
        segments.push(ProjSegment::muon("erase", keys));
        segments.push(ProjSegment::muon("write", values));
        segments.push(ProjSegment::muon("dt_in", rank));
        if self.use_gate {
            segments.push(ProjSegment::muon("gate_in", rank));
        }
        assert(segments@ =~= self.segments());
        let mut r: Vec<ProjSpec> = Vec::new();
        r.push(ProjSpec::Block { weight: "qkv.in_proj.weight", segments });
        if self.use_gate {
            r.push(ProjSpec::Whole { weight: "out_gate.weight", width: values });
        }
        r.push(ProjSpec::Whole { weight: "gate.up.weight", width: keys });
        r.push(ProjSpec::Whole { weight: "out_proj.weight", width: self.d_model });
        r
    }
}

/// The optimizer's segments cover the fused weight of the block.
pub proof fn law_segments_cover_the_weight<T: Real>(config: GatedDeltaNet2Config<T>)
    requires
        config.sized(),
        config.extra() <= usize::MAX,
    ensures
        columns(config.segments(), config.segments().len() as int)
            == config.front().shape().channels(),
{
    let shape = config.front().shape();
    assert(shape.n_householder * (shape.keys() + shape.values()) == shape.keys() + shape.values()
        && shape.n_householder * shape.write_step() == shape.write_step()) by (nonlinear_arith)
        requires
            shape.n_householder == 1,
    ;
    reveal_with_fuel(columns, 9);
}

} // verus!
