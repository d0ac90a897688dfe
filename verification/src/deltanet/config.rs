//! Hyperparameters of a DeltaNet block.
use vstd::prelude::*;

use crate::common::config::{
    block_fits, block_made, make_block, BlockDraws, QkvProjectionConfig, Ratio,
};
use crate::common::muon::{columns, muon_columns, plain_columns, ProjSegment, ProjSpec};
use crate::common::norm::{QkActivation, QkNorm};
use crate::common::shape::WriteGate;
use crate::deltanet::deltanet::DeltaNet;
use crate::ring::Real;

verus! {

/// The hyperparameters of a [`DeltaNet`].
#[derive(Debug, Clone, Copy)]
pub struct DeltaNetConfig {
    /// The model width.
    pub d_model: usize,
    /// The number of heads; it divides the key and the value channels.
    pub nheads: usize,
    /// The key channels, as a part of the model width.
    pub expand_k: Ratio,
    /// The value channels, as a part of the model width.
    pub expand_v: Ratio,
    /// Whether the write strength is projected; if not, every write replaces.
    pub use_beta: bool,
    /// Whether an output gate is projected.
    pub use_gate: bool,
    /// Whether the write strength reaches two instead of one.
    pub allow_neg_eigval: bool,
    /// Whether there is a short convolution.
    pub use_short_conv: bool,
    /// The window length.
    pub conv_kernel: usize,
    /// Whether the convolution carries a bias.
    pub conv_bias: bool,
    /// The activation of queries and keys.
    pub qk_activation: QkActivation,
    /// The normalisation of queries and keys.
    pub qk_norm: QkNorm,
    /// Whether the projections carry biases.
    pub has_proj_bias: bool,
}

impl DeltaNetConfig {
    /// The defaults for a model width.
    pub fn new(d_model: usize) -> (r: Self)
        ensures
            r == Self::defaults(d_model),
    {
        DeltaNetConfig {
            d_model,
            nheads: 4,
            expand_k: Ratio { num: 1, den: 1 },
            expand_v: Ratio { num: 1, den: 1 },
            use_beta: true,
            use_gate: false,
            allow_neg_eigval: false,
            use_short_conv: true,
            conv_kernel: 4,
            conv_bias: false,
            qk_activation: QkActivation::Silu,
            qk_norm: QkNorm::L2,
            has_proj_bias: false,
        }
    }

    /// The defaults for a model width.
    pub open spec fn defaults(d_model: usize) -> Self {
        DeltaNetConfig {
            d_model,
            nheads: 4,
            expand_k: Ratio { num: 1, den: 1 },
            expand_v: Ratio { num: 1, den: 1 },
            use_beta: true,
            use_gate: false,
            allow_neg_eigval: false,
            use_short_conv: true,
            conv_kernel: 4,
            conv_bias: false,
            qk_activation: QkActivation::Silu,
            qk_norm: QkNorm::L2,
            has_proj_bias: false,
        }
    }

    /// Whether a part of the model width is a whole number of channels, and at least
    /// one.
    pub open spec fn scales(&self, ratio: Ratio) -> bool {
        ratio.whole(self.d_model as int) && ratio.of(self.d_model as int) >= 1
    }

    /// Whether both widths are whole numbers of channels and divide among the heads.
    pub open spec fn sized(&self) -> bool {
        &&& self.scales(self.expand_k)
        &&& self.scales(self.expand_v)
        &&& self.nheads > 0
        &&& self.expand_k.of(self.d_model as int) % self.nheads as int == 0
        &&& self.expand_v.of(self.d_model as int) % self.nheads as int == 0
    }

    /// The hyperparameters of the front end.
    pub open spec fn front(&self) -> QkvProjectionConfig {
        QkvProjectionConfig {
            d_model: self.d_model,
            nheads: self.nheads,
            head_k_dim: (self.expand_k.of(self.d_model as int) / self.nheads as int) as usize,
            head_v_dim: (self.expand_v.of(self.d_model as int) / self.nheads as int) as usize,
            n_value_heads: 0,
            n_householder: 1,
            write_gate: if self.use_beta {
                WriteGate::Scalar
            } else {
                WriteGate::Fixed
            },
            has_gate: self.use_gate,
            allow_neg_eigval: self.allow_neg_eigval,
            use_short_conv: self.use_short_conv,
            conv_kernel: self.conv_kernel,
            conv_bias: self.conv_bias,
            qk_activation: self.qk_activation,
            qk_norm: self.qk_norm,
            extra_channels: 0,
            has_proj_bias: self.has_proj_bias,
        }
    }

    /// Whether a block can be made.
    pub open spec fn valid(&self) -> bool {
        self.sized() && self.front().valid()
    }

    /// The key channels of all heads.
    pub fn key_dim(&self) -> (r: usize)
        requires
            self.scales(self.expand_k),
        ensures
            r == self.expand_k.of(self.d_model as int),
    {
        match self.expand_k.scaled(self.d_model) {
            Some(n) => n,
            None => 0,
        }
    }

    /// The value channels of all heads.
    pub fn value_dim(&self) -> (r: usize)
        requires
            self.scales(self.expand_v),
        ensures
            r == self.expand_v.of(self.d_model as int),
    {
        match self.expand_v.scaled(self.d_model) {
            Some(n) => n,
            None => 0,
        }
    }

    /// The key channels of each head.
    pub fn head_k_dim(&self) -> (r: usize)
        requires
            self.scales(self.expand_k),
            self.nheads > 0,
        ensures
            r == self.expand_k.of(self.d_model as int) / self.nheads as int,
    {
        self.key_dim() / self.nheads
    }

    /// The value channels of each head.
    pub fn head_v_dim(&self) -> (r: usize)
        requires
            self.scales(self.expand_v),
            self.nheads > 0,
        ensures
            r == self.expand_v.of(self.d_model as int) / self.nheads as int,
    {
        self.value_dim() / self.nheads
    }

    /// The hyperparameters of the front end.
    pub fn front_config(&self) -> (r: QkvProjectionConfig)
        requires
            self.sized(),
        ensures
            r == self.front(),
    {
        QkvProjectionConfig {
            write_gate: if self.use_beta {
                WriteGate::Scalar
            } else {
                WriteGate::Fixed
            },
            has_gate: self.use_gate,
            allow_neg_eigval: self.allow_neg_eigval,
            use_short_conv: self.use_short_conv,
            conv_kernel: self.conv_kernel,
            conv_bias: self.conv_bias,
            qk_activation: self.qk_activation,
            qk_norm: self.qk_norm,
            has_proj_bias: self.has_proj_bias,
            ..QkvProjectionConfig::new(
                self.d_model,
                self.nheads,
                self.head_k_dim(),
                self.head_v_dim(),
            )
        }
    }

    /// Whether a block can be made.
    pub fn is_valid(&self) -> (r: bool)
        ensures
            r == self.valid(),
    {
        let keys = self.expand_k.scaled(self.d_model);
        let values = self.expand_v.scaled(self.d_model);
        match (keys, values) {
            (Some(k), Some(v)) => {
                k >= 1 && v >= 1 && self.nheads > 0 && k % self.nheads == 0 && v % self.nheads == 0
                    && self.front_config().is_valid()
            },
            _ => false,
        }
    }

    /// The widths of the front end are those of the configuration.
    pub proof fn lemma_widths(&self)
        requires
            self.valid(),
        ensures
            self.front().shape().keys() == self.expand_k.of(self.d_model as int),
            self.front().shape().values() == self.expand_v.of(self.d_model as int),
    {
        let (k, v, n) = (
            self.expand_k.of(self.d_model as int),
            self.expand_v.of(self.d_model as int),
            self.nheads as int,
        );
        vstd::arithmetic::div_mod::lemma_fundamental_div_mod(k, n);
        vstd::arithmetic::div_mod::lemma_fundamental_div_mod(v, n);
        assert(0 <= k / n <= k && 0 <= v / n <= v) by (nonlinear_arith)
            requires
                n > 0,
                k >= 1,
                v >= 1,
        ;
    }

    /// The block whose weights come from the given draws, with the given term under
    /// the root of its norm.
    pub fn init<T: Real>(&self, draws: &BlockDraws<T>, epsilon: T) -> (r: DeltaNet<T>)
        requires
            self.valid(),
            block_fits(self.front(), *draws),
        ensures
            r.valid(),
            block_made(self.front(), *draws, epsilon, r.qkv, r.norm, r.out_proj),
    {
        let front = self.front_config();
        let (qkv, norm, out_proj) = make_block(&front, draws, epsilon);
        DeltaNet { qkv, norm, out_proj }
    }

    /// The segments of the fused weight, for an optimizer.
    pub open spec fn segments(&self) -> Seq<ProjSegment> {
        let (k, v) = (
            self.expand_k.of(self.d_model as int),
            self.expand_v.of(self.d_model as int),
        );
        let mixed = seq![muon_columns("q", k), muon_columns("k", k), muon_columns("v", v)];
        let beta = if self.use_beta {
            seq![plain_columns("beta", self.nheads as int)]
        } else {
            seq![]
        };
        let gate = if self.use_gate {
            seq![muon_columns("gate", v)]
        } else {
            seq![]
        };
        mixed + beta + gate
    }

    /// The matrices of the block that an orthogonalising optimizer may own.
    pub fn muon_projections(&self) -> (r: Vec<ProjSpec>)
        requires
            self.sized(),
        ensures
            r@.len() == 2,
            r@[0].is_block("qkv.in_proj.weight", self.segments()),
            r@[1].is_whole("out_proj.weight", self.d_model as int),
    {
        let mut segments: Vec<ProjSegment> = Vec::new();
        segments.push(ProjSegment::muon("q", self.key_dim()));
        segments.push(ProjSegment::muon("k", self.key_dim()));
        segments.push(ProjSegment::muon("v", self.value_dim()));
        if self.use_beta {
            segments.push(ProjSegment::adamw("beta", self.nheads));
        }
        if self.use_gate {
            segments.push(ProjSegment::muon("gate", self.value_dim()));
        }
        assert(segments@ =~= self.segments());
        let mut r: Vec<ProjSpec> = Vec::new();
        r.push(ProjSpec::Block { weight: "qkv.in_proj.weight", segments });
        r.push(ProjSpec::Whole { weight: "out_proj.weight", width: self.d_model });
        r
    }
}

/// The optimizer's segments cover the fused weight of the block.
pub proof fn law_segments_cover_the_weight(config: DeltaNetConfig)
    requires
        config.valid(),
    ensures
        columns(config.segments(), config.segments().len() as int)
            == config.front().shape().channels(),
{
    config.lemma_widths();
    let shape = config.front().shape();
    shape.lemma_parts();
    assert(shape.n_householder * (shape.keys() + shape.values()) == shape.keys() + shape.values()
        && shape.n_householder * shape.write_step() == shape.write_step()) by (nonlinear_arith)
        requires
            shape.n_householder == 1,
    ;
    reveal_with_fuel(columns, 7);
}

} // verus!
