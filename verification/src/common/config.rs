//! Hyperparameters of the front end, and what the blocks' configurations share.
use vstd::prelude::*;

use crate::common::conv::{ConvActivation, ShortConvConfig};
use crate::common::linear::{fan_in_bound, spread, spread_bias, Linear};
use crate::common::norm::{OutNorm, QkActivation, QkNorm};
use crate::common::qkv::QkvProjection;
use crate::common::shape::{QkvShape, WriteGate};
use crate::matrix::Matrix;
use crate::ring::Real;

verus! {

/// A ratio of two whole numbers.
#[derive(Debug, Clone, Copy, PartialEq, Eq, Structural)]
pub struct Ratio {
    /// What is divided.
    pub num: usize,
    /// What it is divided by.
    pub den: usize,
}

impl Ratio {
    /// Whether this part of `width` is a whole number of channels.
    pub open spec fn whole(self, width: int) -> bool {
        &&& self.den > 0
        &&& (width * self.num) % self.den as int == 0
        &&& self.of(width) <= usize::MAX
    }

    /// This part of `width`.
    pub open spec fn of(self, width: int) -> int {
        (width * self.num) / self.den as int
    }

    /// This part of `width`, if it is a whole number of channels.
    pub fn scaled(self, width: usize) -> (r: Option<usize>)
        ensures
            r is Some == self.whole(width as int),
            r matches Some(n) ==> n == self.of(width as int),
    {
        if self.den == 0 {
            return None;
        }
        let (a, b, d) = (width as u128, self.num as u128, self.den as u128);
        proof {
            assert(a * b <= u128::MAX) by (nonlinear_arith)
                requires
                    a <= 0xffff_ffff_ffff_ffff,
                    b <= 0xffff_ffff_ffff_ffff,
            ;
        }
        let product: u128 = a * b;
        let part: u128 = product / d;
        if product % d == 0 && part <= usize::MAX as u128 {
            Some(part as usize)
        } else {
            None
        }
    }
}

/// A head count, where zero stands for a given one.
pub open spec fn heads_or(n_value_heads: usize, nheads: usize) -> usize {
    if n_value_heads == 0 {
        nheads
    } else {
        n_value_heads
    }
}

/// The hyperparameters of a [`QkvProjection`].
#[derive(Debug, Clone, Copy)]
pub struct QkvProjectionConfig {
    /// The model width.
    pub d_model: usize,
    /// The number of query and key heads.
    pub nheads: usize,
    /// The query and key channels of each head.
    pub head_k_dim: usize,
    /// The value channels of each head.
    pub head_v_dim: usize,
    /// The number of value heads, a multiple of the query heads; zero stands for as
    /// many.
    pub n_value_heads: usize,
    /// The steps of the delta rule per token.
    pub n_householder: usize,
    /// How writes are gated.
    pub write_gate: WriteGate,
    /// Whether an output gate is projected.
    pub has_gate: bool,
    /// Whether the erase gate reaches two instead of one.
    pub allow_neg_eigval: bool,
    /// Whether there is a short convolution.
    pub use_short_conv: bool,
    /// The window length.
    pub conv_kernel: usize,
    /// Whether the convolution carries a bias.
    pub conv_bias: bool,
    /// The activation of queries and keys.
    pub qk_activation: QkActivation,
    /// The normalisation of queries and keys.
    pub qk_norm: QkNorm,
    /// The width of the trailing segment.
    pub extra_channels: usize,
    /// Whether the projection carries a bias.
    pub has_proj_bias: bool,
}

/// What the parameters of a [`QkvProjection`] are made from: draws from `[-1, 1)`.
pub struct QkvDraws<T> {
    /// For the projection, `[d_model, channels]`.
    pub in_proj: Matrix<T>,
    /// For the bias of the projection.
    pub in_proj_bias: Option<Vec<T>>,
    /// For the convolution, `[conv_dim, conv_kernel]`.
    pub conv: Option<Matrix<T>>,
    /// For the bias of the convolution.
    pub conv_bias: Option<Vec<T>>,
}

impl QkvShape {
    /// The channels of the whole projection, if they can be counted.
    pub fn checked_channels(self) -> (r: Option<usize>)
        requires
            self.sound(),
        ensures
            r is Some == (self.channels() <= usize::MAX),
            r matches Some(n) ==> n == self.channels(),
    {
        proof {
            self.lemma_parts();
        }
        let keys: usize = match self.nheads.checked_mul(self.head_k_dim) {
            Some(n) => n,
            None => return None,
        };
        let values: usize = match self.n_value_heads.checked_mul(self.head_v_dim) {
            Some(n) => n,
            None => return None,
        };
        let both: usize = match keys.checked_add(values) {
            Some(n) => n,
            None => {
                proof {
                    let (u, k, v) = (self.n_householder as int, self.keys(), self.values());
                    assert(k + v <= u * (k + v)) by (nonlinear_arith)
                        requires
                            u > 0,
                            k > 0,
                            v > 0,
                    ;
                }
                return None;
            },
        };
        let folded: usize = match self.n_householder.checked_mul(both) {
            Some(n) => n,
            None => return None,
        };
        let mixed: usize = match keys.checked_add(folded) {
            Some(n) => n,
            None => return None,
        };
        let step: usize = match self.write_gate {
            WriteGate::Fixed => 0,
            WriteGate::Scalar => self.n_value_heads,
            WriteGate::Channel => both,
        };
        let writes: usize = match self.n_householder.checked_mul(step) {
            Some(n) => n,
            None => return None,
        };
        let gates: usize = if self.has_gate {
            values
        } else {
            0
        };
        let head: usize = match mixed.checked_add(writes) {
            Some(n) => n,
            None => return None,
        };
        match head.checked_add(gates) {
            Some(n) => n.checked_add(self.extra_channels),
            None => None,
        }
    }
}

impl QkvProjectionConfig {
    /// The defaults for the given widths.
    pub fn new(d_model: usize, nheads: usize, head_k_dim: usize, head_v_dim: usize) -> (r: Self)
        ensures
            r == Self::defaults(d_model, nheads, head_k_dim, head_v_dim),
    {
        QkvProjectionConfig {
            d_model,
            nheads,
            head_k_dim,
            head_v_dim,
            n_value_heads: 0,
            n_householder: 1,
            write_gate: WriteGate::Scalar,
            has_gate: false,
            allow_neg_eigval: false,
            use_short_conv: true,
            conv_kernel: 4,
            conv_bias: false,
            qk_activation: QkActivation::Silu,
            qk_norm: QkNorm::L2,
            extra_channels: 0,
            has_proj_bias: false,
        }
    }

    /// The defaults for the given widths.
    pub open spec fn defaults(
        d_model: usize,
        nheads: usize,
        head_k_dim: usize,
        head_v_dim: usize,
    ) -> Self {
        QkvProjectionConfig {
            d_model,
            nheads,
            head_k_dim,
            head_v_dim,
            n_value_heads: 0,
            n_householder: 1,
            write_gate: WriteGate::Scalar,
            has_gate: false,
            allow_neg_eigval: false,
            use_short_conv: true,
            conv_kernel: 4,
            conv_bias: false,
            qk_activation: QkActivation::Silu,
            qk_norm: QkNorm::L2,
            extra_channels: 0,
            has_proj_bias: false,
        }
    }

    /// The lengths that the layout follows from, in specifications.
    pub open spec fn spec_shape(&self) -> QkvShape {
        QkvShape {
            nheads: self.nheads,
            n_value_heads: heads_or(self.n_value_heads, self.nheads),
            head_k_dim: self.head_k_dim,
            head_v_dim: self.head_v_dim,
            n_householder: self.n_householder,
            write_gate: self.write_gate,
            has_gate: self.has_gate,
            extra_channels: self.extra_channels,
        }
    }

    /// The lengths that the layout follows from.
    #[verifier::when_used_as_spec(spec_shape)]
    pub fn shape(&self) -> (r: QkvShape)
        ensures
            r == self.shape(),
    {
        QkvShape {
            nheads: self.nheads,
            n_value_heads: if self.n_value_heads == 0 {
                self.nheads
            } else {
                self.n_value_heads
            },
            head_k_dim: self.head_k_dim,
            head_v_dim: self.head_v_dim,
            n_householder: self.n_householder,
            write_gate: self.write_gate,
            has_gate: self.has_gate,
            extra_channels: self.extra_channels,
        }
    }

    /// Whether a projection can be made: at least one of everything, value heads
    /// that divide among the query heads, a window that is not empty, positive
    /// channels where they are divided by their sum, and a width that can be counted.
    pub open spec fn valid(&self) -> bool {
        &&& self.shape().sound()
        &&& self.shape().channels() <= usize::MAX
        &&& self.use_short_conv ==> self.conv_kernel > 0
        &&& self.qk_norm == QkNorm::Sum ==> self.qk_activation != QkActivation::Silu
    }

    /// Whether a projection can be made.
    pub fn is_valid(&self) -> (r: bool)
        ensures
            r == self.valid(),
    {
        let shape = self.shape();
        let whole: bool = shape.nheads > 0 && shape.n_value_heads > 0 && shape.n_value_heads
            % shape.nheads == 0 && shape.head_k_dim > 0 && shape.head_v_dim > 0
            && shape.n_householder > 0;
        if !whole {
            return false;
        }
        let kernel: bool = !self.use_short_conv || self.conv_kernel > 0;
        let positive: bool = self.qk_norm != QkNorm::Sum || self.qk_activation
            != QkActivation::Silu;
        shape.checked_channels().is_some() && kernel && positive
    }

    /// Whether the draws have the shapes that the projection calls for.
    pub open spec fn fits<T>(&self, draws: QkvDraws<T>) -> bool {
        let shape = self.shape();
        &&& draws.in_proj.has_shape(self.d_model as int, shape.channels())
        &&& draws.in_proj_bias is Some == self.has_proj_bias
        &&& draws.in_proj_bias matches Some(b) ==> b@.len() == shape.channels()
        &&& draws.conv is Some == self.use_short_conv
        &&& draws.conv matches Some(w) ==> w.has_shape(shape.mixed(), self.conv_kernel as int)
        &&& draws.conv_bias is Some == (self.use_short_conv && self.conv_bias)
        &&& draws.conv_bias matches Some(b) ==> b@.len() == shape.mixed()
    }

    /// The activation that the convolution takes over: only the one that queries,
    /// keys and values share.
    pub open spec fn folded_activation(&self) -> ConvActivation {
        if self.qk_activation == QkActivation::Silu {
            ConvActivation::Silu
        } else {
            ConvActivation::Identity
        }
    }

    /// Whether `p` is the projection that this configuration makes from the draws.
    pub open spec fn makes<T: Real>(&self, draws: QkvDraws<T>, p: QkvProjection<T>) -> bool {
        &&& p.valid()
        &&& p.shape() == self.shape()
        &&& p.qk_activation == self.qk_activation
        &&& p.qk_norm == self.qk_norm
        &&& p.allow_neg_eigval == self.allow_neg_eigval
        &&& p.in_proj.weight.rows() == self.d_model
        &&& spread(draws.in_proj@, fan_in_bound(self.d_model), p.in_proj.weight@)
        &&& spread_bias(draws.in_proj_bias, fan_in_bound(self.d_model), p.in_proj.bias)
        &&& match p.conv {
            Some(conv) => {
                &&& self.use_short_conv
                &&& conv.weight.cols() == self.conv_kernel
                &&& conv.activation == self.folded_activation()
                &&& spread(draws.conv->0@, fan_in_bound(self.conv_kernel), conv.weight@)
                &&& spread_bias(draws.conv_bias, fan_in_bound(self.conv_kernel), conv.bias)
            },
            None => !self.use_short_conv,
        }
    }

    /// The projection whose parameters come from the given draws.
    pub fn init<T: Real>(&self, draws: &QkvDraws<T>) -> (r: QkvProjection<T>)
        requires
            self.valid(),
            self.fits(*draws),
        ensures
            self.makes(*draws, r),
    {
        let shape = self.shape();
        let in_proj = Linear::from_draws(&draws.in_proj, &draws.in_proj_bias);
        let conv = match &draws.conv {
            Some(w) => {
                let activation = if self.qk_activation == QkActivation::Silu {
                    ConvActivation::Silu
                } else {
                    ConvActivation::Identity
                };
                let config = ShortConvConfig {
                    conv_dim: shape.conv_dim(),
                    conv_kernel: self.conv_kernel,
                    has_bias: self.conv_bias,
                    activation,
                };
                Some(config.init(w, &draws.conv_bias))
            },
            None => None,
        };
        QkvProjection {
            in_proj,
            conv,
            qk_activation: self.qk_activation,
            qk_norm: self.qk_norm,
            nheads: shape.nheads,
            n_value_heads: shape.n_value_heads,
            head_k_dim: shape.head_k_dim,
            head_v_dim: shape.head_v_dim,
            n_householder: shape.n_householder,
            write_gate: shape.write_gate,
            has_gate: shape.has_gate,
            allow_neg_eigval: self.allow_neg_eigval,
            extra_channels: shape.extra_channels,
        }
    }
}

/// What the weights of a block are made from: draws from `[-1, 1)`.
pub struct BlockDraws<T> {
    /// For the front end.
    pub qkv: QkvDraws<T>,
    /// For the output projection, `[value_dim, d_model]`.
    pub out_proj: Matrix<T>,
    /// For the bias of the output projection.
    pub out_bias: Option<Vec<T>>,
}

/// Whether the draws have the shapes that a block with this front end calls for.
pub open spec fn block_fits<T>(front: QkvProjectionConfig, draws: BlockDraws<T>) -> bool {
    &&& front.fits(draws.qkv)
    &&& draws.out_proj.has_shape(front.shape().values(), front.d_model as int)
    &&& draws.out_bias is Some == front.has_proj_bias
    &&& draws.out_bias matches Some(b) ==> b@.len() == front.d_model
}

/// Whether the front end, the norm and the output projection are those that the
/// configuration makes from the draws.
pub open spec fn block_made<T: Real>(
    front: QkvProjectionConfig,
    draws: BlockDraws<T>,
    epsilon: T,
    qkv: QkvProjection<T>,
    norm: OutNorm<T>,
    out_proj: Linear<T>,
) -> bool {
    &&& front.makes(draws.qkv, qkv)
    &&& norm.epsilon == epsilon
    &&& norm.gamma_v@.len() == front.head_v_dim
    &&& forall|e: int| 0 <= e < front.head_v_dim ==> #[trigger] norm.gamma_v@[e] == T::one()
    &&& out_proj.valid()
    &&& out_proj.weight.has_shape(front.shape().values(), front.d_model as int)
    &&& spread(
        draws.out_proj@,
        fan_in_bound(front.shape().values() as usize),
        out_proj.weight@,
    )
    &&& spread_bias(
        draws.out_bias,
        fan_in_bound(front.shape().values() as usize),
        out_proj.bias,
    )
}

/// The front end, the norm and the output projection from the given draws.
pub(crate) fn make_block<T: Real>(
    front: &QkvProjectionConfig,
    draws: &BlockDraws<T>,
    epsilon: T,
) -> (r: (QkvProjection<T>, OutNorm<T>, Linear<T>))
    requires
        front.valid(),
        block_fits(*front, *draws),
    ensures
        block_made(*front, *draws, epsilon, r.0, r.1, r.2),
{
    let qkv = front.init(&draws.qkv);
    let norm = OutNorm::init(front.head_v_dim, epsilon);
    let out_proj = Linear::from_draws(&draws.out_proj, &draws.out_bias);
    (qkv, norm, out_proj)
}

} // verus!
