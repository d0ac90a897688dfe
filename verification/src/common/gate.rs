//! The forget gates: one value per head, or one per key channel.
//!
//! ```text
//!   per head:     D = softplus(raw + dt_bias),  A = -exp(a_log),  g = D A
//!   per channel:  g = lower_bound sigmoid(exp(a_log) (up(raw) + dt_bias))
//! ```
//!
//! Both are logarithms of a decay. Storing `log |A|` and negating makes the decay
//! rate negative whatever the parameters are, so that neither gate can amplify the
//! state; a gate per channel is bounded below as well.
use vstd::prelude::*;

use crate::common::activation::{
    clamp_to, clamped, raised, sigmoid, sigmoid_of, softplus, softplus_of,
};
use crate::common::index::lemma_flat;
use crate::common::linear::{fan_in_bound, sequence_of, spread, Linear, Row};
use crate::matrix::Matrix;
use crate::ring::Real;
use crate::tensor::{Tensor3, Tensor4};

verus! {

/// The log decay of each head.
pub struct ForgetGate<T> {
    /// The bias of each head's `D`.
    pub dt_bias_h: Vec<T>,
    /// `log |A|` of each head.
    pub a_log_h: Vec<T>,
    /// The range that `D` is held to.
    pub dt_limit: (T, T),
}

impl<T: Real> ForgetGate<T> {
    /// Whether every head has both parameters.
    pub open spec fn valid(&self) -> bool {
        self.dt_bias_h@.len() == self.a_log_h@.len()
    }

    /// The log decay of head `h` for the projected value `raw`.
    pub open spec fn decay(&self, raw: T, h: int) -> T {
        clamped(self.dt_limit.0, self.dt_limit.1, softplus(raw + self.dt_bias_h@[h])) * -(
        self.a_log_h@[h].expo())
    }

    /// The number of heads.
    pub fn nheads(&self) -> (r: usize)
        ensures
            r == self.a_log_h@.len(),
    {
        self.a_log_h.len()
    }

    /// The log decay of every head at every step.
    pub fn log_decay(&self, dt_raw: &Tensor3<T>) -> (g: Tensor3<T>)
        requires
            self.valid(),
            dt_raw.dims().2 == self.a_log_h@.len(),
        ensures
            g.dims() == dt_raw.dims(),
            forall|a: int, t: int, h: int|
                0 <= a < dt_raw.dims().0 && 0 <= t < dt_raw.dims().1 && 0 <= h < dt_raw.dims().2
                    ==> #[trigger] g@(a, t, h) == self.decay(dt_raw@(a, t, h), h),
    {
        let f = |a: usize, t: usize, h: usize| -> (r: T)
            requires
                a < dt_raw.dims().0,
                t < dt_raw.dims().1,
                h < dt_raw.dims().2,
            ensures
                r == self.decay(dt_raw@(a as int, t as int, h as int), h as int),
            {
                let dt = softplus_of(dt_raw.at(a, t, h).plus(self.dt_bias_h[h]));
                let rate = self.a_log_h[h].exponential().negated();
                clamp_to(self.dt_limit.0, self.dt_limit.1, dt).times(rate)
            };
        Tensor3::from_fn(dt_raw.dims().0, dt_raw.dims().1, dt_raw.dims().2, f)
    }
}

/// The hyperparameters that the parameters of a forget gate are drawn with.
pub struct GateDraws<T> {
    /// The range of `|A|`.
    pub a_init_range: (T, T),
    /// The least initial `D`.
    pub dt_min: T,
    /// The greatest initial `D`.
    pub dt_max: T,
    /// What an initial `D` is raised to.
    pub dt_init_floor: T,
}

impl<T: Real> GateDraws<T> {
    /// Whether the ranges are what they should be: `0 <= lo < hi` and
    /// `0 < dt_min < dt_max`.
    pub open spec fn valid(&self) -> bool {
        &&& !(-self.a_init_range.0).positive()
        &&& (self.a_init_range.1 - self.a_init_range.0).positive()
        &&& self.dt_min.positive()
        &&& (self.dt_max - self.dt_min).positive()
    }

    /// The initial `D` for a draw from `[0, 1)`: log-uniform between `dt_min` and
    /// `dt_max`.
    pub open spec fn dt(&self, draw: T) -> T {
        let dt = (self.dt_min.ln() + draw * (self.dt_max.ln() - self.dt_min.ln())).expo();
        raised(self.dt_init_floor, dt)
    }

    /// The bias whose softplus is the initial `D` for a draw.
    pub open spec fn dt_bias(&self, draw: T) -> T {
        let dt = self.dt(draw);
        dt + (-((-dt).expo() - T::one())).ln()
    }

    /// `log |A|` for a draw from `[0, 1)`: uniform over the range of `|A|`.
    pub open spec fn a_log(&self, draw: T) -> T {
        (self.a_init_range.0 + draw * (self.a_init_range.1 - self.a_init_range.0)).ln()
    }

    /// Whether the ranges are what they should be.
    pub fn is_valid(&self) -> (r: bool)
        ensures
            r == self.valid(),
    {
        let (lo, hi) = self.a_init_range;
        !lo.negated().is_positive() && hi.minus(lo).is_positive() && self.dt_min.is_positive()
            && self.dt_max.minus(self.dt_min).is_positive()
    }

    /// The biases for a vector of draws.
    fn dt_biases(&self, draws: &Vec<T>) -> (r: Vec<T>)
        ensures
            r@.len() == draws@.len(),
            forall|i: int| 0 <= i < draws@.len() ==> #[trigger] r@[i] == self.dt_bias(draws@[i]),
    {
        let mut r: Vec<T> = Vec::with_capacity(draws.len());
        for i in 0..draws.len()
            invariant
                r@.len() == i,
                forall|j: int| 0 <= j < i ==> #[trigger] r@[j] == self.dt_bias(draws@[j]),
        {
            let (lo, hi) = (self.dt_min.logarithm(), self.dt_max.logarithm());
            let raw = lo.plus(draws[i].times(hi.minus(lo))).exponential();
            let dt = if self.dt_init_floor.minus(raw).is_positive() {
                self.dt_init_floor
            } else {
                raw
            };
            let tail = dt.negated().exponential().minus(T::unit()).negated();
            r.push(dt.plus(tail.logarithm()));
        }
        r
    }

    /// The values of `log |A|` for a vector of draws.
    fn a_logs(&self, draws: &Vec<T>) -> (r: Vec<T>)
        ensures
            r@.len() == draws@.len(),
            forall|i: int| 0 <= i < draws@.len() ==> #[trigger] r@[i] == self.a_log(draws@[i]),
    {
        let mut r: Vec<T> = Vec::with_capacity(draws.len());
        for i in 0..draws.len()
            invariant
                r@.len() == i,
                forall|j: int| 0 <= j < i ==> #[trigger] r@[j] == self.a_log(draws@[j]),
        {
            let (lo, hi) = self.a_init_range;
            r.push(lo.plus(draws[i].times(hi.minus(lo))).logarithm());
        }
        r
    }
}

/// The hyperparameters of a [`ForgetGate`].
pub struct ForgetGateConfig<T> {
    /// The number of heads.
    pub nheads: usize,
    /// What the parameters are drawn with.
    pub draws: GateDraws<T>,
    /// The range that `D` is held to.
    pub dt_limit: (T, T),
}

impl<T: Real> ForgetGateConfig<T> {
    /// The defaults: `|A|` in `[0, 16]`, `D` in `[1/1000, 1/10]`, raised to
    /// `1/10000` and held to `[0, 65504]`.
    pub fn new(nheads: usize) -> (r: Self)
        ensures
            r.nheads == nheads,
            r.draws.a_init_range == (T::zero(), T::count(16)),
            r.draws.dt_min == T::count(1000).recip(),
            r.draws.dt_max == T::count(10).recip(),
            r.draws.dt_init_floor == T::count(10000).recip(),
            r.dt_limit == (T::zero(), T::count(65504)),
    {
        ForgetGateConfig {
            nheads,
            draws: GateDraws {
                a_init_range: (T::nil(), T::from_count(16)),
                dt_min: T::from_count(1000).reciprocal(),
                dt_max: T::from_count(10).reciprocal(),
                dt_init_floor: T::from_count(10000).reciprocal(),
            },
            dt_limit: (T::nil(), T::from_count(65504)),
        }
    }

    /// A forget gate whose parameters come from the given draws from `[0, 1)`, one of
    /// each per head.
    pub fn init(&self, dt_draws: &Vec<T>, a_draws: &Vec<T>) -> (r: ForgetGate<T>)
        requires
            self.draws.valid(),
            dt_draws@.len() == self.nheads,
            a_draws@.len() == self.nheads,
        ensures
            r.valid(),
            r.a_log_h@.len() == self.nheads,
            r.dt_limit == self.dt_limit,
            forall|h: int|
                0 <= h < self.nheads ==> #[trigger] r.dt_bias_h@[h] == self.draws.dt_bias(
                    dt_draws@[h],
                ),
            forall|h: int|
                0 <= h < self.nheads ==> #[trigger] r.a_log_h@[h] == self.draws.a_log(a_draws@[h]),
    {
        ForgetGate {
            dt_bias_h: self.draws.dt_biases(dt_draws),
            a_log_h: self.draws.a_logs(a_draws),
            dt_limit: self.dt_limit,
        }
    }
}

/// The log decay of each key channel, from a low-rank projection.
pub struct ChannelForgetGate<T> {
    /// The second factor of the projection, `[bottleneck, nheads * head_k_dim]`.
    pub up: Linear<T>,
    /// The bias of each key channel.
    pub dt_bias_i: Vec<T>,
    /// The logarithm of each head's slope.
    pub a_log_h: Vec<T>,
    /// What the log decay stays above.
    pub lower_bound: T,
    /// The number of query and key heads.
    pub nheads: usize,
    /// The key channels of each head.
    pub head_k_dim: usize,
}

impl<T: Real> ChannelForgetGate<T> {
    /// Whether the parameters have the right lengths.
    pub open spec fn valid(&self) -> bool {
        &&& self.up.valid()
        &&& self.up.weight.cols() == self.nheads * self.head_k_dim
        &&& self.dt_bias_i@.len() == self.nheads * self.head_k_dim
        &&& self.a_log_h@.len() == self.nheads
    }

    /// The log decay of channel `d` of head `h` for the bottleneck row `raw`.
    pub open spec fn decay(&self, raw: Row<T>, h: int, d: int) -> T {
        let i = h * self.head_k_dim + d;
        self.lower_bound * sigmoid(
            self.a_log_h@[h].expo() * (self.up.image(raw)(i) + self.dt_bias_i@[i]),
        )
    }

    /// The log decay of every key channel at every step.
    pub fn log_decay(&self, raw: &Tensor3<T>) -> (g: Tensor4<T>)
        requires
            self.valid(),
            raw.dims().2 == self.up.weight.rows(),
        ensures
            g.has_shape(
                raw.dims().0 as int,
                raw.dims().1 as int,
                self.nheads as int,
                self.head_k_dim as int,
            ),
            forall|a: int, t: int, h: int, d: int|
                0 <= a < raw.dims().0 && 0 <= t < raw.dims().1 && 0 <= h < self.nheads && 0 <= d
                    < self.head_k_dim ==> #[trigger] g@(a, t, h, d) == self.decay(
                    |c: int| raw@(a, t, c),
                    h,
                    d,
                ),
    {
        let x = self.up.forward(raw);
        let f = |a: usize, t: usize, h: usize, d: usize| -> (r: T)
            requires
                a < raw.dims().0,
                t < raw.dims().1,
                h < self.nheads,
                d < self.head_k_dim,
            ensures
                r == self.decay(|c: int| raw@(a as int, t as int, c), h as int, d as int),
            {
                proof {
                    lemma_flat(h as int, self.nheads as int, d as int, self.head_k_dim as int);
                    let row = |c: int| raw@(a as int, t as int, c);
                    assert((|c: int| sequence_of(raw@, a as int)(t as int, c)) =~= row);
                }
                let i: usize = h * self.head_k_dim + d;
                let inner = x.at(a, t, i).plus(self.dt_bias_i[i]);
                let slope = self.a_log_h[h].exponential();
                self.lower_bound.times(sigmoid_of(slope.times(inner)))
            };
        Tensor4::from_fn(raw.dims().0, raw.dims().1, self.nheads, self.head_k_dim, f)
    }
}

/// The hyperparameters of a [`ChannelForgetGate`].
pub struct ChannelForgetGateConfig<T> {
    /// The width of the projection's first factor.
    pub bottleneck: usize,
    /// The number of query and key heads.
    pub nheads: usize,
    /// The key channels of each head.
    pub head_k_dim: usize,
    /// What the parameters are drawn with.
    pub draws: GateDraws<T>,
    /// What the log decay stays above.
    pub lower_bound: T,
}

impl<T: Real> ChannelForgetGateConfig<T> {
    /// A forget gate whose parameters come from the given draws: the projection from
    /// `[-1, 1)`, the others from `[0, 1)`.
    pub fn init(&self, up: &Matrix<T>, dt_draws: &Vec<T>, a_draws: &Vec<T>) -> (r:
        ChannelForgetGate<T>)
        requires
            self.draws.valid(),
            self.nheads * self.head_k_dim <= usize::MAX,
            up.has_shape(self.bottleneck as int, self.nheads * self.head_k_dim),
            dt_draws@.len() == self.nheads * self.head_k_dim,
            a_draws@.len() == self.nheads,
        ensures
            r.valid(),
            r.nheads == self.nheads,
            r.head_k_dim == self.head_k_dim,
            r.lower_bound == self.lower_bound,
            r.up.weight.rows() == self.bottleneck,
            r.up.bias is None,
            spread(up@, fan_in_bound(self.bottleneck), r.up.weight@),
            forall|i: int|
                0 <= i < dt_draws@.len() ==> #[trigger] r.dt_bias_i@[i] == self.draws.dt_bias(
                    dt_draws@[i],
                ),
            forall|h: int|
                0 <= h < self.nheads ==> #[trigger] r.a_log_h@[h] == self.draws.a_log(a_draws@[h]),
    {
        ChannelForgetGate {
            up: Linear::from_draws(up, &None),
            dt_bias_i: self.draws.dt_biases(dt_draws),
            a_log_h: self.draws.a_logs(a_draws),
            lower_bound: self.lower_bound,
            nheads: self.nheads,
            head_k_dim: self.head_k_dim,
        }
    }
}

} // verus!
