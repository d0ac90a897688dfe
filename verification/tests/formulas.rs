//! The layers, one formula at a time.
use deltanet::common::activation::{
    clamp_to, elu_plus_one_of, relu_of, sigmoid_of, silu_of, softplus_of, twice_of,
};
use deltanet::common::cache::{DeltaCache, DeltaCacheConfig, DeltaCaches, DeltaCachesConfig};
use deltanet::common::config::{QkvDraws, QkvProjectionConfig, Ratio};
use deltanet::common::conv::{ConvActivation, ShortConv, ShortConvConfig};
use deltanet::common::gate::{ChannelForgetGate, ForgetGate, ForgetGateConfig, GateDraws};
use deltanet::common::linear::{bound_of, Linear};
use deltanet::common::muon::ProjSpec;
use deltanet::common::norm::{l2_normalize, sum_normalize, OutNorm, QkActivation, QkNorm};
use deltanet::common::shape::WriteGate;
use deltanet::delta_product::config::DeltaProductConfig;
use deltanet::deltanet::config::DeltaNetConfig;
use deltanet::dual::Dual;
use deltanet::gated_deltanet::cache::{GatedDeltaNetCacheConfig, GatedDeltaNetCaches, GatedDeltaNetCachesConfig};
use deltanet::gated_deltanet::config::GatedDeltaNet1Config;
use deltanet::gdn2::cache::{GatedDeltaNet2CacheConfig, GatedDeltaNet2CachesConfig};
use deltanet::gdn2::config::GatedDeltaNet2Config;
use deltanet::matrix::Matrix;
use deltanet::ring::{Real, Ring, Scalar};
use deltanet::tensor::{Tensor3, Tensor4};

/// A double-precision number.
#[derive(Clone, Copy, Debug, PartialEq)]
struct F(f64);

impl Ring for F {
    fn zero() -> Self {
        F(0.0)
    }
    fn one() -> Self {
        F(1.0)
    }
    fn spec_add(self, other: Self) -> Self {
        F(self.0 + other.0)
    }
    fn spec_mul(self, other: Self) -> Self {
        F(self.0 * other.0)
    }
    fn spec_neg(self) -> Self {
        F(-self.0)
    }
    fn spec_sub(self, other: Self) -> Self {
        F(self.0 - other.0)
    }
    fn expo(self) -> Self {
        F(self.0.exp())
    }
    fn add_commutes(_: Self, _: Self) {}
    fn add_associates(_: Self, _: Self, _: Self) {}
    fn add_zero(_: Self) {}
    fn add_neg(_: Self) {}
    fn sub_is_add_neg(_: Self, _: Self) {}
    fn mul_commutes(_: Self, _: Self) {}
    fn mul_associates(_: Self, _: Self, _: Self) {}
    fn mul_one(_: Self) {}
    fn mul_distributes(_: Self, _: Self, _: Self) {}
    fn expo_zero() {}
    fn expo_add(_: Self, _: Self) {}
}

impl Scalar for F {
    fn nil() -> Self {
        F(0.0)
    }
    fn unit() -> Self {
        F(1.0)
    }
    fn plus(self, other: Self) -> Self {
        F(self.0 + other.0)
    }
    fn minus(self, other: Self) -> Self {
        F(self.0 - other.0)
    }
    fn times(self, other: Self) -> Self {
        F(self.0 * other.0)
    }
    fn negated(self) -> Self {
        F(-self.0)
    }
    fn exponential(self) -> Self {
        F(self.0.exp())
    }
}

impl Real for F {
    fn count(n: usize) -> Self {
        F(n as f64)
    }
    fn recip(self) -> Self {
        F(1.0 / self.0)
    }
    fn root(self) -> Self {
        F(self.0.sqrt())
    }
    fn ln(self) -> Self {
        F(self.0.ln())
    }
    fn positive(self) -> bool {
        self.0 > 0.0
    }
    fn finite(self) -> bool {
        self.0.is_finite()
    }
    fn guard() -> Self {
        F(1e-12)
    }
    fn from_count(n: usize) -> Self {
        F(n as f64)
    }
    fn reciprocal(self) -> Self {
        F(1.0 / self.0)
    }
    fn square_root(self) -> Self {
        F(self.0.sqrt())
    }
    fn logarithm(self) -> Self {
        F(self.0.ln())
    }
    fn is_positive(self) -> bool {
        self.0 > 0.0
    }
    fn is_finite(self) -> bool {
        self.0.is_finite()
    }
    fn division_guard() -> Self {
        F(1e-12)
    }
}

fn close(x: F, y: f64) -> bool {
    (x.0 - y).abs() < 1e-9
}

fn matrix(rows: usize, cols: usize, data: &[f64]) -> Matrix<F> {
    Matrix::from_fn(rows, cols, |i, j| F(data[i * cols + j]))
}

fn sequence(batch: usize, steps: usize, width: usize, data: &[f64]) -> Tensor3<F> {
    Tensor3::from_fn(batch, steps, width, |a, t, c| F(data[(a * steps + t) * width + c]))
}

#[test]
fn activations() {
    let e = std::f64::consts::E;
    assert!(close(sigmoid_of(F(0.0)), 0.5) && close(sigmoid_of(F(1.0)), 1.0 / (1.0 + 1.0 / e)));
    assert!(close(silu_of(F(0.0)), 0.0) && close(silu_of(F(2.0)), 2.0 / (1.0 + (-2.0f64).exp())));
    assert!(close(relu_of(F(-3.0)), 0.0) && close(relu_of(F(3.0)), 3.0));
    assert!(close(elu_plus_one_of(F(-1.0)), 1.0 / e) && close(elu_plus_one_of(F(2.0)), 3.0));
    assert!(close(softplus_of(F(0.0)), 2.0f64.ln()));
    assert!(close(softplus_of(F(1000.0)), 1000.0) && close(softplus_of(F(-1000.0)), 0.0));
    assert!(close(clamp_to(F(-1.0), F(2.0), F(-5.0)), -1.0));
    assert!(close(clamp_to(F(-1.0), F(2.0), F(5.0)), 2.0) && close(clamp_to(F(-1.0), F(2.0), F(0.5)), 0.5));
    for x in [-5.0, 0.0, 1.5, 5.0] {
        assert!(close(clamp_to(F(2.0), F(-1.0), F(x)), 2.0));
    }
    assert!(close(twice_of(F(0.25)), 0.5));
    assert!(close(QkActivation::Identity.apply(F(-3.0)), -3.0) && close(QkActivation::Relu.apply(F(-3.0)), 0.0));
    assert!(close(QkActivation::Silu.apply(F(0.0)), 0.0) && close(QkActivation::EluPlusOne.apply(F(0.0)), 1.0));
    assert_eq!(QkActivation::default(), QkActivation::Identity);
    assert_eq!((QkNorm::default(), ConvActivation::default()), (QkNorm::L2, ConvActivation::Silu));
    assert_eq!(WriteGate::default(), WriteGate::Scalar);
}

#[test]
fn rates_of_the_elementary_functions() {
    let x = |re: f64| Dual { re: F(re), eps: F(1.0) };
    let is = |y: Dual<F>, re: f64, eps: f64| close(y.re, re) && close(y.eps, eps);
    assert!(is(x(3.0).times(x(5.0)), 15.0, 8.0) && is(x(3.0).minus(x(5.0)), -2.0, 0.0));
    assert!(is(x(0.0).exponential(), 1.0, 1.0) && is(x(2.0).reciprocal(), 0.5, -0.25));
    assert!(is(x(4.0).square_root(), 2.0, 0.25) && is(x(2.0).logarithm(), 2.0f64.ln(), 0.5));
    assert!(is(sigmoid_of(x(0.0)), 0.5, 0.25) && is(softplus_of(x(0.0)), 2.0f64.ln(), 0.5));
    assert!(is(Dual::from_count(7), 7.0, 0.0) && is(Dual::unit(), 1.0, 0.0));
    assert!(x(1.0).is_finite() && !Dual { re: F(1.0), eps: F(f64::NAN) }.is_finite());
}

#[test]
fn normalisations() {
    let x = || Tensor4::from_fn(1, 1, 1, 2, |_, _, _, c| F([3.0, 4.0][c]));
    let length = (25.0f64 + 1e-6).sqrt();
    let l2 = l2_normalize(&x());
    assert!(close(l2.at(0, 0, 0, 0), 3.0 / length) && close(l2.at(0, 0, 0, 1), 4.0 / length));
    let sum = sum_normalize(&x());
    assert!(close(sum.at(0, 0, 0, 0), 3.0 / 7.0) && close(sum.at(0, 0, 0, 1), 4.0 / 7.0));
    assert!(close(QkNorm::L2.apply(x()).at(0, 0, 0, 0), 3.0 / length));
    assert!(close(QkNorm::Sum.apply(x()).at(0, 0, 0, 1), 4.0 / 7.0));
    assert!(close(QkNorm::Identity.apply(x()).at(0, 0, 0, 1), 4.0));
}

#[test]
fn zeros_are_normalised_to_zeros() {
    for norm in [QkNorm::L2, QkNorm::Sum, QkNorm::Identity] {
        let y = norm.apply(Tensor4::from_fn(1, 1, 1, 3, |_, _, _, _| F(0.0)));
        assert!((0..3).all(|c| y.at(0, 0, 0, c) == F(0.0)));
    }
}

#[test]
fn the_output_norm_divides_by_the_root_mean_square() {
    let mut norm = OutNorm::init(2, F(0.5));
    assert_eq!(norm.gamma_v, vec![F(1.0), F(1.0)]);
    norm.gamma_v[1] = F(10.0);
    let y = Tensor4::from_fn(1, 1, 1, 2, |_, _, _, c| F([1.0, 2.0][c]));
    let rms = (2.5f64 + 0.5).sqrt();
    let plain = norm.forward(&y, &None);
    assert!(close(plain.at(0, 0, 0, 0), 1.0 / rms) && close(plain.at(0, 0, 0, 1), 20.0 / rms));
    let gate = Tensor4::from_fn(1, 1, 1, 2, |_, _, _, c| F([0.0, 3.0][c]));
    let gated = norm.forward(&y, &Some(gate));
    let silu = 3.0 / (1.0 + (-3.0f64).exp());
    assert!(close(gated.at(0, 0, 0, 0), 0.0) && close(gated.at(0, 0, 0, 1), 20.0 / rms * silu));
}

#[test]
fn linear_maps() {
    let linear = Linear { weight: matrix(2, 3, &[1.0, 2.0, 3.0, 4.0, 5.0, 6.0]), bias: Some(vec![F(0.5), F(0.0), F(-1.0)]) };
    let y = linear.forward(&sequence(1, 1, 2, &[10.0, 100.0]));
    assert_eq!((y.at(0, 0, 0), y.at(0, 0, 1), y.at(0, 0, 2)), (F(410.5), F(520.0), F(629.0)));
    assert!(close(bound_of(4), 0.5));
    let drawn = Linear::from_draws(&matrix(4, 1, &[1.0, -1.0, 0.5, 0.0]), &Some(vec![F(-0.5)]));
    assert!(close(drawn.weight.at(1, 0), -0.5) && close(drawn.weight.at(2, 0), 0.25));
    assert!(close(drawn.bias.unwrap()[0], -0.25));
}

#[test]
fn the_short_convolution_by_hand() {
    let conv = ShortConv { weight: matrix(1, 3, &[100.0, 10.0, 1.0]), bias: Some(vec![F(0.5)]), activation: ConvActivation::Identity };
    assert_eq!((conv.conv_dim(), conv.conv_kernel()), (1, 3));
    let (y, window) = conv.forward(&sequence(1, 4, 1, &[1.0, 2.0, 3.0, 4.0]), &conv.zero_window(1));
    for (t, want) in [1.5, 12.5, 123.5, 234.5].into_iter().enumerate() {
        assert!(close(y.at(0, t, 0), want));
    }
    for (j, want) in [2.0, 3.0, 4.0].into_iter().enumerate() {
        assert!(close(window.at(0, 0, j), want));
    }
    let (next, window) = conv.step(&matrix(1, 1, &[5.0]), &window);
    assert!(close(next.at(0, 0), 345.5) && close(window.at(0, 0, 0), 3.0) && close(window.at(0, 0, 2), 5.0));
    let silu = ShortConv { activation: ConvActivation::Silu, ..conv };
    let (y, _) = silu.step(&matrix(1, 1, &[0.5]), &silu.zero_window(1));
    assert!(close(y.at(0, 0), 1.0 / (1.0 + (-1.0f64).exp())));
}

#[test]
fn the_short_convolution_from_draws() {
    let config = ShortConvConfig::new(2);
    assert_eq!((config.conv_dim, config.conv_kernel), (2, 4));
    let conv = config.init(&matrix(2, 4, &[1.0, 0.0, 0.0, 0.0, 0.0, 0.0, 0.0, -1.0]), &None);
    assert!(close(conv.weight.at(0, 0), 0.5) && close(conv.weight.at(1, 3), -0.5) && conv.bias.is_none());
}

#[test]
fn the_forget_gate_by_hand() {
    let gate = ForgetGate { dt_bias_h: vec![F(0.0), F(1.0)], a_log_h: vec![F(0.0), F(3.0f64.ln())], dt_limit: (F(0.0), F(0.9)) };
    assert_eq!(gate.nheads(), 2);
    let g = gate.log_decay(&sequence(1, 1, 2, &[0.0, -1.0]));
    assert!(close(g.at(0, 0, 0), -(2.0f64.ln())) && close(g.at(0, 0, 1), -3.0 * 2.0f64.ln()));
    let held = gate.log_decay(&sequence(1, 1, 2, &[50.0, 50.0]));
    assert!(close(held.at(0, 0, 0), -0.9) && close(held.at(0, 0, 1), -2.7));
}

#[test]
fn the_forget_gate_from_draws() {
    let config = ForgetGateConfig::new(2);
    assert!(config.draws.is_valid());
    let gate = config.init(&vec![F(0.0), F(0.5)], &vec![F(0.25), F(0.5)]);
    assert!(close(gate.a_log_h[0], 4.0f64.ln()) && close(gate.a_log_h[1], 8.0f64.ln()));
    assert!(close(softplus_of(gate.dt_bias_h[0]), 0.001) && close(softplus_of(gate.dt_bias_h[1]), 0.01));
    let floored = ForgetGateConfig { draws: GateDraws { dt_init_floor: F(0.05), ..config.draws }, ..ForgetGateConfig::new(1) };
    let gate = floored.init(&vec![F(0.0)], &vec![F(0.5)]);
    assert!(close(softplus_of(gate.dt_bias_h[0]), 0.05));
}

/// Limits that are out of order hold the time step to the lower one.
#[test]
fn a_forget_gate_with_reversed_limits() {
    let gate = ForgetGate { dt_bias_h: vec![F(0.0)], a_log_h: vec![F(0.0)], dt_limit: (F(2.0), F(1.0)) };
    let g = gate.log_decay(&sequence(1, 3, 1, &[-5.0, 1.2, 50.0]));
    assert!((0..3).all(|t| close(g.at(0, t, 0), -2.0)));
}

#[test]
fn draws_spread_over_their_ranges() {
    let config = ForgetGateConfig::new(101);
    let draws = || (0..101).map(|i| F(i as f64 / 100.0)).collect::<Vec<F>>();
    let (slack, gate) = (1e-9, config.init(&draws(), &draws()));
    for h in 0..101 {
        let (dt, rate) = (softplus_of(gate.dt_bias_h[h]).0, gate.a_log_h[h].0.exp());
        assert!(0.001 - slack <= dt && dt <= 0.1 + slack, "{dt}");
        assert!(0.0 <= rate && rate <= 16.0 + slack, "{rate}");
    }
    let floored = ForgetGateConfig { draws: GateDraws { dt_init_floor: F(0.2), ..config.draws }, ..ForgetGateConfig::new(101) };
    let gate = floored.init(&draws(), &draws());
    assert!(gate.dt_bias_h.iter().all(|b| close(softplus_of(*b), 0.2)));
}

#[test]
fn ranges_that_cannot_be_drawn_from() {
    let draws = |lo: f64, hi: f64, min: f64, max: f64| GateDraws {
        a_init_range: (F(lo), F(hi)),
        dt_min: F(min),
        dt_max: F(max),
        dt_init_floor: F(1e-4),
    };
    assert!(draws(0.0, 16.0, 0.001, 0.1).is_valid());
    assert!(!draws(-1.0, 16.0, 0.001, 0.1).is_valid());
    assert!(!draws(16.0, 16.0, 0.001, 0.1).is_valid());
    assert!(!draws(0.0, 16.0, 0.0, 0.1).is_valid());
    assert!(!draws(0.0, 16.0, 0.1, 0.1).is_valid());
}

#[test]
fn the_channel_gate_by_hand() {
    let gate = ChannelForgetGate {
        up: Linear { weight: matrix(1, 4, &[0.0, 1.0, 0.0, 2.0]), bias: None },
        dt_bias_i: vec![F(0.0), F(0.0), F(1.0), F(0.0)],
        a_log_h: vec![F(0.0), F(2.0f64.ln())],
        lower_bound: F(-5.0),
        nheads: 2,
        head_k_dim: 2,
    };
    let g = gate.log_decay(&sequence(1, 1, 1, &[0.5]));
    let sigmoid = |x: f64| 1.0 / (1.0 + (-x).exp());
    assert_eq!(g.dims(), (1, 1, 2, 2));
    assert!(close(g.at(0, 0, 0, 0), -2.5) && close(g.at(0, 0, 0, 1), -5.0 * sigmoid(0.5)));
    assert!(close(g.at(0, 0, 1, 0), -5.0 * sigmoid(2.0)) && close(g.at(0, 0, 1, 1), -5.0 * sigmoid(2.0)));
}

#[test]
fn parts_of_a_width() {
    assert_eq!(Ratio { num: 1, den: 2 }.scaled(16), Some(8));
    assert_eq!(Ratio { num: 3, den: 2 }.scaled(16), Some(24));
    assert_eq!(Ratio { num: 1, den: 3 }.scaled(16), None);
    assert_eq!(Ratio { num: 1, den: 0 }.scaled(16), None);
    assert_eq!(Ratio { num: usize::MAX, den: 1 }.scaled(2), None);
}

#[test]
fn front_ends_that_cannot_be_made() {
    let base = QkvProjectionConfig::new(16, 2, 4, 8);
    assert!(base.is_valid());
    assert!(!QkvProjectionConfig { nheads: 0, ..base }.is_valid());
    assert!(!QkvProjectionConfig { head_k_dim: 0, ..base }.is_valid());
    assert!(!QkvProjectionConfig { head_v_dim: 0, ..base }.is_valid());
    assert!(!QkvProjectionConfig { n_householder: 0, ..base }.is_valid());
    assert!(!QkvProjectionConfig { n_value_heads: 3, ..base }.is_valid());
    assert!(QkvProjectionConfig { n_value_heads: 4, ..base }.is_valid());
    assert!(!QkvProjectionConfig { conv_kernel: 0, ..base }.is_valid());
    assert!(QkvProjectionConfig { conv_kernel: 0, use_short_conv: false, ..base }.is_valid());
    assert!(!QkvProjectionConfig { qk_norm: QkNorm::Sum, ..base }.is_valid());
    assert!(QkvProjectionConfig { qk_norm: QkNorm::Sum, qk_activation: QkActivation::Relu, ..base }.is_valid());
    assert!(!QkvProjectionConfig { extra_channels: usize::MAX, ..base }.is_valid());
}

#[test]
fn where_the_segments_stand() {
    let base = QkvProjectionConfig { n_value_heads: 4, n_householder: 2, has_gate: true, extra_channels: 3, ..QkvProjectionConfig::new(16, 2, 4, 8) };
    let shape = base.shape();
    assert_eq!(shape.segments(), vec![("q", 8), ("k", 16), ("v", 64), ("beta", 8), ("gate", 32), ("extra", 3)]);
    assert_eq!((shape.conv_dim(), shape.d_in_proj(), shape.heads_per_group()), (88, 131, 2));
    assert_eq!((shape.query_index(3, 1), shape.key_index(1, 3, 1), shape.value_index(1, 3, 7)), (5, 21, 87));
    assert_eq!((shape.beta_index(1, 3), shape.gate_index(3, 7), shape.extra_index(2)), (95, 127, 130));
    let channel = QkvProjectionConfig { write_gate: WriteGate::Channel, ..base }.shape();
    assert_eq!(channel.segments()[3..5], [("erase", 16), ("write", 64)]);
    assert_eq!((channel.erase_index(1, 2, 0), channel.write_index(0, 0, 0)), (88 + 12, 88 + 16));
    let fixed = QkvProjectionConfig { write_gate: WriteGate::Fixed, has_gate: false, extra_channels: 0, ..base }.shape();
    assert_eq!(fixed.segments(), vec![("q", 8), ("k", 16), ("v", 64)]);
    assert_eq!((fixed.write_gate_width(), fixed.d_in_proj()), (0, 88));
}

/// One token through a front end whose projection copies the token.
fn copied(write_gate: WriteGate, allow_neg_eigval: bool, data: &[f64]) -> (f64, f64) {
    let config = QkvProjectionConfig {
        write_gate,
        allow_neg_eigval,
        use_short_conv: false,
        qk_activation: QkActivation::Identity,
        qk_norm: QkNorm::Identity,
        ..QkvProjectionConfig::new(data.len(), 1, 1, 1)
    };
    assert!(config.is_valid());
    let width = data.len();
    let root = (width as f64).sqrt();
    let draws = QkvDraws {
        in_proj: Matrix::from_fn(width, width, |i, j| F(if i == j { root } else { 0.0 })),
        in_proj_bias: None,
        conv: None,
        conv_bias: None,
    };
    let front = config.init(&draws);
    let (step, window) = front.step(&matrix(1, width, data), &None);
    assert!(window.is_none());
    let qkv = step.into_sequence();
    assert!(close(qkv.q_bshk.at(0, 0, 0, 0), data[0]) && close(qkv.k_bShk.at(0, 0, 0, 0), data[1]));
    (qkv.erase_bShK.at(0, 0, 0, 0).0, qkv.write_bShV.at(0, 0, 0, 0).0)
}

#[test]
fn write_gates() {
    let sigmoid = 1.0 / (1.0 + (-1.0f64).exp());
    let near = |got: (f64, f64), want: (f64, f64)| (got.0 - want.0).abs() < 1e-9 && (got.1 - want.1).abs() < 1e-9;
    assert!(near(copied(WriteGate::Fixed, false, &[3.0, 4.0, 5.0]), (1.0, 1.0)));
    assert!(near(copied(WriteGate::Fixed, true, &[3.0, 4.0, 5.0]), (2.0, 1.0)));
    assert!(near(copied(WriteGate::Scalar, false, &[3.0, 4.0, 5.0, 1.0]), (sigmoid, sigmoid)));
    assert!(near(copied(WriteGate::Scalar, true, &[3.0, 4.0, 5.0, 1.0]), (2.0 * sigmoid, 2.0 * sigmoid)));
    assert!(near(copied(WriteGate::Channel, false, &[3.0, 4.0, 5.0, 0.0, 1.0]), (0.5, sigmoid)));
    assert!(near(copied(WriteGate::Channel, true, &[3.0, 4.0, 5.0, 0.0, 1.0]), (1.0, sigmoid)));
}

#[test]
fn write_gates_stay_in_range() {
    for x in [-20.0, -1.0, 0.0, 3.0, 20.0] {
        for (doubled, top) in [(false, 1.0), (true, 2.0)] {
            let (erase, write) = copied(WriteGate::Scalar, doubled, &[3.0, 4.0, 5.0, x]);
            assert!(0.0 < erase && erase < top && erase == write);
            let (erase, write) = copied(WriteGate::Channel, doubled, &[3.0, 4.0, 5.0, x, -x]);
            assert!(0.0 < erase && erase < top && 0.0 < write && write < 1.0);
        }
    }
}

#[test]
fn query_heads_serve_consecutive_value_heads() {
    let config = QkvProjectionConfig { n_value_heads: 4, use_short_conv: false, ..QkvProjectionConfig::new(2, 2, 1, 1) };
    let width = config.shape().d_in_proj();
    let draws = QkvDraws { in_proj: Matrix::zeros(2, width), in_proj_bias: None, conv: None, conv_bias: None };
    let front = config.init(&draws);
    let wide = front.expand_to_value_heads(&Tensor4::from_fn(1, 1, 2, 1, |_, _, h, _| F(h as f64 + 1.0)));
    let got: Vec<f64> = (0..4).map(|h| wide.at(0, 0, h, 0).0).collect();
    assert_eq!(got, vec![1.0, 1.0, 2.0, 2.0]);
}

#[test]
fn caches_go_out_and_come_back() {
    let cache = DeltaCacheConfig { batch: 2, nheads: 3, head_k_dim: 4, head_v_dim: 5, conv_dim: 6, conv_kernel: 7 };
    let caches: DeltaCaches<F> = DeltaCachesConfig { n_caches: 3, cache }.init();
    assert_eq!(caches.caches_len(), 3);
    let options = caches.into_options();
    assert!(options.len() == 3 && options.iter().all(|c| c.is_some()));
    let caches = DeltaCaches::from_options(options);
    assert_eq!(caches.caches_len(), 3);
    assert_eq!(caches.caches[2].state_bhkv.dims(), (2, 3, 4, 5));
    assert_eq!(caches.caches[2].conv_bwc.as_ref().unwrap().dims(), (2, 6, 7));
    assert!(caches.caches.iter().all(|c| c.sanity()));
    let bare: DeltaCache<F> = DeltaCacheConfig { conv_kernel: 0, ..cache }.init();
    assert!(bare.conv_bwc.is_none());
}

#[test]
fn a_cache_with_a_number_that_is_none_is_not_sane() {
    let state = |x: f64| Tensor4::from_fn(1, 1, 2, 2, move |_, _, d, c| F(if d + c == 2 { x } else { 1.0 }));
    let window = |x: f64| Tensor3::from_fn(1, 2, 2, move |_, c, j| F(if c + j == 2 { x } else { 1.0 }));
    assert!(DeltaCache::from_parts(Some(window(0.0)), state(0.0)).sanity());
    assert!(!DeltaCache::from_parts(None, state(f64::NAN)).sanity());
    assert!(!DeltaCache::from_parts(None, state(f64::INFINITY)).sanity());
    assert!(!DeltaCache::from_parts(Some(window(f64::NAN)), state(0.0)).sanity());
}

#[test]
fn the_other_caches() {
    let cache = GatedDeltaNetCacheConfig { batch: 1, nheads: 2, head_k_dim: 3, head_v_dim: 4, conv_dim: 5, conv_kernel: 6 };
    let caches: GatedDeltaNetCaches<F> = GatedDeltaNetCachesConfig { n_real_caches: 2, cache }.init();
    let caches = GatedDeltaNetCaches::from_options(caches.into_options());
    assert!(caches.caches_len() == 2 && caches.caches[1].sanity());
    assert_eq!(caches.caches[1].state_bhkv.dims(), (1, 2, 3, 4));
    let cache = GatedDeltaNet2CacheConfig { batch: 1, nheads: 2, head_k_dim: 3, head_v_dim: 4, conv_dim: 5, conv_kernel: 6 };
    let caches = GatedDeltaNet2CachesConfig { n_real_caches: 2, cache }.init::<F>();
    assert!(caches.caches_len() == 2 && caches.caches[1].sanity());
    assert_eq!(caches.caches[1].conv_bwc.as_ref().unwrap().dims(), (1, 5, 6));
}

/// The names, widths and owners of a fused weight's columns.
fn columns(spec: &ProjSpec) -> Vec<(&'static str, usize, bool)> {
    match spec {
        ProjSpec::Block { weight, segments } => {
            assert_eq!(*weight, "qkv.in_proj.weight");
            segments.iter().map(|s| (s.name, s.width, s.muon)).collect()
        }
        ProjSpec::Whole { .. } => panic!("not a fused weight"),
    }
}

fn is_whole(spec: &ProjSpec, name: &str, columns: usize) -> bool {
    matches!(spec, ProjSpec::Whole { weight, width } if *weight == name && *width == columns)
}

#[test]
fn which_weights_an_orthogonalising_optimizer_owns() {
    let delta = DeltaNetConfig { nheads: 2, use_gate: true, ..DeltaNetConfig::new(16) }.muon_projections();
    assert_eq!(columns(&delta[0]), vec![("q", 16, true), ("k", 16, true), ("v", 16, true), ("beta", 2, false), ("gate", 16, true)]);
    assert!(delta.len() == 2 && is_whole(&delta[1], "out_proj.weight", 16));
    let gdn2 = GatedDeltaNet2Config::<F> { nheads: 2, head_k_dim: 8, ..GatedDeltaNet2Config::new(16) }.muon_projections();
    let names: Vec<&str> = columns(&gdn2[0]).iter().map(|c| c.0).collect();
    assert_eq!(names, vec!["q", "k", "v", "erase", "write", "dt_in", "gate_in"]);
    assert!(is_whole(&gdn2[1], "out_gate.weight", 16) && is_whole(&gdn2[2], "gate.up.weight", 16));
    assert!(gdn2.len() == 4 && is_whole(&gdn2[3], "out_proj.weight", 16));
}

/// What an optimizer owns does not depend on the ranges that parameters are drawn from.
#[test]
fn columns_without_ranges_to_draw_from() {
    let forget = || GateDraws { a_init_range: (F(16.0), F(0.0)), dt_min: F(0.1), dt_max: F(0.001), dt_init_floor: F(0.0) };
    assert!(!forget().is_valid());
    let gated = GatedDeltaNet1Config::<F> { nheads: 2, head_k_dim: 4, forget: forget(), ..GatedDeltaNet1Config::new(16) };
    assert_eq!(
        columns(&gated.muon_projections()[0]),
        vec![("q", 8, true), ("k", 8, true), ("v", 16, true), ("beta", 2, false), ("gate", 16, true), ("dt", 2, false)]
    );
    let product = DeltaProductConfig::<F> { nheads: 2, head_k_dim: 4, forget: forget(), ..DeltaProductConfig::new(16) };
    assert_eq!(
        columns(&product.muon_projections()[0]),
        vec![
            ("q", 8, true), ("k", 8, true), ("k", 8, true), ("v", 8, true), ("v", 8, true),
            ("beta", 4, false), ("gate", 8, true), ("dt", 2, false),
        ]
    );
    let gdn2 = GatedDeltaNet2Config::<F> { nheads: 2, head_k_dim: 4, use_gate: false, forget: forget(), ..GatedDeltaNet2Config::new(16) };
    assert_eq!(
        columns(&gdn2.muon_projections()[0]),
        vec![("q", 8, true), ("k", 8, true), ("v", 8, true), ("erase", 8, true), ("write", 8, true), ("dt_in", 4, true)]
    );
}

#[test]
fn the_columns_cover_the_fused_weight() {
    let total = |specs: Vec<ProjSpec>| columns(&specs[0]).iter().map(|c| c.1).sum::<usize>();
    let delta = DeltaNetConfig { use_gate: true, ..DeltaNetConfig::new(16) };
    assert_eq!(total(delta.muon_projections()), delta.front_config().shape().d_in_proj());
    let gated = GatedDeltaNet1Config::<F>::new(16);
    assert_eq!(total(gated.muon_projections()), gated.front_config().shape().d_in_proj());
    let product = DeltaProductConfig::<F> { n_householder: 3, ..DeltaProductConfig::new(16) };
    assert_eq!(total(product.muon_projections()), product.front_config().shape().d_in_proj());
    let gdn2 = GatedDeltaNet2Config::<F>::new(16);
    assert_eq!(total(gdn2.muon_projections()), gdn2.front_config().shape().d_in_proj());
}

#[test]
fn blocks_that_cannot_be_made() {
    let delta = DeltaNetConfig::new(16);
    assert!(delta.is_valid());
    assert!(!DeltaNetConfig { nheads: 3, ..delta }.is_valid());
    assert!(!DeltaNetConfig { expand_v: Ratio { num: 1, den: 3 }, ..delta }.is_valid());
    assert!(!DeltaNetConfig { expand_k: Ratio { num: 0, den: 1 }, ..delta }.is_valid());
    assert!(GatedDeltaNet1Config::<F>::new(16).is_valid());
    assert!(!GatedDeltaNet1Config::<F> { n_value_heads: 3, nheads: 2, ..GatedDeltaNet1Config::new(16) }.is_valid());
    assert!(DeltaProductConfig::<F>::new(16).is_valid());
    assert!(!DeltaProductConfig::<F> { n_householder: 0, ..DeltaProductConfig::new(16) }.is_valid());
    assert!(GatedDeltaNet2Config::<F>::new(16).is_valid());
    assert!(!GatedDeltaNet2Config::<F> { bottleneck: usize::MAX, ..GatedDeltaNet2Config::new(16) }.is_valid());
    let wide = |use_gate: bool| GatedDeltaNet2Config::<F> { bottleneck: usize::MAX / 2 + 1, use_gate, ..GatedDeltaNet2Config::new(16) };
    assert!(wide(false).is_valid() && !wide(true).is_valid());
}
