//! The blocks on floating-point numbers: a sequence in one call is its tokens one
//! after the other, on outputs, caches and gradients.
use deltanet::common::cache::DeltaCache;
use deltanet::common::config::{BlockDraws, QkvDraws, QkvProjectionConfig, Ratio};
use deltanet::common::gate::GateDraws;
use deltanet::common::norm::{QkActivation, QkNorm};
use deltanet::delta::path::DeltaPath;
use deltanet::delta_product::config::{DeltaProductConfig, ProductDraws};
use deltanet::delta_product::delta_product::DeltaProduct;
use deltanet::deltanet::config::DeltaNetConfig;
use deltanet::deltanet::deltanet::DeltaNet;
use deltanet::dual::Dual;
use deltanet::gated_deltanet::config::{GatedDeltaNet1Config, GatedDraws};
use deltanet::gated_deltanet::gated_deltanet_1::GatedDeltaNet1;
use deltanet::gdn2::cache::GatedDeltaNet2Cache;
use deltanet::gdn2::config::{ChannelDraws, GatedDeltaNet2Config};
use deltanet::gdn2::gdn2::GatedDeltaNet2;
use deltanet::matrix::Matrix;
use deltanet::ring::{Real, Ring, Scalar};
use deltanet::tensor::{Tensor3, Tensor4};

/// A double-precision number.
#[derive(Clone, Copy, Debug, PartialEq)]
struct F(f64);

impl Ring for F {
    fn zero() -> Self {
        F(0.0)
    }
    fn one() -> Self {
        F(1.0)
    }
    fn spec_add(self, other: Self) -> Self {
        F(self.0 + other.0)
    }
    fn spec_mul(self, other: Self) -> Self {
        F(self.0 * other.0)
    }
    fn spec_neg(self) -> Self {
        F(-self.0)
    }
    fn spec_sub(self, other: Self) -> Self {
        F(self.0 - other.0)
    }
    fn expo(self) -> Self {
        F(self.0.exp())
    }
    fn add_commutes(_: Self, _: Self) {}
    fn add_associates(_: Self, _: Self, _: Self) {}
    fn add_zero(_: Self) {}
    fn add_neg(_: Self) {}
    fn sub_is_add_neg(_: Self, _: Self) {}
    fn mul_commutes(_: Self, _: Self) {}
    fn mul_associates(_: Self, _: Self, _: Self) {}
    fn mul_one(_: Self) {}
    fn mul_distributes(_: Self, _: Self, _: Self) {}
    fn expo_zero() {}
    fn expo_add(_: Self, _: Self) {}
}

impl Scalar for F {
    fn nil() -> Self {
        F(0.0)
    }
    fn unit() -> Self {
        F(1.0)
    }
    fn plus(self, other: Self) -> Self {
        F(self.0 + other.0)
    }
    fn minus(self, other: Self) -> Self {
        F(self.0 - other.0)
    }
    fn times(self, other: Self) -> Self {
        F(self.0 * other.0)
    }
    fn negated(self) -> Self {
        F(-self.0)
    }
    fn exponential(self) -> Self {
        F(self.0.exp())
    }
}

impl Real for F {
    fn count(n: usize) -> Self {
        F(n as f64)
    }
    fn recip(self) -> Self {
        F(1.0 / self.0)
    }
    fn root(self) -> Self {
        F(self.0.sqrt())
    }
    fn ln(self) -> Self {
        F(self.0.ln())
    }
    fn positive(self) -> bool {
        self.0 > 0.0
    }
    fn finite(self) -> bool {
        self.0.is_finite()
    }
    fn guard() -> Self {
        F(1e-12)
    }
    fn from_count(n: usize) -> Self {
        F(n as f64)
    }
    fn reciprocal(self) -> Self {
        F(1.0 / self.0)
    }
    fn square_root(self) -> Self {
        F(self.0.sqrt())
    }
    fn logarithm(self) -> Self {
        F(self.0.ln())
    }
    fn is_positive(self) -> bool {
        self.0 > 0.0
    }
    fn is_finite(self) -> bool {
        self.0.is_finite()
    }
    fn division_guard() -> Self {
        F(1e-12)
    }
}

/// A number with its rate of change.
type D = Dual<F>;

/// A reproducible source of numbers.
struct Rng(u64);

impl Rng {
    fn uniform(&mut self, lo: f64, hi: f64) -> f64 {
        self.0 = self.0.wrapping_mul(6364136223846793005).wrapping_add(1442695040888963407);
        let unit = ((self.0 >> 11) as f64) / ((1u64 << 53) as f64);
        lo + unit * (hi - lo)
    }
    fn normal(&mut self, deviation: f64) -> f64 {
        let u = self.uniform(1e-12, 1.0);
        let v = self.uniform(0.0, 1.0);
        deviation * (-2.0 * u.ln()).sqrt() * (2.0 * std::f64::consts::PI * v).cos()
    }
    fn vec(&mut self, n: usize, mut draw: impl FnMut(&mut Rng) -> f64) -> Vec<f64> {
        (0..n).map(|_| draw(self)).collect()
    }
}

fn d(re: f64) -> D {
    Dual { re: F(re), eps: F(0.0) }
}

fn random_input(rng: &mut Rng, batch: usize, sequence: usize, d_model: usize) -> Tensor3<D> {
    let data = rng.vec(batch * sequence * d_model, |r| r.normal(1.0));
    Tensor3::from_fn(batch, sequence, d_model, move |a, t, c| d(data[(a * sequence + t) * d_model + c]))
}

fn signed(rng: &mut Rng, rows: usize, cols: usize) -> Matrix<D> {
    let data = rng.vec(rows * cols, |r| r.uniform(-1.0, 1.0));
    Matrix::from_fn(rows, cols, move |i, j| d(data[i * cols + j]))
}

fn signed_vec(rng: &mut Rng, n: usize) -> Vec<D> {
    (0..n).map(|_| d(rng.uniform(-1.0, 1.0))).collect()
}

fn unit_vec(rng: &mut Rng, n: usize) -> Vec<D> {
    (0..n).map(|_| d(rng.uniform(0.0, 1.0))).collect()
}

fn block_draws(rng: &mut Rng, front: &QkvProjectionConfig) -> BlockDraws<D> {
    let shape = front.shape();
    let channels = shape.checked_channels().unwrap();
    let values = shape.n_value_heads * shape.head_v_dim;
    let keys = shape.nheads * shape.head_k_dim;
    let mixed = keys + shape.n_householder * (keys + values);
    let some = |on: bool, rng: &mut Rng, n: usize| if on { Some(signed_vec(rng, n)) } else { None };
    BlockDraws {
        qkv: QkvDraws {
            in_proj: signed(rng, front.d_model, channels),
            in_proj_bias: some(front.has_proj_bias, rng, channels),
            conv: if front.use_short_conv { Some(signed(rng, mixed, front.conv_kernel)) } else { None },
            conv_bias: some(front.use_short_conv && front.conv_bias, rng, mixed),
        },
        out_proj: signed(rng, values, front.d_model),
        out_bias: some(front.has_proj_bias, rng, front.d_model),
    }
}

/// The window and the state that a call leaves behind.
struct Carried {
    conv: Option<Tensor3<D>>,
    state: Tensor4<D>,
}

/// A block of any family.
trait Block {
    fn forward(&self, input: &Tensor3<D>, cache: Option<Carried>, path: DeltaPath) -> (Tensor3<D>, Carried);
    fn step(&self, input: &Matrix<D>, cache: Option<Carried>) -> (Matrix<D>, Carried);
}

fn pack(cache: Option<Carried>) -> Option<DeltaCache<D>> {
    cache.map(|c| DeltaCache::from_parts(c.conv, c.state))
}

fn unpack(cache: DeltaCache<D>) -> Carried {
    assert!(cache.sanity());
    Carried { conv: cache.conv_bwc, state: cache.state_bhkv }
}

impl Block for DeltaNet<D> {
    fn forward(&self, input: &Tensor3<D>, cache: Option<Carried>, path: DeltaPath) -> (Tensor3<D>, Carried) {
        let (y, cache) = DeltaNet::forward(self, input, pack(cache), path);
        (y, unpack(cache))
    }
    fn step(&self, input: &Matrix<D>, cache: Option<Carried>) -> (Matrix<D>, Carried) {
        let (y, cache) = DeltaNet::step(self, input, pack(cache));
        (y, unpack(cache))
    }
}

impl Block for GatedDeltaNet1<D> {
    fn forward(&self, input: &Tensor3<D>, cache: Option<Carried>, path: DeltaPath) -> (Tensor3<D>, Carried) {
        let (y, cache) = GatedDeltaNet1::forward(self, input, pack(cache), path);
        (y, unpack(cache))
    }
    fn step(&self, input: &Matrix<D>, cache: Option<Carried>) -> (Matrix<D>, Carried) {
        let (y, cache) = GatedDeltaNet1::step(self, input, pack(cache));
        (y, unpack(cache))
    }
}

impl Block for DeltaProduct<D> {
    fn forward(&self, input: &Tensor3<D>, cache: Option<Carried>, path: DeltaPath) -> (Tensor3<D>, Carried) {
        let (y, cache) = DeltaProduct::forward(self, input, pack(cache), path);
        (y, unpack(cache))
    }
    fn step(&self, input: &Matrix<D>, cache: Option<Carried>) -> (Matrix<D>, Carried) {
        let (y, cache) = DeltaProduct::step(self, input, pack(cache));
        (y, unpack(cache))
    }
}

impl Block for GatedDeltaNet2<D> {
    fn forward(&self, input: &Tensor3<D>, cache: Option<Carried>, path: DeltaPath) -> (Tensor3<D>, Carried) {
        let cache = cache.map(|c| GatedDeltaNet2Cache::from_parts(c.conv, c.state));
        let (y, cache) = GatedDeltaNet2::forward(self, input, cache, path);
        (y, Carried { conv: cache.conv_bwc, state: cache.state_bhkv })
    }
    fn step(&self, input: &Matrix<D>, cache: Option<Carried>) -> (Matrix<D>, Carried) {
        let cache = cache.map(|c| GatedDeltaNet2Cache::from_parts(c.conv, c.state));
        let (y, cache) = GatedDeltaNet2::step(self, input, cache);
        (y, Carried { conv: cache.conv_bwc, state: cache.state_bhkv })
    }
}

/// Every token on its own, one after the other.
fn unroll_steps(block: &dyn Block, input: &Tensor3<D>) -> (Tensor3<D>, Carried) {
    let (batch, sequence, d_model) = input.dims();
    let mut cache = None;
    let mut outputs = Vec::new();
    for t in 0..sequence {
        let x = Matrix::from_fn(batch, d_model, |a, c| input.at(a, t, c));
        let (y, next) = block.step(&x, cache.take());
        cache = Some(next);
        outputs.push(y);
    }
    (Tensor3::from_fn(batch, sequence, d_model, |a, t, c| outputs[t].at(a, c)), cache.unwrap())
}

fn diff3(x: &Tensor3<D>, y: &Tensor3<D>) -> f64 {
    assert_eq!(x.dims(), y.dims());
    let (a, b, c) = x.dims();
    let mut worst: f64 = 0.0;
    for i in 0..a {
        for j in 0..b {
            for k in 0..c {
                let diff = (x.at(i, j, k).re.0 - y.at(i, j, k).re.0).abs();
                assert!(!diff.is_nan());
                worst = worst.max(diff);
            }
        }
    }
    worst
}

fn diff4(x: &Tensor4<D>, y: &Tensor4<D>) -> f64 {
    assert_eq!(x.dims(), y.dims());
    let (a, b, c, e) = x.dims();
    let mut worst: f64 = 0.0;
    for i in 0..a {
        for j in 0..b {
            for k in 0..c {
                for l in 0..e {
                    let diff = (x.at(i, j, k, l).re.0 - y.at(i, j, k, l).re.0).abs();
                    assert!(!diff.is_nan());
                    worst = worst.max(diff);
                }
            }
        }
    }
    worst
}

fn assert_caches_match(a: &Carried, b: &Carried, label: &str, tol: f64) {
    let diff = diff4(&a.state, &b.state);
    assert!(diff < tol, "{label}: state differs by {diff}");
    match (&a.conv, &b.conv) {
        (Some(a), Some(b)) => {
            let diff = diff3(a, b);
            assert!(diff < tol, "{label}: conv window differs by {diff}");
        }
        (None, None) => {}
        _ => panic!("{label}: one cache has a convolution window and the other does not"),
    }
}

fn check_forward_matches_step(rng: &mut Rng, block: &dyn Block, d_model: usize, sequence: usize, path: DeltaPath, tol: f64) {
    let input = random_input(rng, 2, sequence, d_model);
    let (y_forward, cache_forward) = block.forward(&input, None, path);
    let (y_stepped, cache_stepped) = unroll_steps(block, &input);
    let diff = diff3(&y_forward, &y_stepped);
    assert!(diff < tol, "outputs differ by {diff} (path {path:?})");
    assert_caches_match(&cache_forward, &cache_stepped, "forward vs step", tol);
}

fn narrow(x: &Tensor3<D>, from: usize, len: usize) -> Tensor3<D> {
    let (a, _, c) = x.dims();
    Tensor3::from_fn(a, len, c, |i, t, k| x.at(i, from + t, k))
}

fn check_split(rng: &mut Rng, block: &dyn Block, dims: (usize, usize, usize, usize), tol: f64) {
    let (batch, sequence, d_model, split) = dims;
    let input = random_input(rng, batch, sequence, d_model);
    let path = DeltaPath::chunk_len(4);
    let (y_whole, cache_whole) = block.forward(&input, None, path);
    let (y_head, cache_mid) = block.forward(&narrow(&input, 0, split), None, path);
    let (y_tail, cache_end) = block.forward(&narrow(&input, split, sequence - split), Some(cache_mid), path);
    assert!(diff3(&narrow(&y_whole, 0, split), &y_head) < tol, "head of the split differs");
    assert!(diff3(&narrow(&y_whole, split, sequence - split), &y_tail) < tol, "tail of the split differs");
    assert_caches_match(&cache_whole, &cache_end, "whole vs split", tol);
}

/// The derivative of `sum(y * head)` along the entry that carries a rate.
fn rate(y: &Tensor3<D>, head: &Tensor3<D>) -> f64 {
    let (a, b, c) = y.dims();
    let mut sum = 0.0;
    for i in 0..a {
        for j in 0..b {
            for k in 0..c {
                sum += y.at(i, j, k).eps.0 * head.at(i, j, k).re.0;
            }
        }
    }
    sum
}

/// Compares the derivative along every entry of a parameter: `edit` sets the rate of
/// the entry with the given number, or answers that there is none.
fn check_gradients<B: Block>(
    rng: &mut Rng,
    block: &mut B,
    dims: (usize, usize, usize),
    tol: f64,
    params: &[(&str, fn(&mut B, usize, f64) -> bool)],
) {
    let (batch, sequence, d_model) = dims;
    let input = random_input(rng, batch, sequence, d_model);
    let head = random_input(rng, batch, sequence, d_model);
    for (name, edit) in params {
        let mut entry = 0;
        let mut moved = false;
        while edit(block, entry, 1.0) {
            let forward = rate(&block.forward(&input, None, DeltaPath::chunk_len(4)).0, &head);
            let stepped = rate(&unroll_steps(block, &input).0, &head);
            let diff = (forward - stepped).abs();
            assert!(diff < tol, "grad of {name} differs by {diff} at entry {entry}");
            moved = moved || stepped != 0.0;
            edit(block, entry, 0.0);
            entry += 1;
        }
        assert!(entry > 0 && moved, "grad of {name} is empty or zero");
    }
}

fn edit_matrix(m: &mut Matrix<D>, entry: usize, eps: f64) -> bool {
    let (rows, cols) = (m.rows(), m.cols());
    if entry >= rows * cols {
        return false;
    }
    let moved = Matrix::from_fn(rows, cols, |i, j| {
        if i * cols + j == entry { Dual { re: m.at(i, j).re, eps: F(eps) } } else { m.at(i, j) }
    });
    *m = moved;
    true
}

fn edit_vec(v: &mut Vec<D>, entry: usize, eps: f64) -> bool {
    if entry >= v.len() {
        return false;
    }
    v[entry].eps = F(eps);
    true
}

// ---- DeltaNet ----

fn delta_config(d_model: usize) -> DeltaNetConfig {
    DeltaNetConfig { nheads: 2, ..DeltaNetConfig::new(d_model) }
}

fn delta_block(rng: &mut Rng, config: &DeltaNetConfig) -> DeltaNet<D> {
    assert!(config.is_valid());
    config.init(&block_draws(rng, &config.front_config()), d(1e-5))
}

fn check_delta(config: DeltaNetConfig, sequence: usize, path: DeltaPath, tol: f64) {
    let mut rng = Rng(101);
    let block = delta_block(&mut rng, &config);
    check_forward_matches_step(&mut rng, &block, config.d_model, sequence, path, tol);
}

#[test]
fn forward_matches_step_default() {
    for path in [DeltaPath::Recurrent, DeltaPath::chunk_len(4), DeltaPath::chunk()] {
        check_delta(delta_config(16), 10, path, 1e-4);
    }
}

#[test]
fn forward_matches_step_gated_output() {
    check_delta(DeltaNetConfig { use_gate: true, ..delta_config(16) }, 10, DeltaPath::chunk_len(4), 1e-4);
}

#[test]
fn forward_matches_step_without_a_convolution() {
    check_delta(DeltaNetConfig { use_short_conv: false, ..delta_config(16) }, 9, DeltaPath::chunk_len(4), 1e-4);
}

#[test]
fn forward_matches_step_with_negative_eigenvalues() {
    check_delta(DeltaNetConfig { allow_neg_eigval: true, ..delta_config(16) }, 10, DeltaPath::chunk_len(4), 1e-3);
}

#[test]
fn forward_matches_step_without_beta() {
    check_delta(DeltaNetConfig { use_beta: false, ..delta_config(16) }, 8, DeltaPath::chunk_len(4), 1e-4);
}

#[test]
fn forward_matches_step_with_expanded_values() {
    let config = DeltaNetConfig { expand_v: Ratio { num: 2, den: 1 }, use_gate: true, ..delta_config(16) };
    check_delta(config, 8, DeltaPath::chunk_len(4), 1e-4);
}

#[test]
fn forward_matches_step_with_alternative_qk_activations() {
    for (qk_activation, qk_norm) in [
        (QkActivation::Identity, QkNorm::L2),
        (QkActivation::Relu, QkNorm::Sum),
        (QkActivation::EluPlusOne, QkNorm::Sum),
        (QkActivation::Relu, QkNorm::Identity),
    ] {
        check_delta(DeltaNetConfig { qk_activation, qk_norm, ..delta_config(16) }, 8, DeltaPath::chunk_len(4), 1e-3);
    }
}

#[test]
fn forward_matches_step_across_conv_kernels() {
    for conv_kernel in [1, 2, 4, 8] {
        check_delta(DeltaNetConfig { conv_kernel, ..delta_config(16) }, 5, DeltaPath::chunk_len(4), 1e-4);
    }
}

#[test]
fn forward_matches_step_with_every_bias() {
    let config = DeltaNetConfig { conv_bias: true, has_proj_bias: true, use_gate: true, ..delta_config(16) };
    check_delta(config, 9, DeltaPath::chunk_len(4), 1e-4);
}

#[test]
fn split_forward_matches_a_single_forward() {
    let mut rng = Rng(103);
    let block = delta_block(&mut rng, &DeltaNetConfig { use_gate: true, ..delta_config(16) });
    check_split(&mut rng, &block, (2, 12, 16, 5), 1e-4);
}

#[test]
fn forward_and_step_agree_on_parameter_gradients() {
    let mut rng = Rng(107);
    let mut block = delta_block(&mut rng, &DeltaNetConfig { use_gate: true, ..delta_config(16) });
    let params: [(&str, fn(&mut DeltaNet<D>, usize, f64) -> bool); 3] = [
        ("in_proj", |b, i, e| edit_matrix(&mut b.qkv.in_proj.weight, i, e)),
        ("out_proj", |b, i, e| edit_matrix(&mut b.out_proj.weight, i, e)),
        ("conv", |b, i, e| edit_matrix(&mut b.qkv.conv.as_mut().unwrap().weight, i, e)),
    ];
    check_gradients(&mut rng, &mut block, (2, 8, 16), 1e-3, &params);
}

#[test]
fn output_shape_is_d_model() {
    let mut rng = Rng(109);
    let config = DeltaNetConfig {
        expand_k: Ratio { num: 1, den: 2 },
        expand_v: Ratio { num: 2, den: 1 },
        ..delta_config(16)
    };
    let block = delta_block(&mut rng, &config);
    let (y, cache) = DeltaNet::forward(&block, &random_input(&mut rng, 3, 7, 16), None, DeltaPath::chunk());
    assert_eq!((3, 7, 16), y.dims());
    assert_eq!((3, 2, 4, 16), cache.state_bhkv.dims());
    assert_eq!((2, 4, 16), (block.nheads(), block.head_k_dim(), block.head_v_dim()));
    assert_eq!((8, 32, 16), (block.key_dim(), block.value_dim(), block.d_model()));
}

// ---- Gated DeltaNet ----

fn gated_config(d_model: usize) -> GatedDeltaNet1Config<D> {
    GatedDeltaNet1Config {
        nheads: 2,
        head_k_dim: 8,
        expand_v: Ratio { num: 1, den: 1 },
        ..GatedDeltaNet1Config::new(d_model)
    }
}

fn gated_block(rng: &mut Rng, config: &GatedDeltaNet1Config<D>) -> GatedDeltaNet1<D> {
    assert!(config.is_valid());
    let heads = config.n_value_heads_resolved();
    let draws = GatedDraws {
        block: block_draws(rng, &config.front_config()),
        dt: unit_vec(rng, heads),
        a: unit_vec(rng, heads),
    };
    config.init(&draws, d(1e-5))
}

fn check_gated(config: GatedDeltaNet1Config<D>, sequence: usize, path: DeltaPath, tol: f64) {
    let mut rng = Rng(113);
    let block = gated_block(&mut rng, &config);
    check_forward_matches_step(&mut rng, &block, config.d_model, sequence, path, tol);
}

#[test]
fn tests_forward_matches_step_default() {
    for path in [DeltaPath::Recurrent, DeltaPath::chunk_len(4), DeltaPath::chunk()] {
        check_gated(gated_config(16), 10, path, 1e-4);
    }
}

#[test]
fn forward_matches_step_ungated_output() {
    check_gated(GatedDeltaNet1Config { use_gate: false, ..gated_config(16) }, 10, DeltaPath::chunk_len(4), 1e-4);
}

#[test]
fn tests_forward_matches_step_with_expanded_values() {
    let config = GatedDeltaNet1Config { expand_v: Ratio { num: 2, den: 1 }, ..gated_config(16) };
    check_gated(config, 9, DeltaPath::chunk_len(4), 1e-4);
}

#[test]
fn forward_matches_step_with_grouped_values() {
    check_gated(GatedDeltaNet1Config { n_value_heads: 4, ..gated_config(16) }, 9, DeltaPath::chunk_len(4), 1e-4);
}

#[test]
fn tests_forward_matches_step_without_a_convolution() {
    check_gated(GatedDeltaNet1Config { use_short_conv: false, ..gated_config(16) }, 8, DeltaPath::chunk_len(4), 1e-4);
}

#[test]
fn tests_forward_matches_step_with_negative_eigenvalues() {
    check_gated(GatedDeltaNet1Config { allow_neg_eigval: true, ..gated_config(16) }, 10, DeltaPath::chunk_len(4), 1e-3);
}

fn fast(forget: GateDraws<D>) -> GateDraws<D> {
    GateDraws { a_init_range: (d(8.0), d(16.0)), dt_min: d(0.05), dt_max: d(0.5), ..forget }
}

#[test]
fn forward_matches_step_under_a_fast_decay() {
    let mut config = gated_config(16);
    config.forget = fast(config.forget);
    check_gated(config, 12, DeltaPath::chunk_len(4), 1e-3);
}

#[test]
fn tests_split_forward_matches_a_single_forward() {
    let mut rng = Rng(127);
    let block = gated_block(&mut rng, &gated_config(16));
    check_split(&mut rng, &block, (2, 12, 16, 5), 1e-4);
}

#[test]
fn tests_forward_and_step_agree_on_parameter_gradients() {
    let mut rng = Rng(131);
    let mut block = gated_block(&mut rng, &gated_config(16));
    let params: [(&str, fn(&mut GatedDeltaNet1<D>, usize, f64) -> bool); 4] = [
        ("in_proj", |b, i, e| edit_matrix(&mut b.qkv.in_proj.weight, i, e)),
        ("out_proj", |b, i, e| edit_matrix(&mut b.out_proj.weight, i, e)),
        ("a_log", |b, i, e| edit_vec(&mut b.gate.a_log_h, i, e)),
        ("dt_bias", |b, i, e| edit_vec(&mut b.gate.dt_bias_h, i, e)),
    ];
    check_gradients(&mut rng, &mut block, (2, 8, 16), 1e-3, &params);
}

#[test]
fn the_forget_gate_never_amplifies() {
    let mut rng = Rng(137);
    let mut config = gated_config(16);
    config.forget = GateDraws { a_init_range: (d(0.0), d(16.0)), ..config.forget };
    let block = gated_block(&mut rng, &config);
    let data = rng.vec(4 * 32 * block.nheads(), |r| r.normal(10.0));
    let heads = block.nheads();
    let raw = Tensor3::from_fn(4, 32, heads, |a, t, h| d(data[(a * 32 + t) * heads + h]));
    let g = block.gate.log_decay(&raw);
    for a in 0..4 {
        for t in 0..32 {
            for h in 0..heads {
                assert!(g.at(a, t, h).re.0 <= 0.0, "log decay must be non-positive");
            }
        }
    }
}

#[test]
fn tests_output_shape_is_d_model() {
    let mut rng = Rng(139);
    let config = GatedDeltaNet1Config { expand_v: Ratio { num: 2, den: 1 }, n_value_heads: 4, ..gated_config(16) };
    let block = gated_block(&mut rng, &config);
    let (y, cache) = GatedDeltaNet1::forward(&block, &random_input(&mut rng, 3, 7, 16), None, DeltaPath::chunk());
    assert_eq!((3, 7, 16), y.dims());
    assert_eq!((3, 4, 8, 16), cache.state_bhkv.dims());
}

// ---- DeltaProduct ----

fn product_config(d_model: usize, n_householder: usize) -> DeltaProductConfig<D> {
    DeltaProductConfig {
        n_householder,
        nheads: 2,
        head_k_dim: 8,
        expand_v: Ratio { num: 1, den: 1 },
        ..DeltaProductConfig::new(d_model)
    }
}

fn product_block(rng: &mut Rng, config: &DeltaProductConfig<D>) -> DeltaProduct<D> {
    assert!(config.is_valid());
    let heads = config.n_value_heads_resolved();
    let draws = ProductDraws {
        block: block_draws(rng, &config.front_config()),
        dt: unit_vec(rng, heads),
        a: unit_vec(rng, heads),
    };
    config.init(&draws, d(1e-5))
}

fn check_product(config: DeltaProductConfig<D>, sequence: usize, path: DeltaPath, tol: f64) {
    let mut rng = Rng(149);
    let block = product_block(&mut rng, &config);
    check_forward_matches_step(&mut rng, &block, config.d_model, sequence, path, tol);
}

#[test]
fn forward_matches_step_across_householder_counts_and_chunk_lengths() {
    for n_householder in [1, 2, 3] {
        for chunk_len in [2, 3, 4, 8] {
            check_product(product_config(16, n_householder), 7, DeltaPath::chunk_len(chunk_len), 2e-3);
        }
        check_product(product_config(16, n_householder), 7, DeltaPath::Recurrent, 2e-3);
    }
}

#[test]
fn forward_matches_step_without_a_forget_gate() {
    let config = DeltaProductConfig { use_forget_gate: false, ..product_config(16, 2) };
    check_product(config, 8, DeltaPath::chunk_len(4), 2e-3);
}

#[test]
fn forward_matches_step_without_an_output_gate() {
    check_product(DeltaProductConfig { use_gate: false, ..product_config(16, 2) }, 8, DeltaPath::chunk_len(4), 2e-3);
}

#[test]
fn forward_matches_step_with_grouped_values_and_expansion() {
    let config = DeltaProductConfig { n_value_heads: 4, expand_v: Ratio { num: 2, den: 1 }, ..product_config(16, 2) };
    check_product(config, 6, DeltaPath::chunk_len(4), 2e-3);
}

#[test]
fn product_forward_matches_step_without_a_convolution() {
    let config = DeltaProductConfig { use_short_conv: false, ..product_config(16, 3) };
    check_product(config, 6, DeltaPath::chunk_len(4), 2e-3);
}

#[test]
fn product_split_forward_matches_a_single_forward() {
    let mut rng = Rng(151);
    let block = product_block(&mut rng, &product_config(16, 3));
    check_split(&mut rng, &block, (2, 10, 16, 4), 2e-3);
}

#[test]
fn product_forward_and_step_agree_on_parameter_gradients() {
    let mut rng = Rng(157);
    let mut block = product_block(&mut rng, &product_config(16, 2));
    let params: [(&str, fn(&mut DeltaProduct<D>, usize, f64) -> bool); 3] = [
        ("in_proj", |b, i, e| edit_matrix(&mut b.qkv.in_proj.weight, i, e)),
        ("out_proj", |b, i, e| edit_matrix(&mut b.out_proj.weight, i, e)),
        ("a_log", |b, i, e| edit_vec(&mut b.gate.as_mut().unwrap().a_log_h, i, e)),
    ];
    check_gradients(&mut rng, &mut block, (2, 6, 16), 2e-3, &params);
}

#[test]
fn one_householder_is_gated_deltanet() {
    let config = || GatedDeltaNet1Config { use_gate: true, allow_neg_eigval: true, ..gated_config(16) };
    let gated = gated_block(&mut Rng(163), &config());
    let GatedDeltaNet1 { qkv, gate, norm, out_proj } = gated_block(&mut Rng(163), &config());
    let product = DeltaProduct { qkv, gate: Some(gate), norm, out_proj };
    assert_eq!(1, product.n_householder());
    let input = random_input(&mut Rng(167), 2, 9, 16);
    let path = DeltaPath::chunk_len(4);
    let (y_gated, cache_gated) = GatedDeltaNet1::forward(&gated, &input, None, path);
    let (y_product, cache_product) = DeltaProduct::forward(&product, &input, None, path);
    let (y_diff, state_diff) =
        (diff3(&y_gated, &y_product), diff4(&cache_gated.state_bhkv, &cache_product.state_bhkv));
    assert!(y_diff < 1e-6, "outputs differ by {y_diff}");
    assert!(state_diff < 1e-6, "states differ by {state_diff}");
}

#[test]
fn output_shape_is_d_model_and_the_state_does_not_grow_with_u() {
    for n_householder in [1, 2, 4] {
        let mut rng = Rng(173);
        let block = product_block(&mut rng, &product_config(16, n_householder));
        let (y, cache) = DeltaProduct::forward(&block, &random_input(&mut rng, 3, 5, 16), None, DeltaPath::chunk());
        assert_eq!((3, 5, 16), y.dims());
        assert_eq!((3, 2, 8, 8), cache.state_bhkv.dims());
    }
}

// ---- GDN-2 ----

fn gdn2_config(d_model: usize) -> GatedDeltaNet2Config<D> {
    GatedDeltaNet2Config {
        nheads: 2,
        head_k_dim: 8,
        expand_v: Ratio { num: 1, den: 1 },
        ..GatedDeltaNet2Config::new(d_model)
    }
}

fn gdn2_block(rng: &mut Rng, config: &GatedDeltaNet2Config<D>) -> GatedDeltaNet2<D> {
    assert!(config.is_valid());
    let (rank, keys, values) = (config.bottleneck_resolved(), config.key_dim(), config.value_dim());
    let draws = ChannelDraws {
        block: block_draws(rng, &config.front_config()),
        up: signed(rng, rank, keys),
        dt: unit_vec(rng, keys),
        a: unit_vec(rng, config.nheads),
        out_gate: if config.use_gate { Some((signed(rng, rank, values), signed_vec(rng, values))) } else { None },
    };
    config.init(draws, d(1e-5))
}

fn check_gdn2(config: GatedDeltaNet2Config<D>, sequence: usize, path: DeltaPath, tol: f64) {
    let mut rng = Rng(179);
    let block = gdn2_block(&mut rng, &config);
    check_forward_matches_step(&mut rng, &block, config.d_model, sequence, path, tol);
}

#[test]
fn gdn2_forward_matches_step_default() {
    for path in [DeltaPath::Recurrent, DeltaPath::chunk_len(4), DeltaPath::chunk()] {
        check_gdn2(gdn2_config(16), 10, path, 1e-4);
    }
}

#[test]
fn tests_forward_matches_step_ungated_output() {
    check_gdn2(GatedDeltaNet2Config { use_gate: false, ..gdn2_config(16) }, 10, DeltaPath::chunk_len(4), 1e-4);
}

#[test]
fn gdn2_forward_matches_step_with_expanded_values() {
    let config = GatedDeltaNet2Config { expand_v: Ratio { num: 2, den: 1 }, ..gdn2_config(16) };
    check_gdn2(config, 9, DeltaPath::chunk_len(4), 1e-4);
}

#[test]
fn tests_forward_matches_step_with_grouped_values() {
    check_gdn2(GatedDeltaNet2Config { n_value_heads: 4, ..gdn2_config(16) }, 9, DeltaPath::chunk_len(4), 1e-4);
}

#[test]
fn gdn2_forward_matches_step_without_a_convolution() {
    check_gdn2(GatedDeltaNet2Config { use_short_conv: false, ..gdn2_config(16) }, 8, DeltaPath::chunk_len(4), 1e-4);
}

#[test]
fn gdn2_forward_matches_step_with_negative_eigenvalues() {
    check_gdn2(GatedDeltaNet2Config { allow_neg_eigval: true, ..gdn2_config(16) }, 10, DeltaPath::chunk_len(4), 1e-3);
}

#[test]
fn tests_forward_matches_step_under_a_fast_decay() {
    let mut config = gdn2_config(16);
    config.forget = fast(config.forget);
    config.lower_bound = d(-5.0);
    check_gdn2(config, 12, DeltaPath::chunk_len(4), 1e-3);
}

#[test]
fn a_constant_input_stays_bounded_at_the_default_chunk_length() {
    let mut rng = Rng(181);
    let block = gdn2_block(&mut rng, &GatedDeltaNet2Config { nheads: 4, ..gdn2_config(32) });
    let input = Tensor3::from_fn(1, 256, 32, |_a, _t, _c| d(-0.424));
    let (y_recurrent, cache_recurrent) = Block::forward(&block, &input, None, DeltaPath::Recurrent);
    for path in [DeltaPath::chunk_len(32), DeltaPath::chunk_len(48), DeltaPath::chunk(), DeltaPath::chunk_len(128)] {
        let (y, cache) = Block::forward(&block, &input, None, path);
        let diff = diff3(&y_recurrent, &y);
        assert!(diff < 1e-4, "outputs differ by {diff} (path {path:?})");
        assert_caches_match(&cache_recurrent, &cache, &format!("{path:?}"), 1e-4);
    }
}

#[test]
fn gdn2_split_forward_matches_a_single_forward() {
    let mut rng = Rng(191);
    let block = gdn2_block(&mut rng, &gdn2_config(16));
    check_split(&mut rng, &block, (2, 12, 16, 5), 1e-4);
}

#[test]
fn gdn2_forward_and_step_agree_on_parameter_gradients() {
    let mut rng = Rng(193);
    let mut block = gdn2_block(&mut rng, &gdn2_config(16));
    let params: [(&str, fn(&mut GatedDeltaNet2<D>, usize, f64) -> bool); 5] = [
        ("in_proj", |b, i, e| edit_matrix(&mut b.qkv.in_proj.weight, i, e)),
        ("out_proj", |b, i, e| edit_matrix(&mut b.out_proj.weight, i, e)),
        ("a_log", |b, i, e| edit_vec(&mut b.gate.a_log_h, i, e)),
        ("dt_bias", |b, i, e| edit_vec(&mut b.gate.dt_bias_i, i, e)),
        ("up", |b, i, e| edit_matrix(&mut b.gate.up.weight, i, e)),
    ];
    check_gradients(&mut rng, &mut block, (2, 8, 16), 1e-3, &params);
}

#[test]
fn tests_the_forget_gate_never_amplifies() {
    let mut rng = Rng(197);
    let block = gdn2_block(&mut rng, &gdn2_config(16));
    let rank = block.bottleneck();
    let data = rng.vec(4 * 32 * rank, |r| r.normal(10.0));
    let raw = Tensor3::from_fn(4, 32, rank, |a, t, c| d(data[(a * 32 + t) * rank + c]));
    let g = block.gate.log_decay(&raw);
    assert_eq!((4, 32, block.n_qk_heads(), block.head_k_dim()), g.dims(), "the decay is per key channel");
    for a in 0..4 {
        for t in 0..32 {
            for h in 0..block.n_qk_heads() {
                for c in 0..block.head_k_dim() {
                    let g = g.at(a, t, h, c).re.0;
                    assert!(g <= 0.0, "log decay must be non-positive");
                    assert!(g >= block.gate.lower_bound.re.0, "log decay must stay above its lower bound");
                }
            }
        }
    }
}

#[test]
fn forward_matches_step_with_a_custom_bottleneck() {
    check_gdn2(GatedDeltaNet2Config { bottleneck: 5, ..gdn2_config(16) }, 9, DeltaPath::chunk_len(4), 1e-4);
}

#[test]
fn gdn2_output_shape_is_d_model() {
    let mut rng = Rng(199);
    let config = GatedDeltaNet2Config { expand_v: Ratio { num: 2, den: 1 }, n_value_heads: 4, ..gdn2_config(16) };
    let block = gdn2_block(&mut rng, &config);
    let (y, cache) = GatedDeltaNet2::forward(&block, &random_input(&mut rng, 3, 7, 16), None, DeltaPath::chunk());
    assert_eq!((3, 7, 16), y.dims());
    assert_eq!((3, 4, 8, 16), cache.state_bhkv.dims());
}
