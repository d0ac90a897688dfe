//! The delta rule on floating-point numbers: every evaluation agrees with the
//! recurrence, on outputs, states and gradients.
use deltanet::common::norm::l2_normalize;
use deltanet::delta::chunk_grad::reverse_scan;
use deltanet::delta::combined::{combined_backward, registered_gradients, DeltaChunkGrads};
use deltanet::delta::decay::BlockDecay;
use deltanet::delta::path::{DeltaInput, DeltaPath};
use deltanet::delta::recurrent::delta_step;
use deltanet::delta::scan::{Chunked, Head, ScanMode};
use deltanet::delta::tri::{unit_lower_inverse, TriSolve};
use deltanet::delta::tri_grad::unit_lower_inverse_backward;
use deltanet::dual::Dual;
use deltanet::matrix::Matrix;
use deltanet::ring::{Real, Ring, Scalar};
use deltanet::tensor::{Tensor3, Tensor4};

/// A double-precision number.
#[derive(Clone, Copy, Debug, PartialEq)]
struct F(f64);

impl Ring for F {
    fn zero() -> Self {
        F(0.0)
    }
    fn one() -> Self {
        F(1.0)
    }
    fn spec_add(self, other: Self) -> Self {
        F(self.0 + other.0)
    }
    fn spec_mul(self, other: Self) -> Self {
        F(self.0 * other.0)
    }
    fn spec_neg(self) -> Self {
        F(-self.0)
    }
    fn spec_sub(self, other: Self) -> Self {
        F(self.0 - other.0)
    }
    fn expo(self) -> Self {
        F(self.0.exp())
    }
    fn add_commutes(_: Self, _: Self) {}
    fn add_associates(_: Self, _: Self, _: Self) {}
    fn add_zero(_: Self) {}
    fn add_neg(_: Self) {}
    fn sub_is_add_neg(_: Self, _: Self) {}
    fn mul_commutes(_: Self, _: Self) {}
    fn mul_associates(_: Self, _: Self, _: Self) {}
    fn mul_one(_: Self) {}
    fn mul_distributes(_: Self, _: Self, _: Self) {}
    fn expo_zero() {}
    fn expo_add(_: Self, _: Self) {}
}

impl Scalar for F {
    fn nil() -> Self {
        F(0.0)
    }
    fn unit() -> Self {
        F(1.0)
    }
    fn plus(self, other: Self) -> Self {
        F(self.0 + other.0)
    }
    fn minus(self, other: Self) -> Self {
        F(self.0 - other.0)
    }
    fn times(self, other: Self) -> Self {
        F(self.0 * other.0)
    }
    fn negated(self) -> Self {
        F(-self.0)
    }
    fn exponential(self) -> Self {
        F(self.0.exp())
    }
}

impl Real for F {
    fn count(n: usize) -> Self {
        F(n as f64)
    }
    fn recip(self) -> Self {
        F(1.0 / self.0)
    }
    fn root(self) -> Self {
        F(self.0.sqrt())
    }
    fn ln(self) -> Self {
        F(self.0.ln())
    }
    fn positive(self) -> bool {
        self.0 > 0.0
    }
    fn finite(self) -> bool {
        self.0.is_finite()
    }
    fn guard() -> Self {
        F(1e-12)
    }
    fn from_count(n: usize) -> Self {
        F(n as f64)
    }
    fn reciprocal(self) -> Self {
        F(1.0 / self.0)
    }
    fn square_root(self) -> Self {
        F(self.0.sqrt())
    }
    fn logarithm(self) -> Self {
        F(self.0.ln())
    }
    fn is_positive(self) -> bool {
        self.0 > 0.0
    }
    fn is_finite(self) -> bool {
        self.0.is_finite()
    }
    fn division_guard() -> Self {
        F(1e-12)
    }
}

/// A reproducible source of numbers.
struct Rng(u64);

impl Rng {
    fn uniform(&mut self, lo: f64, hi: f64) -> f64 {
        self.0 = self.0.wrapping_mul(6364136223846793005).wrapping_add(1442695040888963407);
        let unit = ((self.0 >> 11) as f64) / ((1u64 << 53) as f64);
        lo + unit * (hi - lo)
    }
    fn normal(&mut self, deviation: f64) -> f64 {
        let u = self.uniform(1e-12, 1.0);
        let v = self.uniform(0.0, 1.0);
        deviation * (-2.0 * u.ln()).sqrt() * (2.0 * std::f64::consts::PI * v).cos()
    }
    fn vec(&mut self, n: usize, mut draw: impl FnMut(&mut Rng) -> f64) -> Vec<f64> {
        (0..n).map(|_| draw(self)).collect()
    }
}

fn tensor4(shape: [usize; 4], data: Vec<f64>) -> Tensor4<F> {
    let [_, b, c, d] = shape;
    Tensor4::from_fn(shape[0], b, c, d, move |i, j, k, l| F(data[((i * b + j) * c + k) * d + l]))
}

fn entries(x: &Tensor4<F>) -> Vec<f64> {
    let (a, b, c, d) = x.dims();
    let mut out = Vec::with_capacity(a * b * c * d);
    for i in 0..a {
        for j in 0..b {
            for k in 0..c {
                for l in 0..d {
                    out.push(x.at(i, j, k, l).0);
                }
            }
        }
    }
    out
}

fn max_abs_diff(x: &Tensor4<F>, y: &Tensor4<F>) -> f64 {
    assert_eq!(x.dims(), y.dims());
    let (x, y) = (entries(x), entries(y));
    x.iter().zip(&y).map(|(a, b)| (a - b).abs()).fold(0.0, |m, d| if d > m || d.is_nan() { d } else { m })
}

fn copy(x: &Tensor4<F>) -> Tensor4<F> {
    let (a, b, c, d) = x.dims();
    tensor4([a, b, c, d], entries(x))
}

/// How wide the gates are.
#[derive(Clone, Copy, Debug, PartialEq, Eq)]
enum Gates {
    Ungated,
    PerHead,
    PerChannel,
}

/// Inputs as a block hands them over: unit queries and keys, squashed gates and a
/// log decay that is not positive.
fn random_input(
    rng: &mut Rng,
    dims: (usize, usize, usize, usize, usize),
    beta_max: f64,
    gates: Gates,
    random_state: bool,
) -> DeltaInput<F> {
    let (batch, sequence, nheads, nk, nv) = dims;
    let keys = [batch, sequence, nheads, nk];
    let n = batch * sequence * nheads;
    let q = l2_normalize(&tensor4(keys, rng.vec(n * nk, |r| r.normal(1.0))));
    let k = l2_normalize(&tensor4(keys, rng.vec(n * nk, |r| r.normal(1.0))));
    let v = tensor4([batch, sequence, nheads, nv], rng.vec(n * nv, |r| r.normal(1.0)));
    let channel = gates == Gates::PerChannel;
    let (wk, wv) = if channel { (nk, nv) } else { (1, 1) };
    let erase = tensor4([batch, sequence, nheads, wk], rng.vec(n * wk, |r| r.uniform(0.05, beta_max)));
    let write = if channel {
        tensor4([batch, sequence, nheads, wv], rng.vec(n * wv, |r| r.uniform(0.05, 1.0)))
    } else {
        copy(&erase)
    };
    let g = if gates == Gates::Ungated {
        None
    } else {
        Some(tensor4([batch, sequence, nheads, wk], rng.vec(n * wk, |r| r.uniform(-0.5, -0.01))))
    };
    let m = batch * nheads * nk * nv;
    let state = if random_state {
        tensor4([batch, nheads, nk, nv], rng.vec(m, |r| r.normal(0.2)))
    } else {
        Tensor4::zeros(batch, nheads, nk, nv)
    };
    DeltaInput {
        q_bshk: q,
        k_bshk: k,
        v_bshv: v,
        erase_bshK: erase,
        write_bshV: write,
        g_bshK: g,
        state_bhkv: state,
        scale: None,
    }
}

fn gate(x: &Tensor4<F>, a: usize, t: usize, h: usize, d: usize) -> f64 {
    if x.dims().3 == 1 { x.at(a, t, h, 0).0 } else { x.at(a, t, h, d).0 }
}

/// The outputs, the last state and the gradient of everything, step by step forward
/// and backward along the definition.
struct Run {
    y: Tensor4<F>,
    state: Tensor4<F>,
    grads: DeltaChunkGrads<F>,
}

fn baseline(x: &DeltaInput<F>, d_y: &Tensor4<F>, d_last: &Tensor4<F>) -> Run {
    let (batch, sequence, nheads, nk, nv) = x.dims();
    let scale = 1.0 / (nk as f64).sqrt();
    let at4 = |shape: (usize, usize, usize, usize), i: (usize, usize, usize, usize)| {
        ((i.0 * shape.1 + i.1) * shape.2 + i.2) * shape.3 + i.3
    };
    let (we, ww) = (x.erase_bshK.dims().3, x.write_bshV.dims().3);
    let wg = x.g_bshK.as_ref().map_or(1, |g| g.dims().3);
    let n = batch * sequence * nheads;
    let (mut y, mut last) = (vec![0.0; n * nv], vec![0.0; batch * nheads * nk * nv]);
    let (mut dq, mut dk, mut dv) = (vec![0.0; n * nk], vec![0.0; n * nk], vec![0.0; n * nv]);
    let (mut de, mut dw, mut dg) = (vec![0.0; n * we], vec![0.0; n * ww], vec![0.0; n * wg]);
    let mut ds0 = vec![0.0; batch * nheads * nk * nv];
    for a in 0..batch {
        for h in 0..nheads {
            let mut s = vec![vec![0.0; nv]; nk];
            for d in 0..nk {
                for c in 0..nv {
                    s[d][c] = x.state_bhkv.at(a, h, d, c).0;
                }
            }
            let mut tape = Vec::new();
            for t in 0..sequence {
                let mut kept = s.clone();
                for d in 0..nk {
                    let alpha = x.g_bshK.as_ref().map_or(0.0, |g| gate(g, a, t, h, d)).exp();
                    for c in 0..nv {
                        kept[d][c] *= alpha;
                    }
                }
                let mut u = vec![0.0; nv];
                for c in 0..nv {
                    u[c] = x.v_bshv.at(a, t, h, c).0 * gate(&x.write_bshV, a, t, h, c);
                    for d in 0..nk {
                        u[c] -= x.k_bshk.at(a, t, h, d).0 * gate(&x.erase_bshK, a, t, h, d) * kept[d][c];
                    }
                }
                for d in 0..nk {
                    for c in 0..nv {
                        s[d][c] = kept[d][c] + x.k_bshk.at(a, t, h, d).0 * u[c];
                    }
                }
                for c in 0..nv {
                    let mut sum = 0.0;
                    for d in 0..nk {
                        sum += x.q_bshk.at(a, t, h, d).0 * scale * s[d][c];
                    }
                    y[at4((batch, sequence, nheads, nv), (a, t, h, c))] = sum;
                }
                tape.push((kept, u, s.clone()));
            }
            let mut ds = vec![vec![0.0; nv]; nk];
            for d in 0..nk {
                for c in 0..nv {
                    last[at4((batch, nheads, nk, nv), (a, h, d, c))] = s[d][c];
                    ds[d][c] = d_last.at(a, h, d, c).0;
                }
            }
            for t in (0..sequence).rev() {
                let (kept, u, after) = &tape[t];
                for d in 0..nk {
                    let q = x.q_bshk.at(a, t, h, d).0;
                    for c in 0..nv {
                        let dy = d_y.at(a, t, h, c).0;
                        dq[at4((batch, sequence, nheads, nk), (a, t, h, d))] += scale * dy * after[d][c];
                        ds[d][c] += scale * q * dy;
                    }
                }
                let mut du = vec![0.0; nv];
                for d in 0..nk {
                    let k = x.k_bshk.at(a, t, h, d).0;
                    for c in 0..nv {
                        du[c] += k * ds[d][c];
                        dk[at4((batch, sequence, nheads, nk), (a, t, h, d))] += ds[d][c] * u[c];
                    }
                }
                for c in 0..nv {
                    let (v, w) = (x.v_bshv.at(a, t, h, c).0, gate(&x.write_bshV, a, t, h, c));
                    dv[at4((batch, sequence, nheads, nv), (a, t, h, c))] += du[c] * w;
                    let j = if ww == 1 { 0 } else { c };
                    dw[at4((batch, sequence, nheads, ww), (a, t, h, j))] += du[c] * v;
                }
                for d in 0..nk {
                    let (k, b) = (x.k_bshk.at(a, t, h, d).0, gate(&x.erase_bshK, a, t, h, d));
                    let mut pulled = 0.0;
                    for c in 0..nv {
                        pulled += du[c] * kept[d][c];
                        ds[d][c] -= k * b * du[c];
                    }
                    dk[at4((batch, sequence, nheads, nk), (a, t, h, d))] -= b * pulled;
                    let j = if we == 1 { 0 } else { d };
                    de[at4((batch, sequence, nheads, we), (a, t, h, j))] -= k * pulled;
                    let alpha = x.g_bshK.as_ref().map_or(0.0, |g| gate(g, a, t, h, d)).exp();
                    let i = if wg == 1 { 0 } else { d };
                    for c in 0..nv {
                        dg[at4((batch, sequence, nheads, wg), (a, t, h, i))] += ds[d][c] * kept[d][c];
                        ds[d][c] *= alpha;
                    }
                }
            }
            for d in 0..nk {
                for c in 0..nv {
                    ds0[at4((batch, nheads, nk, nv), (a, h, d, c))] = ds[d][c];
                }
            }
        }
    }
    Run {
        y: tensor4([batch, sequence, nheads, nv], y),
        state: tensor4([batch, nheads, nk, nv], last),
        grads: DeltaChunkGrads {
            d_q_bshk: tensor4([batch, sequence, nheads, nk], dq),
            d_k_bshk: tensor4([batch, sequence, nheads, nk], dk),
            d_v_bshv: tensor4([batch, sequence, nheads, nv], dv),
            d_erase_bshK: tensor4([batch, sequence, nheads, we], de),
            d_write_bshV: tensor4([batch, sequence, nheads, ww], dw),
            d_g_bshK: x.g_bshK.as_ref().map(|_| tensor4([batch, sequence, nheads, wg], dg)),
            d_state_bhkv: tensor4([batch, nheads, nk, nv], ds0),
        },
    }
}

fn heads(rng: &mut Rng, x: &DeltaInput<F>) -> (Tensor4<F>, Tensor4<F>) {
    let (batch, sequence, nheads, nk, nv) = x.dims();
    let y = tensor4([batch, sequence, nheads, nv], rng.vec(batch * sequence * nheads * nv, |r| r.normal(1.0)));
    let s = tensor4([batch, nheads, nk, nv], rng.vec(batch * nheads * nk * nv, |r| r.normal(1.0)));
    (y, s)
}

fn assert_grads_match(a: &DeltaChunkGrads<F>, b: &DeltaChunkGrads<F>, label: &str, tol: f64) {
    let pairs = [
        ("d_q", &a.d_q_bshk, &b.d_q_bshk),
        ("d_k", &a.d_k_bshk, &b.d_k_bshk),
        ("d_v", &a.d_v_bshv, &b.d_v_bshv),
        ("d_erase", &a.d_erase_bshK, &b.d_erase_bshK),
        ("d_write", &a.d_write_bshV, &b.d_write_bshV),
        ("d_state", &a.d_state_bhkv, &b.d_state_bhkv),
    ];
    for (name, x, y) in pairs {
        let diff = max_abs_diff(x, y);
        assert!(diff < tol, "{label}: {name} differs by {diff}");
    }
    match (&a.d_g_bshK, &b.d_g_bshK) {
        (Some(x), Some(y)) => {
            let diff = max_abs_diff(x, y);
            assert!(diff < tol, "{label}: d_g differs by {diff}");
        }
        (None, None) => {}
        _ => panic!("{label}: only one side has a forget gate"),
    }
}

type D = Dual<F>;

/// Each entry with its rate of change: one where `moves` says so, zero elsewhere.
fn moving(x: &Tensor4<F>, moves: impl Fn(usize, usize, usize, usize) -> bool) -> Tensor4<D> {
    let (a, b, c, d) = x.dims();
    Tensor4::from_fn(a, b, c, d, |i, j, k, l| Dual {
        re: x.at(i, j, k, l),
        eps: F(if moves(i, j, k, l) { 1.0 } else { 0.0 }),
    })
}

/// The inputs in the order of their gradients, with the one of index `which` changing
/// at `(t, d)` of every head, or at `(d, c)` of every head's state.
fn probed(x: &DeltaInput<F>, which: usize, t: usize, d: usize) -> DeltaInput<D> {
    let row = |n: usize, y: &Tensor4<F>| moving(y, |_a, i, _h, j| which == n && i == t && j == d);
    DeltaInput {
        q_bshk: row(0, &x.q_bshk),
        k_bshk: row(1, &x.k_bshk),
        v_bshv: row(2, &x.v_bshv),
        erase_bshK: row(3, &x.erase_bshK),
        write_bshV: row(4, &x.write_bshV),
        g_bshK: x.g_bshK.as_ref().map(|g| row(5, g)),
        state_bhkv: moving(&x.state_bhkv, |_a, _h, i, j| which == 6 && i == t && j == d),
        scale: None,
    }
}

/// Differentiates a path by running it on dual numbers, and compares up to `probes`
/// entries of the gradient of each input, in every head, with those along the
/// definition.
fn assert_path_differentiates(
    x: &DeltaInput<F>,
    path: DeltaPath,
    run: &Run,
    d_y: &Tensor4<F>,
    d_last: &Tensor4<F>,
    probes: usize,
    tol: f64,
) {
    let (batch, sequence, nheads, nk, nv) = x.dims();
    let g = &run.grads;
    let mut grads = vec![
        (0, &g.d_q_bshk),
        (1, &g.d_k_bshk),
        (2, &g.d_v_bshv),
        (3, &g.d_erase_bshK),
        (4, &g.d_write_bshV),
        (6, &g.d_state_bhkv),
    ];
    if let Some(d_g) = &g.d_g_bshK {
        grads.push((5, d_g));
    }
    for (which, grad) in grads {
        let (rows, cols) = if which == 6 { (nk, nv) } else { (sequence, grad.dims().3) };
        let total = rows * cols;
        let count = if probes < total { probes } else { total };
        for n in 0..count {
            let entry = n * total / count;
            let (t, d) = (entry / cols, entry % cols);
            let (y, state) = probed(x, which, t, d).run(path);
            for a in 0..batch {
                for h in 0..nheads {
                    let mut rate = 0.0;
                    for c in 0..nv {
                        for i in 0..sequence {
                            rate += d_y.at(a, i, h, c).0 * y.at(a, i, h, c).eps.0;
                        }
                        for i in 0..nk {
                            rate += d_last.at(a, h, i, c).0 * state.at(a, h, i, c).eps.0;
                        }
                    }
                    let expected = if which == 6 { grad.at(a, h, t, d) } else { grad.at(a, t, h, d) };
                    let diff = (rate - expected.0).abs();
                    assert!(diff < tol, "{path:?}: gradient {which} at ({t}, {d}) differs by {diff}");
                }
            }
        }
    }
}

/// The outputs, the last state and the gradient: computed from the inputs on the path
/// that recomputes, followed through the computation on the others.
fn assert_path_matches(
    x: &DeltaInput<F>,
    path: DeltaPath,
    run: &Run,
    d_y: &Tensor4<F>,
    d_last: &Tensor4<F>,
    tol: f64,
) {
    let (y, state) = x.run(path);
    let (dy, ds) = (max_abs_diff(&y, &run.y), max_abs_diff(&state, &run.state));
    assert!(dy < tol, "{path:?}: y differs by {dy}");
    assert!(ds < tol, "{path:?}: final state differs by {ds}");
    if let DeltaPath::ChunkRecalculated { .. } = path {
        let grads = combined_backward(d_y, d_last, x, path.resolved_chunk_len(), x.resolved_scale());
        assert_grads_match(&run.grads, &grads, &format!("{path:?}"), tol);
    } else {
        let probes = 1 + 128 / x.dims().1;
        assert_path_differentiates(x, path, run, d_y, d_last, probes, tol);
    }
}

fn chunk_paths(chunk_len: usize) -> [DeltaPath; 3] {
    [
        DeltaPath::Chunk { chunk_len: Some(chunk_len), solve: TriSolve::Blocked },
        DeltaPath::Chunk { chunk_len: Some(chunk_len), solve: TriSolve::Neumann },
        DeltaPath::ChunkRecalculated { chunk_len: Some(chunk_len) },
    ]
}

fn check_chunk_matches_recurrent(
    dims: (usize, usize, usize, usize, usize),
    chunk_len: usize,
    beta_max: f64,
    gates: Gates,
    random_state: bool,
    tol: f64,
) {
    let mut rng = Rng(17);
    let x = random_input(&mut rng, dims, beta_max, gates, random_state);
    assert!(x.sanity());
    let (d_y, d_last) = heads(&mut rng, &x);
    let run = baseline(&x, &d_y, &d_last);
    assert_path_matches(&x, DeltaPath::Recurrent, &run, &d_y, &d_last, tol);
    for path in chunk_paths(chunk_len) {
        assert_path_matches(&x, path, &run, &d_y, &d_last, tol);
    }
}

/// Every entry of every gradient, on every path that is differentiated by following it.
#[test]
fn every_path_has_the_same_gradient() {
    for gates in [Gates::Ungated, Gates::PerHead, Gates::PerChannel] {
        let mut rng = Rng(71);
        let x = random_input(&mut rng, (2, 7, 2, 3, 4), 0.95, gates, true);
        let (d_y, d_last) = heads(&mut rng, &x);
        let run = baseline(&x, &d_y, &d_last);
        let mut paths = vec![DeltaPath::Recurrent];
        paths.extend(chunk_paths(3));
        paths.extend(chunk_paths(7));
        for path in paths {
            assert_path_differentiates(&x, path, &run, &d_y, &d_last, usize::MAX, 1e-9);
        }
        let grads = combined_backward(&d_y, &d_last, &x, 3, x.resolved_scale());
        assert_grads_match(&run.grads, &grads, "recomputed", 1e-9);
    }
}

/// The gradient is linear in what is pulled back, and nothing pulled back gives nothing.
#[test]
fn gradients_combine_as_what_is_pulled_back() {
    for gates in [Gates::Ungated, Gates::PerHead, Gates::PerChannel] {
        let mut rng = Rng(73);
        let x = random_input(&mut rng, (2, 9, 2, 4, 3), 0.95, gates, true);
        let (y1, s1) = heads(&mut rng, &x);
        let (y2, s2) = heads(&mut rng, &x);
        let blend = |a: &Tensor4<F>, p: f64, b: &Tensor4<F>, q: f64| {
            let (n, m, k, l) = a.dims();
            Tensor4::from_fn(n, m, k, l, |i, j, u, v| F(p * a.at(i, j, u, v).0 + q * b.at(i, j, u, v).0))
        };
        let pull = |y: &Tensor4<F>, s: &Tensor4<F>| combined_backward(y, s, &x, 4, x.resolved_scale());
        for (p, q) in [(2.0, -3.0), (0.5, 1.5), (0.0, 0.0)] {
            let g = pull(&blend(&y1, p, &y2, q), &blend(&s1, p, &s2, q));
            let (g1, g2) = (pull(&y1, &s1), pull(&y2, &s2));
            let expected = DeltaChunkGrads {
                d_q_bshk: blend(&g1.d_q_bshk, p, &g2.d_q_bshk, q),
                d_k_bshk: blend(&g1.d_k_bshk, p, &g2.d_k_bshk, q),
                d_v_bshv: blend(&g1.d_v_bshv, p, &g2.d_v_bshv, q),
                d_erase_bshK: blend(&g1.d_erase_bshK, p, &g2.d_erase_bshK, q),
                d_write_bshV: blend(&g1.d_write_bshV, p, &g2.d_write_bshV, q),
                d_g_bshK: match (&g1.d_g_bshK, &g2.d_g_bshK) {
                    (Some(a), Some(b)) => Some(blend(a, p, b, q)),
                    _ => None,
                },
                d_state_bhkv: blend(&g1.d_state_bhkv, p, &g2.d_state_bhkv, q),
            };
            assert_grads_match(&expected, &g, "combined", 1e-10);
        }
        let zero = pull(&Tensor4::zeros(2, 9, 2, 3), &Tensor4::zeros(2, 2, 4, 3));
        assert!(entries(&zero.d_k_bshk).iter().all(|v| *v == 0.0));
        assert!(entries(&zero.d_state_bhkv).iter().all(|v| *v == 0.0));
    }
}

/// One head of a batch as matrices.
fn rows(x: &Tensor4<F>, a: usize, h: usize) -> Matrix<F> {
    let (_, n, _, m) = x.dims();
    Matrix::from_fn(n, m, |t, d| x.at(a, t, h, d))
}

fn max_gap(a: &Matrix<F>, b: &Matrix<F>) -> f64 {
    assert_eq!((a.rows(), a.cols()), (b.rows(), b.cols()));
    let gaps = (0..a.rows()).flat_map(|i| (0..a.cols()).map(move |j| (i, j)));
    gaps.map(|(i, j)| (a.at(i, j).0 - b.at(i, j).0).abs()).fold(0.0, f64::max)
}

/// Walking the scan back: chunk by chunk in forward order, linear in what is pulled
/// back, and ending at the gradient of the entering state.
#[test]
fn the_scan_walked_back() {
    for gates in [Gates::Ungated, Gates::PerHead, Gates::PerChannel] {
        let mut rng = Rng(83);
        let x = random_input(&mut rng, (1, 12, 1, 4, 3), 0.95, gates, true);
        let head = Head {
            q: rows(&x.q_bshk, 0, 0),
            k: rows(&x.k_bshk, 0, 0),
            v: rows(&x.v_bshv, 0, 0),
            erase: rows(&x.erase_bshK, 0, 0),
            write: rows(&x.write_bshV, 0, 0),
            g: x.g_bshK.as_ref().map(|g| rows(g, 0, 0)),
        };
        let state = Matrix::from_fn(4, 3, |d, c| x.state_bhkv.at(0, 0, d, c));
        let chunked = Chunked::prepare(&head, 1, 1, 5, x.resolved_scale());
        let wys = chunked.wy(TriSolve::Blocked);
        let states = chunked.scan(&wys, &state, ScanMode::States).states.unwrap();
        let pull = |dy: &Tensor4<F>, ds: &Tensor4<F>| {
            let dy = rows(dy, 0, 0);
            let dys = (0..3).map(|n| dy.window(5 * n, 5)).collect();
            let d_last = Matrix::from_fn(4, 3, |d, c| ds.at(0, 0, d, c));
            reverse_scan(&chunked.chunks, &wys, &states, &dys, &d_last)
        };
        let (y1, s1) = heads(&mut rng, &x);
        let (y2, s2) = heads(&mut rng, &x);
        let run = baseline(&x, &y1, &s1);
        let (g1, g2) = (pull(&y1, &s1), pull(&y2, &s2));
        assert_eq!(g1.len(), 3);
        let d_state = Matrix::from_fn(4, 3, |d, c| run.grads.d_state_bhkv.at(0, 0, d, c));
        assert!(max_gap(&g1[0].d_state, &d_state) < 1e-9);
        assert!(max_gap(&g1[2].d_state, &d_state) > 1e-3);
        let both = |a: &Tensor4<F>, b: &Tensor4<F>| {
            let (n, m, k, l) = a.dims();
            Tensor4::from_fn(n, m, k, l, |i, j, u, v| F(2.0 * a.at(i, j, u, v).0 - b.at(i, j, u, v).0))
        };
        let blend = |a: &Matrix<F>, b: &Matrix<F>| {
            Matrix::from_fn(a.rows(), a.cols(), |i, j| F(2.0 * a.at(i, j).0 - b.at(i, j).0))
        };
        let g = pull(&both(&y1, &y2), &both(&s1, &s2));
        let zero = pull(&Tensor4::zeros(1, 12, 1, 3), &Tensor4::zeros(1, 1, 4, 3));
        for n in 0..3 {
            assert_eq!(g[n].d_gc.is_some(), gates != Gates::Ungated);
            assert_eq!(g[n].d_eg.is_some(), gates != Gates::Ungated);
            assert!(max_gap(&g[n].d_u, &blend(&g1[n].d_u, &g2[n].d_u)) < 1e-10);
            assert!(max_gap(&g[n].d_w, &blend(&g1[n].d_w, &g2[n].d_w)) < 1e-10);
            assert!(max_gap(&g[n].d_attn, &blend(&g1[n].d_attn, &g2[n].d_attn)) < 1e-10);
            assert!(max_gap(&g[n].d_k, &blend(&g1[n].d_k, &g2[n].d_k)) < 1e-10);
            assert!(max_gap(&g[n].d_state, &blend(&g1[n].d_state, &g2[n].d_state)) < 1e-10);
            assert_eq!(max_gap(&zero[n].d_u, &Matrix::zeros(5, 3)), 0.0);
            assert_eq!(max_gap(&zero[n].d_q, &Matrix::zeros(5, 4)), 0.0);
            assert_eq!(max_gap(&zero[n].d_state, &Matrix::zeros(4, 3)), 0.0);
        }
    }
}

/// Without key channels a forget gate per channel has no entries, and is as wide as it
/// should be.
#[test]
fn a_gate_on_no_channels_is_accepted() {
    let empty = |width: usize| Tensor4::<F>::zeros(1, 2, 1, width);
    let make = |width: usize| DeltaInput {
        q_bshk: empty(0),
        k_bshk: empty(0),
        v_bshv: Tensor4::from_fn(1, 2, 1, 3, |_a, t, _h, c| F((t + c) as f64)),
        erase_bshK: empty(0),
        write_bshV: empty(1),
        g_bshK: Some(empty(width)),
        state_bhkv: Tensor4::zeros(1, 1, 0, 3),
        scale: Some(F(1.0)),
    };
    assert!(make(0).sanity() && make(1).sanity() && !make(2).sanity());
    let x = make(0);
    for path in [DeltaPath::Recurrent, DeltaPath::chunk_len(2)] {
        let (y, state) = x.run(path);
        assert_eq!(y.dims(), (1, 2, 1, 3));
        assert_eq!(state.dims(), (1, 1, 0, 3));
        assert!(entries(&y).iter().all(|v| *v == 0.0));
    }
    let (y, state) = x.run(DeltaPath::ChunkRecalculated { chunk_len: Some(1) });
    let grads = combined_backward(&y, &state, &x, 1, F(1.0));
    assert_eq!(grads.d_g_bshK.map(|g| g.dims()), Some((1, 2, 1, 0)));
    assert!(entries(&grads.d_v_bshv).iter().all(|v| *v == 0.0));
}

/// The rows that share a reference row: as many as divide the chunk, up to sixteen.
#[test]
fn decay_blocks_are_as_long_as_they_may_be() {
    let mut rng = Rng(79);
    for (rows, length) in [(1, 1), (7, 7), (16, 16), (17, 1), (24, 12), (32, 16), (40, 10), (64, 16)] {
        let k = Matrix::from_fn(rows, 2, |i, j| F((i + 2 * j) as f64 + 1.0));
        let steps = rng.vec(rows * 2, |r| r.uniform(-0.5, -0.01));
        let gc = Matrix::from_fn(rows, 2, |i, j| F((0..=i).map(|t| steps[t * 2 + j]).sum()));
        let decay = BlockDecay::new(&k, &gc);
        assert_eq!(decay.block_len, length);
        for i in 0..rows {
            let p = i / length;
            if i == p * length + length / 2 {
                assert_eq!(decay.row.at(i, 0), F(1.0));
            }
            for j in 0..rows {
                let split = decay.row.at(i, 1).0 * decay.col_exp[p].at(j, 1).0;
                let whole = (gc.at(i, 1).0 - gc.at(j, 1).0).exp();
                let expected = if j / length <= p { whole } else { 0.0 };
                assert!((split - expected).abs() < 1e-9 * (1.0 + expected));
            }
        }
    }
}

#[test]
fn chunk_matches_recurrent_ungated() {
    check_chunk_matches_recurrent((2, 16, 3, 8, 8), 8, 0.95, Gates::Ungated, false, 1e-3);
}

#[test]
fn chunk_matches_recurrent_gated() {
    check_chunk_matches_recurrent((2, 16, 3, 8, 8), 8, 0.95, Gates::PerHead, false, 1e-3);
}

#[test]
fn chunk_matches_recurrent_from_a_carried_state() {
    check_chunk_matches_recurrent((2, 12, 2, 8, 16), 4, 0.95, Gates::PerHead, true, 1e-3);
}

#[test]
fn chunk_matches_recurrent_with_negative_eigenvalues() {
    check_chunk_matches_recurrent((2, 12, 2, 8, 8), 6, 1.95, Gates::PerHead, true, 2e-3);
}

#[test]
fn chunk_matches_recurrent_with_a_partial_last_chunk() {
    check_chunk_matches_recurrent((2, 13, 2, 8, 8), 8, 0.95, Gates::PerHead, true, 1e-3);
    check_chunk_matches_recurrent((1, 5, 1, 4, 4), 8, 0.95, Gates::Ungated, false, 1e-3);
}

#[test]
fn chunk_matches_recurrent_with_expanded_values() {
    check_chunk_matches_recurrent((2, 16, 2, 8, 16), 8, 0.95, Gates::PerHead, true, 1e-3);
}

#[test]
fn chunk_len_does_not_change_the_answer() {
    let mut rng = Rng(23);
    let x = random_input(&mut rng, (2, 24, 2, 8, 8), 0.95, Gates::PerHead, true);
    let (d_y, d_last) = heads(&mut rng, &x);
    let run = baseline(&x, &d_y, &d_last);
    for chunk_len in [4, 3, 6, 8, 12, 24, 32] {
        assert_path_matches(&x, DeltaPath::chunk_len(chunk_len), &run, &d_y, &d_last, 1e-3);
    }
}

/// The same direction at every step: the triangular system is as badly conditioned
/// for a summed series as it can be.
fn constant_input(rng: &mut Rng, dims: (usize, usize, usize, usize, usize), beta: f64, gated: bool) -> DeltaInput<F> {
    let (batch, sequence, nheads, nk, nv) = dims;
    let one = random_input(rng, (batch, 1, nheads, nk, nv), 0.95, Gates::PerHead, false);
    let hold = |x: &Tensor4<F>| {
        let x = copy(x);
        let width = x.dims().3;
        Tensor4::from_fn(batch, sequence, nheads, width, move |a, _t, h, d| x.at(a, 0, h, d))
    };
    let full = |v: f64| Tensor4::from_fn(batch, sequence, nheads, 1, move |_a, _t, _h, _d| F(v));
    DeltaInput {
        q_bshk: hold(&one.q_bshk),
        k_bshk: hold(&one.k_bshk),
        v_bshv: hold(&one.v_bshv),
        erase_bshK: full(beta),
        write_bshV: full(beta),
        g_bshK: if gated { Some(full(-0.05)) } else { None },
        state_bhkv: Tensor4::zeros(batch, nheads, nk, nv),
        scale: None,
    }
}

#[test]
fn chunk_matches_recurrent_on_a_constant_input() {
    let mut rng = Rng(29);
    for (beta, gated) in [(0.9, false), (0.9, true), (1.8, true)] {
        let x = constant_input(&mut rng, (2, 128, 2, 8, 8), beta, gated);
        let (d_y, d_last) = heads(&mut rng, &x);
        let run = baseline(&x, &d_y, &d_last);
        for chunk_len in [16, 32, 48, 64, 128] {
            assert_path_matches(&x, DeltaPath::chunk_len(chunk_len), &run, &d_y, &d_last, 1e-3);
        }
    }
}

fn narrow(x: &Tensor4<F>, from: usize, len: usize) -> Tensor4<F> {
    let (a, _, c, d) = x.dims();
    let x = copy(x);
    Tensor4::from_fn(a, len, c, d, move |i, t, h, j| x.at(i, from + t, h, j))
}

#[test]
fn split_calls_match_a_single_call() {
    let mut rng = Rng(31);
    let x = random_input(&mut rng, (2, 20, 2, 8, 8), 0.95, Gates::PerHead, false);
    let make = |from: usize, len: usize, state: Tensor4<F>| DeltaInput {
        q_bshk: narrow(&x.q_bshk, from, len),
        k_bshk: narrow(&x.k_bshk, from, len),
        v_bshv: narrow(&x.v_bshv, from, len),
        erase_bshK: narrow(&x.erase_bshK, from, len),
        write_bshV: narrow(&x.write_bshV, from, len),
        g_bshK: x.g_bshK.as_ref().map(|g| narrow(g, from, len)),
        state_bhkv: state,
        scale: None,
    };
    let path = DeltaPath::chunk_len(4);
    let (y_whole, state_whole) = make(0, 20, copy(&x.state_bhkv)).run(path);
    let (y_head, state_mid) = make(0, 7, copy(&x.state_bhkv)).run(path);
    let (y_tail, state_end) = make(7, 13, state_mid).run(path);
    assert!(max_abs_diff(&narrow(&y_whole, 0, 7), &y_head) < 1e-4);
    assert!(max_abs_diff(&narrow(&y_whole, 7, 13), &y_tail) < 1e-4);
    assert!(max_abs_diff(&state_whole, &state_end) < 1e-4);
}

#[test]
fn a_zero_gate_is_the_ungated_delta_rule() {
    let mut rng = Rng(37);
    let mut x = random_input(&mut rng, (2, 12, 2, 8, 8), 0.95, Gates::Ungated, true);
    for path in [DeltaPath::Recurrent, DeltaPath::chunk_len(5)] {
        x.g_bshK = None;
        let (y_none, state_none) = x.run(path);
        x.g_bshK = Some(Tensor4::zeros(2, 12, 2, 1));
        let (y_zero, state_zero) = x.run(path);
        assert!(max_abs_diff(&y_none, &y_zero) < 1e-5, "{path:?}: outputs differ");
        assert!(max_abs_diff(&state_none, &state_zero) < 1e-5, "{path:?}: states differ");
    }
}

#[test]
fn chunk_matches_recurrent_with_channel_gates() {
    check_chunk_matches_recurrent((2, 16, 3, 8, 8), 8, 0.95, Gates::PerChannel, false, 1e-3);
}

#[test]
fn chunk_matches_recurrent_with_channel_gates_from_a_carried_state() {
    check_chunk_matches_recurrent((2, 12, 2, 8, 16), 4, 0.95, Gates::PerChannel, true, 1e-3);
}

#[test]
fn chunk_matches_recurrent_with_channel_gates_across_reference_blocks() {
    check_chunk_matches_recurrent((2, 40, 2, 8, 8), 32, 0.95, Gates::PerChannel, true, 2e-3);
    check_chunk_matches_recurrent((1, 37, 1, 4, 6), 16, 1.95, Gates::PerChannel, true, 2e-3);
}

#[test]
fn channel_chunk_len_does_not_change_the_answer() {
    let mut rng = Rng(41);
    let x = random_input(&mut rng, (2, 24, 2, 8, 8), 0.95, Gates::PerChannel, true);
    let (d_y, d_last) = heads(&mut rng, &x);
    let run = baseline(&x, &d_y, &d_last);
    for chunk_len in [3, 6, 8, 12, 16, 24, 32] {
        assert_path_matches(&x, DeltaPath::chunk_len(chunk_len), &run, &d_y, &d_last, 2e-3);
    }
}

#[test]
fn broadcast_channel_gates_are_the_scalar_delta_rule() {
    let mut rng = Rng(43);
    let x = random_input(&mut rng, (2, 20, 2, 8, 12), 0.95, Gates::PerHead, true);
    let widen = |t: &Tensor4<F>, width: usize| {
        let t = copy(t);
        let (a, b, c, _) = t.dims();
        Tensor4::from_fn(a, b, c, width, move |i, j, k, _d| t.at(i, j, k, 0))
    };
    let wide = DeltaInput {
        q_bshk: copy(&x.q_bshk),
        k_bshk: copy(&x.k_bshk),
        v_bshv: copy(&x.v_bshv),
        erase_bshK: widen(&x.erase_bshK, 8),
        write_bshV: widen(&x.write_bshV, 12),
        g_bshK: x.g_bshK.as_ref().map(|g| widen(g, 8)),
        state_bhkv: copy(&x.state_bhkv),
        scale: None,
    };
    assert!(wide.has_channel_decay() && !x.has_channel_decay());
    for path in [DeltaPath::Recurrent, DeltaPath::chunk_len(8)] {
        let (ys, ss) = x.run(path);
        let (yc, sc) = wide.run(path);
        assert!(max_abs_diff(&ys, &yc) < 1e-4, "{path:?}: outputs differ");
        assert!(max_abs_diff(&ss, &sc) < 1e-4, "{path:?}: final states differ");
    }
}

/// The gradient that recomputes against the gradient along the definition.
fn check(dims: (usize, usize, usize, usize, usize), chunk_len: usize, beta_max: f64, gates: Gates, grad_tol: f64) {
    let mut rng = Rng(47);
    let x = random_input(&mut rng, dims, beta_max, gates, true);
    let (d_y, d_last) = heads(&mut rng, &x);
    let run = baseline(&x, &d_y, &d_last);
    let taped = DeltaPath::Chunk { chunk_len: Some(chunk_len), solve: TriSolve::Blocked };
    let custom = DeltaPath::ChunkRecalculated { chunk_len: Some(chunk_len) };
    assert_path_differentiates(&x, taped, &run, &d_y, &d_last, 2, grad_tol);
    let ((y, s), (yc, sc)) = (x.run(taped), x.run(custom));
    assert!(max_abs_diff(&y, &yc) < 1e-5 && max_abs_diff(&s, &sc) < 1e-5, "{gates:?}: values differ");
    let grads = combined_backward(&d_y, &d_last, &x, chunk_len, x.resolved_scale());
    assert_grads_match(&run.grads, &grads, &format!("{gates:?}, {chunk_len}"), grad_tol);
}

#[test]
fn matches_the_taped_path_ungated() {
    check((2, 16, 3, 8, 8), 8, 0.95, Gates::Ungated, 1e-4);
}

#[test]
fn matches_the_taped_path_per_head_gate() {
    check((2, 16, 3, 8, 8), 8, 0.95, Gates::PerHead, 1e-4);
}

#[test]
fn matches_the_taped_path_per_channel_gates() {
    check((2, 16, 3, 8, 8), 8, 0.95, Gates::PerChannel, 1e-4);
    check((2, 40, 2, 8, 8), 32, 0.95, Gates::PerChannel, 2e-4);
}

#[test]
fn matches_the_taped_path_with_negative_eigenvalues() {
    check((2, 12, 2, 8, 8), 6, 1.95, Gates::PerHead, 2e-4);
    check((2, 12, 2, 8, 8), 6, 1.95, Gates::PerChannel, 2e-4);
}

#[test]
fn matches_the_taped_path_with_a_partial_last_chunk() {
    check((2, 13, 2, 8, 8), 8, 0.95, Gates::PerHead, 1e-4);
    check((1, 5, 1, 4, 4), 8, 0.95, Gates::Ungated, 1e-4);
    check((2, 37, 2, 4, 6), 16, 0.95, Gates::PerChannel, 2e-4);
}

#[test]
fn matches_the_taped_path_with_expanded_values() {
    check((2, 16, 2, 8, 16), 8, 0.95, Gates::PerHead, 1e-4);
    check((2, 16, 2, 16, 8), 8, 0.95, Gates::PerChannel, 2e-4);
}

#[test]
fn every_chunk_length_agrees() {
    for chunk_len in [1, 2, 3, 6, 8, 12, 16, 24, 32] {
        check((2, 24, 2, 8, 8), chunk_len, 0.95, Gates::PerHead, 2e-4);
        check((2, 24, 2, 8, 8), chunk_len, 0.95, Gates::PerChannel, 2e-4);
    }
}

#[test]
fn an_inference_pass_matches_the_taped_forward() {
    for gates in [Gates::Ungated, Gates::PerHead, Gates::PerChannel] {
        let mut rng = Rng(53);
        let x = random_input(&mut rng, (2, 20, 3, 8, 8), 0.95, gates, true);
        let (y, s) = x.run(DeltaPath::Chunk { chunk_len: Some(8), solve: TriSolve::Blocked });
        let (yc, sc) = x.run(DeltaPath::ChunkRecalculated { chunk_len: Some(8) });
        assert!(max_abs_diff(&y, &yc) < 1e-5, "{gates:?}: y disagrees on the untracked path");
        assert!(max_abs_diff(&s, &sc) < 1e-5, "{gates:?}: final_state disagrees on the untracked path");
    }
}

/// A backward pass registers one gradient, of its input's shape, for each input that is
/// followed, and none for a forget gate that is not there.
#[test]
fn one_gradient_per_followed_input() {
    for gates in [Gates::Ungated, Gates::PerHead, Gates::PerChannel] {
        let mut rng = Rng(89);
        let x = random_input(&mut rng, (2, 7, 2, 4, 3), 0.95, gates, true);
        let (d_y, d_last) = heads(&mut rng, &x);
        let all = combined_backward(&d_y, &d_last, &x, 3, x.resolved_scale());
        let all = vec![
            Some(all.d_q_bshk),
            Some(all.d_k_bshk),
            Some(all.d_v_bshv),
            Some(all.d_erase_bshK),
            Some(all.d_write_bshV),
            all.d_g_bshK,
            Some(all.d_state_bhkv),
        ];
        for subset in [0u32, 1, 32, 64, 85, 127] {
            let followed = [0, 1, 2, 3, 4, 5, 6].map(|i: u32| subset >> i & 1 == 1);
            let some = registered_gradients(&d_y, &d_last, &x, 3, x.resolved_scale(), followed);
            assert_eq!(some.len(), 7);
            for i in 0..7 {
                let there = followed[i] && (i != 5 || gates != Gates::Ungated);
                assert_eq!(some[i].is_some(), there);
                if let (Some(d), Some(e)) = (&some[i], &all[i]) {
                    assert_eq!(max_abs_diff(d, e), 0.0);
                }
            }
        }
    }
}

/// What a transition does to the length of a vector, for keys of any length.
#[test]
fn transitions_do_not_lengthen() {
    let mut rng = Rng(97);
    for b in [0.0, 0.5, 1.0, 1.7, 2.0] {
        let mut x = random_input(&mut rng, (1, 1, 1, 5, 3), 0.95, Gates::PerHead, true);
        x.erase_bshK = tensor4([1, 1, 1, 1], vec![b]);
        x.write_bshV = Tensor4::zeros(1, 1, 1, 1);
        x.g_bshK = None;
        let (_, after) = x.run(DeltaPath::Recurrent);
        let key: Vec<f64> = (0..5).map(|d| x.k_bshk.at(0, 0, 0, d).0).collect();
        let n: f64 = key.iter().map(|k| k * k).sum();
        assert!(n < 1.0 && n > 0.999);
        for c in 0..3 {
            let column = |s: &Tensor4<F>| (0..5).map(|d| s.at(0, 0, d, c).0).collect::<Vec<f64>>();
            let (old, new) = (column(&x.state_bhkv), column(&after));
            let length = |v: &[f64]| v.iter().map(|a| a * a).sum::<f64>();
            let p: f64 = key.iter().zip(&old).map(|(k, z)| k * z).sum();
            let expected = length(&old) - b * (2.0 - b * n) * p * p;
            assert!((length(&new) - expected).abs() < 1e-12);
            assert!(length(&new) <= length(&old) + 1e-15);
        }
    }
}

/// A step with an erase gate of two undoes itself, and one with an erase gate of one
/// does nothing twice, whatever is written.
#[test]
fn reflections_and_projections() {
    let mut rng = Rng(101);
    let key = [0.6, 0.0, 0.8];
    for write in [0.0, 0.3, 1.0, 2.0] {
        let mut x = random_input(&mut rng, (1, 1, 1, 3, 2), 0.95, Gates::PerHead, true);
        x.k_bshk = tensor4([1, 1, 1, 3], key.to_vec());
        x.write_bshV = tensor4([1, 1, 1, 1], vec![write]);
        x.g_bshK = None;
        for erase in [1.0, 2.0] {
            let start = copy(&x.state_bhkv);
            x.erase_bshK = tensor4([1, 1, 1, 1], vec![erase]);
            let (_, once) = x.run(DeltaPath::Recurrent);
            x.state_bhkv = copy(&once);
            let (_, twice) = x.run(DeltaPath::Recurrent);
            let same = if erase == 2.0 { &start } else { &once };
            assert!(max_abs_diff(same, &twice) < 1e-12, "erase {erase}, write {write}");
            x.state_bhkv = start;
        }
    }
}

/// The inverse for constant keys is a geometric series down each column.
#[test]
fn constant_keys_give_a_geometric_series() {
    for solve in [TriSolve::Blocked, TriSolve::Neumann] {
        for b in [0.0, 0.4, 1.0, 1.9] {
            let n = Matrix::from_fn(9, 9, |i, j| F(if j < i { -b } else { 0.0 }));
            let t = unit_lower_inverse(&n, solve);
            for i in 0..9 {
                for j in 0..i {
                    let expected = -b * (1.0f64 - b).powi((i - j - 1) as i32);
                    assert!((t.at(i, j).0 - expected).abs() < 1e-9, "{solve:?}, {b}: ({i}, {j})");
                    assert!(t.at(i, j).0.abs() <= b + 1e-9);
                }
            }
        }
    }
}

/// What normalisation leaves of a key's length.
#[test]
fn normalised_keys_are_a_little_short() {
    for scale in [1e-4, 1.0, 1e3] {
        let x = Tensor4::from_fn(1, 1, 1, 3, |_a, _b, _h, d| F([1.0, -2.0, 2.0][d] * scale));
        let (s, y) = (9.0 * scale * scale, l2_normalize(&x));
        let length: f64 = entries(&y).iter().map(|v| v * v).sum();
        assert!((length - s / (s + 1e-6)).abs() < 1e-12 && length < 1.0);
    }
}

fn strict_lower(rng: &mut Rng, size: usize, deviation: f64) -> Matrix<F> {
    let data = rng.vec(size * size, |r| r.normal(deviation));
    Matrix::from_fn(size, size, move |i, j| if j < i { F(data[i * size + j]) } else { F(0.0) })
}

fn matrix_diff(x: &Matrix<F>, y: &Matrix<F>) -> f64 {
    assert_eq!((x.rows(), x.cols()), (y.rows(), y.cols()));
    let mut worst: f64 = 0.0;
    for i in 0..x.rows() {
        for j in 0..x.cols() {
            worst = worst.max((x.at(i, j).0 - y.at(i, j).0).abs());
        }
    }
    worst
}

fn check_inverse(size: usize, deviation: f64, solve: TriSolve, tol: f64) {
    let mut rng = Rng(59);
    for _ in 0..3 {
        let n = strict_lower(&mut rng, size, deviation);
        let t = unit_lower_inverse(&n, solve);
        let identity = Matrix::identity(size);
        let diff = matrix_diff(&identity.minus(&n).matmul(&t), &identity);
        assert!(diff < tol, "(I - N) T != I for size {size} / {solve:?}: max abs diff {diff}");
    }
}

#[test]
fn blocked_inverts() {
    for size in [1, 2, 3, 4, 5, 7, 8, 16, 32, 64, 128] {
        check_inverse(size, 0.3, TriSolve::Blocked, 1e-3);
    }
}

#[test]
fn neumann_inverts() {
    for size in [1, 2, 3, 4, 5, 7, 8, 16, 32] {
        check_inverse(size, 0.3, TriSolve::Neumann, 1e-3);
    }
}

#[test]
fn blocked_matches_neumann_values_and_grads() {
    let mut rng = Rng(61);
    for _ in 0..2 {
        let n = strict_lower(&mut rng, 16, 0.3);
        let data = rng.vec(256, |r| r.normal(1.0));
        let head = Matrix::from_fn(16, 16, |i, j| F(data[i * 16 + j]));
        let blocked = unit_lower_inverse(&n, TriSolve::Blocked);
        let neumann = unit_lower_inverse(&n, TriSolve::Neumann);
        let value_diff = matrix_diff(&blocked, &neumann);
        assert!(value_diff < 1e-4, "value mismatch: {value_diff}");
        let d_blocked = unit_lower_inverse_backward(&blocked, &head);
        // Along the series, each entry below the diagonal on its own.
        let loss = |n: &Matrix<F>| -> f64 {
            let t = unit_lower_inverse(n, TriSolve::Neumann);
            let mut sum = 0.0;
            for i in 0..16 {
                for j in 0..16 {
                    sum += t.at(i, j).0 * head.at(i, j).0;
                }
            }
            sum
        };
        for i in 0..16 {
            for j in 0..16 {
                if j < i {
                    let moved = |by: f64| {
                        loss(&Matrix::from_fn(16, 16, |a, b| {
                            F(n.at(a, b).0 + if a == i && b == j { by } else { 0.0 })
                        }))
                    };
                    let slope = (moved(1e-5) - moved(-1e-5)) / 2e-5;
                    let diff = (slope - d_blocked.at(i, j).0).abs();
                    assert!(diff < 1e-4, "grad mismatch: {diff}");
                } else {
                    assert_eq!(d_blocked.at(i, j).0, 0.0);
                }
            }
        }
    }
}

#[test]
fn inverse_is_unit_lower_triangular() {
    let mut rng = Rng(67);
    let t = unit_lower_inverse(&strict_lower(&mut rng, 8, 0.5), TriSolve::Blocked);
    for i in 0..8 {
        for j in i..8 {
            let want = if i == j { 1.0 } else { 0.0 };
            assert!((t.at(i, j).0 - want).abs() < 1e-6);
        }
    }
}

#[test]
fn blocked_inverts_a_constant_key_chunk() {
    for size in [8, 16, 32, 64, 128] {
        for beta in [0.9, 1.0, 1.9] {
            let n = Matrix::from_fn(size, size, |i, j| F(if j < i { -beta } else { 0.0 }));
            let t = unit_lower_inverse(&n, TriSolve::Blocked);
            let identity = Matrix::identity(size);
            let diff = matrix_diff(&identity.minus(&n).matmul(&t), &identity);
            assert!(diff < 1e-4, "(I - N) T != I for size {size} / beta {beta}: max abs diff {diff}");
            let bound = f64::max(beta, 1.0) + 1e-4;
            for i in 0..size {
                for j in 0..size {
                    assert!(t.at(i, j).0.abs() <= bound, "T grew past {bound}");
                }
            }
        }
    }
}

/// A unit key written, added to and overwritten.
#[test]
fn only_decoupled_gates_can_accumulate_onto_an_occupied_key() {
    let mut rng = Rng(71);
    let k = l2_normalize(&tensor4([1, 1, 1, 4], rng.vec(4, |r| r.normal(1.0)))).step(0);
    let v = tensor4([1, 1, 1, 3], rng.vec(3, |r| r.normal(1.0))).step(0);
    let full = |b: f64| Tensor3::from_fn(1, 1, 1, move |_, _, _| F(b));
    let off = |y: &Tensor3<F>, times: f64| {
        (0..3).map(|c| (y.at(0, 0, c).0 - times * v.at(0, 0, c).0).abs()).fold(0.0, f64::max)
    };
    let empty = Tensor4::zeros(1, 1, 4, 3);
    let (stored, state) = delta_step(&k, &k, &v, &full(1.0), &full(1.0), &None, &empty, F(1.0));
    assert!(off(&stored, 1.0) < 1e-5, "the write did not land");
    let (added, _) = delta_step(&k, &k, &v, &full(0.0), &full(1.0), &None, &state, F(1.0));
    let doubled = off(&added, 2.0);
    assert!(doubled < 1e-5, "b = 0, w = 1 must add: off by {doubled}");
    for beta in [0.25, 0.5, 1.0, 2.0] {
        let (scalar, _) = delta_step(&k, &k, &v, &full(beta), &full(beta), &None, &state, F(1.0));
        let moved = off(&scalar, 1.0);
        assert!(moved < 1e-5, "beta = {beta} moved the stored value by {moved}");
    }
}

#[test]
fn an_input_with_a_number_that_is_none_is_not_sane() {
    let mut x = random_input(&mut Rng(73), (1, 3, 1, 2, 2), 0.95, Gates::PerHead, true);
    assert!(x.sanity());
    x.g_bshK = Some(Tensor4::from_fn(1, 3, 1, 1, |_, t, _, _| F(if t == 1 { f64::NAN } else { -0.1 })));
    assert!(x.shapes_agree() && !x.sanity());
    x.g_bshK = None;
    assert!(x.sanity());
    x.v_bshv = Tensor4::from_fn(1, 3, 1, 2, |_, t, _, c| F(if t + c == 3 { f64::INFINITY } else { 1.0 }));
    assert!(!x.sanity());
    x.v_bshv = Tensor4::zeros(1, 2, 1, 2);
    assert!(!x.sanity());
}
