//! The delta rule on integers modulo `2^64`, where equal means equal.
use deltanet::common::norm::L2_EPS_PARTS;
use deltanet::delta::combined::{combined_backward, DeltaChunkGrads};
use deltanet::delta::decay::block_len;
use deltanet::delta::forward::Dims;
use deltanet::delta::path::{beta_gates, DeltaInput, DeltaPath};
use deltanet::delta::recurrent::delta_step;
use deltanet::delta::tri::{unit_lower_inverse, TriSolve};
use deltanet::delta::tri_grad::unit_lower_inverse_backward;
use deltanet::matrix::Matrix;
use deltanet::residue::Residue;
use deltanet::ring::{Real, Scalar};
use deltanet::tensor::{Tensor3, Tensor4};

fn n(value: i64) -> Residue {
    Residue { value: value as u64 }
}

struct Rng(u64);

impl Rng {
    fn next(&mut self) -> Residue {
        self.0 = self.0.wrapping_mul(6364136223846793005).wrapping_add(1442695040888963407);
        Residue { value: self.0 ^ (self.0 >> 29) }
    }
}

fn filled(rng: &mut Rng, a: usize, b: usize, c: usize, d: usize) -> Tensor4<Residue> {
    let data: Vec<Residue> = (0..a * b * c * d).map(|_| rng.next()).collect();
    Tensor4::from_fn(a, b, c, d, move |i, j, k, l| data[((i * b + j) * c + k) * d + l])
}

fn entries(x: &Tensor4<Residue>) -> Vec<Residue> {
    let (a, b, c, d) = x.dims();
    let mut out = Vec::new();
    for i in 0..a {
        for j in 0..b {
            for k in 0..c {
                for l in 0..d {
                    out.push(x.at(i, j, k, l));
                }
            }
        }
    }
    out
}

fn same(x: &Tensor4<Residue>, y: &Tensor4<Residue>) -> bool {
    x.dims() == y.dims() && entries(x) == entries(y)
}

fn copy(x: &Tensor4<Residue>) -> Tensor4<Residue> {
    let (a, b, c, d) = x.dims();
    Tensor4::from_fn(a, b, c, d, |i, j, k, l| x.at(i, j, k, l))
}

/// Any numbers at all: `gate` is the width of the decay, zero for none.
fn input(rng: &mut Rng, sequence: usize, gate: usize, channel: bool) -> DeltaInput<Residue> {
    let (batch, nheads, nk, nv) = (2, 2, 3, 2);
    DeltaInput {
        q_bshk: filled(rng, batch, sequence, nheads, nk),
        k_bshk: filled(rng, batch, sequence, nheads, nk),
        v_bshv: filled(rng, batch, sequence, nheads, nv),
        erase_bshK: filled(rng, batch, sequence, nheads, if channel { nk } else { 1 }),
        write_bshV: filled(rng, batch, sequence, nheads, if channel { nv } else { 1 }),
        g_bshK: if gate == 0 { None } else { Some(filled(rng, batch, sequence, nheads, gate)) },
        state_bhkv: filled(rng, batch, nheads, nk, nv),
        scale: Some(rng.next()),
    }
}

fn paths() -> Vec<DeltaPath> {
    let mut paths = vec![DeltaPath::default(), DeltaPath::chunk()];
    for chunk_len in [1, 2, 3, 5, 8, 16] {
        paths.push(DeltaPath::chunk_len(chunk_len));
        paths.push(DeltaPath::chunk_len_on_tape(chunk_len));
        paths.push(DeltaPath::Chunk { chunk_len: Some(chunk_len), solve: TriSolve::Neumann });
    }
    paths
}

#[test]
fn every_path_computes_the_same_function() {
    let mut rng = Rng(1);
    for (gate, channel) in [(0, false), (1, false), (0, true), (1, true), (3, false), (3, true)] {
        for sequence in [1, 7, 8, 17] {
            let x = input(&mut rng, sequence, gate, channel);
            assert!(x.shapes_agree());
            let (y, state) = x.run(DeltaPath::Recurrent);
            for path in paths() {
                let (yp, sp) = x.run(path);
                assert!(same(&y, &yp) && same(&state, &sp), "{path:?} on {sequence} steps, gate {gate}");
            }
        }
    }
}

#[test]
fn one_step_by_hand() {
    // S = [[1, 2], [3, 4]], decayed by 5 everywhere, k = (1, 2), erase 1, write 2,
    // v = (7, 9): the prediction is (5 + 30, 10 + 40), the deltas are (14 - 35, 18 - 50).
    let k = Tensor3::from_fn(1, 1, 2, |_, _, d| n(d as i64 + 1));
    let q = Tensor3::from_fn(1, 1, 2, |_, _, d| n(3 - d as i64));
    let v = Tensor3::from_fn(1, 1, 2, |_, _, c| n(7 + 2 * c as i64));
    let gate = |g: i64| Tensor3::from_fn(1, 1, 1, move |_, _, _| n(g));
    let state = Tensor4::from_fn(1, 1, 2, 2, |_, _, d, c| n((2 * d + c + 1) as i64));
    let (y, next) = delta_step(&q, &k, &v, &gate(1), &gate(2), &Some(gate(1)), &state, n(10));
    let want = [[5 - 21, 10 - 32], [15 - 42, 20 - 64]];
    for d in 0..2 {
        for c in 0..2 {
            assert_eq!(next.at(0, 0, d, c), n(want[d][c]));
        }
    }
    assert_eq!(y.at(0, 0, 0), n(10 * (3 * want[0][0] + 2 * want[1][0])));
    assert_eq!(y.at(0, 0, 1), n(10 * (3 * want[0][1] + 2 * want[1][1])));
}

#[test]
fn a_split_is_the_whole() {
    let mut rng = Rng(2);
    for gate in [0, 1, 3] {
        let x = input(&mut rng, 9, gate, true);
        let cut = |t: &Tensor4<Residue>, from: usize, len: usize| {
            let (a, _, c, d) = t.dims();
            Tensor4::from_fn(a, len, c, d, |i, s, k, l| t.at(i, from + s, k, l))
        };
        let part = |from: usize, len: usize, state: Tensor4<Residue>| DeltaInput {
            q_bshk: cut(&x.q_bshk, from, len),
            k_bshk: cut(&x.k_bshk, from, len),
            v_bshv: cut(&x.v_bshv, from, len),
            erase_bshK: cut(&x.erase_bshK, from, len),
            write_bshV: cut(&x.write_bshV, from, len),
            g_bshK: x.g_bshK.as_ref().map(|g| cut(g, from, len)),
            state_bhkv: state,
            scale: x.scale,
        };
        let path = DeltaPath::chunk_len(4);
        let (y, last) = x.run(path);
        for at in 1..9 {
            let (head, mid) = part(0, at, copy(&x.state_bhkv)).run(path);
            let (tail, end) = part(at, 9 - at, mid).run(path);
            assert!(same(&cut(&y, 0, at), &head) && same(&cut(&y, at, 9 - at), &tail) && same(&last, &end));
        }
    }
}

#[test]
fn a_zero_gate_changes_nothing() {
    let mut rng = Rng(3);
    let mut x = input(&mut rng, 6, 0, false);
    let (y, state) = x.run(DeltaPath::chunk_len(4));
    for width in [1, 3] {
        x.g_bshK = Some(Tensor4::zeros(2, 6, 2, width));
        let (yz, sz) = x.run(DeltaPath::chunk_len(4));
        assert!(same(&y, &yz) && same(&state, &sz));
    }
}

#[test]
fn one_value_per_head_is_that_value_on_every_channel() {
    let mut rng = Rng(4);
    let x = input(&mut rng, 6, 1, false);
    let widen = |t: &Tensor4<Residue>, width: usize| {
        let (a, b, c, _) = t.dims();
        Tensor4::from_fn(a, b, c, width, |i, j, k, _l| t.at(i, j, k, 0))
    };
    let wide = DeltaInput {
        q_bshk: copy(&x.q_bshk),
        k_bshk: copy(&x.k_bshk),
        v_bshv: copy(&x.v_bshv),
        erase_bshK: widen(&x.erase_bshK, 3),
        write_bshV: widen(&x.write_bshV, 2),
        g_bshK: x.g_bshK.as_ref().map(|g| widen(g, 3)),
        state_bhkv: copy(&x.state_bhkv),
        scale: x.scale,
    };
    let ((ys, ss), (yc, sc)) = (x.run(DeltaPath::chunk_len(4)), wide.run(DeltaPath::chunk_len(4)));
    assert!(same(&ys, &yc) && same(&ss, &sc));
    let only_decay = DeltaInput { erase_bshK: copy(&x.erase_bshK), write_bshV: copy(&x.write_bshV), ..wide };
    let (yd, sd) = only_decay.run(DeltaPath::chunk_len(4));
    assert!(same(&ys, &yd) && same(&ss, &sd));
}

fn same_grads(a: &DeltaChunkGrads<Residue>, b: &DeltaChunkGrads<Residue>) -> bool {
    let gates = match (&a.d_g_bshK, &b.d_g_bshK) {
        (Some(x), Some(y)) => same(x, y),
        (None, None) => true,
        _ => false,
    };
    gates
        && same(&a.d_q_bshk, &b.d_q_bshk)
        && same(&a.d_k_bshk, &b.d_k_bshk)
        && same(&a.d_v_bshv, &b.d_v_bshv)
        && same(&a.d_erase_bshK, &b.d_erase_bshK)
        && same(&a.d_write_bshV, &b.d_write_bshV)
        && same(&a.d_state_bhkv, &b.d_state_bhkv)
}

#[test]
fn the_gradient_does_not_depend_on_the_chunk_length() {
    let mut rng = Rng(5);
    for (gate, channel) in [(0, false), (1, false), (1, true), (3, false), (3, true)] {
        let x = input(&mut rng, 7, gate, channel);
        let (d_y, d_last) = (filled(&mut rng, 2, 7, 2, 2), filled(&mut rng, 2, 2, 3, 2));
        let scale = x.resolved_scale();
        let one = combined_backward(&d_y, &d_last, &x, 1, scale);
        for chunk_len in [2, 3, 7, 16] {
            let many = combined_backward(&d_y, &d_last, &x, chunk_len, scale);
            assert!(same_grads(&one, &many), "chunk length {chunk_len}, gate {gate}");
        }
    }
}

#[test]
fn the_gradient_is_linear_in_what_it_is_pulled_back_from() {
    let mut rng = Rng(6);
    let x = input(&mut rng, 5, 3, true);
    let scale = x.resolved_scale();
    let (a, b) = (filled(&mut rng, 2, 5, 2, 2), filled(&mut rng, 2, 5, 2, 2));
    let (s, t) = (filled(&mut rng, 2, 2, 3, 2), filled(&mut rng, 2, 2, 3, 2));
    let add = |x: &Tensor4<Residue>, y: &Tensor4<Residue>| {
        let (p, q, r, w) = x.dims();
        Tensor4::from_fn(p, q, r, w, |i, j, k, l| x.at(i, j, k, l).plus(y.at(i, j, k, l)))
    };
    let first = combined_backward(&a, &s, &x, 4, scale);
    let second = combined_backward(&b, &t, &x, 4, scale);
    let both = combined_backward(&add(&a, &b), &add(&s, &t), &x, 4, scale);
    assert!(same(&both.d_k_bshk, &add(&first.d_k_bshk, &second.d_k_bshk)));
    assert!(same(&both.d_state_bhkv, &add(&first.d_state_bhkv, &second.d_state_bhkv)));
}

#[test]
fn both_solves_invert_exactly() {
    let mut rng = Rng(7);
    for size in [1, 2, 3, 5, 8, 13] {
        let data: Vec<Residue> = (0..size * size).map(|_| rng.next()).collect();
        let strict = Matrix::from_fn(size, size, |i, j| if j < i { data[i * size + j] } else { n(0) });
        let identity: Matrix<Residue> = Matrix::identity(size);
        let t = unit_lower_inverse(&strict, TriSolve::default());
        let u = unit_lower_inverse(&strict, TriSolve::Neumann);
        let left = identity.minus(&strict).matmul(&t);
        let right = t.matmul(&identity.minus(&strict));
        for i in 0..size {
            for j in 0..size {
                assert_eq!(left.at(i, j), identity.at(i, j));
                assert_eq!(right.at(i, j), identity.at(i, j));
                assert_eq!(t.at(i, j), u.at(i, j));
            }
        }
    }
}

#[test]
fn the_gradient_of_an_inverse_by_hand() {
    // N = [[0, 0], [a, 0]] inverts to [[1, 0], [a, 1]], so only the entry below the
    // diagonal has a gradient, and it is that of the result.
    let t = Matrix::from_fn(2, 2, |i, j| n(if i == j { 1 } else if i > j { 6 } else { 0 }));
    let d_t = Matrix::from_fn(2, 2, |i, j| n((2 * i + j) as i64 + 3));
    let d_n = unit_lower_inverse_backward(&t, &d_t);
    assert_eq!((d_n.at(0, 0), d_n.at(0, 1), d_n.at(1, 1)), (n(0), n(0), n(0)));
    assert_eq!(d_n.at(1, 0), d_t.at(1, 0));
}

/// The state after one step at the key `(1, 0)`, from `S = [[5, 6], [7, 8]]` with the
/// value `(20, 30)`.
fn written(erase: i64, write: i64) -> [[Residue; 2]; 2] {
    let k = Tensor3::from_fn(1, 1, 2, |_, _, d| n(1 - d as i64));
    let v = Tensor3::from_fn(1, 1, 2, |_, _, c| n(20 + 10 * c as i64));
    let gate = |g: i64| Tensor3::from_fn(1, 1, 1, move |_, _, _| n(g));
    let state = Tensor4::from_fn(1, 1, 2, 2, |_, _, d, c| n((2 * d + c + 5) as i64));
    let (_, s) = delta_step(&k, &k, &v, &gate(erase), &gate(write), &None, &state, n(1));
    [[s.at(0, 0, 0, 0), s.at(0, 0, 0, 1)], [s.at(0, 0, 1, 0), s.at(0, 0, 1, 1)]]
}

#[test]
fn the_gates_choose_what_a_write_does() {
    let other = [n(7), n(8)];
    assert_eq!(written(0, 0), [[n(5), n(6)], other]);
    assert_eq!(written(1, 1), [[n(20), n(30)], other]);
    assert_eq!(written(1, 0), [[n(0), n(0)], other]);
    assert_eq!(written(0, 1), [[n(25), n(36)], other]);
    assert_eq!(written(2, 2), [[n(35), n(54)], other]);
    assert_eq!(written(2, 0), [[n(-5), n(-6)], other]);
}

/// Repeats a step at the key `(1, 0)`, from `S = [[5, 6], [7, 8]]` with the value
/// `(20, 30)`.
fn repeated(times: usize, beta: i64) -> Vec<Residue> {
    let k = Tensor3::from_fn(1, 1, 2, |_, _, d| n(1 - d as i64));
    let v = Tensor3::from_fn(1, 1, 2, |_, _, c| n(20 + 10 * c as i64));
    let gate = Tensor3::from_fn(1, 1, 1, |_, _, _| n(beta));
    let mut state = Tensor4::from_fn(1, 1, 2, 2, |_, _, d, c| n((2 * d + c + 5) as i64));
    for _ in 0..times {
        state = delta_step(&k, &k, &v, &gate, &gate, &None, &state, n(1)).1;
    }
    entries(&state)
}

#[test]
fn a_full_write_projects_and_a_double_one_reflects() {
    assert_eq!(repeated(1, 1), repeated(2, 1));
    assert_eq!(repeated(0, 2), repeated(2, 2));
    assert_ne!(repeated(0, 2), repeated(1, 2));
}

#[test]
fn a_key_is_an_eigenvector_of_its_transition() {
    // With no value to write, a state along the key `(1, 2)` keeps `1 - 3 * 5` of itself
    // and one at right angles to it stays as it is.
    let k = Tensor3::from_fn(1, 1, 2, |_, _, d| n(d as i64 + 1));
    let v = Tensor3::from_fn(1, 1, 1, |_, _, _| n(0));
    let gate = Tensor3::from_fn(1, 1, 1, |_, _, _| n(3));
    let step = |s: [i64; 2]| {
        let state = Tensor4::from_fn(1, 1, 2, 1, |_, _, d, _| n(s[d]));
        entries(&delta_step(&k, &k, &v, &gate, &gate, &None, &state, n(1)).1)
    };
    assert_eq!(step([1, 2]), vec![n(-14), n(-28)]);
    assert_eq!(step([2, -1]), vec![n(2), n(-1)]);
}

#[test]
fn a_step_of_zeros_is_no_step() {
    let zeros = |w: usize| Tensor3::from_fn(1, 1, w, |_, _, _| n(0));
    let state = Tensor4::from_fn(1, 1, 2, 2, |_, _, d, c| n((2 * d + c + 5) as i64));
    let (y, next) =
        delta_step(&zeros(2), &zeros(2), &zeros(2), &zeros(1), &zeros(1), &Some(zeros(1)), &state, n(9));
    assert_eq!((y.at(0, 0, 0), y.at(0, 0, 1)), (n(0), n(0)));
    assert!(same(&state, &next));
}

#[test]
fn an_empty_memory_returns_nothing() {
    let q = Tensor3::from_fn(1, 1, 2, |_, _, d| n(d as i64 + 3));
    let zeros = |w: usize| Tensor3::from_fn(1, 1, w, |_, _, _| n(0));
    let gate = Tensor3::from_fn(1, 1, 1, |_, _, _| n(1));
    let (y, _) = delta_step(&q, &q, &zeros(2), &gate, &gate, &None, &Tensor4::zeros(1, 1, 2, 2), n(9));
    assert_eq!((y.at(0, 0, 0), y.at(0, 0, 1)), (n(0), n(0)));
}

#[test]
fn shapes_that_do_not_fit_are_told_apart() {
    let mut rng = Rng(8);
    let mut x = input(&mut rng, 4, 1, false);
    assert!(x.shapes_agree());
    assert_eq!(x.dims(), (2, 4, 2, 3, 2));
    x.g_bshK = Some(Tensor4::zeros(2, 4, 2, 2));
    assert!(!x.shapes_agree());
    x.g_bshK = None;
    assert!(x.shapes_agree());
    x.erase_bshK = Tensor4::zeros(2, 4, 2, 2);
    assert!(!x.shapes_agree());
    x.erase_bshK = Tensor4::zeros(2, 4, 2, 1);
    x.state_bhkv = Tensor4::zeros(2, 2, 2, 3);
    assert!(!x.shapes_agree());
}

#[test]
fn the_default_scale_is_one_over_the_root_of_the_key_channels() {
    let mut rng = Rng(9);
    let mut x = input(&mut rng, 2, 0, false);
    x.scale = None;
    assert_eq!(x.resolved_scale(), Residue::from_count(3).square_root().reciprocal());
    assert_eq!(L2_EPS_PARTS, 1_000_000);
}

#[test]
fn paths_resolve_their_chunk_length() {
    assert_eq!(DeltaPath::default(), DeltaPath::ChunkRecalculated { chunk_len: None });
    assert_eq!(DeltaPath::chunk().resolved_chunk_len(), 64);
    assert_eq!(DeltaPath::DEFAULT_CHUNK_LEN, 64);
    assert_eq!(DeltaPath::chunk_len(7).resolved_chunk_len(), 7);
    assert_eq!(DeltaPath::Recurrent.resolved_chunk_len(), 1);
    let taped = DeltaPath::Chunk { chunk_len: Some(7), solve: TriSolve::Blocked };
    assert_eq!(DeltaPath::chunk_len_on_tape(7), taped);
}

#[test]
fn one_beta_is_both_gates() {
    let beta = Tensor3::from_fn(2, 3, 2, |a, t, h| n((a * 6 + t * 2 + h) as i64));
    let (erase, write) = beta_gates(&beta);
    assert_eq!(erase.dims(), (2, 3, 2, 1));
    assert!(same(&erase, &write));
    assert_eq!(write.at(1, 2, 1, 0), n(11));
}

#[test]
fn blocks_divide_their_chunk() {
    for (chunk_len, block) in [(1, 1), (3, 3), (16, 16), (17, 1), (32, 16), (48, 16), (60, 15), (64, 16)] {
        assert_eq!(block_len(chunk_len), block);
    }
}

#[test]
fn lengths_of_a_chunked_pass() {
    let dims = |decay_width: usize| Dims { batch: 2, nheads: 3, nchunks: 5, decay_width, ..lengths() };
    assert_eq!(dims(0).group(), 30);
    assert!(!dims(0).gated() && dims(1).gated() && dims(4).gated());
    assert!(!dims(0).channel_decay() && !dims(1).channel_decay() && dims(4).channel_decay());
}

fn lengths() -> Dims {
    Dims {
        batch: 1,
        sequence: 20,
        sequence_padded: 20,
        nchunks: 5,
        chunk_len: 4,
        nheads: 1,
        head_k_dim: 2,
        head_v_dim: 2,
        erase_width: 1,
        write_width: 1,
        decay_width: 0,
    }
}

#[test]
fn powers_of_five() {
    assert_eq!(n(3).exponential(), n(125));
    assert_eq!(n(0).exponential(), n(1));
    assert_eq!(n(-2).exponential().times(n(25)), n(1));
    assert_eq!(n(7).reciprocal().times(n(7)), n(1));
}
