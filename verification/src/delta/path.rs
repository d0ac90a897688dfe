//! What a layer hands to the delta rule, and the choice of how it is evaluated.
use vstd::prelude::*;

use crate::common::finite::{finite4, is_finite4};
use crate::delta::forward::{gate_width, widened};
use crate::delta::recurrent::{delta_step, step_stream};
use crate::delta::rule::{from_step, lemma_run_continues, output, state_after, Stream};
use crate::delta::scan::{head_chunk, lemma_output_continues, padded_len, Head};
use crate::delta::tri::TriSolve;
use crate::delta::wy::{lemma_output_depends, lemma_run_depends, streams_agree};
use crate::mat::agree;
use crate::matrix::Matrix;
use crate::ring::{Real, Ring, Scalar};
use crate::tensor::{head_plane, last_plane, Tensor3, Tensor4};

verus! {

/// Which evaluation of the delta rule runs. All of them compute the same function.
#[derive(Debug, Clone, Copy, PartialEq, Eq, Structural)]
pub enum DeltaPath {
    /// One step after the other: the definition.
    Recurrent,
    /// The chunkwise form.
    Chunk {
        /// Steps per chunk; `None` stands for [`DeltaPath::DEFAULT_CHUNK_LEN`].
        chunk_len: Option<usize>,
        /// How the triangular system of each chunk is inverted.
        solve: TriSolve,
    },
    /// The chunkwise form whose gradient recomputes what it needs from the inputs.
    ChunkRecalculated {
        /// Steps per chunk; `None` stands for [`DeltaPath::DEFAULT_CHUNK_LEN`].
        chunk_len: Option<usize>,
    },
}

impl Default for DeltaPath {
    fn default() -> (r: Self)
        ensures
            r == (DeltaPath::ChunkRecalculated { chunk_len: None }),
    {
        DeltaPath::ChunkRecalculated { chunk_len: None }
    }
}

/// The chunk length of a path that names none.
pub open spec fn chunk_len_or_default(chunk_len: Option<usize>) -> usize {
    match chunk_len {
        Some(n) => n,
        None => 64,
    }
}

impl DeltaPath {
    /// The chunk length of a path that names none.
    pub const DEFAULT_CHUNK_LEN: usize = 64;

    /// The chunk length a path runs at.
    pub open spec fn spec_chunk_len(self) -> usize {
        match self {
            DeltaPath::Recurrent => 1,
            DeltaPath::Chunk { chunk_len, solve } => chunk_len_or_default(chunk_len),
            DeltaPath::ChunkRecalculated { chunk_len } => chunk_len_or_default(chunk_len),
        }
    }

    /// Whether the path can run over `sequence` steps: its chunks are not empty, and
    /// the padded length can be counted.
    pub open spec fn admits(self, sequence: int) -> bool {
        self is Recurrent || {
            &&& self.spec_chunk_len() > 0
            &&& padded_len(sequence, self.spec_chunk_len() as int) <= usize::MAX
        }
    }

    /// Chunkwise at the default chunk length.
    pub fn chunk() -> (r: Self)
        ensures
            r == (DeltaPath::ChunkRecalculated { chunk_len: None }),
    {
        Self::default()
    }

    /// Chunkwise with an explicit chunk length.
    pub fn chunk_len(chunk_len: usize) -> (r: Self)
        ensures
            r == (DeltaPath::ChunkRecalculated { chunk_len: Some(chunk_len) }),
    {
        DeltaPath::ChunkRecalculated { chunk_len: Some(chunk_len) }
    }

    /// [`DeltaPath::Chunk`] with an explicit chunk length and the default solve.
    pub fn chunk_len_on_tape(chunk_len: usize) -> (r: Self)
        ensures
            r == (DeltaPath::Chunk { chunk_len: Some(chunk_len), solve: TriSolve::Blocked }),
    {
        DeltaPath::Chunk { chunk_len: Some(chunk_len), solve: TriSolve::default() }
    }

    /// The chunk length this path runs at; a recurrent pass has chunks of one step.
    pub fn resolved_chunk_len(&self) -> (r: usize)
        ensures
            r == self.spec_chunk_len(),
    {
        match self {
            DeltaPath::Recurrent => 1,
            DeltaPath::Chunk { chunk_len, .. } => match chunk_len {
                Some(n) => *n,
                None => Self::DEFAULT_CHUNK_LEN,
            },
            DeltaPath::ChunkRecalculated { chunk_len } => match chunk_len {
                Some(n) => *n,
                None => Self::DEFAULT_CHUNK_LEN,
            },
        }
    }
}

/// Everything the delta rule reads.
///
/// Queries and keys arrive activated and normalised, but not scaled. Each gate is
/// carried at its broadcast width: its last axis is `1`, one value per head, or
/// one value per channel.
#[allow(non_snake_case)]
pub struct DeltaInput<T> {
    /// Queries: `[batch, sequence, nheads, head_k_dim]`.
    pub q_bshk: Tensor4<T>,
    /// Keys: `[batch, sequence, nheads, head_k_dim]`.
    pub k_bshk: Tensor4<T>,
    /// Values: `[batch, sequence, nheads, head_v_dim]`.
    pub v_bshv: Tensor4<T>,
    /// The erase gate, on the key axis: `[batch, sequence, nheads, 1 or head_k_dim]`.
    pub erase_bshK: Tensor4<T>,
    /// The write gate, on the value axis: `[batch, sequence, nheads, 1 or head_v_dim]`.
    pub write_bshV: Tensor4<T>,
    /// The log forget gate, if there is one: `[batch, sequence, nheads, 1 or head_k_dim]`.
    pub g_bshK: Option<Tensor4<T>>,
    /// The entering state: `[batch, nheads, head_k_dim, head_v_dim]`.
    pub state_bhkv: Tensor4<T>,
    /// The readout scale; `None` stands for `1 / sqrt(head_k_dim)`.
    pub scale: Option<T>,
}

/// The erase and write gates that one value per head stands for.
///
/// `[batch, sequence, nheads]` becomes two of `[batch, sequence, nheads, 1]`.
pub fn beta_gates<T: Scalar>(beta: &Tensor3<T>) -> (r: (Tensor4<T>, Tensor4<T>))
    ensures
        r.0.has_shape(beta.dims().0 as int, beta.dims().1 as int, beta.dims().2 as int, 1),
        r.1.has_shape(beta.dims().0 as int, beta.dims().1 as int, beta.dims().2 as int, 1),
        forall|a: int, t: int, h: int|
            0 <= a < beta.dims().0 && 0 <= t < beta.dims().1 && 0 <= h < beta.dims().2
                ==> #[trigger] r.0@(a, t, h, 0) == beta@(a, t, h),
        forall|a: int, t: int, h: int|
            0 <= a < beta.dims().0 && 0 <= t < beta.dims().1 && 0 <= h < beta.dims().2
                ==> #[trigger] r.1@(a, t, h, 0) == beta@(a, t, h),
{
    let (batch, sequence, nheads) = beta.dims();
    let f = |a: usize, t: usize, h: usize, j: usize| -> (r: T)
        requires
            a < beta.dims().0,
            t < beta.dims().1,
            h < beta.dims().2,
        ensures
            r == beta@(a as int, t as int, h as int),
        { beta.at(a, t, h) };
    let g = |a: usize, t: usize, h: usize, j: usize| -> (r: T)
        requires
            a < beta.dims().0,
            t < beta.dims().1,
            h < beta.dims().2,
        ensures
            r == beta@(a as int, t as int, h as int),
        { beta.at(a, t, h) };
    (
        Tensor4::from_fn(batch, sequence, nheads, 1, f),
        Tensor4::from_fn(batch, sequence, nheads, 1, g),
    )
}

impl<T: Ring> DeltaInput<T> {
    /// Whether the shapes agree: one length per axis throughout, at least one
    /// step, and gates of width one or one value per channel.
    pub open spec fn valid(&self) -> bool {
        let (batch, sequence, nheads, nk) = self.q_bshk.dims();
        let nv = self.v_bshv.dims().3;
        &&& sequence > 0
        &&& self.k_bshk.dims() == self.q_bshk.dims()
        &&& self.v_bshv.has_shape(batch as int, sequence as int, nheads as int, nv as int)
        &&& self.state_bhkv.has_shape(batch as int, nheads as int, nk as int, nv as int)
        &&& self.gate_fits(self.erase_bshK, nk as int)
        &&& self.gate_fits(self.write_bshV, nv as int)
        &&& self.g_bshK matches Some(g) ==> self.gate_fits(g, nk as int)
    }

    /// Whether a gate over `full` channels has the right shape.
    pub open spec fn gate_fits(&self, gate: Tensor4<T>, full: int) -> bool {
        &&& gate.dims().0 == self.q_bshk.dims().0
        &&& gate.dims().1 == self.q_bshk.dims().1
        &&& gate.dims().2 == self.q_bshk.dims().2
        &&& gate_width(gate.dims().3 as int, full)
    }

    /// What head `h` of sequence `a` reads at each step.
    pub open spec fn stream(&self, a: int, h: int) -> Stream<T> {
        Stream {
            q: head_plane(self.q_bshk@, a, h),
            k: head_plane(self.k_bshk@, a, h),
            v: head_plane(self.v_bshv@, a, h),
            erase: widened(self.erase_bshK.dims().3 as int, head_plane(self.erase_bshK@, a, h)),
            write: widened(self.write_bshV.dims().3 as int, head_plane(self.write_bshV@, a, h)),
            g: match self.g_bshK {
                Some(g) => widened(g.dims().3 as int, head_plane(g@, a, h)),
                None => |t: int, d: int| T::zero(),
            },
        }
    }

    /// Whether `y` and `last` are the outputs and the last state of the delta rule
    /// on these inputs, for every head of every sequence.
    pub open spec fn evaluates_to(&self, scale: T, y: Tensor4<T>, last: Tensor4<T>) -> bool {
        let (batch, sequence, nheads, nk) = self.q_bshk.dims();
        let nv = self.v_bshv.dims().3;
        &&& y.has_shape(batch as int, sequence as int, nheads as int, nv as int)
        &&& last.has_shape(batch as int, nheads as int, nk as int, nv as int)
        &&& forall|a: int, t: int, h: int, c: int|
            0 <= a < batch && 0 <= t < sequence && 0 <= h < nheads && 0 <= c < nv
                ==> #[trigger] y@(a, t, h, c) == output(
                self.stream(a, h),
                nk as int,
                scale,
                last_plane(self.state_bhkv@, a, h),
                t,
                c,
            )
        &&& forall|a: int, h: int, d: int, c: int|
            0 <= a < batch && 0 <= h < nheads && 0 <= d < nk && 0 <= c < nv ==> #[trigger] last@(
                a,
                h,
                d,
                c,
            ) == state_after(
                self.stream(a, h),
                nk as int,
                last_plane(self.state_bhkv@, a, h),
                sequence as int,
            )(d, c)
    }

    /// The lengths `(batch, sequence, nheads, head_k_dim, head_v_dim)`.
    pub fn dims(&self) -> (r: (usize, usize, usize, usize, usize))
        ensures
            r == (
                self.q_bshk.dims().0,
                self.q_bshk.dims().1,
                self.q_bshk.dims().2,
                self.q_bshk.dims().3,
                self.v_bshv.dims().3,
            ),
    {
        let (batch, sequence, nheads, nk) = self.q_bshk.dims();
        (batch, sequence, nheads, nk, self.v_bshv.dims().3)
    }

    /// Whether the forget gate differs between key channels.
    pub fn has_channel_decay(&self) -> (r: bool)
        ensures
            r == (self.g_bshK matches Some(g) && g.dims().3 > 1),
    {
        match &self.g_bshK {
            Some(g) => g.dims().3 > 1,
            None => false,
        }
    }

    fn gate_is_fitting(&self, gate: &Tensor4<T>, full: usize) -> (r: bool)
        ensures
            r == self.gate_fits(*gate, full as int),
    {
        let (batch, sequence, nheads, _) = self.q_bshk.dims();
        let (a, t, h, width) = gate.dims();
        a == batch && t == sequence && h == nheads && (width == 1 || width == full)
    }

    /// Checks that every shape agrees.
    pub fn shapes_agree(&self) -> (r: bool)
        ensures
            r == self.valid(),
    {
        let (batch, sequence, nheads, nk, nv) = self.dims();
        let (kb, ks, kh, kk) = self.k_bshk.dims();
        let (vb, vs, vh, _) = self.v_bshv.dims();
        let (sb, sh, sk, sv) = self.state_bhkv.dims();
        let keys: bool = kb == batch && ks == sequence && kh == nheads && kk == nk;
        let values: bool = vb == batch && vs == sequence && vh == nheads;
        let states: bool = sb == batch && sh == nheads && sk == nk && sv == nv;
        let forget: bool = match &self.g_bshK {
            Some(g) => self.gate_is_fitting(g, nk),
            None => true,
        };
        sequence > 0 && keys && values && states && self.gate_is_fitting(&self.erase_bshK, nk)
            && self.gate_is_fitting(&self.write_bshV, nv) && forget
    }
}

impl<T: Scalar> DeltaInput<T> {
    /// The inputs of head `h` of sequence `a`.
    pub fn head(&self, a: usize, h: usize) -> (r: Head<T>)
        requires
            self.valid(),
            a < self.q_bshk.dims().0,
            h < self.q_bshk.dims().2,
        ensures
            r.well_formed(),
            r.stream() == self.stream(a as int, h as int),
            r.q.has_shape(self.q_bshk.dims().1 as int, self.q_bshk.dims().3 as int),
            r.v.cols() == self.v_bshv.dims().3,
            r.erase.cols() == self.erase_bshK.dims().3,
            r.write.cols() == self.write_bshV.dims().3,
            r.g is Some == self.g_bshK is Some,
            r.g matches Some(g) ==> g.cols() == self.g_bshK->0.dims().3,
            r.q@ == head_plane(self.q_bshk@, a as int, h as int),
            r.k@ == head_plane(self.k_bshk@, a as int, h as int),
            r.v@ == head_plane(self.v_bshv@, a as int, h as int),
            r.erase@ == head_plane(self.erase_bshK@, a as int, h as int),
            r.write@ == head_plane(self.write_bshV@, a as int, h as int),
            r.g matches Some(g) ==> g@ == head_plane(self.g_bshK->0@, a as int, h as int),
    {
        let g = match &self.g_bshK {
            Some(g) => Some(g.head(a, h)),
            None => None,
        };
        let r = Head {
            q: self.q_bshk.head(a, h),
            k: self.k_bshk.head(a, h),
            v: self.v_bshv.head(a, h),
            erase: self.erase_bshK.head(a, h),
            write: self.write_bshV.head(a, h),
            g,
        };
        assert(r.stream().g =~= self.stream(a as int, h as int).g);
        assert(r.stream() =~= self.stream(a as int, h as int));
        r
    }

    /// The chunkwise evaluation at a given scale.
    fn by_chunks(&self, chunk_len: usize, solve: TriSolve, scale: T) -> (r: (Tensor4<T>, Tensor4<T>))
        requires
            self.valid(),
            chunk_len > 0,
            padded_len(self.q_bshk.dims().1 as int, chunk_len as int) <= usize::MAX,
        ensures
            self.evaluates_to(scale, r.0, r.1),
    {
        let (batch, sequence, nheads, nk, nv) = self.dims();
        let mut ys: Vec<Vec<Matrix<T>>> = Vec::with_capacity(batch);
        let mut lasts: Vec<Vec<Matrix<T>>> = Vec::with_capacity(batch);
        for a in 0..batch
            invariant
                self.valid(),
                chunk_len > 0,
                padded_len(self.q_bshk.dims().1 as int, chunk_len as int) <= usize::MAX,
                self.q_bshk.has_shape(batch as int, sequence as int, nheads as int, nk as int),
                nv == self.v_bshv.dims().3,
                ys@.len() == a,
                lasts@.len() == a,
                forall|i: int| 0 <= i < a ==> (#[trigger] ys@[i])@.len() == nheads,
                forall|i: int| 0 <= i < a ==> (#[trigger] lasts@[i])@.len() == nheads,
                forall|i: int, h: int|
                    0 <= i < a && 0 <= h < nheads ==> #[trigger] self.head_follows(
                        scale,
                        i,
                        h,
                        ys@[i]@[h],
                        lasts@[i]@[h],
                    ),
        {
            let mut yrow: Vec<Matrix<T>> = Vec::with_capacity(nheads);
            let mut srow: Vec<Matrix<T>> = Vec::with_capacity(nheads);
            for h in 0..nheads
                invariant
                    self.valid(),
                    chunk_len > 0,
                    padded_len(self.q_bshk.dims().1 as int, chunk_len as int) <= usize::MAX,
                    self.q_bshk.has_shape(batch as int, sequence as int, nheads as int, nk as int),
                    nv == self.v_bshv.dims().3,
                    a < batch,
                    yrow@.len() == h,
                    srow@.len() == h,
                    forall|j: int|
                        0 <= j < h ==> #[trigger] self.head_follows(
                            scale,
                            a as int,
                            j,
                            yrow@[j],
                            srow@[j],
                        ),
            {
                let head = self.head(a, h);
                let state = self.state_bhkv.block(a, h);
                let (y, last) = head_chunk(&head, &state, batch, nheads, chunk_len, solve, scale);
                assert(self.head_follows(scale, a as int, h as int, y, last));
                yrow.push(y);
                srow.push(last);
            }
            ys.push(yrow);
            lasts.push(srow);
        }
        let fy = |a: usize, t: usize, h: usize, c: usize| -> (r: T)
            requires
                a < batch,
                t < sequence,
                h < nheads,
                c < nv,
            ensures
                r == ys@[a as int]@[h as int]@(t as int, c as int),
            {
                assert(self.head_follows(
                    scale,
                    a as int,
                    h as int,
                    ys@[a as int]@[h as int],
                    lasts@[a as int]@[h as int],
                ));
                ys[a][h].at(t, c)
            };
        let y = Tensor4::from_fn(batch, sequence, nheads, nv, fy);
        let fs = |a: usize, h: usize, d: usize, c: usize| -> (r: T)
            requires
                a < batch,
                h < nheads,
                d < nk,
                c < nv,
            ensures
                r == lasts@[a as int]@[h as int]@(d as int, c as int),
            {
                assert(self.head_follows(
                    scale,
                    a as int,
                    h as int,
                    ys@[a as int]@[h as int],
                    lasts@[a as int]@[h as int],
                ));
                lasts[a][h].at(d, c)
            };
        let last = Tensor4::from_fn(batch, nheads, nk, nv, fs);
        proof {
            assert forall|a: int, t: int, h: int, c: int|
                0 <= a < batch && 0 <= t < sequence && 0 <= h < nheads && 0 <= c < nv implies
                #[trigger] y@(a, t, h, c) == output(
                self.stream(a, h),
                nk as int,
                scale,
                last_plane(self.state_bhkv@, a, h),
                t,
                c,
            ) by {
                assert(self.head_follows(scale, a, h, ys@[a]@[h], lasts@[a]@[h]));
            }
            assert forall|a: int, h: int, d: int, c: int|
                0 <= a < batch && 0 <= h < nheads && 0 <= d < nk && 0 <= c < nv implies
                #[trigger] last@(a, h, d, c) == state_after(
                self.stream(a, h),
                nk as int,
                last_plane(self.state_bhkv@, a, h),
                sequence as int,
            )(d, c) by {
                assert(self.head_follows(scale, a, h, ys@[a]@[h], lasts@[a]@[h]));
            }
        }
        (y, last)
    }

    /// The step-by-step evaluation at a given scale.
    fn by_steps(&self, scale: T) -> (r: (Tensor4<T>, Tensor4<T>))
        requires
            self.valid(),
        ensures
            self.evaluates_to(scale, r.0, r.1),
    {
        let (batch, sequence, nheads, nk, nv) = self.dims();
        let fs = |a: usize, h: usize, d: usize, c: usize| -> (r: T)
            requires
                a < batch,
                h < nheads,
                d < nk,
                c < nv,
            ensures
                r == self.state_bhkv@(a as int, h as int, d as int, c as int),
            { self.state_bhkv.at(a, h, d, c) };
        let mut state = Tensor4::from_fn(batch, nheads, nk, nv, fs);
        let mut ys: Vec<Tensor3<T>> = Vec::with_capacity(sequence);
        for t in 0..sequence
            invariant
                self.valid(),
                self.q_bshk.has_shape(batch as int, sequence as int, nheads as int, nk as int),
                nv == self.v_bshv.dims().3,
                ys@.len() == t,
                state.has_shape(batch as int, nheads as int, nk as int, nv as int),
                forall|a: int, h: int, d: int, c: int|
                    0 <= a < batch && 0 <= h < nheads && 0 <= d < nk && 0 <= c < nv
                        ==> #[trigger] state@(a, h, d, c) == state_after(
                        self.stream(a, h),
                        nk as int,
                        last_plane(self.state_bhkv@, a, h),
                        t as int,
                    )(d, c),
                forall|i: int|
                    0 <= i < t ==> (#[trigger] ys@[i]).has_shape(
                        batch as int,
                        nheads as int,
                        nv as int,
                    ),
                forall|i: int, a: int, h: int, c: int|
                    0 <= i < t && 0 <= a < batch && 0 <= h < nheads && 0 <= c < nv
                        ==> #[trigger] ys@[i]@(a, h, c) == output(
                        self.stream(a, h),
                        nk as int,
                        scale,
                        last_plane(self.state_bhkv@, a, h),
                        i,
                        c,
                    ),
        {
            let q = self.q_bshk.step(t);
            let k = self.k_bshk.step(t);
            let v = self.v_bshv.step(t);
            let erase = self.erase_bshK.step(t);
            let write = self.write_bshV.step(t);
            let g = match &self.g_bshK {
                Some(g) => Some(g.step(t)),
                None => None,
            };
            let (y, next) = delta_step(&q, &k, &v, &erase, &write, &g, &state, scale);
            proof {
                let (n, s0) = (nk as int, self.state_bhkv@);
                assert forall|a: int, h: int| 0 <= a < batch && 0 <= h < nheads implies {
                    &&& agree(
                        n,
                        nv as int,
                        last_plane(next@, a, h),
                        #[trigger] state_after(self.stream(a, h), n, last_plane(s0, a, h), t + 1),
                    )
                    &&& forall|c: int|
                        0 <= c < nv ==> #[trigger] y@(a, h, c) == output(
                            self.stream(a, h),
                            n,
                            scale,
                            last_plane(s0, a, h),
                            t as int,
                            c,
                        )
                } by {
                    let x = step_stream(q, k, v, erase, write, g, a, h);
                    let w = self.stream(a, h);
                    let z = from_step(w, t as int);
                    let (s, r) = (
                        last_plane(state@, a, h),
                        state_after(w, n, last_plane(s0, a, h), t as int),
                    );
                    assert(agree(n, nv as int, s, r)) by {
                        assert forall|d: int, c: int| 0 <= d < n && 0 <= c < nv implies
                            #[trigger] s(d, c) == r(d, c) by {
                            assert(state@(a, h, d, c) == r(d, c));
                        }
                    }
                    assert(streams_agree(1, n, nv as int, x, z));
                    lemma_run_depends(x, z, n, nv as int, s, r, 1);
                    lemma_run_continues(w, n, last_plane(s0, a, h), t as int, 1);
                    assert forall|d: int, c: int| 0 <= d < n && 0 <= c < nv implies
                        #[trigger] last_plane(next@, a, h)(d, c) == state_after(
                        w,
                        n,
                        last_plane(s0, a, h),
                        t + 1,
                    )(d, c) by {
                        assert(next@(a, h, d, c) == state_after(x, n, s, 1)(d, c));
                    }
                    assert forall|c: int| 0 <= c < nv implies #[trigger] y@(a, h, c) == output(
                        w,
                        n,
                        scale,
                        last_plane(s0, a, h),
                        t as int,
                        c,
                    ) by {
                        lemma_output_depends(x, z, n, nv as int, scale, s, r, 0, c);
                        lemma_output_continues(w, n, scale, last_plane(s0, a, h), t as int, 0, c);
                    }
                }
                assert forall|a: int, h: int, d: int, c: int|
                    0 <= a < batch && 0 <= h < nheads && 0 <= d < nk && 0 <= c < nv implies
                    #[trigger] next@(a, h, d, c) == state_after(
                    self.stream(a, h),
                    n,
                    last_plane(s0, a, h),
                    t + 1,
                )(d, c) by {
                    let after = state_after(self.stream(a, h), n, last_plane(s0, a, h), t + 1);
                    assert(last_plane(next@, a, h)(d, c) == after(d, c));
                }
                assert forall|a: int, h: int, c: int|
                    0 <= a < batch && 0 <= h < nheads && 0 <= c < nv implies #[trigger] y@(a, h, c)
                    == output(self.stream(a, h), n, scale, last_plane(s0, a, h), t as int, c) by {
                    let after = state_after(self.stream(a, h), n, last_plane(s0, a, h), t + 1);
                }
            }
            state = next;
            ys.push(y);
        }
        let fy = |a: usize, t: usize, h: usize, c: usize| -> (r: T)
            requires
                a < batch,
                t < sequence,
                h < nheads,
                c < nv,
            ensures
                r == ys@[t as int]@(a as int, h as int, c as int),
            { ys[t].at(a, h, c) };
        let y = Tensor4::from_fn(batch, sequence, nheads, nv, fy);
        (y, state)
    }
}

impl<T: Ring> DeltaInput<T> {
    /// Whether `y` and `last` are what the delta rule gives for one head.
    spec fn head_follows(&self, scale: T, a: int, h: int, y: Matrix<T>, last: Matrix<T>) -> bool {
        let (nk, nv) = (self.q_bshk.dims().3 as int, self.v_bshv.dims().3 as int);
        let sequence = self.q_bshk.dims().1 as int;
        let s0 = last_plane(self.state_bhkv@, a, h);
        &&& y.has_shape(sequence, nv)
        &&& last.has_shape(nk, nv)
        &&& forall|t: int, c: int|
            0 <= t < sequence && 0 <= c < nv ==> #[trigger] y@(t, c) == output(
                self.stream(a, h),
                nk,
                scale,
                s0,
                t,
                c,
            )
        &&& forall|d: int, c: int|
            0 <= d < nk && 0 <= c < nv ==> #[trigger] last@(d, c) == state_after(
                self.stream(a, h),
                nk,
                s0,
                sequence,
            )(d, c)
    }
}

impl<T: Real> DeltaInput<T> {
    /// The readout scale: the given one, or `1 / sqrt(head_k_dim)`.
    pub open spec fn readout_scale(&self) -> T {
        match self.scale {
            Some(scale) => scale,
            None => T::count(self.q_bshk.dims().3).root().recip(),
        }
    }

    /// Whether the shapes agree and every entry is a number.
    pub open spec fn sane(&self) -> bool {
        &&& self.valid()
        &&& finite4(self.q_bshk)
        &&& finite4(self.k_bshk)
        &&& finite4(self.v_bshv)
        &&& finite4(self.erase_bshK)
        &&& finite4(self.write_bshV)
        &&& finite4(self.state_bhkv)
        &&& self.g_bshK matches Some(g) ==> finite4(g)
    }

    /// Checks that the shapes agree and that every entry is a number.
    pub fn sanity(&self) -> (r: bool)
        ensures
            r == self.sane(),
    {
        let forget: bool = match &self.g_bshK {
            Some(g) => is_finite4(g),
            None => true,
        };
        self.shapes_agree() && is_finite4(&self.q_bshk) && is_finite4(&self.k_bshk) && is_finite4(
            &self.v_bshv,
        ) && is_finite4(&self.erase_bshK) && is_finite4(&self.write_bshV) && is_finite4(
            &self.state_bhkv,
        ) && forget
    }

    /// The readout scale that is applied.
    pub fn resolved_scale(&self) -> (r: T)
        ensures
            r == self.readout_scale(),
    {
        match self.scale {
            Some(scale) => scale,
            None => T::from_count(self.q_bshk.dims().3).square_root().reciprocal(),
        }
    }

    /// Evaluates the delta rule one step after the other.
    pub fn delta_recurrent(&self) -> (r: (Tensor4<T>, Tensor4<T>))
        requires
            self.valid(),
        ensures
            self.evaluates_to(self.readout_scale(), r.0, r.1),
    {
        self.by_steps(self.resolved_scale())
    }

    /// Evaluates the delta rule chunk by chunk.
    pub fn delta_chunk(&self, chunk_len: usize, solve: TriSolve) -> (r: (Tensor4<T>, Tensor4<T>))
        requires
            self.valid(),
            chunk_len > 0,
            padded_len(self.q_bshk.dims().1 as int, chunk_len as int) <= usize::MAX,
        ensures
            self.evaluates_to(self.readout_scale(), r.0, r.1),
    {
        self.by_chunks(chunk_len, solve, self.resolved_scale())
    }

    /// Evaluates the delta rule chunk by chunk, with blocked substitution.
    ///
    /// Its gradient is [`combined_backward`](crate::delta::combined::combined_backward).
    pub fn delta_chunk_recalculated(&self, chunk_len: usize) -> (r: (Tensor4<T>, Tensor4<T>))
        requires
            self.valid(),
            chunk_len > 0,
            padded_len(self.q_bshk.dims().1 as int, chunk_len as int) <= usize::MAX,
        ensures
            self.evaluates_to(self.readout_scale(), r.0, r.1),
    {
        self.by_chunks(chunk_len, TriSolve::Blocked, self.resolved_scale())
    }

    /// Evaluates the delta rule along the given path: the outputs
    /// `[batch, sequence, nheads, head_v_dim]` and the last state
    /// `[batch, nheads, head_k_dim, head_v_dim]`.
    pub fn run(&self, path: DeltaPath) -> (r: (Tensor4<T>, Tensor4<T>))
        requires
            self.valid(),
            path.admits(self.q_bshk.dims().1 as int),
        ensures
            self.evaluates_to(self.readout_scale(), r.0, r.1),
    {
        let chunk_len: usize = path.resolved_chunk_len();
        match path {
            DeltaPath::Recurrent => self.delta_recurrent(),
            DeltaPath::Chunk { chunk_len: _, solve } => self.delta_chunk(chunk_len, solve),
            DeltaPath::ChunkRecalculated { chunk_len: _ } => {
                self.delta_chunk_recalculated(chunk_len)
            },
        }
    }
}

} // verus!
