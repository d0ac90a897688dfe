//! The chunkwise form, one chunk of one head at a time.
//!
//! 1. [`Chunk::cut`] takes a chunk out of a head's inputs, scales the queries and
//!    accumulates the log decay.
//! 2. [`Chunk::wy`] builds the scores inside the chunk, the inverse of its
//!    triangular system, and what follows from both.
//! 3. [`Chunk::advance`] carries the state over the chunk.
use vstd::prelude::*;

use crate::delta::decay::{block_causal_scores, lemma_blocks, BlockDecay};
use crate::delta::rule::{
    corrections, cumulative, decayed_rows, decayed_scores, erase_keys, output, scaled_queries,
    state_after, write_values, Stream,
};
use crate::delta::tri::{
    block_of, is_inverse, lemma_inverse_of_agreeing, unit_lower, unit_lower_inverse, TriSolve,
};
use crate::delta::wy::{lemma_chunk_deltas, lemma_chunk_outputs, lemma_chunk_state};
use crate::mat::{agree, clip, hadamard, mat_add, mat_mul, mat_neg, mat_sub, transposed, tril, Mat};
use crate::matrix::{row_sums, row_window, Matrix};
use crate::ring::{
    lemma_expo_self, lemma_mul_one, lemma_mul_zero, lemma_one_mul, lemma_zero_mul, Ring, Scalar,
};
use crate::sum::{lemma_sum_ext, lemma_sum_scale_right, sum};

verus! {

/// Every length the chunkwise form is written in terms of.
#[derive(Clone, Copy, Debug, PartialEq, Eq, Structural)]
pub struct Dims {
    /// Sequences in the batch.
    pub batch: usize,
    /// Steps of the sequence, before padding.
    pub sequence: usize,
    /// `nchunks * chunk_len`
    pub sequence_padded: usize,
    /// Chunks per sequence.
    pub nchunks: usize,
    /// Steps per chunk.
    pub chunk_len: usize,
    /// Heads.
    pub nheads: usize,
    /// Key channels per head.
    pub head_k_dim: usize,
    /// Value channels per head.
    pub head_v_dim: usize,
    /// The erase gate's last axis: `1` or `head_k_dim`.
    pub erase_width: usize,
    /// The write gate's last axis: `1` or `head_v_dim`.
    pub write_width: usize,
    /// The forget gate's last axis: `1` or `head_k_dim`; `0` when there is none.
    pub decay_width: usize,
}

impl Dims {
    /// Whether there is a forget gate.
    pub fn gated(&self) -> (r: bool)
        ensures
            r == (self.decay_width > 0),
    {
        self.decay_width > 0
    }

    /// Whether the forget gate differs between key channels.
    pub fn channel_decay(&self) -> (r: bool)
        ensures
            r == (self.decay_width > 1),
    {
        self.decay_width > 1
    }

    /// How many chunks there are over all heads of all sequences.
    pub fn group(&self) -> (r: usize)
        requires
            self.batch * self.nchunks * self.nheads <= usize::MAX,
        ensures
            r == self.batch * self.nchunks * self.nheads,
    {
        if self.nheads == 0 {
            assert(self.batch * self.nchunks * 0 == 0);
            return 0;
        }
        assert(self.batch * self.nchunks <= self.batch * self.nchunks * self.nheads)
            by (nonlinear_arith)
            requires
                self.nheads >= 1,
                self.batch * self.nchunks >= 0,
        ;
        self.batch * self.nchunks * self.nheads
    }
}

/// A gate carried at width one stands for the same value on every channel.
pub open spec fn widened<R>(width: int, gate: Mat<R>) -> Mat<R> {
    |i: int, d: int|
        if width == 1 {
            gate(i, 0)
        } else {
            gate(i, d)
        }
}

/// Whether `width` is one of the two a gate over `full` channels can have.
pub open spec fn gate_width(width: int, full: int) -> bool {
    width == 1 || width == full
}

/// The value of a gate on channel `d` of row `i`.
pub fn gate_at<T: Scalar>(gate: &Matrix<T>, i: usize, d: usize) -> (r: T)
    requires
        i < gate.rows(),
        gate.cols() == 1 || d < gate.cols(),
    ensures
        r == widened(gate.cols() as int, gate@)(i as int, d as int),
{
    if gate.cols() == 1 {
        gate.at(i, 0)
    } else {
        gate.at(i, d)
    }
}

/// The entries of `a` times those of a gate.
pub fn gated_by<T: Scalar>(a: &Matrix<T>, gate: &Matrix<T>) -> (r: Matrix<T>)
    requires
        gate.rows() == a.rows(),
        gate_width(gate.cols() as int, a.cols() as int),
    ensures
        r.has_shape(a.rows() as int, a.cols() as int),
        r@ == hadamard(a@, widened(gate.cols() as int, gate@)),
{
    let f = |i: usize, d: usize| -> (r: T)
        requires
            i < a.rows(),
            d < a.cols(),
        ensures
            r == a@(i as int, d as int) * widened(gate.cols() as int, gate@)(i as int, d as int),
        { a.at(i, d).times(gate_at(gate, i, d)) };
    let r = Matrix::from_fn(a.rows(), a.cols(), f);
    proof {
        broadcast use lemma_zero_mul;

        assert(r@ =~= hadamard(a@, widened(gate.cols() as int, gate@)));
    }
    r
}

/// One chunk of one head's inputs.
pub struct Chunk<T> {
    /// Queries times the readout scale: `[chunk_len, head_k_dim]`.
    pub q: Matrix<T>,
    /// Keys: `[chunk_len, head_k_dim]`.
    pub k: Matrix<T>,
    /// Values: `[chunk_len, head_v_dim]`.
    pub v: Matrix<T>,
    /// The erase gate: `[chunk_len, 1 or head_k_dim]`.
    pub erase: Matrix<T>,
    /// The write gate: `[chunk_len, 1 or head_v_dim]`.
    pub write: Matrix<T>,
    /// The log decay accumulated over the chunk, if there is a forget gate:
    /// `[chunk_len, 1 or head_k_dim]`.
    pub gc: Option<Matrix<T>>,
    /// Its exponential.
    pub eg: Option<Matrix<T>>,
}

impl<T: Ring> Chunk<T> {
    /// Whether the chunk holds `nl` steps on `nk` key and `nv` value channels.
    pub open spec fn shaped(&self, nl: int, nk: int, nv: int) -> bool {
        &&& self.q.has_shape(nl, nk)
        &&& self.k.has_shape(nl, nk)
        &&& self.v.has_shape(nl, nv)
        &&& self.erase.rows() == nl
        &&& gate_width(self.erase.cols() as int, nk)
        &&& self.write.rows() == nl
        &&& gate_width(self.write.cols() as int, nv)
        &&& self.gc is Some == self.eg is Some
        &&& self.gc matches Some(gc) ==> {
            &&& gc.rows() == nl
            &&& gate_width(gc.cols() as int, nk)
            &&& self.eg->0.has_shape(nl, gc.cols() as int)
            &&& self.eg->0@ == clip(nl, gc.cols() as int, |i: int, d: int| gc@(i, d).expo())
        }
    }

    /// Whether the chunk holds at least one step, with the same lengths throughout.
    pub open spec fn well_formed(&self) -> bool {
        &&& self.k.rows() > 0
        &&& self.shaped(self.k.rows() as int, self.k.cols() as int, self.v.cols() as int)
    }

    /// The accumulated log decay on the key channels; zero without a forget gate.
    pub open spec fn gate(&self) -> Mat<T> {
        match self.gc {
            Some(gc) => widened(gc.cols() as int, gc@),
            None => |i: int, d: int| T::zero(),
        }
    }

    /// The erase gate on the key channels.
    pub open spec fn erase_wide(&self) -> Mat<T> {
        widened(self.erase.cols() as int, self.erase@)
    }

    /// The write gate on the value channels.
    pub open spec fn write_wide(&self) -> Mat<T> {
        widened(self.write.cols() as int, self.write@)
    }

    /// Whether the chunk holds the first `nl` steps of a stream.
    pub open spec fn holds(&self, nl: int, nk: int, nv: int, x: Stream<T>, scale: T) -> bool {
        &&& self.shaped(nl, nk, nv)
        &&& agree(nl, nk, self.q@, scaled_queries(x, scale))
        &&& agree(nl, nk, self.k@, x.k)
        &&& agree(nl, nv, self.v@, x.v)
        &&& agree(nl, nk, self.erase_wide(), x.erase)
        &&& agree(nl, nv, self.write_wide(), x.write)
        &&& agree(nl, nk, self.gate(), cumulative(x.g))
    }
}

/// What the scan reads of a chunk, and what its gradient reads again.
pub struct Wy<T> {
    /// The keys times the erase gate.
    pub ke: Matrix<T>,
    /// The values times the write gate.
    pub vw: Matrix<T>,
    /// The erase keys decayed from the start of the chunk.
    pub kg: Matrix<T>,
    /// The inverse of the chunk's triangular system.
    pub t: Matrix<T>,
    /// `T vw`: the deltas the chunk would have from an empty state.
    pub u: Matrix<T>,
    /// `T kg`: how the deltas read the entering state.
    pub w: Matrix<T>,
    /// The causal scores of the queries against the keys.
    pub attn: Matrix<T>,
}

impl<T: Ring> Wy<T> {
    /// Whether these are the matrices of the given chunk.
    pub open spec fn matches(&self, chunk: Chunk<T>, nl: int, nk: int, nv: int) -> bool {
        &&& self.ke.has_shape(nl, nk)
        &&& self.vw.has_shape(nl, nv)
        &&& self.kg.has_shape(nl, nk)
        &&& self.t.has_shape(nl, nl)
        &&& self.u.has_shape(nl, nv)
        &&& self.w.has_shape(nl, nk)
        &&& self.attn.has_shape(nl, nl)
        &&& self.ke@ == hadamard(chunk.k@, chunk.erase_wide())
        &&& self.vw@ == hadamard(chunk.v@, chunk.write_wide())
        &&& self.kg@ == decayed_rows(self.ke@, chunk.gate())
        &&& is_inverse(
            nl,
            self.t@,
            unit_lower(mat_neg(decayed_scores(nk, self.ke@, chunk.k@, chunk.gate()))),
        )
        &&& self.u@ == mat_mul(nl, self.t@, self.vw@)
        &&& self.w@ == mat_mul(nl, self.t@, self.kg@)
        &&& self.attn@ == clip(
            nl,
            nl,
            tril(decayed_scores(nk, chunk.q@, chunk.k@, chunk.gate())),
        )
    }

    /// The deltas of the chunk when `s` enters it.
    pub open spec fn deltas(&self, nk: int, s: Mat<T>) -> Mat<T> {
        mat_sub(self.u@, mat_mul(nk, self.w@, s))
    }
}

/// The exponential of a gate that is zero everywhere is one.
proof fn lemma_no_decay<R: Ring>()
    ensures
        R::zero().expo() == R::one(),
        (R::zero() - R::zero()).expo() == R::one(),
{
    R::expo_zero();
    lemma_expo_self(R::zero());
}

impl<T: Scalar> Chunk<T> {
    /// The chunk of `len` steps from step `start` on, zero past the last step.
    pub fn cut(
        q: &Matrix<T>,
        k: &Matrix<T>,
        v: &Matrix<T>,
        erase: &Matrix<T>,
        write: &Matrix<T>,
        g: Option<&Matrix<T>>,
        scale: T,
        start: usize,
        len: usize,
    ) -> (r: Self)
        requires
            start + len <= usize::MAX,
            k.cols() == q.cols(),
            gate_width(erase.cols() as int, q.cols() as int),
            gate_width(write.cols() as int, v.cols() as int),
            g matches Some(g) ==> gate_width(g.cols() as int, q.cols() as int),
        ensures
            r.shaped(len as int, q.cols() as int, v.cols() as int),
            r.q@ == (|i: int, d: int| row_window(q@, start as int, len as int)(i, d) * scale),
            r.k@ == row_window(k@, start as int, len as int),
            r.v@ == row_window(v@, start as int, len as int),
            r.erase.cols() == erase.cols(),
            r.erase@ == row_window(erase@, start as int, len as int),
            r.write.cols() == write.cols(),
            r.write@ == row_window(write@, start as int, len as int),
            r.gc is Some == g is Some,
            g matches Some(g) ==> r.gc->0.cols() == g.cols() && r.gc->0@ == clip(
                len as int,
                g.cols() as int,
                row_sums(row_window(g@, start as int, len as int)),
            ),
    {
        let (gc, eg) = match g {
            Some(g) => {
                let gc = g.window(start, len).cumulated();
                let eg = gc.exponential();
                (Some(gc), Some(eg))
            },
            None => (None, None),
        };
        Chunk {
            q: q.window(start, len).scaled(scale),
            k: k.window(start, len),
            v: v.window(start, len),
            erase: erase.window(start, len),
            write: write.window(start, len),
            gc,
            eg,
        }
    }

    /// The decay between each two steps as a causal mask, for a gate that is the
    /// same on every channel; `None` without a gate.
    pub fn head_decay_mask(&self) -> (r: Option<Matrix<T>>)
        requires
            self.gc matches Some(gc) ==> gc.cols() == 1,
        ensures
            r is Some == self.gc is Some,
            r matches Some(mask) ==> {
                let gc = self.gc->0;
                &&& mask.has_shape(gc.rows() as int, gc.rows() as int)
                &&& mask@ == clip(
                    gc.rows() as int,
                    gc.rows() as int,
                    tril(|i: int, j: int| (gc@(i, 0) - gc@(j, 0)).expo()),
                )
            },
    {
        match &self.gc {
            Some(gc) => {
                let n: usize = gc.rows();
                let ghost full = tril(|i: int, j: int| (gc@(i, 0) - gc@(j, 0)).expo());
                let f = |i: usize, j: usize| -> (r: T)
                    requires
                        i < n,
                        j < n,
                    ensures
                        r == full(i as int, j as int),
                    {
                        if j <= i {
                            gc.at(i, 0).minus(gc.at(j, 0)).exponential()
                        } else {
                            T::nil()
                        }
                    };
                let mask = Matrix::from_fn(n, n, f);
                assert(mask@ =~= clip(n as int, n as int, full));
                Some(mask)
            },
            None => None,
        }
    }

    /// The scores of the given rows against the keys, with one decay per head.
    fn head_scores(&self, rows: &Matrix<T>, mask: &Option<Matrix<T>>) -> (r: Matrix<T>)
        requires
            rows.has_shape(self.k.rows() as int, self.k.cols() as int),
            self.gc matches Some(gc) ==> gc.cols() == 1 && gc.rows() == self.k.rows(),
            mask is Some == self.gc is Some,
            mask matches Some(mask) ==> {
                let gc = self.gc->0;
                &&& mask.has_shape(gc.rows() as int, gc.rows() as int)
                &&& mask@ == clip(
                    gc.rows() as int,
                    gc.rows() as int,
                    tril(|i: int, j: int| (gc@(i, 0) - gc@(j, 0)).expo()),
                )
            },
        ensures
            r.has_shape(rows.rows() as int, rows.rows() as int),
            forall|i: int, j: int|
                0 <= j <= i < rows.rows() ==> #[trigger] r@(i, j) == decayed_scores(
                    rows.cols() as int,
                    rows@,
                    self.k@,
                    self.gate(),
                )(i, j),
    {
        let raw = rows.matmul(&self.k.transpose());
        let r = match mask {
            Some(mask) => raw.times(mask),
            None => raw,
        };
        proof {
            let nk = rows.cols() as int;
            assert forall|i: int, j: int| 0 <= j <= i < rows.rows() implies #[trigger] r@(i, j)
                == decayed_scores(nk, rows@, self.k@, self.gate())(i, j) by {
                let e = (self.gate()(i, 0) - self.gate()(j, 0)).expo();
                let plain = |d: int| rows@(i, d) * self.k@(j, d);
                lemma_sum_ext(nk, |d: int| rows@(i, d) * transposed(self.k@)(d, j), plain);
                lemma_sum_scale_right(nk, plain, e);
                lemma_sum_ext(
                    nk,
                    |d: int| plain(d) * e,
                    |d: int|
                        (rows@(i, d) * self.k@(j, d)) * (self.gate()(i, d) - self.gate()(
                            j,
                            d,
                        )).expo(),
                );
                if self.gc is None {
                    lemma_no_decay::<T>();
                    lemma_mul_one(sum(nk, plain));
                }
            }
        }
        r
    }

    /// The key-key and query-key scores of the chunk. Entries above the diagonal
    /// are unspecified: each caller drops them.
    pub fn scores(&self, ke: &Matrix<T>) -> (r: (Matrix<T>, Matrix<T>))
        requires
            self.well_formed(),
            ke.has_shape(self.k.rows() as int, self.k.cols() as int),
        ensures
            r.0.has_shape(self.k.rows() as int, self.k.rows() as int),
            r.1.has_shape(self.k.rows() as int, self.k.rows() as int),
            forall|i: int, j: int|
                0 <= j <= i < self.k.rows() ==> #[trigger] r.0@(i, j) == decayed_scores(
                    self.k.cols() as int,
                    ke@,
                    self.k@,
                    self.gate(),
                )(i, j),
            forall|i: int, j: int|
                0 <= j <= i < self.k.rows() ==> #[trigger] r.1@(i, j) == decayed_scores(
                    self.k.cols() as int,
                    self.q@,
                    self.k@,
                    self.gate(),
                )(i, j),
    {
        match &self.gc {
            Some(gc) if gc.cols() != 1 => {
                let decay = BlockDecay::new(&self.k, gc);
                let akk = decay.scores(ke);
                let aqk = decay.scores(&self.q);
                proof {
                    let (l, nk, m) = (
                        self.k.rows() as int,
                        self.k.cols() as int,
                        decay.block_len as int,
                    );
                    assert(self.gate() =~= gc@);
                    assert(decay.splits(l, nk, self.k@, gc@));
                    lemma_blocks(l, m);
                    assert forall|i: int, j: int| 0 <= j <= i < l implies #[trigger] akk@(i, j)
                        == decayed_scores(nk, ke@, self.k@, self.gate())(i, j) by {
                        assert(block_of(m, j) <= block_of(m, i));
                        assert(akk@(i, j) == block_causal_scores(m, nk, ke@, self.k@, gc@)(i, j));
                    }
                    assert forall|i: int, j: int| 0 <= j <= i < l implies #[trigger] aqk@(i, j)
                        == decayed_scores(nk, self.q@, self.k@, self.gate())(i, j) by {
                        assert(block_of(m, j) <= block_of(m, i));
                        assert(aqk@(i, j) == block_causal_scores(m, nk, self.q@, self.k@, gc@)(
                            i,
                            j,
                        ));
                    }
                }
                (akk, aqk)
            },
            _ => {
                let mask = self.head_decay_mask();
                (self.head_scores(ke, &mask), self.head_scores(&self.q, &mask))
            },
        }
    }

    /// Rows decayed from the start of the chunk to their own step.
    pub fn decayed(&self, rows: &Matrix<T>) -> (r: Matrix<T>)
        requires
            self.well_formed(),
            rows.has_shape(self.k.rows() as int, self.k.cols() as int),
        ensures
            r.has_shape(rows.rows() as int, rows.cols() as int),
            r@ == decayed_rows(rows@, self.gate()),
    {
        match &self.eg {
            Some(eg) => {
                let r = gated_by(rows, eg);
                proof {
                    broadcast use lemma_zero_mul;

                    assert(r@ =~= decayed_rows(rows@, self.gate()));
                }
                r
            },
            None => {
                let r = rows.copy();
                proof {
                    broadcast use lemma_mul_one;

                    lemma_no_decay::<T>();
                    assert(r@ =~= decayed_rows(rows@, self.gate()));
                }
                r
            },
        }
    }

    /// The chunk's scores, the inverse of its triangular system, and what the
    /// scan reads of both.
    pub fn wy(&self, solve: TriSolve) -> (r: Wy<T>)
        requires
            self.well_formed(),
        ensures
            r.matches(
                *self,
                self.k.rows() as int,
                self.k.cols() as int,
                self.v.cols() as int,
            ),
    {
        let ghost l = self.k.rows() as int;
        let ghost nk = self.k.cols() as int;
        let ke = gated_by(&self.k, &self.erase);
        let vw = gated_by(&self.v, &self.write);
        let (akk, aqk) = self.scores(&ke);
        let n = akk.negated().strict_lower();
        let t = unit_lower_inverse(&n, solve);
        let kg = self.decayed(&ke);
        let u = t.matmul(&vw);
        let w = t.matmul(&kg);
        let attn = aqk.lower();
        proof {
            let kk = decayed_scores(nk, ke@, self.k@, self.gate());
            assert forall|i: int, j: int| 0 <= i < l && 0 <= j < l implies #[trigger] unit_lower(
                mat_neg(kk),
            )(i, j) == unit_lower(n@)(i, j) by {
                if j < i {
                    assert(akk@(i, j) == kk(i, j));
                }
            }
            lemma_inverse_of_agreeing(l, t@, unit_lower(mat_neg(kk)), unit_lower(n@));
            let qk = decayed_scores(nk, self.q@, self.k@, self.gate());
            assert(attn@ =~= clip(l, l, tril(qk)));
        }
        Wy { ke, vw, kg, t, u, w, attn }
    }

    /// The deltas of the chunk when `state` enters it.
    pub fn deltas(&self, wy: &Wy<T>, state: &Matrix<T>) -> (r: Matrix<T>)
        requires
            self.well_formed(),
            wy.matches(
                *self,
                self.k.rows() as int,
                self.k.cols() as int,
                self.v.cols() as int,
            ),
            state.has_shape(self.k.cols() as int, self.v.cols() as int),
        ensures
            r.has_shape(self.k.rows() as int, self.v.cols() as int),
            r@ == wy.deltas(self.k.cols() as int, state@),
    {
        wy.u.minus(&wy.w.matmul(state))
    }

    /// The outputs of the chunk when `state` enters it.
    pub fn outputs(&self, wy: &Wy<T>, state: &Matrix<T>, deltas: &Matrix<T>) -> (r: Matrix<T>)
        requires
            self.well_formed(),
            wy.matches(
                *self,
                self.k.rows() as int,
                self.k.cols() as int,
                self.v.cols() as int,
            ),
            state.has_shape(self.k.cols() as int, self.v.cols() as int),
            deltas.has_shape(self.k.rows() as int, self.v.cols() as int),
        ensures
            r.has_shape(self.k.rows() as int, self.v.cols() as int),
            r@ == mat_add(
                mat_mul(self.k.cols() as int, decayed_rows(self.q@, self.gate()), state@),
                mat_mul(self.k.rows() as int, wy.attn@, deltas@),
            ),
    {
        self.decayed(&self.q).matmul(state).plus(&wy.attn.matmul(deltas))
    }

    /// The keys decayed from their own step to the end of the chunk.
    pub fn carried(&self) -> (r: Matrix<T>)
        requires
            self.well_formed(),
        ensures
            r.has_shape(self.k.rows() as int, self.k.cols() as int),
            r@ == self.carry(),
    {
        match &self.gc {
            Some(gc) => {
                let last: usize = self.k.rows() - 1;
                let f = |j: usize, d: usize| -> (r: T)
                    requires
                        j < self.k.rows(),
                        d < self.k.cols(),
                    ensures
                        r == self.carry()(j as int, d as int),
                    {
                        let e = gate_at(gc, last, d).minus(gate_at(gc, j, d)).exponential();
                        self.k.at(j, d).times(e)
                    };
                let r = Matrix::from_fn(self.k.rows(), self.k.cols(), f);
                proof {
                    broadcast use lemma_zero_mul;

                    assert(r@ =~= self.carry());
                }
                r
            },
            None => {
                let r = self.k.copy();
                proof {
                    broadcast use lemma_mul_one;

                    lemma_no_decay::<T>();
                    assert(r@ =~= self.carry());
                }
                r
            },
        }
    }

    /// The decay from each step to the end of the chunk, on every key channel;
    /// `None` without a forget gate.
    pub fn decay_to_end(&self) -> (r: Option<Matrix<T>>)
        requires
            self.well_formed(),
        ensures
            r is Some == self.gc is Some,
            r matches Some(ec) ==> ec.has_shape(self.k.rows() as int, self.k.cols() as int) && agree(
                self.k.rows() as int,
                self.k.cols() as int,
                ec@,
                |j: int, d: int|
                    (self.gate()(self.k.rows() - 1, d) - self.gate()(j, d)).expo(),
            ),
    {
        match &self.gc {
            Some(gc) => {
                let last: usize = self.k.rows() - 1;
                let f = |j: usize, d: usize| -> (r: T)
                    requires
                        j < self.k.rows(),
                        d < self.k.cols(),
                    ensures
                        r == (self.gate()(self.k.rows() - 1, d as int) - self.gate()(
                            j as int,
                            d as int,
                        )).expo(),
                    { gate_at(gc, last, d).minus(gate_at(gc, j, d)).exponential() };
                Some(Matrix::from_fn(self.k.rows(), self.k.cols(), f))
            },
            None => None,
        }
    }

    /// What the chunk's decay leaves of the entering state.
    pub fn kept(&self, state: &Matrix<T>) -> (r: Matrix<T>)
        requires
            self.well_formed(),
            state.has_shape(self.k.cols() as int, self.v.cols() as int),
        ensures
            r.has_shape(self.k.cols() as int, self.v.cols() as int),
            r@ == self.left_of(state@),
    {
        match &self.gc {
            Some(gc) => {
                let last: usize = self.k.rows() - 1;
                let f = |d: usize, c: usize| -> (r: T)
                    requires
                        d < state.rows(),
                        c < state.cols(),
                    ensures
                        r == self.left_of(state@)(d as int, c as int),
                    { gate_at(gc, last, d).exponential().times(state.at(d, c)) };
                let r = Matrix::from_fn(state.rows(), state.cols(), f);
                proof {
                    broadcast use lemma_mul_zero;

                    assert(r@ =~= self.left_of(state@));
                }
                r
            },
            None => {
                let r = state.copy();
                proof {
                    broadcast use lemma_one_mul;

                    lemma_no_decay::<T>();
                    assert(r@ =~= self.left_of(state@));
                }
                r
            },
        }
    }

    /// The state that leaves the chunk when `state` enters it.
    pub fn next_state(&self, state: &Matrix<T>, deltas: &Matrix<T>) -> (r: Matrix<T>)
        requires
            self.well_formed(),
            state.has_shape(self.k.cols() as int, self.v.cols() as int),
            deltas.has_shape(self.k.rows() as int, self.v.cols() as int),
        ensures
            r.has_shape(self.k.cols() as int, self.v.cols() as int),
            r@ == mat_add(
                self.left_of(state@),
                mat_mul(self.k.rows() as int, transposed(self.carry()), deltas@),
            ),
    {
        self.kept(state).plus(&self.carried().transpose().matmul(deltas))
    }
}

impl<T: Ring> Chunk<T> {
    /// The keys decayed from their own step to the end of the chunk.
    pub open spec fn carry(&self) -> Mat<T> {
        |j: int, d: int|
            self.k@(j, d) * (self.gate()(self.k.rows() - 1, d) - self.gate()(j, d)).expo()
    }

    /// What the chunk's decay leaves of a state.
    pub open spec fn left_of(&self, s: Mat<T>) -> Mat<T> {
        |d: int, c: int| self.gate()(self.k.rows() - 1, d).expo() * s(d, c)
    }
}

/// Over the steps it holds, a chunk's matrices give the deltas, the outputs and
/// the next state of the delta rule.
pub proof fn lemma_chunk_is_the_rule<R: Ring>(
    chunk: Chunk<R>,
    wy: Wy<R>,
    nl: int,
    nk: int,
    nv: int,
    x: Stream<R>,
    scale: R,
    s: Mat<R>,
)
    requires
        nl > 0,
        chunk.holds(nl, nk, nv, x, scale),
        wy.matches(chunk, nl, nk, nv),
    ensures
        agree(nl, nv, wy.deltas(nk, s), corrections(x, nk, s)),
        forall|i: int, c: int|
            0 <= i < nl && 0 <= c < nv ==> #[trigger] mat_add(
                mat_mul(nk, decayed_rows(chunk.q@, chunk.gate()), s),
                mat_mul(nl, wy.attn@, wy.deltas(nk, s)),
            )(i, c) == output(x, nk, scale, s, i, c),
        agree(
            nk,
            nv,
            mat_add(
                chunk.left_of(s),
                mat_mul(nl, transposed(chunk.carry()), wy.deltas(nk, s)),
            ),
            state_after(x, nk, s, nl),
        ),
{
    let gc = cumulative(x.g);
    let kk = decayed_scores(nk, wy.ke@, chunk.k@, chunk.gate());
    let qs = scaled_queries(x, scale);
    assert(agree(nl, nv, wy.vw@, write_values(x))) by {
        assert forall|i: int, c: int| 0 <= i < nl && 0 <= c < nv implies #[trigger] wy.vw@(i, c)
            == write_values(x)(i, c) by {
            assert(chunk.v@(i, c) == (x.v)(i, c));
            assert(chunk.write_wide()(i, c) == (x.write)(i, c));
        }
    }
    assert forall|i: int, d: int| 0 <= i < nl && 0 <= d < nk implies #[trigger] wy.ke@(i, d)
        == erase_keys(x)(i, d) by {
        assert(chunk.k@(i, d) == (x.k)(i, d));
        assert(chunk.erase_wide()(i, d) == (x.erase)(i, d));
    }
    assert forall|i: int, d: int| 0 <= i < nl && 0 <= d < nk implies #[trigger] wy.kg@(i, d)
        == decayed_rows(erase_keys(x), gc)(i, d) by {
        assert(wy.ke@(i, d) == erase_keys(x)(i, d));
        assert(chunk.gate()(i, d) == gc(i, d));
    }
    lemma_scores_depend(nl, nk, wy.ke@, erase_keys(x), chunk.k@, x.k, chunk.gate(), gc);
    lemma_scores_depend(nl, nk, chunk.q@, qs, chunk.k@, x.k, chunk.gate(), gc);
    assert forall|i: int, j: int| 0 <= j < i < nl implies #[trigger] kk(i, j) == decayed_scores(
        nk,
        erase_keys(x),
        x.k,
        gc,
    )(i, j) by {
    }
    lemma_chunk_deltas(x, nk, nv, nl, s, wy.vw@, wy.kg@, kk, wy.t@);
    let deltas = wy.deltas(nk, s);
    let qg = decayed_rows(chunk.q@, chunk.gate());
    assert forall|i: int, d: int| 0 <= i < nl && 0 <= d < nk implies #[trigger] qg(i, d)
        == decayed_rows(qs, gc)(i, d) by {
        assert(chunk.q@(i, d) == qs(i, d));
        assert(chunk.gate()(i, d) == gc(i, d));
    }
    assert forall|i: int, j: int| 0 <= i < nl && 0 <= j < nl implies #[trigger] wy.attn@(i, j)
        == tril(decayed_scores(nk, qs, x.k, gc))(i, j) by {
        assert(decayed_scores(nk, chunk.q@, chunk.k@, chunk.gate())(i, j) == decayed_scores(
            nk,
            qs,
            x.k,
            gc,
        )(i, j));
    }
    lemma_chunk_outputs(x, nk, nv, nl, scale, s, qg, wy.attn@, deltas);
    let ideal_kept = |d: int, c: int| gc(nl - 1, d).expo() * s(d, c);
    assert forall|d: int, c: int| 0 <= d < nk && 0 <= c < nv implies #[trigger] chunk.left_of(s)(
        d,
        c,
    ) == ideal_kept(d, c) by {
        assert(chunk.gate()(nl - 1, d) == gc(nl - 1, d));
    }
    let ideal_carry = |j: int, d: int| (x.k)(j, d) * (gc(nl - 1, d) - gc(j, d)).expo();
    assert forall|j: int, d: int| 0 <= j < nl && 0 <= d < nk implies #[trigger] chunk.carry()(j, d)
        == ideal_carry(j, d) by {
        assert(chunk.gate()(nl - 1, d) == gc(nl - 1, d));
        assert(chunk.gate()(j, d) == gc(j, d));
        assert(chunk.k@(j, d) == (x.k)(j, d));
    }
    lemma_chunk_state(x, nk, nv, nl, s, chunk.left_of(s), chunk.carry(), deltas);
}

/// Scores depend only on the channels there are.
proof fn lemma_scores_depend<R: Ring>(
    nl: int,
    nk: int,
    rows: Mat<R>,
    rows2: Mat<R>,
    k: Mat<R>,
    k2: Mat<R>,
    g: Mat<R>,
    g2: Mat<R>,
)
    requires
        agree(nl, nk, rows, rows2),
        agree(nl, nk, k, k2),
        agree(nl, nk, g, g2),
    ensures
        agree(nl, nl, decayed_scores(nk, rows, k, g), decayed_scores(nk, rows2, k2, g2)),
{
    assert forall|i: int, j: int| 0 <= i < nl && 0 <= j < nl implies #[trigger] decayed_scores(
        nk,
        rows,
        k,
        g,
    )(i, j) == decayed_scores(nk, rows2, k2, g2)(i, j) by {
        let f = |d: int| (rows(i, d) * k(j, d)) * (g(i, d) - g(j, d)).expo();
        let h = |d: int| (rows2(i, d) * k2(j, d)) * (g2(i, d) - g2(j, d)).expo();
        assert forall|d: int| 0 <= d < nk implies #[trigger] f(d) == h(d) by {
            assert(rows(i, d) == rows2(i, d));
            assert(k(j, d) == k2(j, d));
            assert(g(i, d) == g2(i, d));
            assert(g(j, d) == g2(j, d));
        }
        lemma_sum_ext(nk, f, h);
    }
}

} // verus!
