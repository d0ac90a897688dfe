//! The serial scan over the chunks of one head.
use vstd::arithmetic::div_mod::{
    lemma_div_is_ordered, lemma_fundamental_div_mod, lemma_basic_div, lemma_multiply_divide_lt,
};
use vstd::prelude::*;

use crate::delta::forward::{
    gate_width, lemma_chunk_is_the_rule, widened, Chunk, Dims, Wy,
};
use crate::delta::rule::{
    cumulative, decayed_rows, from_step, lemma_run_continues, output, state_after, Stream,
};
use crate::delta::tri::TriSolve;
use crate::delta::wy::{lemma_idle_steps, lemma_output_depends, lemma_run_depends};
use crate::mat::{agree, clip, mat_add, mat_mul, transposed, Mat};
use crate::matrix::{row_sums, row_window, Matrix};
use crate::ring::{Ring, Scalar};
use crate::sum::{lemma_sum_ext, lemma_sum_zero};

verus! {

/// How many chunks of `chunk_len` steps a sequence fills, the last one in part.
pub open spec fn chunk_count(sequence: int, chunk_len: int) -> int {
    if sequence % chunk_len == 0 {
        sequence / chunk_len
    } else {
        sequence / chunk_len + 1
    }
}

/// The steps of a sequence, padded to whole chunks.
pub open spec fn padded_len(sequence: int, chunk_len: int) -> int {
    chunk_count(sequence, chunk_len) * chunk_len
}

/// Every step of a sequence lies in one of its chunks.
pub proof fn lemma_chunk_count(sequence: int, chunk_len: int)
    requires
        0 <= sequence,
        0 < chunk_len,
    ensures
        0 <= chunk_count(sequence, chunk_len),
        sequence <= padded_len(sequence, chunk_len) < sequence + chunk_len,
        forall|t: int|
            0 <= t < sequence ==> 0 <= #[trigger] (t / chunk_len) < chunk_count(
                sequence,
                chunk_len,
            ),
        forall|t: int|
            0 <= t ==> #[trigger] (t / chunk_len) * chunk_len + t % chunk_len == t && 0 <= t
                % chunk_len < chunk_len,
{
    let (n, l) = (sequence / chunk_len, chunk_len);
    lemma_fundamental_div_mod(sequence, l);
    lemma_div_is_ordered(0, sequence, l);
    lemma_basic_div(0, l);
    assert(l * n == n * l && (n + 1) * l == n * l + l && l * (n + 1) == n * l + l)
        by (nonlinear_arith);
    assert forall|t: int| 0 <= t < sequence implies 0 <= #[trigger] (t / l) < chunk_count(
        sequence,
        l,
    ) by {
        lemma_multiply_divide_lt(t, l, chunk_count(sequence, l));
        lemma_div_is_ordered(0, t, l);
    }
    assert forall|t: int| 0 <= t implies #[trigger] (t / l) * l + t % l == t && 0 <= t % l < l by {
        lemma_fundamental_div_mod(t, l);
        let q = t / l;
        assert(l * q == q * l) by (nonlinear_arith);
    }
}

/// The inputs of one head, padded and cut into chunks.
pub struct Chunked<T> {
    /// The chunks, in order.
    pub chunks: Vec<Chunk<T>>,
    /// The lengths.
    pub dims: Dims,
}

/// What a scan is run for.
#[derive(Clone, Copy, Debug, PartialEq, Eq, Structural)]
pub enum ScanMode {
    /// The outputs of every step and the final state.
    Outputs,
    /// The state that enters each chunk.
    States,
}

/// What a scan produces.
pub struct Scan<T> {
    /// The outputs, chunk by chunk; `None` under [`ScanMode::States`].
    pub y: Option<Vec<Matrix<T>>>,
    /// The state after the last chunk.
    pub final_state: Matrix<T>,
    /// The state that enters each chunk; `None` under [`ScanMode::Outputs`].
    pub states: Option<Vec<Matrix<T>>>,
}

/// The state that enters chunk `n`, when `s0` enters the first one.
pub open spec fn entering<R: Ring>(
    chunks: Seq<Chunk<R>>,
    wys: Seq<Wy<R>>,
    nl: int,
    nk: int,
    s0: Mat<R>,
    n: int,
) -> Mat<R>
    decreases n,
{
    if n <= 0 {
        s0
    } else {
        let s = entering(chunks, wys, nl, nk, s0, n - 1);
        mat_add(
            chunks[n - 1].left_of(s),
            mat_mul(nl, transposed(chunks[n - 1].carry()), wys[n - 1].deltas(nk, s)),
        )
    }
}

/// The outputs of chunk `n`, when `s` enters it.
pub open spec fn chunk_outputs<R: Ring>(
    chunk: Chunk<R>,
    wy: Wy<R>,
    nl: int,
    nk: int,
    s: Mat<R>,
) -> Mat<R> {
    mat_add(
        mat_mul(nk, decayed_rows(chunk.q@, chunk.gate()), s),
        mat_mul(nl, wy.attn@, wy.deltas(nk, s)),
    )
}

/// Whether each chunk has the matrices that belong to it.
pub open spec fn all_match<R: Ring>(
    chunks: Seq<Chunk<R>>,
    wys: Seq<Wy<R>>,
    nl: int,
    nk: int,
    nv: int,
) -> bool {
    &&& wys.len() == chunks.len()
    &&& forall|n: int| 0 <= n < chunks.len() ==> (#[trigger] wys[n]).matches(chunks[n], nl, nk, nv)
}

impl<T: Ring> Chunked<T> {
    /// Whether every chunk has the lengths that `dims` names.
    pub open spec fn shaped(&self) -> bool {
        &&& 0 < self.dims.chunk_len
        &&& self.chunks@.len() == self.dims.nchunks
        &&& self.dims.nchunks == chunk_count(self.dims.sequence as int, self.dims.chunk_len as int)
        &&& self.dims.sequence_padded == padded_len(
            self.dims.sequence as int,
            self.dims.chunk_len as int,
        )
        &&& forall|n: int|
            0 <= n < self.chunks@.len() ==> (#[trigger] self.chunks@[n]).shaped(
                self.dims.chunk_len as int,
                self.dims.head_k_dim as int,
                self.dims.head_v_dim as int,
            )
    }

    /// Whether the chunks hold a stream, each from its own first step on.
    pub open spec fn holds(&self, x: Stream<T>, scale: T) -> bool {
        &&& self.shaped()
        &&& forall|n: int|
            0 <= n < self.chunks@.len() ==> (#[trigger] self.chunks@[n]).holds(
                self.dims.chunk_len as int,
                self.dims.head_k_dim as int,
                self.dims.head_v_dim as int,
                from_step(x, n * self.dims.chunk_len),
                scale,
            )
    }
}

/// The output at a step of a run that continues another.
pub proof fn lemma_output_continues<R: Ring>(
    x: Stream<R>,
    nk: int,
    scale: R,
    s0: Mat<R>,
    t0: int,
    t: int,
    c: int,
)
    requires
        0 <= t0,
        0 <= t,
    ensures
        output(from_step(x, t0), nk, scale, state_after(x, nk, s0, t0), t, c) == output(
            x,
            nk,
            scale,
            s0,
            t0 + t,
            c,
        ),
{
    lemma_run_continues(x, nk, s0, t0, t + 1);
    let y = from_step(x, t0);
    let s = state_after(x, nk, s0, t0 + t + 1);
    lemma_sum_ext(
        nk,
        |d: int| ((y.q)(t, d) * scale) * s(d, c),
        |d: int| ((x.q)(t0 + t, d) * scale) * s(d, c),
    );
}

/// The scan over chunks is the delta rule over their steps.
pub proof fn lemma_scan_is_the_rule<R: Ring>(
    chunked: Chunked<R>,
    wys: Seq<Wy<R>>,
    x: Stream<R>,
    scale: R,
    s0: Mat<R>,
    n: int,
)
    requires
        chunked.holds(x, scale),
        all_match(
            chunked.chunks@,
            wys,
            chunked.dims.chunk_len as int,
            chunked.dims.head_k_dim as int,
            chunked.dims.head_v_dim as int,
        ),
        0 <= n <= chunked.chunks@.len(),
    ensures
        agree(
            chunked.dims.head_k_dim as int,
            chunked.dims.head_v_dim as int,
            entering(
                chunked.chunks@,
                wys,
                chunked.dims.chunk_len as int,
                chunked.dims.head_k_dim as int,
                s0,
                n,
            ),
            state_after(x, chunked.dims.head_k_dim as int, s0, n * chunked.dims.chunk_len),
        ),
    decreases n,
{
    let (nl, nk, nv) = (
        chunked.dims.chunk_len as int,
        chunked.dims.head_k_dim as int,
        chunked.dims.head_v_dim as int,
    );
    let chunks = chunked.chunks@;
    if n > 0 {
        lemma_scan_is_the_rule(chunked, wys, x, scale, s0, n - 1);
        let s = entering(chunks, wys, nl, nk, s0, n - 1);
        let t0 = (n - 1) * nl;
        assert(n * nl == t0 + nl && 0 <= t0) by (nonlinear_arith)
            requires
                t0 == (n - 1) * nl,
                n > 0,
                nl > 0,
        ;
        let y = from_step(x, t0);
        assert(chunks[n - 1].holds(nl, nk, nv, y, scale));
        assert(wys[n - 1].matches(chunks[n - 1], nl, nk, nv));
        lemma_chunk_is_the_rule(chunks[n - 1], wys[n - 1], nl, nk, nv, y, scale, s);
        lemma_run_depends(y, y, nk, nv, s, state_after(x, nk, s0, t0), nl);
        lemma_run_continues(x, nk, s0, t0, nl);
        let next = entering(chunks, wys, nl, nk, s0, n);
        assert forall|d: int, c: int| 0 <= d < nk && 0 <= c < nv implies #[trigger] next(d, c)
            == state_after(x, nk, s0, n * nl)(d, c) by {
            assert(next(d, c) == state_after(y, nk, s, nl)(d, c));
        }
    } else {
        assert(0 * nl == 0);
    }
}

/// The outputs of a scan are those of the delta rule.
pub proof fn lemma_scan_outputs<R: Ring>(
    chunked: Chunked<R>,
    wys: Seq<Wy<R>>,
    x: Stream<R>,
    scale: R,
    s0: Mat<R>,
    n: int,
    i: int,
    c: int,
)
    requires
        chunked.holds(x, scale),
        all_match(
            chunked.chunks@,
            wys,
            chunked.dims.chunk_len as int,
            chunked.dims.head_k_dim as int,
            chunked.dims.head_v_dim as int,
        ),
        0 <= n < chunked.chunks@.len(),
        0 <= i < chunked.dims.chunk_len,
        0 <= c < chunked.dims.head_v_dim,
    ensures
        chunk_outputs(
            chunked.chunks@[n],
            wys[n],
            chunked.dims.chunk_len as int,
            chunked.dims.head_k_dim as int,
            entering(
                chunked.chunks@,
                wys,
                chunked.dims.chunk_len as int,
                chunked.dims.head_k_dim as int,
                s0,
                n,
            ),
        )(i, c) == output(
            x,
            chunked.dims.head_k_dim as int,
            scale,
            s0,
            n * chunked.dims.chunk_len + i,
            c,
        ),
{
    let (nl, nk, nv) = (
        chunked.dims.chunk_len as int,
        chunked.dims.head_k_dim as int,
        chunked.dims.head_v_dim as int,
    );
    let chunks = chunked.chunks@;
    let s = entering(chunks, wys, nl, nk, s0, n);
    let t0 = n * nl;
    let y = from_step(x, t0);
    lemma_scan_is_the_rule(chunked, wys, x, scale, s0, n);
    assert(0 <= t0) by (nonlinear_arith)
        requires
            t0 == n * nl,
            n >= 0,
            nl > 0,
    ;
    assert(chunks[n].holds(nl, nk, nv, y, scale));
    assert(wys[n].matches(chunks[n], nl, nk, nv));
    lemma_chunk_is_the_rule(chunks[n], wys[n], nl, nk, nv, y, scale, s);
    assert(chunk_outputs(chunks[n], wys[n], nl, nk, s)(i, c) == output(y, nk, scale, s, i, c));
    lemma_output_depends(y, y, nk, nv, scale, s, state_after(x, nk, s0, t0), i, c);
    lemma_output_continues(x, nk, scale, s0, t0, i, c);
}

/// The inputs of one head of one sequence.
pub struct Head<T> {
    /// Queries: `[sequence, head_k_dim]`.
    pub q: Matrix<T>,
    /// Keys: `[sequence, head_k_dim]`.
    pub k: Matrix<T>,
    /// Values: `[sequence, head_v_dim]`.
    pub v: Matrix<T>,
    /// The erase gate: `[sequence, 1 or head_k_dim]`.
    pub erase: Matrix<T>,
    /// The write gate: `[sequence, 1 or head_v_dim]`.
    pub write: Matrix<T>,
    /// The log forget gate, if there is one: `[sequence, 1 or head_k_dim]`.
    pub g: Option<Matrix<T>>,
}

impl<T: Ring> Head<T> {
    /// Whether the inputs have the same lengths throughout.
    pub open spec fn well_formed(&self) -> bool {
        &&& self.k.has_shape(self.q.rows() as int, self.q.cols() as int)
        &&& self.v.rows() == self.q.rows()
        &&& self.erase.rows() == self.q.rows()
        &&& gate_width(self.erase.cols() as int, self.q.cols() as int)
        &&& self.write.rows() == self.q.rows()
        &&& gate_width(self.write.cols() as int, self.v.cols() as int)
        &&& self.g matches Some(g) ==> {
            &&& g.rows() == self.q.rows()
            &&& gate_width(g.cols() as int, self.q.cols() as int)
        }
    }

    /// What the head reads at each step. A missing forget gate is a log decay of zero.
    pub open spec fn stream(&self) -> Stream<T> {
        Stream {
            q: self.q@,
            k: self.k@,
            v: self.v@,
            erase: widened(self.erase.cols() as int, self.erase@),
            write: widened(self.write.cols() as int, self.write@),
            g: match self.g {
                Some(g) => widened(g.cols() as int, g@),
                None => |t: int, d: int| T::zero(),
            },
        }
    }
}

/// A chunk that was cut out of a head's inputs holds its stream from there on.
proof fn lemma_cut_holds<R: Ring>(head: Head<R>, chunk: Chunk<R>, scale: R, start: int, len: int)
    requires
        head.well_formed(),
        0 <= start,
        chunk.shaped(len, head.q.cols() as int, head.v.cols() as int),
        chunk.q@ == (|i: int, d: int| row_window(head.q@, start, len)(i, d) * scale),
        chunk.k@ == row_window(head.k@, start, len),
        chunk.v@ == row_window(head.v@, start, len),
        chunk.erase.cols() == head.erase.cols(),
        chunk.erase@ == row_window(head.erase@, start, len),
        chunk.write.cols() == head.write.cols(),
        chunk.write@ == row_window(head.write@, start, len),
        chunk.gc is Some == head.g is Some,
        head.g matches Some(g) ==> chunk.gc->0.cols() == g.cols() && chunk.gc->0@ == clip(
            len,
            g.cols() as int,
            row_sums(row_window(g@, start, len)),
        ),
    ensures
        chunk.holds(
            len,
            head.q.cols() as int,
            head.v.cols() as int,
            from_step(head.stream(), start),
            scale,
        ),
{
    let x = from_step(head.stream(), start);
    let nk = head.q.cols() as int;
    assert forall|i: int, d: int| 0 <= i < len && 0 <= d < nk implies #[trigger] chunk.gate()(i, d)
        == cumulative(x.g)(i, d) by {
        match head.g {
            Some(g) => {
                let b: int = if g.cols() == 1 {
                    0
                } else {
                    d
                };
                lemma_sum_ext(
                    i + 1,
                    |t: int| row_window(g@, start, len)(t, b),
                    |j: int| (x.g)(j, d),
                );
            },
            None => {
                lemma_sum_zero(i + 1, |j: int| (x.g)(j, d));
            },
        }
    }
}

impl<T: Scalar> Chunked<T> {
    /// Pads a head's inputs to whole chunks and cuts them.
    pub fn prepare(head: &Head<T>, batch: usize, nheads: usize, chunk_len: usize, scale: T) -> (r:
        Self)
        requires
            head.well_formed(),
            chunk_len > 0,
            padded_len(head.q.rows() as int, chunk_len as int) <= usize::MAX,
        ensures
            r.holds(head.stream(), scale),
            r.dims.batch == batch,
            r.dims.sequence == head.q.rows(),
            r.dims.chunk_len == chunk_len,
            r.dims.nheads == nheads,
            r.dims.head_k_dim == head.q.cols(),
            r.dims.head_v_dim == head.v.cols(),
            r.dims.erase_width == head.erase.cols(),
            r.dims.write_width == head.write.cols(),
            r.dims.decay_width == match head.g {
                Some(g) => g.cols(),
                None => 0,
            },
            forall|n: int|
                0 <= n < r.chunks@.len() ==> (#[trigger] r.chunks@[n]).erase.cols()
                    == r.dims.erase_width,
            forall|n: int|
                0 <= n < r.chunks@.len() ==> (#[trigger] r.chunks@[n]).write.cols()
                    == r.dims.write_width,
            forall|n: int|
                0 <= n < r.chunks@.len() ==> ((#[trigger] r.chunks@[n]).gc is Some == head.g is Some),
            forall|n: int|
                0 <= n < r.chunks@.len() && head.g is Some ==> (
                #[trigger] r.chunks@[n]).gc->0.cols() == r.dims.decay_width,
    {
        let sequence: usize = head.q.rows();
        proof {
            lemma_chunk_count(sequence as int, chunk_len as int);
            let (n, l) = (chunk_count(sequence as int, chunk_len as int), chunk_len as int);
            assert(n <= n * l) by (nonlinear_arith)
                requires
                    n >= 0,
                    l >= 1,
            ;
        }
        let nchunks: usize = if sequence % chunk_len == 0 {
            sequence / chunk_len
        } else {
            sequence / chunk_len + 1
        };
        let g = head.g.as_ref();
        let decay_width: usize = match g {
            Some(g) => g.cols(),
            None => 0,
        };
        let dims = Dims {
            batch,
            sequence,
            sequence_padded: nchunks * chunk_len,
            nchunks,
            chunk_len,
            nheads,
            head_k_dim: head.q.cols(),
            head_v_dim: head.v.cols(),
            erase_width: head.erase.cols(),
            write_width: head.write.cols(),
            decay_width,
        };
        let mut chunks: Vec<Chunk<T>> = Vec::with_capacity(nchunks);
        for n in 0..nchunks
            invariant
                head.well_formed(),
                chunk_len > 0,
                nchunks * chunk_len <= usize::MAX,
                g is Some == head.g is Some,
                g matches Some(m) ==> *m == head.g->0,
                chunks@.len() == n,
                forall|a: int|
                    0 <= a < n ==> (#[trigger] chunks@[a]).holds(
                        chunk_len as int,
                        head.q.cols() as int,
                        head.v.cols() as int,
                        from_step(head.stream(), a * chunk_len),
                        scale,
                    ),
                forall|a: int|
                    0 <= a < n ==> (#[trigger] chunks@[a]).erase.cols() == head.erase.cols(),
                forall|a: int|
                    0 <= a < n ==> (#[trigger] chunks@[a]).write.cols() == head.write.cols(),
                forall|a: int|
                    0 <= a < n ==> ((#[trigger] chunks@[a]).gc is Some == head.g is Some),
                forall|a: int|
                    0 <= a < n && head.g is Some ==> (#[trigger] chunks@[a]).gc->0.cols()
                        == head.g->0.cols(),
        {
            assert(0 <= n * chunk_len && n * chunk_len + chunk_len <= nchunks * chunk_len)
                by (nonlinear_arith)
                requires
                    0 <= n,
                    n + 1 <= nchunks,
                    chunk_len > 0,
            ;
            let start: usize = n * chunk_len;
            let chunk = Chunk::cut(
                &head.q,
                &head.k,
                &head.v,
                &head.erase,
                &head.write,
                g,
                scale,
                start,
                chunk_len,
            );
            proof {
                lemma_cut_holds(*head, chunk, scale, start as int, chunk_len as int);
            }
            chunks.push(chunk);
        }
        Chunked { chunks, dims }
    }

    /// The matrices of every chunk.
    pub fn wy(&self, solve: TriSolve) -> (r: Vec<Wy<T>>)
        requires
            self.shaped(),
        ensures
            all_match(
                self.chunks@,
                r@,
                self.dims.chunk_len as int,
                self.dims.head_k_dim as int,
                self.dims.head_v_dim as int,
            ),
    {
        let mut r: Vec<Wy<T>> = Vec::with_capacity(self.chunks.len());
        for n in 0..self.chunks.len()
            invariant
                self.shaped(),
                r@.len() == n,
                forall|a: int|
                    0 <= a < n ==> (#[trigger] r@[a]).matches(
                        self.chunks@[a],
                        self.dims.chunk_len as int,
                        self.dims.head_k_dim as int,
                        self.dims.head_v_dim as int,
                    ),
        {
            assert(self.chunks@[n as int].well_formed());
            r.push(self.chunks[n].wy(solve));
        }
        r
    }

    /// Carries `state` over the chunks, keeping what `mode` asks for.
    pub fn scan(&self, wys: &Vec<Wy<T>>, state: &Matrix<T>, mode: ScanMode) -> (r: Scan<T>)
        requires
            self.shaped(),
            all_match(
                self.chunks@,
                wys@,
                self.dims.chunk_len as int,
                self.dims.head_k_dim as int,
                self.dims.head_v_dim as int,
            ),
            state.has_shape(self.dims.head_k_dim as int, self.dims.head_v_dim as int),
        ensures
            r.final_state.has_shape(self.dims.head_k_dim as int, self.dims.head_v_dim as int),
            r.final_state@ == entering(
                self.chunks@,
                wys@,
                self.dims.chunk_len as int,
                self.dims.head_k_dim as int,
                state@,
                self.chunks@.len() as int,
            ),
            r.y is Some == (mode == ScanMode::Outputs),
            r.states is Some == (mode == ScanMode::States),
            r.y matches Some(y) ==> {
                &&& y@.len() == self.chunks@.len()
                &&& forall|n: int|
                    0 <= n < y@.len() ==> (#[trigger] y@[n]).has_shape(
                        self.dims.chunk_len as int,
                        self.dims.head_v_dim as int,
                    ) && y@[n]@ == chunk_outputs(
                        self.chunks@[n],
                        wys@[n],
                        self.dims.chunk_len as int,
                        self.dims.head_k_dim as int,
                        entering(
                            self.chunks@,
                            wys@,
                            self.dims.chunk_len as int,
                            self.dims.head_k_dim as int,
                            state@,
                            n,
                        ),
                    )
            },
            r.states matches Some(states) ==> {
                &&& states@.len() == self.chunks@.len()
                &&& forall|n: int|
                    0 <= n < states@.len() ==> (#[trigger] states@[n]).has_shape(
                        self.dims.head_k_dim as int,
                        self.dims.head_v_dim as int,
                    ) && states@[n]@ == entering(
                        self.chunks@,
                        wys@,
                        self.dims.chunk_len as int,
                        self.dims.head_k_dim as int,
                        state@,
                        n,
                    )
            },
    {
        let ghost (nl, nk, nv) = (
            self.dims.chunk_len as int,
            self.dims.head_k_dim as int,
            self.dims.head_v_dim as int,
        );
        let mut current = state.copy();
        let mut ys: Vec<Matrix<T>> = Vec::new();
        let mut states: Vec<Matrix<T>> = Vec::new();
        for n in 0..self.chunks.len()
            invariant
                self.shaped(),
                nl == self.dims.chunk_len,
                nk == self.dims.head_k_dim,
                nv == self.dims.head_v_dim,
                all_match(self.chunks@, wys@, nl, nk, nv),
                current.has_shape(nk, nv),
                current@ == entering(self.chunks@, wys@, nl, nk, state@, n as int),
                mode == ScanMode::Outputs ==> ys@.len() == n,
                mode == ScanMode::States ==> states@.len() == n,
                forall|a: int|
                    0 <= a < ys@.len() ==> (#[trigger] ys@[a]).has_shape(nl, nv) && ys@[a]@
                        == chunk_outputs(
                        self.chunks@[a],
                        wys@[a],
                        nl,
                        nk,
                        entering(self.chunks@, wys@, nl, nk, state@, a),
                    ),
                forall|a: int|
                    0 <= a < states@.len() ==> (#[trigger] states@[a]).has_shape(nk, nv)
                        && states@[a]@ == entering(self.chunks@, wys@, nl, nk, state@, a),
        {
            let chunk = &self.chunks[n];
            let wy = &wys[n];
            assert(chunk.shaped(nl, nk, nv));
            assert(wy.matches(*chunk, nl, nk, nv));
            let deltas = chunk.deltas(wy, &current);
            let next = chunk.next_state(&current, &deltas);
            match mode {
                ScanMode::Outputs => {
                    ys.push(chunk.outputs(wy, &current, &deltas));
                },
                ScanMode::States => {
                    states.push(current);
                },
            }
            current = next;
        }
        match mode {
            ScanMode::Outputs => Scan { y: Some(ys), final_state: current, states: None },
            ScanMode::States => Scan { y: None, final_state: current, states: Some(states) },
        }
    }
}

/// The rows of consecutive chunks, one after the other, up to row `sequence`.
pub fn unchunked<T: Scalar>(
    chunks: &Vec<Matrix<T>>,
    sequence: usize,
    chunk_len: usize,
    cols: usize,
) -> (r: Matrix<T>)
    requires
        chunk_len > 0,
        chunks@.len() == chunk_count(sequence as int, chunk_len as int),
        forall|n: int|
            0 <= n < chunks@.len() ==> (#[trigger] chunks@[n]).has_shape(
                chunk_len as int,
                cols as int,
            ),
    ensures
        r.has_shape(sequence as int, cols as int),
        forall|t: int, c: int|
            0 <= t < sequence && 0 <= c < cols ==> #[trigger] r@(t, c) == chunks@[t
                / chunk_len as int]@(t % chunk_len as int, c),
{
    let f = |t: usize, c: usize| -> (r: T)
        requires
            t < sequence,
            c < cols,
        ensures
            r == chunks@[t as int / chunk_len as int]@(t as int % chunk_len as int, c as int),
        {
            proof {
                lemma_chunk_count(sequence as int, chunk_len as int);
                assert(0 <= t as int / chunk_len as int);
            }
            chunks[t / chunk_len].at(t % chunk_len, c)
        };
    Matrix::from_fn(sequence, cols, f)
}

/// The chunkwise evaluation of the delta rule for one head: the outputs, and the
/// state after the last step.
pub fn head_chunk<T: Scalar>(
    head: &Head<T>,
    state: &Matrix<T>,
    batch: usize,
    nheads: usize,
    chunk_len: usize,
    solve: TriSolve,
    scale: T,
) -> (r: (Matrix<T>, Matrix<T>))
    requires
        head.well_formed(),
        state.has_shape(head.q.cols() as int, head.v.cols() as int),
        chunk_len > 0,
        padded_len(head.q.rows() as int, chunk_len as int) <= usize::MAX,
    ensures
        follows_rule(*head, state@, scale, r.0, r.1),
{
    let chunked = Chunked::prepare(head, batch, nheads, chunk_len, scale);
    let wys = chunked.wy(solve);
    let scan = chunked.scan(&wys, state, ScanMode::Outputs);
    let final_state = scan.final_state;
    let ys = scan.y.unwrap();
    let y = unchunked(&ys, head.q.rows(), chunk_len, head.v.cols());
    proof {
        let (nl, nk, nv) = (chunk_len as int, head.q.cols() as int, head.v.cols() as int);
        let x = head.stream();
        let sequence = head.q.rows() as int;
        lemma_chunk_count(sequence, nl);
        let count = chunk_count(sequence, nl);
        lemma_scan_is_the_rule(chunked, wys@, x, scale, state@, count);
        lemma_padding_is_identity(*head, state@, padded_len(sequence, nl));
        assert forall|d: int, c: int| 0 <= d < nk && 0 <= c < nv implies #[trigger] final_state@(
            d,
            c,
        ) == state_after(x, nk, state@, sequence)(d, c) by {
            assert(final_state@(d, c) == state_after(x, nk, state@, count * nl)(d, c));
        }
        assert forall|t: int, c: int| 0 <= t < sequence && 0 <= c < nv implies #[trigger] y@(t, c)
            == output(x, nk, scale, state@, t, c) by {
            let n = t / nl;
            assert(0 <= t / nl < count);
            assert((t / nl) * nl + t % nl == t);
            lemma_scan_outputs(chunked, wys@, x, scale, state@, n, t % nl, c);
            assert(ys@[n].has_shape(nl, nv));
        }
    }
    (y, final_state)
}

/// Whether `y` and `last` are the outputs and the last state of the delta rule on
/// a head's inputs, from state `s0`.
pub open spec fn follows_rule<R: Ring>(
    head: Head<R>,
    s0: Mat<R>,
    scale: R,
    y: Matrix<R>,
    last: Matrix<R>,
) -> bool {
    let nk = head.q.cols() as int;
    let nv = head.v.cols() as int;
    let sequence = head.q.rows() as int;
    &&& y.has_shape(sequence, nv)
    &&& last.has_shape(nk, nv)
    &&& forall|t: int, c: int|
        0 <= t < sequence && 0 <= c < nv ==> #[trigger] y@(t, c) == output(
            head.stream(),
            nk,
            scale,
            s0,
            t,
            c,
        )
    &&& forall|d: int, c: int|
        0 <= d < nk && 0 <= c < nv ==> #[trigger] last@(d, c) == state_after(
            head.stream(),
            nk,
            s0,
            sequence,
        )(d, c)
}

/// Steps past the end of the inputs leave the state as it is.
pub proof fn lemma_padding_is_identity<R: Ring>(head: Head<R>, s0: Mat<R>, t: int)
    requires
        head.well_formed(),
        t >= head.q.rows(),
    ensures
        agree(
            head.q.cols() as int,
            head.v.cols() as int,
            state_after(head.stream(), head.q.cols() as int, s0, t),
            state_after(head.stream(), head.q.cols() as int, s0, head.q.rows() as int),
        ),
{
    lemma_idle_steps(
        head.stream(),
        head.q.cols() as int,
        head.v.cols() as int,
        s0,
        head.q.rows() as int,
        t,
    );
}

} // verus!
