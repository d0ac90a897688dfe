//! What a block computes, whichever family it belongs to.
//!
//! A block projects every token, runs the delta rule over the steps of all tokens,
//! norms what each head reads, and projects back. The families differ in where the
//! forget gate and the output gate come from.
use vstd::prelude::*;

use crate::common::index::{lemma_flat, lemma_token};
use crate::common::linear::{row_of, sequence_of, within, Linear, Row};
use crate::common::norm::{gate_row, last_row, OutNorm};
use crate::common::qkv::{mixed_rows, raw_rows, Qkv, QkvProjection};
use crate::delta::forward::{gate_width, widened};
use crate::delta::path::{DeltaInput, DeltaPath};
use crate::delta::rule::{output, state_after, Stream};
use crate::delta::wy::{lemma_output_depends, lemma_run_depends, streams_agree};
use crate::mat::Mat;
use crate::ring::{Real, Ring};
use crate::tensor::{head_plane, last_plane, Ten3, Tensor3, Tensor4};

verus! {

/// The parts that a block is made of.
#[verifier::reject_recursive_types(R)]
pub struct Pipeline<R> {
    /// The front end.
    pub qkv: QkvProjection<R>,
    /// The log forget gate of a head's key channel, from a token's raw row.
    pub decay: spec_fn(Row<R>, int, int) -> R,
    /// The output gate of a head's value channel, from a token's raw row.
    pub gate: Option<spec_fn(Row<R>, int, int) -> R>,
    /// The norm of each head's output.
    pub norm: OutNorm<R>,
    /// Value channels to `d_model`.
    pub out_proj: Linear<R>,
}

/// The state of each head of each sequence; zero where there is none.
pub open spec fn states<R: Ring>(state: Option<Tensor4<R>>) -> spec_fn(int, int) -> Mat<R> {
    match state {
        Some(s) => |a: int, h: int| last_plane(s@, a, h),
        None => |a: int, h: int| (|d: int, e: int| R::zero()),
    }
}

impl<R: Real> Pipeline<R> {
    /// Whether the parts fit together.
    pub open spec fn valid(&self) -> bool {
        &&& self.qkv.valid()
        &&& self.norm.gamma_v@.len() == self.qkv.head_v_dim
        &&& self.out_proj.valid()
        &&& self.out_proj.weight.rows() == self.qkv.shape().values()
    }

    /// What head `h` reads over the steps of a sequence: the query at the last step
    /// of each token, the forget gate at the first.
    pub open spec fn stream(&self, x: Mat<R>, window: Mat<R>, h: int) -> Stream<R> {
        let p = self.qkv;
        let u = p.n_householder as int;
        Stream {
            q: |s: int, d: int|
                if s % u == u - 1 {
                    p.query(p.mixed(window, x, s / u), h)(d)
                } else {
                    R::zero()
                },
            k: |s: int, d: int| p.key(p.mixed(window, x, s / u), s % u, h)(d),
            v: |s: int, e: int| p.value(p.mixed(window, x, s / u), s % u, h, e),
            erase: |s: int, d: int| p.erase(p.raw(x, s / u), s % u, h, d),
            write: |s: int, e: int| p.write(p.raw(x, s / u), s % u, h, e),
            g: |s: int, d: int|
                if s % u == 0 {
                    (self.decay)(p.raw(x, s / u), h, d)
                } else {
                    R::zero()
                },
        }
    }

    /// The readout scale, `1 / sqrt(head_k_dim)`.
    pub open spec fn scale(&self) -> R {
        R::count(self.qkv.head_k_dim).root().recip()
    }

    /// What head `h` reads at token `t`, from the state `s0` on.
    pub open spec fn readout(&self, x: Mat<R>, window: Mat<R>, s0: Mat<R>, t: int, h: int) -> Row<
        R,
    > {
        let u = self.qkv.n_householder as int;
        within(
            self.qkv.head_v_dim as int,
            |e: int|
                output(
                    self.stream(x, window, h),
                    self.qkv.head_k_dim as int,
                    self.scale(),
                    s0,
                    t * u + (u - 1),
                    e,
                ),
        )
    }

    /// The output gate of head `h` at token `t`, if there is one.
    pub open spec fn gate_of(&self, x: Mat<R>, t: int, h: int) -> Option<Row<R>> {
        match self.gate {
            Some(z) => Some(
                within(self.qkv.head_v_dim as int, |e: int| z(self.qkv.raw(x, t), h, e)),
            ),
            None => None,
        }
    }

    /// The output of a block at token `t` of a sequence, entered with a window and a
    /// state per head.
    pub open spec fn out(
        &self,
        x: Mat<R>,
        window: Mat<R>,
        state: spec_fn(int) -> Mat<R>,
        t: int,
        c: int,
    ) -> R {
        self.out_proj.image(self.heads_out(x, window, state, t))(c)
    }

    /// The normed outputs of all heads at token `t`, side by side.
    pub open spec fn heads_out(
        &self,
        x: Mat<R>,
        window: Mat<R>,
        state: spec_fn(int) -> Mat<R>,
        t: int,
    ) -> Row<R> {
        let nv = self.qkv.head_v_dim as int;
        within(
            self.qkv.shape().values(),
            |i: int|
                self.norm.normed(
                    self.readout(x, window, state(i / nv), t, i / nv),
                    self.gate_of(x, t, i / nv),
                    i % nv,
                ),
        )
    }

    /// The state of head `h` after the first `t` tokens of a sequence.
    pub open spec fn state_at(&self, x: Mat<R>, window: Mat<R>, s0: Mat<R>, h: int, t: int) -> Mat<
        R,
    > {
        state_after(
            self.stream(x, window, h),
            self.qkv.head_k_dim as int,
            s0,
            t * self.qkv.n_householder,
        )
    }

    /// Whether `next` holds the state of every head of every sequence after its
    /// first `t` tokens.
    pub open spec fn leaves(
        &self,
        batch: int,
        x: spec_fn(int) -> Mat<R>,
        window: spec_fn(int) -> Mat<R>,
        state: spec_fn(int, int) -> Mat<R>,
        t: int,
        next: Tensor4<R>,
    ) -> bool {
        let (nheads, nk, nv) = (
            self.qkv.n_value_heads as int,
            self.qkv.head_k_dim as int,
            self.qkv.head_v_dim as int,
        );
        &&& next.has_shape(batch, nheads, nk, nv)
        &&& forall|a: int, h: int, d: int, e: int|
            0 <= a < batch && 0 <= h < nheads && 0 <= d < nk && 0 <= e < nv ==> #[trigger] next@(
                a,
                h,
                d,
                e,
            ) == self.state_at(x(a), window(a), state(a, h), h, t)(d, e)
    }

    /// Whether `out` and the next window and state are what the block makes of a
    /// batch of sequences, entered with a window and a state per head.
    pub open spec fn evaluates(
        &self,
        batch: int,
        sequence: int,
        x: spec_fn(int) -> Mat<R>,
        window: spec_fn(int) -> Mat<R>,
        state: spec_fn(int, int) -> Mat<R>,
        out: Ten3<R>,
        next_window: Option<Tensor3<R>>,
        next_state: Tensor4<R>,
    ) -> bool {
        &&& forall|a: int, t: int, c: int|
            0 <= a < batch && 0 <= t < sequence && 0 <= c < self.out_proj.weight.cols()
                ==> #[trigger] out(a, t, c) == self.out(
                x(a),
                window(a),
                |h: int| state(a, h),
                t,
                c,
            )
        &&& self.qkv.slides(batch, x, window, sequence, next_window)
        &&& self.leaves(batch, x, window, state, sequence, next_state)
    }

    /// Whether `g` holds the forget gate of every token: one value per head or one
    /// per key channel.
    pub open spec fn decays(
        &self,
        batch: int,
        sequence: int,
        x: spec_fn(int) -> Mat<R>,
        g: Option<Tensor4<R>>,
    ) -> bool {
        let (nheads, nk) = (self.qkv.n_value_heads as int, self.qkv.head_k_dim as int);
        match g {
            Some(g) => {
                &&& g.has_shape(batch, sequence, nheads, g.dims().3 as int)
                &&& gate_width(g.dims().3 as int, nk)
                &&& forall|a: int, t: int, h: int, d: int|
                    0 <= a < batch && 0 <= t < sequence && 0 <= h < nheads && 0 <= d < nk
                        ==> #[trigger] (self.decay)(self.qkv.raw(x(a), t), h, d) == widened(
                        g.dims().3 as int,
                        head_plane(g@, a, h),
                    )(t, d)
            },
            None => forall|a: int, t: int, h: int, d: int|
                0 <= a < batch && 0 <= t < sequence && 0 <= h < nheads && 0 <= d < nk
                    ==> #[trigger] (self.decay)(self.qkv.raw(x(a), t), h, d) == R::zero(),
        }
    }

    /// Whether `z` holds the output gate of every token, if there is one.
    pub open spec fn gates(
        &self,
        batch: int,
        sequence: int,
        x: spec_fn(int) -> Mat<R>,
        z: Option<Tensor4<R>>,
    ) -> bool {
        let (nheads, nv) = (self.qkv.n_value_heads as int, self.qkv.head_v_dim as int);
        match (self.gate, z) {
            (Some(gate), Some(z)) => {
                &&& z.has_shape(batch, sequence, nheads, nv)
                &&& forall|a: int, t: int, h: int, e: int|
                    0 <= a < batch && 0 <= t < sequence && 0 <= h < nheads && 0 <= e < nv
                        ==> #[trigger] z@(a, t, h, e) == gate(self.qkv.raw(x(a), t), h, e)
            },
            (None, None) => true,
            _ => false,
        }
    }
}

/// The last step of each token, spread over all steps: zero everywhere else.
fn at_last_steps<T: Real>(q: &Tensor4<T>, u: usize, steps: usize) -> (r: Tensor4<T>)
    requires
        u > 0,
        steps == q.dims().1 * u,
    ensures
        r.has_shape(q.dims().0 as int, steps as int, q.dims().2 as int, q.dims().3 as int),
        forall|a: int, s: int, h: int, d: int|
            0 <= a < q.dims().0 && 0 <= s < steps && 0 <= h < q.dims().2 && 0 <= d < q.dims().3
                ==> #[trigger] r@(a, s, h, d) == (if s % u as int == u - 1 {
                q@(a, s / u as int, h, d)
            } else {
                T::zero()
            }),
{
    let f = |a: usize, s: usize, h: usize, d: usize| -> (r: T)
        requires
            a < q.dims().0,
            s < steps,
            h < q.dims().2,
            d < q.dims().3,
        ensures
            r == (if s as int % u as int == u - 1 {
                q@(a as int, s as int / u as int, h as int, d as int)
            } else {
                T::zero()
            }),
        {
            proof {
                lemma_token(s as int, q.dims().1 as int, u as int);
            }
            if s % u == u - 1 {
                q.at(a, s / u, h, d)
            } else {
                T::nil()
            }
        };
    Tensor4::from_fn(q.dims().0, steps, q.dims().2, q.dims().3, f)
}

/// The first step of each token, spread over all steps: zero everywhere else.
fn at_first_steps<T: Real>(g: &Tensor4<T>, u: usize, steps: usize) -> (r: Tensor4<T>)
    requires
        u > 0,
        steps == g.dims().1 * u,
    ensures
        r.has_shape(g.dims().0 as int, steps as int, g.dims().2 as int, g.dims().3 as int),
        forall|a: int, s: int, h: int, d: int|
            0 <= a < g.dims().0 && 0 <= s < steps && 0 <= h < g.dims().2 && 0 <= d < g.dims().3
                ==> #[trigger] r@(a, s, h, d) == (if s % u as int == 0 {
                g@(a, s / u as int, h, d)
            } else {
                T::zero()
            }),
{
    let f = |a: usize, s: usize, h: usize, d: usize| -> (r: T)
        requires
            a < g.dims().0,
            s < steps,
            h < g.dims().2,
            d < g.dims().3,
        ensures
            r == (if s as int % u as int == 0 {
                g@(a as int, s as int / u as int, h as int, d as int)
            } else {
                T::zero()
            }),
        {
            proof {
                lemma_token(s as int, g.dims().1 as int, u as int);
            }
            if s % u == 0 {
                g.at(a, s / u, h, d)
            } else {
                T::nil()
            }
        };
    Tensor4::from_fn(g.dims().0, steps, g.dims().2, g.dims().3, f)
}

/// What each token reads: the output of its last step.
fn kept_steps<T: Real>(y: &Tensor4<T>, u: usize, sequence: usize) -> (r: Tensor4<T>)
    requires
        u > 0,
        y.dims().1 == sequence * u,
    ensures
        r.has_shape(y.dims().0 as int, sequence as int, y.dims().2 as int, y.dims().3 as int),
        forall|a: int, t: int, h: int, e: int|
            0 <= a < y.dims().0 && 0 <= t < sequence && 0 <= h < y.dims().2 && 0 <= e < y.dims().3
                ==> #[trigger] r@(a, t, h, e) == y@(a, t * u + (u - 1), h, e),
{
    let f = |a: usize, t: usize, h: usize, e: usize| -> (r: T)
        requires
            a < y.dims().0,
            t < sequence,
            h < y.dims().2,
            e < y.dims().3,
        ensures
            r == y@(a as int, t * u + (u - 1), h as int, e as int),
        {
            proof {
                lemma_flat(t as int, sequence as int, u - 1, u as int);
            }
            y.at(a, t * u + (u - 1), h, e)
        };
    Tensor4::from_fn(y.dims().0, sequence, y.dims().2, y.dims().3, f)
}

/// The heads of each token side by side.
fn side_by_side<T: Real>(y: &Tensor4<T>, width: usize) -> (r: Tensor3<T>)
    requires
        width == y.dims().2 * y.dims().3,
        y.dims().3 > 0,
    ensures
        r.has_shape(y.dims().0 as int, y.dims().1 as int, width as int),
        forall|a: int, t: int, i: int|
            0 <= a < y.dims().0 && 0 <= t < y.dims().1 && 0 <= i < width ==> #[trigger] r@(a, t, i)
                == y@(a, t, i / y.dims().3 as int, i % y.dims().3 as int),
{
    let nv: usize = y.dims().3;
    let f = |a: usize, t: usize, i: usize| -> (r: T)
        requires
            a < y.dims().0,
            t < y.dims().1,
            i < width,
        ensures
            r == y@(a as int, t as int, i as int / nv as int, i as int % nv as int),
        {
            proof {
                lemma_token(i as int, y.dims().2 as int, nv as int);
            }
            y.at(a, t, i / nv, i % nv)
        };
    Tensor3::from_fn(y.dims().0, y.dims().1, width, f)
}

/// What one head of the delta rule is given is what the block's head reads.
proof fn lemma_streams<R: Real>(
    p: Pipeline<R>,
    read: Qkv<R>,
    g: Option<Tensor4<R>>,
    input: DeltaInput<R>,
    x: spec_fn(int) -> Mat<R>,
    window: spec_fn(int) -> Mat<R>,
    batch: int,
    sequence: int,
    a: int,
    h: int,
)
    requires
        p.valid(),
        read.follows(p.qkv, x, window, batch, sequence),
        p.decays(batch, sequence, x, g),
        0 <= a < batch,
        0 <= h < p.qkv.n_value_heads,
        input.q_bshk.has_shape(
            batch,
            sequence * p.qkv.n_householder,
            p.qkv.n_value_heads as int,
            p.qkv.head_k_dim as int,
        ),
        forall|s: int, d: int|
            0 <= s < sequence * p.qkv.n_householder && 0 <= d < p.qkv.head_k_dim
                ==> #[trigger] input.q_bshk@(a, s, h, d) == (if s % p.qkv.n_householder as int
                == p.qkv.n_householder - 1 {
                read.q_bshk@(a, s / p.qkv.n_householder as int, h, d)
            } else {
                R::zero()
            }),
        input.k_bshk@ == read.k_bShk@,
        input.v_bshv@ == read.v_bShv@,
        input.erase_bshK@ == read.erase_bShK@,
        input.erase_bshK.dims() == read.erase_bShK.dims(),
        input.write_bshV@ == read.write_bShV@,
        input.write_bshV.dims() == read.write_bShV.dims(),
        match (input.g_bshK, g) {
            (Some(spread), Some(g)) => {
                &&& spread.dims().3 == g.dims().3
                &&& forall|s: int, d: int|
                    0 <= s < sequence * p.qkv.n_householder && 0 <= d < g.dims().3
                        ==> #[trigger] spread@(a, s, h, d) == (if s % p.qkv.n_householder as int
                        == 0 {
                        g@(a, s / p.qkv.n_householder as int, h, d)
                    } else {
                        R::zero()
                    })
            },
            (None, None) => true,
            _ => false,
        },
    ensures
        streams_agree(
            sequence * p.qkv.n_householder,
            p.qkv.head_k_dim as int,
            p.qkv.head_v_dim as int,
            input.stream(a, h),
            p.stream(x(a), window(a), h),
        ),
{
    let q = p.qkv;
    let (u, nk, nv) = (q.n_householder as int, q.head_k_dim as int, q.head_v_dim as int);
    let steps = sequence * u;
    let (w, z) = (input.stream(a, h), p.stream(x(a), window(a), h));
    let (rows, raws) = (mixed_rows(q, x, window), raw_rows(q, x));
    assert forall|s: int, d: int| 0 <= s < steps && 0 <= d < nk implies #[trigger] (w.q)(s, d)
        == (z.q)(s, d) by {
        lemma_token(s, sequence, u);
        assert((w.q)(s, d) == input.q_bshk@(a, s, h, d));
        if s % u == u - 1 {
            assert(read.q_bshk@(a, s / u, h, d) == q.query(rows(a, s / u), h)(d));
        }
    }
    assert forall|s: int, d: int| 0 <= s < steps && 0 <= d < nk implies #[trigger] (w.k)(s, d)
        == (z.k)(s, d) by {
        assert(read.k_bShk@(a, s, h, d) == q.key(rows(a, s / u), s % u, h)(d));
    }
    assert forall|s: int, e: int| 0 <= s < steps && 0 <= e < nv implies #[trigger] (w.v)(s, e)
        == (z.v)(s, e) by {
        assert(read.v_bShv@(a, s, h, e) == q.value(rows(a, s / u), s % u, h, e));
    }
    assert forall|s: int, d: int| 0 <= s < steps && 0 <= d < nk implies #[trigger] (w.erase)(s, d)
        == (z.erase)(s, d) by {
        let i = if q.erase_width() == 1 {
            0
        } else {
            d
        };
        assert(read.erase_bShK@(a, s, h, i) == q.erase(raws(a, s / u), s % u, h, i));
    }
    assert forall|s: int, e: int| 0 <= s < steps && 0 <= e < nv implies #[trigger] (w.write)(s, e)
        == (z.write)(s, e) by {
        let i = if q.write_width() == 1 {
            0
        } else {
            e
        };
        assert(read.write_bShV@(a, s, h, i) == q.write(raws(a, s / u), s % u, h, i));
    }
    assert forall|s: int, d: int| 0 <= s < steps && 0 <= d < nk implies #[trigger] (w.g)(s, d)
        == (z.g)(s, d) by {
        lemma_token(s, sequence, u);
        let named = (p.decay)(q.raw(x(a), s / u), h, d);
        match (input.g_bshK, g) {
            (Some(spread), Some(g)) => {
                let i = if g.dims().3 == 1 {
                    0
                } else {
                    d
                };
                assert((w.g)(s, d) == spread@(a, s, h, i));
                assert(named == widened(g.dims().3 as int, head_plane(g@, a, h))(s / u, d));
            },
            _ => {
                assert(named == R::zero());
            },
        }
    }
}

/// The output gate: the given one, or else the one that the front end projected.
pub open spec fn chosen<R>(gate: Option<Tensor4<R>>, read: Qkv<R>) -> Option<Tensor4<R>> {
    match gate {
        Some(z) => Some(z),
        None => read.gate_bshv,
    }
}

/// Runs the delta rule over a batch of projected sequences, norms what each head
/// reads, and projects back. Returns the outputs and the last state.
pub(crate) fn advance<T: Real>(
    read: Qkv<T>,
    g: Option<Tensor4<T>>,
    gate: Option<Tensor4<T>>,
    state_bhkv: Tensor4<T>,
    path: DeltaPath,
    u: usize,
    norm: &OutNorm<T>,
    out_proj: &Linear<T>,
    Ghost(p): Ghost<Pipeline<T>>,
    Ghost(x): Ghost<spec_fn(int) -> Mat<T>>,
    Ghost(window): Ghost<spec_fn(int) -> Mat<T>>,
) -> (r: (Tensor3<T>, Tensor4<T>))
    requires
        p.valid(),
        p.norm == *norm,
        p.out_proj == *out_proj,
        u == p.qkv.n_householder,
        read.q_bshk.dims().1 > 0,
        read.q_bshk.dims().1 * u <= usize::MAX,
        path.admits(read.q_bshk.dims().1 * u),
        read.follows(
            p.qkv,
            x,
            window,
            read.q_bshk.dims().0 as int,
            read.q_bshk.dims().1 as int,
        ),
        p.decays(read.q_bshk.dims().0 as int, read.q_bshk.dims().1 as int, x, g),
        p.gates(
            read.q_bshk.dims().0 as int,
            read.q_bshk.dims().1 as int,
            x,
            chosen(gate, read),
        ),
        state_bhkv.has_shape(
            read.q_bshk.dims().0 as int,
            p.qkv.n_value_heads as int,
            p.qkv.head_k_dim as int,
            p.qkv.head_v_dim as int,
        ),
    ensures
        r.0.has_shape(
            read.q_bshk.dims().0 as int,
            read.q_bshk.dims().1 as int,
            out_proj.weight.cols() as int,
        ),
        forall|a: int, t: int, c: int|
            0 <= a < read.q_bshk.dims().0 && 0 <= t < read.q_bshk.dims().1 && 0 <= c
                < out_proj.weight.cols() ==> #[trigger] r.0@(a, t, c) == p.out(
                x(a),
                window(a),
                |h: int| states(Some(state_bhkv))(a, h),
                t,
                c,
            ),
        p.leaves(
            read.q_bshk.dims().0 as int,
            x,
            window,
            states(Some(state_bhkv)),
            read.q_bshk.dims().1 as int,
            r.1,
        ),
{
    let (batch, sequence, nheads, nk) = read.q_bshk.dims();
    let nv: usize = read.v_bShv.dims().3;
    proof {
        p.qkv.shape().lemma_parts();
        assert(sequence * u > 0) by (nonlinear_arith)
            requires
                sequence > 0,
                u > 0,
        ;
    }
    let steps: usize = sequence * u;
    let q_bshk = at_last_steps(&read.q_bshk, u, steps);
    let spread = match &g {
        Some(g) => Some(at_first_steps(g, u, steps)),
        None => None,
    };
    let ghost read0 = read;
    let gate = match gate {
        Some(z) => Some(z),
        None => read.gate_bshv,
    };
    let input = DeltaInput {
        q_bshk,
        k_bshk: read.k_bShk,
        v_bshv: read.v_bShv,
        erase_bshK: read.erase_bShK,
        write_bshV: read.write_bShV,
        g_bshK: spread,
        state_bhkv,
        scale: None,
    };
    let (y, last) = input.run(path);
    let kept = kept_steps(&y, u, sequence);
    let normed = norm.forward(&kept, &gate);
    let flat = side_by_side(&normed, out_proj.weight.rows());
    let out = out_proj.forward(&flat);
    proof {
        let ss = states(Some(state_bhkv));
        assert forall|a: int, h: int| 0 <= a < batch && 0 <= h < nheads implies streams_agree(
            steps as int,
            nk as int,
            nv as int,
            #[trigger] input.stream(a, h),
            p.stream(x(a), window(a), h),
        ) by {
            lemma_streams(
                p,
                read0,
                g,
                input,
                x,
                window,
                batch as int,
                sequence as int,
                a,
                h,
            );
        }
        assert forall|a: int, h: int, d: int, e: int|
            0 <= a < batch && 0 <= h < nheads && 0 <= d < nk && 0 <= e < nv implies
            #[trigger] last@(a, h, d, e) == p.state_at(
            x(a),
            window(a),
            ss(a, h),
            h,
            sequence as int,
        )(d, e) by {
            let (w, z) = (input.stream(a, h), p.stream(x(a), window(a), h));
            lemma_run_depends(w, z, nk as int, nv as int, ss(a, h), ss(a, h), steps as int);
            assert(last@(a, h, d, e) == state_after(w, nk as int, ss(a, h), steps as int)(d, e));
        }
        assert forall|a: int, t: int, h: int|
            0 <= a < batch && 0 <= t < sequence && 0 <= h < nheads implies #[trigger] last_row(
            kept@,
            a,
            t,
            h,
        ) == p.readout(x(a), window(a), ss(a, h), t, h) by {
            let (w, z) = (input.stream(a, h), p.stream(x(a), window(a), h));
            let s = t * u + (u - 1);
            lemma_flat(t, sequence as int, u - 1, u as int);
            assert forall|e: int| #[trigger] last_row(kept@, a, t, h)(e) == p.readout(
                x(a),
                window(a),
                ss(a, h),
                t,
                h,
            )(e) by {
                if 0 <= e < nv {
                    assert(kept@(a, t, h, e) == y@(a, s, h, e));
                    lemma_output_depends(
                        w,
                        z,
                        nk as int,
                        nv as int,
                        p.scale(),
                        ss(a, h),
                        ss(a, h),
                        s,
                        e,
                    );
                }
            }
            assert(last_row(kept@, a, t, h) =~= p.readout(x(a), window(a), ss(a, h), t, h));
        }
        assert forall|a: int, t: int, c: int|
            0 <= a < batch && 0 <= t < sequence && 0 <= c < out_proj.weight.cols() implies
            #[trigger] out@(a, t, c) == p.out(x(a), window(a), |h: int| ss(a, h), t, c) by {
            let heads = p.heads_out(x(a), window(a), |h: int| ss(a, h), t);
            assert forall|i: int| #[trigger] row_of(flat@, a, t)(i) == heads(i) by {
                if 0 <= i < p.qkv.shape().values() {
                    lemma_token(i, nheads as int, nv as int);
                    let (h, e) = (i / nv as int, i % nv as int);
                    assert(flat@(a, t, i) == normed@(a, t, h, e));
                    assert(gate_row(gate, a, t, h) == p.gate_of(x(a), t, h)) by {
                        if gate is Some {
                            let z = gate->0;
                            let named = p.gate_of(x(a), t, h)->0;
                            assert forall|e: int| #[trigger] last_row(z@, a, t, h)(e) == named(
                                e,
                            ) by {
                                if 0 <= e < nv {
                                    assert(z@(a, t, h, e) == (p.gate->0)(
                                        p.qkv.raw(x(a), t),
                                        h,
                                        e,
                                    ));
                                }
                            }
                            assert(last_row(z@, a, t, h) =~= named);
                        }
                    }
                    assert(last_row(kept@, a, t, h) == p.readout(x(a), window(a), ss(a, h), t, h));
                }
            }
            assert(row_of(flat@, a, t) =~= heads);
            assert((|d: int| sequence_of(flat@, a)(t, d)) =~= heads);
        }
    }
    (out, last)
}

} // verus!
