//! The front end of every block: from a token to what the delta rule reads.
//!
//! ```text
//!   x -> in_proj -> [ q | k | v | beta or (erase | write) | gate? | extra? ]
//!                     `- short convolution -'
//!     -> activation, head split, normalisation of q and k, squashed gates
//! ```
//!
//! A block with `n_householder > 1` projects that many keys, values and write
//! gates per token. They are folded into the sequence: what comes out has length
//! `sequence * n_householder`, token by token and step by step.
use vstd::prelude::*;

use crate::common::activation::{sigmoid, sigmoid_of, silu, silu_of, twice, twice_of};
use crate::common::conv::{lemma_filtered_depends, ConvActivation, ShortConv};
use crate::common::index::lemma_token;
use crate::common::linear::{
    as_sequence, first_step, row_of, sequence_of, token_of, within, Linear, Row,
};
use crate::common::norm::{last_row, QkActivation, QkNorm};
use crate::common::shape::{QkvShape, Segment, WriteGate};
use crate::mat::Mat;
use crate::matrix::Matrix;
use crate::ring::{Real, Ring, Scalar};
use crate::tensor::{Tensor3, Tensor4};

verus! {

/// The fused projection, the short convolution, and what follows them.
pub struct QkvProjection<T> {
    /// `d_model` to all channels.
    pub in_proj: Linear<T>,
    /// The short convolution over queries, keys and values, if there is one.
    pub conv: Option<ShortConv<T>>,
    /// The activation of queries and keys.
    pub qk_activation: QkActivation,
    /// The normalisation of queries and keys.
    pub qk_norm: QkNorm,
    /// The number of query and key heads.
    pub nheads: usize,
    /// The number of value heads, a multiple of the query heads.
    pub n_value_heads: usize,
    /// The query and key channels of each head.
    pub head_k_dim: usize,
    /// The value channels of each head.
    pub head_v_dim: usize,
    /// The steps of the delta rule per token.
    pub n_householder: usize,
    /// How writes are gated.
    pub write_gate: WriteGate,
    /// Whether an output gate is projected.
    pub has_gate: bool,
    /// Whether the erase gate reaches two instead of one.
    pub allow_neg_eigval: bool,
    /// The width of the trailing segment.
    pub extra_channels: usize,
}

impl<T: Ring> QkvProjection<T> {
    /// The lengths that the layout follows from, in specifications.
    pub open spec fn spec_shape(&self) -> QkvShape {
        QkvShape {
            nheads: self.nheads,
            n_value_heads: self.n_value_heads,
            head_k_dim: self.head_k_dim,
            head_v_dim: self.head_v_dim,
            n_householder: self.n_householder,
            write_gate: self.write_gate,
            has_gate: self.has_gate,
            extra_channels: self.extra_channels,
        }
    }

    /// The lengths that the layout follows from.
    #[verifier::when_used_as_spec(spec_shape)]
    pub fn shape(&self) -> (r: QkvShape)
        ensures
            r == self.shape(),
    {
        QkvShape {
            nheads: self.nheads,
            n_value_heads: self.n_value_heads,
            head_k_dim: self.head_k_dim,
            head_v_dim: self.head_v_dim,
            n_householder: self.n_householder,
            write_gate: self.write_gate,
            has_gate: self.has_gate,
            extra_channels: self.extra_channels,
        }
    }
}

impl<T: Real> QkvProjection<T> {
    /// Whether the parameters have the widths that the layout calls for.
    pub open spec fn valid(&self) -> bool {
        &&& self.shape().sound()
        &&& self.in_proj.valid()
        &&& self.in_proj.weight.cols() == self.shape().channels()
        &&& self.conv matches Some(conv) ==> conv.valid() && conv.weight.rows()
            == self.shape().mixed()
    }

    /// Whether the convolution applies the activation of queries, keys and values.
    pub open spec fn fused(&self) -> bool {
        &&& self.qk_activation == QkActivation::Silu
        &&& self.conv matches Some(conv) && conv.activation == ConvActivation::Silu
    }

    /// The channels projected at step `t` of the sequence `x`.
    pub open spec fn raw(&self, x: Mat<T>, t: int) -> Row<T> {
        within(self.shape().channels(), self.in_proj.image(|d: int| x(t, d)))
    }

    /// The query, key and value channels at step `t` of the sequence `x`, after the
    /// convolution, which was entered with a window.
    pub open spec fn mixed(&self, window: Mat<T>, x: Mat<T>, t: int) -> Row<T> {
        within(
            self.shape().mixed(),
            match self.conv {
                Some(conv) => |c: int|
                    conv.filtered(window, |i: int, c: int| self.raw(x, i)(c), t, c),
                None => self.raw(x, t),
            },
        )
    }

    /// A query or key channel after its activation.
    pub open spec fn active(&self, x: T) -> T {
        if self.fused() {
            x
        } else {
            self.qk_activation.value(x)
        }
    }

    /// The query of head `h` in a mixed row.
    pub open spec fn query(&self, row: Row<T>, h: int) -> Row<T> {
        let n = self.head_k_dim as int;
        self.qk_norm.normed(
            n,
            within(n, |d: int| self.active(row(self.shape().query_at(h, d)))),
        )
    }

    /// Key `j` of head `h` in a mixed row.
    pub open spec fn key(&self, row: Row<T>, j: int, h: int) -> Row<T> {
        let n = self.head_k_dim as int;
        self.qk_norm.normed(
            n,
            within(n, |d: int| self.active(row(self.shape().key_at(j, h, d)))),
        )
    }

    /// Channel `e` of value `j` of head `h` in a mixed row.
    pub open spec fn value(&self, row: Row<T>, j: int, h: int, e: int) -> T {
        let x = row(self.shape().value_at(j, h, e));
        if self.fused() {
            x
        } else {
            silu(x)
        }
    }

    /// A gate, doubled where it may reach two.
    pub open spec fn reach(&self, x: T) -> T {
        if self.allow_neg_eigval {
            twice(x)
        } else {
            x
        }
    }

    /// Channel `d` of the erase gate of step `j` of head `h` in a raw row.
    pub open spec fn erase(&self, raw: Row<T>, j: int, h: int, d: int) -> T {
        self.reach(
            match self.write_gate {
                WriteGate::Fixed => T::one(),
                WriteGate::Scalar => sigmoid(raw(self.shape().beta_at(j, h))),
                WriteGate::Channel => sigmoid(raw(self.shape().erase_at(j, h, d))),
            },
        )
    }

    /// Channel `e` of the write gate of step `j` of head `h` in a raw row. A single
    /// value per head is both gates at once, doubled or not.
    pub open spec fn write(&self, raw: Row<T>, j: int, h: int, e: int) -> T {
        match self.write_gate {
            WriteGate::Fixed => T::one(),
            WriteGate::Scalar => self.reach(sigmoid(raw(self.shape().beta_at(j, h)))),
            WriteGate::Channel => sigmoid(raw(self.shape().write_at(j, h, e))),
        }
    }

    /// Channel `e` of the output gate of head `h` in a raw row.
    pub open spec fn out_gate(&self, raw: Row<T>, h: int, e: int) -> T {
        raw(self.shape().gate_at(h, e))
    }

    /// Channel `x` of the trailing segment in a raw row.
    pub open spec fn extra(&self, raw: Row<T>, x: int) -> T {
        raw(self.shape().extra_at(x))
    }

    /// The last axis of the erase gate: one value per head, or one per channel.
    pub open spec fn erase_width(&self) -> int {
        if self.write_gate == WriteGate::Channel {
            self.head_k_dim as int
        } else {
            1
        }
    }

    /// The last axis of the write gate: one value per head, or one per channel.
    pub open spec fn write_width(&self) -> int {
        if self.write_gate == WriteGate::Channel {
            self.head_v_dim as int
        } else {
            1
        }
    }

    /// Whether a window is there exactly when there is a convolution, with the
    /// right shape.
    pub open spec fn takes(&self, batch: int, window: Option<Tensor3<T>>) -> bool {
        match (self.conv, window) {
            (Some(conv), Some(window)) => conv.fits(batch, &window),
            (None, None) => true,
            _ => false,
        }
    }

    /// Whether `next` holds the window of every sequence after its first `t` steps.
    pub open spec fn slides(
        &self,
        batch: int,
        x: spec_fn(int) -> Mat<T>,
        window: spec_fn(int) -> Mat<T>,
        t: int,
        next: Option<Tensor3<T>>,
    ) -> bool {
        &&& self.takes(batch, next)
        &&& match (self.conv, next) {
            (Some(conv), Some(next)) => forall|a: int, c: int, j: int|
                0 <= a < batch && 0 <= c < self.shape().mixed() && 0 <= j < conv.weight.cols()
                    ==> #[trigger] next@(a, c, j) == conv.window_after(
                    window(a),
                    |i: int, c: int| self.raw(x(a), i)(c),
                    t,
                )(c, j),
            _ => true,
        }
    }
}

/// The window of each sequence; zero where there is none.
pub open spec fn windows<R: Ring>(window: Option<Tensor3<R>>) -> spec_fn(int) -> Mat<R> {
    match window {
        Some(w) => |a: int| sequence_of(w@, a),
        None => |a: int| (|c: int, j: int| R::zero()),
    }
}

/// What the delta rule reads over a batch of sequences.
#[allow(non_snake_case)]
pub struct Qkv<T> {
    /// Queries, one per token: `[batch, sequence, nheads, head_k_dim]`.
    pub q_bshk: Tensor4<T>,
    /// Keys: `[batch, sequence * n_householder, nheads, head_k_dim]`.
    pub k_bShk: Tensor4<T>,
    /// Values: `[batch, sequence * n_householder, nheads, head_v_dim]`.
    pub v_bShv: Tensor4<T>,
    /// The erase gate: `[batch, sequence * n_householder, nheads, 1 or head_k_dim]`.
    pub erase_bShK: Tensor4<T>,
    /// The write gate: `[batch, sequence * n_householder, nheads, 1 or head_v_dim]`.
    pub write_bShV: Tensor4<T>,
    /// The output gate, if there is one: `[batch, sequence, nheads, head_v_dim]`.
    pub gate_bshv: Option<Tensor4<T>>,
    /// The trailing segment, if there is one: `[batch, sequence, extra_channels]`.
    pub extra_bsx: Option<Tensor3<T>>,
}

/// What the delta rule reads for a single token.
#[allow(non_snake_case)]
pub struct QkvStep<T> {
    /// The query: `[batch, nheads, head_k_dim]`.
    pub q_bhk: Tensor3<T>,
    /// Keys: `[batch, n_householder, nheads, head_k_dim]`.
    pub k_buhk: Tensor4<T>,
    /// Values: `[batch, n_householder, nheads, head_v_dim]`.
    pub v_buhv: Tensor4<T>,
    /// The erase gate: `[batch, n_householder, nheads, 1 or head_k_dim]`.
    pub erase_buhK: Tensor4<T>,
    /// The write gate: `[batch, n_householder, nheads, 1 or head_v_dim]`.
    pub write_buhV: Tensor4<T>,
    /// The output gate, if there is one: `[batch, nheads, head_v_dim]`.
    pub gate_bhv: Option<Tensor3<T>>,
    /// The trailing segment, if there is one: `[batch, extra_channels]`.
    pub extra_bx: Option<Matrix<T>>,
}

/// Whether `q` holds the queries of every token.
pub open spec fn are_queries<R: Real>(
    p: QkvProjection<R>,
    rows: spec_fn(int, int) -> Row<R>,
    batch: int,
    sequence: int,
    q: Tensor4<R>,
) -> bool {
    &&& q.has_shape(batch, sequence, p.n_value_heads as int, p.head_k_dim as int)
    &&& forall|a: int, t: int, h: int, d: int|
        0 <= a < batch && 0 <= t < sequence && 0 <= h < p.n_value_heads && 0 <= d < p.head_k_dim
            ==> #[trigger] q@(a, t, h, d) == p.query(rows(a, t), h)(d)
}

/// Whether `k` holds the keys of every step.
pub open spec fn are_keys<R: Real>(
    p: QkvProjection<R>,
    rows: spec_fn(int, int) -> Row<R>,
    batch: int,
    steps: int,
    k: Tensor4<R>,
) -> bool {
    let u = p.n_householder as int;
    &&& k.has_shape(batch, steps, p.n_value_heads as int, p.head_k_dim as int)
    &&& forall|a: int, s: int, h: int, d: int|
        0 <= a < batch && 0 <= s < steps && 0 <= h < p.n_value_heads && 0 <= d < p.head_k_dim
            ==> #[trigger] k@(a, s, h, d) == p.key(rows(a, s / u), s % u, h)(d)
}

/// Whether `v` holds the values of every step.
pub open spec fn are_values<R: Real>(
    p: QkvProjection<R>,
    rows: spec_fn(int, int) -> Row<R>,
    batch: int,
    steps: int,
    v: Tensor4<R>,
) -> bool {
    let u = p.n_householder as int;
    &&& v.has_shape(batch, steps, p.n_value_heads as int, p.head_v_dim as int)
    &&& forall|a: int, s: int, h: int, e: int|
        0 <= a < batch && 0 <= s < steps && 0 <= h < p.n_value_heads && 0 <= e < p.head_v_dim
            ==> #[trigger] v@(a, s, h, e) == p.value(rows(a, s / u), s % u, h, e)
}

/// Whether `b` holds the erase gates of every step.
pub open spec fn are_erase_gates<R: Real>(
    p: QkvProjection<R>,
    raws: spec_fn(int, int) -> Row<R>,
    batch: int,
    steps: int,
    b: Tensor4<R>,
) -> bool {
    let u = p.n_householder as int;
    &&& b.has_shape(batch, steps, p.n_value_heads as int, p.erase_width())
    &&& forall|a: int, s: int, h: int, d: int|
        0 <= a < batch && 0 <= s < steps && 0 <= h < p.n_value_heads && 0 <= d < p.erase_width()
            ==> #[trigger] b@(a, s, h, d) == p.erase(raws(a, s / u), s % u, h, d)
}

/// Whether `w` holds the write gates of every step.
pub open spec fn are_write_gates<R: Real>(
    p: QkvProjection<R>,
    raws: spec_fn(int, int) -> Row<R>,
    batch: int,
    steps: int,
    w: Tensor4<R>,
) -> bool {
    let u = p.n_householder as int;
    &&& w.has_shape(batch, steps, p.n_value_heads as int, p.write_width())
    &&& forall|a: int, s: int, h: int, e: int|
        0 <= a < batch && 0 <= s < steps && 0 <= h < p.n_value_heads && 0 <= e < p.write_width()
            ==> #[trigger] w@(a, s, h, e) == p.write(raws(a, s / u), s % u, h, e)
}

/// Whether `z` holds the output gates of every token, if there are any.
pub open spec fn are_out_gates<R: Real>(
    p: QkvProjection<R>,
    raws: spec_fn(int, int) -> Row<R>,
    batch: int,
    sequence: int,
    z: Option<Tensor4<R>>,
) -> bool {
    match z {
        Some(z) => {
            &&& p.has_gate
            &&& z.has_shape(batch, sequence, p.n_value_heads as int, p.head_v_dim as int)
            &&& forall|a: int, t: int, h: int, e: int|
                0 <= a < batch && 0 <= t < sequence && 0 <= h < p.n_value_heads && 0 <= e
                    < p.head_v_dim ==> #[trigger] z@(a, t, h, e) == p.out_gate(raws(a, t), h, e)
        },
        None => !p.has_gate,
    }
}

/// Whether `x` holds the trailing segment of every token, if there is one.
pub open spec fn are_extras<R: Real>(
    p: QkvProjection<R>,
    raws: spec_fn(int, int) -> Row<R>,
    batch: int,
    sequence: int,
    x: Option<Tensor3<R>>,
) -> bool {
    match x {
        Some(x) => {
            &&& p.extra_channels > 0
            &&& x.has_shape(batch, sequence, p.extra_channels as int)
            &&& forall|a: int, t: int, i: int|
                0 <= a < batch && 0 <= t < sequence && 0 <= i < p.extra_channels ==> #[trigger] x@(
                    a,
                    t,
                    i,
                ) == p.extra(raws(a, t), i)
        },
        None => p.extra_channels == 0,
    }
}

/// The mixed row of each step of each sequence.
pub open spec fn mixed_rows<R: Real>(
    p: QkvProjection<R>,
    x: spec_fn(int) -> Mat<R>,
    window: spec_fn(int) -> Mat<R>,
) -> spec_fn(int, int) -> Row<R> {
    |a: int, t: int| p.mixed(window(a), x(a), t)
}

/// The raw row of each step of each sequence.
pub open spec fn raw_rows<R: Real>(
    p: QkvProjection<R>,
    x: spec_fn(int) -> Mat<R>,
) -> spec_fn(int, int) -> Row<R> {
    |a: int, t: int| p.raw(x(a), t)
}

impl<T: Real> Qkv<T> {
    /// Whether this is what the projection makes of the given mixed and raw rows.
    pub open spec fn reads(
        &self,
        p: QkvProjection<T>,
        rows: spec_fn(int, int) -> Row<T>,
        raws: spec_fn(int, int) -> Row<T>,
        batch: int,
        sequence: int,
    ) -> bool {
        let steps = sequence * p.n_householder;
        &&& are_queries(p, rows, batch, sequence, self.q_bshk)
        &&& are_keys(p, rows, batch, steps, self.k_bShk)
        &&& are_values(p, rows, batch, steps, self.v_bShv)
        &&& are_erase_gates(p, raws, batch, steps, self.erase_bShK)
        &&& are_write_gates(p, raws, batch, steps, self.write_bShV)
        &&& are_out_gates(p, raws, batch, sequence, self.gate_bshv)
        &&& are_extras(p, raws, batch, sequence, self.extra_bsx)
    }

    /// Whether this is what the projection makes of a batch of sequences, entered
    /// with a window each.
    pub open spec fn follows(
        &self,
        p: QkvProjection<T>,
        x: spec_fn(int) -> Mat<T>,
        window: spec_fn(int) -> Mat<T>,
        batch: int,
        sequence: int,
    ) -> bool {
        self.reads(p, mixed_rows(p, x, window), raw_rows(p, x), batch, sequence)
    }
}

impl<T: Real> QkvStep<T> {
    /// Whether this is what the projection makes of a batch of tokens, entered
    /// with a window each.
    pub open spec fn follows(
        &self,
        p: QkvProjection<T>,
        x: spec_fn(int) -> Mat<T>,
        window: spec_fn(int) -> Mat<T>,
        batch: int,
    ) -> bool {
        let (rows, raws) = (mixed_rows(p, x, window), raw_rows(p, x));
        let u = p.n_householder as int;
        let (nheads, nk, nv) = (p.n_value_heads as int, p.head_k_dim as int, p.head_v_dim as int);
        &&& self.q_bhk.has_shape(batch, nheads, nk)
        &&& forall|a: int, h: int, d: int|
            0 <= a < batch && 0 <= h < nheads && 0 <= d < nk ==> #[trigger] self.q_bhk@(a, h, d)
                == p.query(rows(a, 0), h)(d)
        &&& are_keys(p, rows, batch, u, self.k_buhk)
        &&& are_values(p, rows, batch, u, self.v_buhv)
        &&& are_erase_gates(p, raws, batch, u, self.erase_buhK)
        &&& are_write_gates(p, raws, batch, u, self.write_buhV)
        &&& match self.gate_bhv {
            Some(z) => {
                &&& p.has_gate
                &&& z.has_shape(batch, nheads, nv)
                &&& forall|a: int, h: int, e: int|
                    0 <= a < batch && 0 <= h < nheads && 0 <= e < nv ==> #[trigger] z@(a, h, e)
                        == p.out_gate(raws(a, 0), h, e)
            },
            None => !p.has_gate,
        }
        &&& match self.extra_bx {
            Some(x) => {
                &&& p.extra_channels > 0
                &&& x.has_shape(batch, p.extra_channels as int)
                &&& forall|a: int, i: int|
                    0 <= a < batch && 0 <= i < p.extra_channels ==> #[trigger] x@(a, i) == p.extra(
                        raws(a, 0),
                        i,
                    )
            },
            None => p.extra_channels == 0,
        }
    }
}

/// A batch of tokens as a batch of sequences of one step.
pub open spec fn tokens<R: Ring>(x: Matrix<R>) -> spec_fn(int) -> Mat<R> {
    |a: int| token_of(x@, a)
}

/// The sequences of a batch.
pub open spec fn sequences<R: Ring>(x: Tensor3<R>) -> spec_fn(int) -> Mat<R> {
    |a: int| sequence_of(x@, a)
}

/// The rows of a batch of sequences.
pub open spec fn rows_of<R: Ring>(x: Tensor3<R>) -> spec_fn(int, int) -> Row<R> {
    |a: int, t: int| row_of(x@, a, t)
}

impl<T: Real> QkvProjection<T> {
    /// The channels of one key.
    pub fn key_dim(&self) -> (r: usize)
        requires
            self.valid(),
        ensures
            r == self.shape().keys(),
    {
        self.shape().key_dim()
    }

    /// The channels of one value.
    pub fn value_dim(&self) -> (r: usize)
        requires
            self.valid(),
        ensures
            r == self.shape().values(),
    {
        self.shape().value_dim()
    }

    /// Value heads per query head.
    pub fn heads_per_group(&self) -> (r: usize)
        requires
            self.valid(),
        ensures
            r == self.shape().group(),
    {
        self.shape().heads_per_group()
    }

    /// The number of heads that the delta rule runs: the value heads.
    pub fn state_heads(&self) -> (r: usize)
        ensures
            r == self.n_value_heads,
    {
        self.n_value_heads
    }

    /// The channels that enter the short convolution.
    pub fn conv_dim(&self) -> (r: usize)
        requires
            self.valid(),
        ensures
            r == self.shape().mixed(),
    {
        self.shape().conv_dim()
    }

    /// The channels of all write gates.
    pub fn write_gate_width(&self) -> (r: usize)
        requires
            self.valid(),
        ensures
            r == self.shape().writes(),
    {
        self.shape().write_gate_width()
    }

    /// The channels of the whole projection.
    pub fn d_in_proj(&self) -> (r: usize)
        requires
            self.valid(),
        ensures
            r == self.shape().channels(),
    {
        self.shape().d_in_proj()
    }

    /// The segments of the projection in order, by name and width.
    pub fn segments(&self) -> (r: Vec<Segment>)
        requires
            self.valid(),
        ensures
            r@ == self.shape().layout(),
    {
        self.shape().segments()
    }

    /// The window length, or zero where there is no convolution.
    pub fn conv_kernel(&self) -> (r: usize)
        ensures
            r == (match self.conv {
                Some(conv) => conv.weight.cols(),
                None => 0,
            }),
    {
        match &self.conv {
            Some(conv) => conv.conv_kernel(),
            None => 0,
        }
    }

    /// The window before the first token, where there is a convolution.
    pub fn zero_conv_window(&self, batch: usize) -> (r: Option<Tensor3<T>>)
        requires
            self.valid(),
        ensures
            self.takes(batch as int, r),
            forall|a: int| #[trigger] windows(r)(a) == windows::<T>(None)(a),
    {
        match &self.conv {
            Some(conv) => {
                let w = conv.zero_window(batch);
                assert forall|a: int| #[trigger] windows(Some(w))(a) == windows::<T>(None)(a) by {
                    assert(windows(Some(w))(a) =~= windows::<T>(None)(a));
                }
                Some(w)
            },
            None => None,
        }
    }

    /// Whether the convolution applies the activation of queries, keys and values.
    fn activation_fused_into_conv(&self) -> (r: bool)
        ensures
            r == self.fused(),
    {
        match &self.conv {
            Some(conv) => {
                self.qk_activation == QkActivation::Silu && conv.activation == ConvActivation::Silu
            },
            None => false,
        }
    }

    /// A query or key channel after its activation.
    fn activate(&self, x: T) -> (r: T)
        ensures
            r == self.active(x),
    {
        if self.activation_fused_into_conv() {
            x
        } else {
            self.qk_activation.apply(x)
        }
    }

    /// A gate, doubled where it may reach two.
    fn reached(&self, x: T) -> (r: T)
        ensures
            r == self.reach(x),
    {
        if self.allow_neg_eigval {
            twice_of(x)
        } else {
            x
        }
    }

    /// A tensor over query heads, handed to every value head of each group.
    pub fn expand_to_value_heads(&self, t: &Tensor4<T>) -> (r: Tensor4<T>)
        requires
            self.valid(),
            t.dims().2 == self.nheads,
        ensures
            r.has_shape(
                t.dims().0 as int,
                t.dims().1 as int,
                self.n_value_heads as int,
                t.dims().3 as int,
            ),
            forall|a: int, b: int, h: int, d: int|
                0 <= a < t.dims().0 && 0 <= b < t.dims().1 && 0 <= h < self.n_value_heads && 0 <= d
                    < t.dims().3 ==> #[trigger] r@(a, b, h, d) == t@(
                    a,
                    b,
                    self.shape().query_head(h),
                    d,
                ),
    {
        let f = |a: usize, b: usize, h: usize, d: usize| -> (r: T)
            requires
                a < t.dims().0,
                b < t.dims().1,
                h < self.n_value_heads,
                d < t.dims().3,
            ensures
                r == t@(a as int, b as int, self.shape().query_head(h as int), d as int),
            {
                proof {
                    self.shape().lemma_groups(h as int);
                }
                t.at(a, b, h / self.heads_per_group(), d)
            };
        Tensor4::from_fn(t.dims().0, t.dims().1, self.n_value_heads, t.dims().3, f)
    }

    /// The queries of every token, from the mixed rows.
    fn queries(&self, mixed: &Tensor3<T>) -> (r: Tensor4<T>)
        requires
            self.valid(),
            mixed.dims().2 == self.shape().mixed(),
        ensures
            are_queries(
                *self,
                rows_of(*mixed),
                mixed.dims().0 as int,
                mixed.dims().1 as int,
                r,
            ),
    {
        let (batch, sequence, _) = mixed.dims();
        let (nheads, nk) = (self.n_value_heads, self.head_k_dim);
        let f = |a: usize, t: usize, h: usize, d: usize| -> (r: T)
            requires
                a < batch,
                t < sequence,
                h < nheads,
                d < nk,
            ensures
                r == self.active(
                    row_of(mixed@, a as int, t as int)(
                        self.shape().query_at(h as int, d as int),
                    ),
                ),
            { self.activate(mixed.at(a, t, self.shape().query_index(h, d))) };
        let x = Tensor4::from_fn(batch, sequence, nheads, nk, f);
        proof {
            assert forall|a: int, t: int, h: int|
                0 <= a < batch && 0 <= t < sequence && 0 <= h < nheads implies #[trigger] last_row(
                x@,
                a,
                t,
                h,
            ) == within(
                nk as int,
                |d: int| self.active(row_of(mixed@, a, t)(self.shape().query_at(h, d))),
            ) by {
                assert(last_row(x@, a, t, h) =~= within(
                    nk as int,
                    |d: int| self.active(row_of(mixed@, a, t)(self.shape().query_at(h, d))),
                ));
            }
        }
        self.qk_norm.apply(x)
    }

    /// The keys of every step, from the mixed rows.
    fn keys(&self, mixed: &Tensor3<T>, steps: usize) -> (r: Tensor4<T>)
        requires
            self.valid(),
            mixed.dims().2 == self.shape().mixed(),
            steps == mixed.dims().1 * self.n_householder,
        ensures
            are_keys(*self, rows_of(*mixed), mixed.dims().0 as int, steps as int, r),
    {
        let (batch, sequence, _) = mixed.dims();
        let (nheads, nk, u) = (self.n_value_heads, self.head_k_dim, self.n_householder);
        let f = |a: usize, s: usize, h: usize, d: usize| -> (r: T)
            requires
                a < batch,
                s < steps,
                h < nheads,
                d < nk,
            ensures
                r == self.active(
                    row_of(mixed@, a as int, s as int / u as int)(
                        self.shape().key_at(s as int % u as int, h as int, d as int),
                    ),
                ),
            {
                proof {
                    lemma_token(s as int, sequence as int, u as int);
                }
                self.activate(mixed.at(a, s / u, self.shape().key_index(s % u, h, d)))
            };
        let x = Tensor4::from_fn(batch, steps, nheads, nk, f);
        proof {
            assert forall|a: int, s: int, h: int|
                0 <= a < batch && 0 <= s < steps && 0 <= h < nheads implies #[trigger] last_row(
                x@,
                a,
                s,
                h,
            ) == within(
                nk as int,
                |d: int|
                    self.active(
                        row_of(mixed@, a, s / u as int)(self.shape().key_at(s % u as int, h, d)),
                    ),
            ) by {
                assert(last_row(x@, a, s, h) =~= within(
                    nk as int,
                    |d: int|
                        self.active(
                            row_of(mixed@, a, s / u as int)(
                                self.shape().key_at(s % u as int, h, d),
                            ),
                        ),
                ));
            }
        }
        self.qk_norm.apply(x)
    }

    /// The values of every step, from the mixed rows.
    fn values(&self, mixed: &Tensor3<T>, steps: usize) -> (r: Tensor4<T>)
        requires
            self.valid(),
            mixed.dims().2 == self.shape().mixed(),
            steps == mixed.dims().1 * self.n_householder,
        ensures
            are_values(*self, rows_of(*mixed), mixed.dims().0 as int, steps as int, r),
    {
        let (batch, sequence, _) = mixed.dims();
        let (nheads, nv, u) = (self.n_value_heads, self.head_v_dim, self.n_householder);
        let f = |a: usize, s: usize, h: usize, e: usize| -> (r: T)
            requires
                a < batch,
                s < steps,
                h < nheads,
                e < nv,
            ensures
                r == self.value(
                    row_of(mixed@, a as int, s as int / u as int),
                    s as int % u as int,
                    h as int,
                    e as int,
                ),
            {
                proof {
                    lemma_token(s as int, sequence as int, u as int);
                }
                let x = mixed.at(a, s / u, self.shape().value_index(s % u, h, e));
                if self.activation_fused_into_conv() {
                    x
                } else {
                    silu_of(x)
                }
            };
        Tensor4::from_fn(batch, steps, nheads, nv, f)
    }

    /// The erase and write gates of every step, from the raw rows.
    fn squash_write(&self, raw: &Tensor3<T>, steps: usize) -> (r: (Tensor4<T>, Tensor4<T>))
        requires
            self.valid(),
            raw.dims().2 == self.shape().channels(),
            steps == raw.dims().1 * self.n_householder,
        ensures
            are_erase_gates(*self, rows_of(*raw), raw.dims().0 as int, steps as int, r.0),
            are_write_gates(*self, rows_of(*raw), raw.dims().0 as int, steps as int, r.1),
    {
        let (batch, sequence, _) = raw.dims();
        let (nheads, u) = (self.n_value_heads, self.n_householder);
        let channels: bool = self.write_gate == WriteGate::Channel;
        let wide: usize = if channels {
            self.head_k_dim
        } else {
            1
        };
        let f = |a: usize, s: usize, h: usize, d: usize| -> (r: T)
            requires
                a < batch,
                s < steps,
                h < nheads,
                d < wide,
            ensures
                r == self.erase(
                    row_of(raw@, a as int, s as int / u as int),
                    s as int % u as int,
                    h as int,
                    d as int,
                ),
            {
                proof {
                    lemma_token(s as int, sequence as int, u as int);
                }
                let b = match self.write_gate {
                    WriteGate::Fixed => T::unit(),
                    WriteGate::Scalar => sigmoid_of(
                        raw.at(a, s / u, self.shape().beta_index(s % u, h)),
                    ),
                    WriteGate::Channel => sigmoid_of(
                        raw.at(a, s / u, self.shape().erase_index(s % u, h, d)),
                    ),
                };
                self.reached(b)
            };
        let erase = Tensor4::from_fn(batch, steps, nheads, wide, f);
        let tall: usize = if channels {
            self.head_v_dim
        } else {
            1
        };
        let g = |a: usize, s: usize, h: usize, e: usize| -> (r: T)
            requires
                a < batch,
                s < steps,
                h < nheads,
                e < tall,
            ensures
                r == self.write(
                    row_of(raw@, a as int, s as int / u as int),
                    s as int % u as int,
                    h as int,
                    e as int,
                ),
            {
                proof {
                    lemma_token(s as int, sequence as int, u as int);
                }
                match self.write_gate {
                    WriteGate::Fixed => T::unit(),
                    WriteGate::Scalar => self.reached(
                        sigmoid_of(raw.at(a, s / u, self.shape().beta_index(s % u, h))),
                    ),
                    WriteGate::Channel => sigmoid_of(
                        raw.at(a, s / u, self.shape().write_index(s % u, h, e)),
                    ),
                }
            };
        let write = Tensor4::from_fn(batch, steps, nheads, tall, g);
        (erase, write)
    }

    /// The output gates of every token, from the raw rows.
    fn out_gates(&self, raw: &Tensor3<T>) -> (r: Option<Tensor4<T>>)
        requires
            self.valid(),
            raw.dims().2 == self.shape().channels(),
        ensures
            are_out_gates(*self, rows_of(*raw), raw.dims().0 as int, raw.dims().1 as int, r),
    {
        if self.has_gate {
            let (batch, sequence, _) = raw.dims();
            let f = |a: usize, t: usize, h: usize, e: usize| -> (r: T)
                requires
                    a < batch,
                    t < sequence,
                    h < self.n_value_heads,
                    e < self.head_v_dim,
                ensures
                    r == self.out_gate(row_of(raw@, a as int, t as int), h as int, e as int),
                { raw.at(a, t, self.shape().gate_index(h, e)) };
            Some(Tensor4::from_fn(batch, sequence, self.n_value_heads, self.head_v_dim, f))
        } else {
            None
        }
    }

    /// The trailing segment of every token, from the raw rows.
    fn extras(&self, raw: &Tensor3<T>) -> (r: Option<Tensor3<T>>)
        requires
            self.valid(),
            raw.dims().2 == self.shape().channels(),
        ensures
            are_extras(*self, rows_of(*raw), raw.dims().0 as int, raw.dims().1 as int, r),
    {
        if self.extra_channels > 0 {
            let (batch, sequence, _) = raw.dims();
            let f = |a: usize, t: usize, i: usize| -> (r: T)
                requires
                    a < batch,
                    t < sequence,
                    i < self.extra_channels,
                ensures
                    r == self.extra(row_of(raw@, a as int, t as int), i as int),
                { raw.at(a, t, self.shape().extra_index(i)) };
            Some(Tensor3::from_fn(batch, sequence, self.extra_channels, f))
        } else {
            None
        }
    }

    /// Everything that follows the convolution.
    fn features(&self, mixed: &Tensor3<T>, raw: &Tensor3<T>, steps: usize) -> (r: Qkv<T>)
        requires
            self.valid(),
            mixed.dims().0 == raw.dims().0,
            mixed.dims().1 == raw.dims().1,
            mixed.dims().2 == self.shape().mixed(),
            raw.dims().2 == self.shape().channels(),
            steps == raw.dims().1 * self.n_householder,
        ensures
            r.reads(
                *self,
                rows_of(*mixed),
                rows_of(*raw),
                raw.dims().0 as int,
                raw.dims().1 as int,
            ),
    {
        let (erase_bshk, write_bshv) = self.squash_write(raw, steps);
        Qkv {
            q_bshk: self.queries(mixed),
            k_bShk: self.keys(mixed, steps),
            v_bShv: self.values(mixed, steps),
            erase_bShK: erase_bshk,
            write_bShV: write_bshv,
            gate_bshv: self.out_gates(raw),
            extra_bsx: self.extras(raw),
        }
    }
}

/// What is read depends only on the rows of the steps there are.
proof fn lemma_reads_depends<R: Real>(
    q: Qkv<R>,
    p: QkvProjection<R>,
    rows: spec_fn(int, int) -> Row<R>,
    raws: spec_fn(int, int) -> Row<R>,
    rows2: spec_fn(int, int) -> Row<R>,
    raws2: spec_fn(int, int) -> Row<R>,
    batch: int,
    sequence: int,
)
    requires
        p.n_householder > 0,
        q.reads(p, rows, raws, batch, sequence),
        forall|a: int, t: int|
            0 <= a < batch && 0 <= t < sequence ==> #[trigger] rows(a, t) == rows2(a, t),
        forall|a: int, t: int|
            0 <= a < batch && 0 <= t < sequence ==> #[trigger] raws(a, t) == raws2(a, t),
    ensures
        q.reads(p, rows2, raws2, batch, sequence),
{
    let u = p.n_householder as int;
    let steps = sequence * u;
    assert forall|a: int, s: int, h: int, d: int|
        0 <= a < batch && 0 <= s < steps && 0 <= h < p.n_value_heads && 0 <= d < p.head_k_dim implies
        #[trigger] q.k_bShk@(a, s, h, d) == p.key(rows2(a, s / u), s % u, h)(d) by {
        lemma_token(s, sequence, u);
        assert(rows(a, s / u) == rows2(a, s / u));
    }
    assert forall|a: int, s: int, h: int, d: int|
        0 <= a < batch && 0 <= s < steps && 0 <= h < p.n_value_heads && 0 <= d < p.head_v_dim implies
        #[trigger] q.v_bShv@(a, s, h, d) == p.value(rows2(a, s / u), s % u, h, d) by {
        lemma_token(s, sequence, u);
        assert(rows(a, s / u) == rows2(a, s / u));
    }
    assert forall|a: int, s: int, h: int, d: int|
        0 <= a < batch && 0 <= s < steps && 0 <= h < p.n_value_heads && 0 <= d < p.erase_width() implies
        #[trigger] q.erase_bShK@(a, s, h, d) == p.erase(raws2(a, s / u), s % u, h, d) by {
        lemma_token(s, sequence, u);
        assert(raws(a, s / u) == raws2(a, s / u));
    }
    assert forall|a: int, s: int, h: int, d: int|
        0 <= a < batch && 0 <= s < steps && 0 <= h < p.n_value_heads && 0 <= d < p.write_width() implies
        #[trigger] q.write_bShV@(a, s, h, d) == p.write(raws2(a, s / u), s % u, h, d) by {
        lemma_token(s, sequence, u);
        assert(raws(a, s / u) == raws2(a, s / u));
    }
}

impl<T: Real> QkvProjection<T> {
    /// The leading channels, which enter the convolution.
    fn leading(&self, raw: &Tensor3<T>) -> (r: Tensor3<T>)
        requires
            self.valid(),
            raw.dims().2 == self.shape().channels(),
        ensures
            r.has_shape(raw.dims().0 as int, raw.dims().1 as int, self.shape().mixed()),
            forall|a: int, t: int, c: int|
                0 <= a < raw.dims().0 && 0 <= t < raw.dims().1 && 0 <= c < self.shape().mixed()
                    ==> #[trigger] r@(a, t, c) == raw@(a, t, c),
    {
        proof {
            self.shape().lemma_parts();
        }
        let width: usize = self.conv_dim();
        let f = |a: usize, t: usize, c: usize| -> (r: T)
            requires
                a < raw.dims().0,
                t < raw.dims().1,
                c < width,
            ensures
                r == raw@(a as int, t as int, c as int),
            { raw.at(a, t, c) };
        Tensor3::from_fn(raw.dims().0, raw.dims().1, width, f)
    }

    /// The projected rows are the raw rows of the sequences.
    proof fn lemma_raw_rows(&self, x: Tensor3<T>, raw: Tensor3<T>)
        requires
            self.valid(),
            raw.has_shape(x.dims().0 as int, x.dims().1 as int, self.shape().channels()),
            forall|a: int, t: int, c: int|
                0 <= a < x.dims().0 && 0 <= t < x.dims().1 && 0 <= c < self.shape().channels()
                    ==> #[trigger] raw@(a, t, c) == self.in_proj.images(sequence_of(x@, a))(t, c),
        ensures
            forall|a: int, t: int|
                0 <= a < x.dims().0 && 0 <= t < x.dims().1 ==> #[trigger] rows_of(raw)(a, t)
                    == raw_rows(*self, sequences(x))(a, t),
    {
        assert forall|a: int, t: int| 0 <= a < x.dims().0 && 0 <= t < x.dims().1 implies
            #[trigger] rows_of(raw)(a, t) == raw_rows(*self, sequences(x))(a, t) by {
            assert(rows_of(raw)(a, t) =~= raw_rows(*self, sequences(x))(a, t));
        }
    }

    /// Projects a batch of sequences, which enter the convolution with a window
    /// each. Returns what the delta rule reads and the windows after the last step.
    pub fn forward(&self, x_bsd: &Tensor3<T>, window_bwc: &Option<Tensor3<T>>) -> (r: (
        Qkv<T>,
        Option<Tensor3<T>>,
    ))
        requires
            self.valid(),
            x_bsd.dims().1 > 0,
            x_bsd.dims().1 * self.n_householder <= usize::MAX,
            x_bsd.dims().2 == self.in_proj.weight.rows(),
            self.takes(x_bsd.dims().0 as int, *window_bwc),
        ensures
            r.0.follows(
                *self,
                sequences(*x_bsd),
                windows(*window_bwc),
                x_bsd.dims().0 as int,
                x_bsd.dims().1 as int,
            ),
            self.slides(
                x_bsd.dims().0 as int,
                sequences(*x_bsd),
                windows(*window_bwc),
                x_bsd.dims().1 as int,
                r.1,
            ),
    {
        let (batch, sequence, _) = x_bsd.dims();
        let raw = self.in_proj.forward(x_bsd);
        proof {
            self.lemma_raw_rows(*x_bsd, raw);
            self.shape().lemma_parts();
        }
        let steps: usize = sequence * self.n_householder;
        let lead = self.leading(&raw);
        let ghost (xs, ws) = (sequences(*x_bsd), windows(*window_bwc));
        match (&self.conv, window_bwc) {
            (Some(conv), Some(window)) => {
                let (mixed, next) = conv.forward(&lead, window);
                proof {
                    assert forall|a: int, t: int| 0 <= a < batch && 0 <= t < sequence implies
                        #[trigger] rows_of(mixed)(a, t) == mixed_rows(*self, xs, ws)(a, t) by {
                        self.lemma_mixed_row(
                            xs(a),
                            ws(a),
                            sequence_of(lead@, a),
                            row_of(mixed@, a, t),
                            sequence as int,
                            t,
                        );
                    }
                    assert forall|a: int, c: int, j: int|
                        0 <= a < batch && 0 <= c < self.shape().mixed() && 0 <= j
                            < conv.weight.cols() implies #[trigger] next@(a, c, j)
                        == conv.window_after(
                        ws(a),
                        |i: int, c: int| self.raw(xs(a), i)(c),
                        sequence as int,
                    )(c, j) by {
                        let i = sequence - conv.weight.cols() + j;
                        if i >= 0 {
                            assert(rows_of(raw)(a, i) == raw_rows(*self, xs)(a, i));
                            assert(lead@(a, i, c) == raw@(a, i, c));
                        }
                    }
                }
                let r = self.features(&mixed, &raw, steps);
                proof {
                    lemma_reads_depends(
                        r,
                        *self,
                        rows_of(mixed),
                        rows_of(raw),
                        mixed_rows(*self, xs, ws),
                        raw_rows(*self, xs),
                        batch as int,
                        sequence as int,
                    );
                }
                (r, Some(next))
            },
            _ => {
                proof {
                    assert forall|a: int, t: int| 0 <= a < batch && 0 <= t < sequence implies
                        #[trigger] rows_of(lead)(a, t) == mixed_rows(*self, xs, ws)(a, t) by {
                        assert(rows_of(raw)(a, t) == raw_rows(*self, xs)(a, t));
                        assert(rows_of(lead)(a, t) =~= mixed_rows(*self, xs, ws)(a, t)) by {
                            assert forall|c: int| rows_of(lead)(a, t)(c)
                                == #[trigger] mixed_rows(*self, xs, ws)(a, t)(c) by {
                                if 0 <= c < self.shape().mixed() {
                                    assert(lead@(a, t, c) == raw@(a, t, c));
                                    assert(rows_of(raw)(a, t)(c) == raw@(a, t, c));
                                }
                            }
                        }
                    }
                }
                let r = self.features(&lead, &raw, steps);
                proof {
                    lemma_reads_depends(
                        r,
                        *self,
                        rows_of(lead),
                        rows_of(raw),
                        mixed_rows(*self, xs, ws),
                        raw_rows(*self, xs),
                        batch as int,
                        sequence as int,
                    );
                }
                (r, None)
            },
        }
    }

    /// Projects a batch of tokens. Evaluates the convolution against its window
    /// instead of over a sequence.
    pub fn step(&self, x_bd: &Matrix<T>, window_bwc: &Option<Tensor3<T>>) -> (r: (
        QkvStep<T>,
        Option<Tensor3<T>>,
    ))
        requires
            self.valid(),
            x_bd.cols() == self.in_proj.weight.rows(),
            self.takes(x_bd.rows() as int, *window_bwc),
        ensures
            r.0.follows(*self, tokens(*x_bd), windows(*window_bwc), x_bd.rows() as int),
            self.slides(x_bd.rows() as int, tokens(*x_bd), windows(*window_bwc), 1, r.1),
    {
        let batch: usize = x_bd.rows();
        let x_bsd = as_sequence(x_bd);
        let raw = self.in_proj.forward(&x_bsd);
        let ghost (xs, ws) = (tokens(*x_bd), windows(*window_bwc));
        proof {
            assert(sequences(x_bsd) =~= xs);
            self.lemma_raw_rows(x_bsd, raw);
            self.shape().lemma_parts();
        }
        let lead = self.leading(&raw);
        let newest = first_step(&lead);
        let (mixed, next) = match (&self.conv, window_bwc) {
            (Some(conv), Some(window)) => {
                let (y, next) = conv.step(&newest, window);
                let mixed = as_sequence(&y);
                proof {
                    assert forall|a: int, t: int| 0 <= a < batch && 0 <= t < 1 implies
                        #[trigger] rows_of(mixed)(a, t) == mixed_rows(*self, xs, ws)(a, t) by {
                        let fresh = token_of(newest@, a);
                        assert forall|i: int, c: int|
                            0 <= i < 1 && 0 <= c < self.shape().mixed() implies #[trigger] fresh(
                            i,
                            c,
                        ) == self.raw(xs(a), i)(c) by {
                            assert(rows_of(raw)(a, 0) == raw_rows(*self, xs)(a, 0));
                            assert(newest@(a, c) == lead@(a, 0, c));
                            assert(lead@(a, 0, c) == raw@(a, 0, c));
                            assert(rows_of(raw)(a, 0)(c) == raw@(a, 0, c));
                        }
                        let row = row_of(mixed@, a, 0);
                        assert forall|c: int| #[trigger] row(c) == y@(a, c) by {
                            assert(sequence_of(mixed@, a)(0, c) == token_of(y@, a)(0, c));
                        }
                        self.lemma_mixed_row(xs(a), ws(a), fresh, row, 1, 0);
                    }
                    assert forall|a: int, c: int, j: int|
                        0 <= a < batch && 0 <= c < self.shape().mixed() && 0 <= j
                            < conv.weight.cols() implies #[trigger] next@(a, c, j)
                        == conv.window_after(
                        ws(a),
                        |i: int, c: int| self.raw(xs(a), i)(c),
                        1,
                    )(c, j) by {
                        if 1 - conv.weight.cols() + j >= 0 {
                            assert(rows_of(raw)(a, 0) == raw_rows(*self, xs)(a, 0));
                            assert(newest@(a, c) == lead@(a, 0, c));
                            assert(lead@(a, 0, c) == raw@(a, 0, c));
                            assert(rows_of(raw)(a, 0)(c) == raw@(a, 0, c));
                        }
                    }
                }
                (mixed, Some(next))
            },
            _ => {
                proof {
                    assert forall|a: int, t: int| 0 <= a < batch && 0 <= t < 1 implies
                        #[trigger] rows_of(lead)(a, t) == mixed_rows(*self, xs, ws)(a, t) by {
                        assert(rows_of(raw)(a, t) == raw_rows(*self, xs)(a, t));
                        assert forall|c: int| rows_of(lead)(a, t)(c) == #[trigger] mixed_rows(
                            *self,
                            xs,
                            ws,
                        )(a, t)(c) by {
                            if 0 <= c < self.shape().mixed() {
                                assert(lead@(a, t, c) == raw@(a, t, c));
                                assert(rows_of(raw)(a, t)(c) == raw@(a, t, c));
                            }
                        }
                        assert(rows_of(lead)(a, t) =~= mixed_rows(*self, xs, ws)(a, t));
                    }
                }
                (lead, None)
            },
        };
        let r = self.features(&mixed, &raw, self.n_householder);
        proof {
            lemma_reads_depends(
                r,
                *self,
                rows_of(mixed),
                rows_of(raw),
                mixed_rows(*self, xs, ws),
                raw_rows(*self, xs),
                batch as int,
                1,
            );
        }
        let gate_bhv = match &r.gate_bshv {
            Some(z) => Some(z.step(0)),
            None => None,
        };
        let extra_bx = match &r.extra_bsx {
            Some(x) => Some(first_step(x)),
            None => None,
        };
        let s = QkvStep {
            q_bhk: r.q_bshk.step(0),
            k_buhk: r.k_bShk,
            v_buhv: r.v_bShv,
            erase_buhK: r.erase_bShK,
            write_buhV: r.write_bShV,
            gate_bhv,
            extra_bx,
        };
        (s, next)
    }

    /// A filtered row of the projected channels is the mixed row of the sequence.
    proof fn lemma_mixed_row(
        &self,
        x: Mat<T>,
        window: Mat<T>,
        lead: Mat<T>,
        row: Row<T>,
        sequence: int,
        t: int,
    )
        requires
            self.valid(),
            self.conv is Some,
            0 <= t < sequence,
            forall|i: int, c: int|
                0 <= i < sequence && 0 <= c < self.shape().mixed() ==> #[trigger] lead(i, c)
                    == self.raw(x, i)(c),
            forall|c: int|
                0 <= c < self.shape().mixed() ==> #[trigger] row(c) == self.conv->0.filtered(
                    window,
                    lead,
                    t,
                    c,
                ),
            forall|c: int| !(0 <= c < self.shape().mixed()) ==> #[trigger] row(c) == T::zero(),
        ensures
            row == self.mixed(window, x, t),
    {
        let conv = self.conv->0;
        let raws = |i: int, c: int| self.raw(x, i)(c);
        assert forall|c: int| #[trigger] row(c) == self.mixed(window, x, t)(c) by {
            if 0 <= c < self.shape().mixed() {
                assert forall|i: int| 0 <= i <= t implies #[trigger] lead(i, c) == raws(i, c) by {}
                lemma_filtered_depends(conv, window, window, lead, raws, t, c);
                assert(conv.filtered(window, raws, t, c) == self.mixed(window, x, t)(c));
            }
        }
        assert(row =~= self.mixed(window, x, t));
    }
}

impl<T: Real> QkvStep<T> {
    /// The same, as a batch of sequences of one token.
    pub fn into_sequence(self) -> (r: Qkv<T>)
        ensures
            forall|p: QkvProjection<T>, x: spec_fn(int) -> Mat<T>, window: spec_fn(int) -> Mat<T>, batch: int|
                #[trigger] self.follows(p, x, window, batch) && p.n_householder > 0 ==> r.follows(
                    p,
                    x,
                    window,
                    batch,
                    1,
                ),
    {
        let q = &self.q_bhk;
        let f = |a: usize, t: usize, h: usize, d: usize| -> (r: T)
            requires
                a < q.dims().0,
                h < q.dims().1,
                d < q.dims().2,
            ensures
                r == q@(a as int, h as int, d as int),
            { q.at(a, h, d) };
        let q_bshk = Tensor4::from_fn(q.dims().0, 1, q.dims().1, q.dims().2, f);
        let gate_bshv = match &self.gate_bhv {
            Some(z) => {
                let g = |a: usize, t: usize, h: usize, e: usize| -> (r: T)
                    requires
                        a < z.dims().0,
                        h < z.dims().1,
                        e < z.dims().2,
                    ensures
                        r == z@(a as int, h as int, e as int),
                    { z.at(a, h, e) };
                Some(Tensor4::from_fn(z.dims().0, 1, z.dims().1, z.dims().2, g))
            },
            None => None,
        };
        let extra_bsx = match &self.extra_bx {
            Some(x) => Some(as_sequence(x)),
            None => None,
        };
        let r = Qkv {
            q_bshk,
            k_bShk: self.k_buhk,
            v_bShv: self.v_buhv,
            erase_bShK: self.erase_buhK,
            write_bShV: self.write_buhV,
            gate_bshv,
            extra_bsx,
        };
        proof {
            assert forall|p: QkvProjection<T>, x: spec_fn(int) -> Mat<T>, window: spec_fn(int) -> Mat<T>, batch: int|
                #[trigger] self.follows(p, x, window, batch) && p.n_householder
                    > 0 implies r.follows(p, x, window, batch, 1) by {
                let (rows, raws) = (mixed_rows(p, x, window), raw_rows(p, x));
                assert(are_queries(p, rows, batch, 1, r.q_bshk));
                assert(are_out_gates(p, raws, batch, 1, r.gate_bshv));
                if self.extra_bx is Some {
                    let (e, s) = (self.extra_bx->0, r.extra_bsx->0);
                    assert forall|a: int, t: int, i: int|
                        0 <= a < batch && 0 <= t < 1 && 0 <= i
                            < p.extra_channels implies #[trigger] s@(a, t, i) == p.extra(
                        raws(a, t),
                        i,
                    ) by {
                        assert(sequence_of(s@, a)(0, i) == token_of(e@, a)(0, i));
                        assert(e@(a, i) == p.extra(raws(a, 0), i));
                    }
                }
                assert(are_extras(p, raws, batch, 1, r.extra_bsx));
            }
        }
        r
    }
}

} // verus!
