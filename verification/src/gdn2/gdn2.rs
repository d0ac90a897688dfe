//! GDN-2: the delta rule with erase and write gates of their own.
//!
//! ```text
//!   Gated DeltaNet:  S' = alpha (I - beta k k^T) S + beta k v^T
//!   GDN-2:           S' = (I - k (b k)^T) diag(alpha) S + k (w v)^T
//! ```
//!
//! with an erase gate `b` and a forget gate `alpha` per key channel and a write gate
//! `w` per value channel. A single gate decides at once how much is erased and how
//! much is written; with two, `b = 1, w = 0` deletes what a key holds and
//! `b = 0, w = 1` adds to it.
//!
//! The forget gate and the output gate come from low-rank projections, whose first
//! factors are segments of the fused projection.
use vstd::prelude::*;

use crate::common::block::{
    entering_parts, entering_states, entering_windows, enters, enters_with, token_outs,
};
use crate::common::cache::DeltaCache;
use crate::common::gate::ChannelForgetGate;
use crate::common::index::lemma_flat;
use crate::common::linear::{first_step, sequence_of, within, Linear, Row};
use crate::common::norm::OutNorm;
use crate::common::pipeline::{advance, states, Pipeline};
use crate::common::qkv::{raw_rows, sequences, tokens, windows, Qkv, QkvProjection};
use crate::delta::forward::widened;
use crate::delta::path::DeltaPath;
use crate::gdn2::cache::{
    GatedDeltaNet2Cache, GatedDeltaNet2CacheConfig, GatedDeltaNet2Caches,
    GatedDeltaNet2CachesConfig,
};
use crate::mat::Mat;
use crate::matrix::Matrix;
use crate::ring::{Real, Ring};
use crate::tensor::{head_plane, Tensor3, Tensor4};

verus! {

/// A GDN-2 block.
pub struct GatedDeltaNet2<T> {
    /// The front end; its trailing segment holds the inputs of both bottlenecks.
    pub qkv: QkvProjection<T>,
    /// The forget gate of each key channel.
    pub gate: ChannelForgetGate<T>,
    /// The second factor of the output gate, if there is one.
    pub out_gate: Option<Linear<T>>,
    /// The norm of each head's output.
    pub norm: OutNorm<T>,
    /// Value channels to `d_model`.
    pub out_proj: Linear<T>,
}

impl<T: Real> GatedDeltaNet2<T> {
    /// What the block computes.
    pub open spec fn pipeline(&self) -> Pipeline<T> {
        Pipeline {
            qkv: self.qkv,
            decay: |raw: Row<T>, h: int, d: int|
                self.gate.decay(self.decay_in(raw), self.qkv.shape().query_head(h), d),
            gate: match self.out_gate {
                Some(up) => Some(
                    |raw: Row<T>, h: int, e: int|
                        up.image(self.gate_in(raw))(h * self.qkv.head_v_dim + e),
                ),
                None => None,
            },
            norm: self.norm,
            out_proj: self.out_proj,
        }
    }

    /// Whether the parts fit together.
    pub open spec fn valid(&self) -> bool {
        &&& self.pipeline().valid()
        &&& self.out_proj.weight.cols() == self.qkv.in_proj.weight.rows()
        &&& self.qkv.n_householder == 1
        &&& !self.qkv.has_gate
        &&& self.gate.valid()
        &&& self.gate.nheads == self.qkv.nheads
        &&& self.gate.head_k_dim == self.qkv.head_k_dim
        &&& self.gate.up.weight.rows() > 0
        &&& self.qkv.extra_channels == self.gate.up.weight.rows() + (if self.out_gate is Some {
            self.gate.up.weight.rows() as int
        } else {
            0
        })
        &&& self.out_gate matches Some(up) ==> {
            &&& up.valid()
            &&& up.weight.rows() == self.gate.up.weight.rows()
            &&& up.weight.cols() == self.qkv.shape().values()
        }
    }

    /// The input of the forget gate in a raw row.
    pub open spec fn decay_in(&self, raw: Row<T>) -> Row<T> {
        within(self.gate.up.weight.rows() as int, |c: int| self.qkv.extra(raw, c))
    }

    /// The input of the output gate in a raw row.
    pub open spec fn gate_in(&self, raw: Row<T>) -> Row<T> {
        let n = self.gate.up.weight.rows() as int;
        within(n, |c: int| self.qkv.extra(raw, n + c))
    }

    /// The number of heads of the state: the value heads.
    pub fn nheads(&self) -> (r: usize)
        ensures
            r == self.qkv.n_value_heads,
    {
        self.qkv.state_heads()
    }

    /// The number of query and key heads.
    pub fn n_qk_heads(&self) -> (r: usize)
        ensures
            r == self.qkv.nheads,
    {
        self.qkv.nheads
    }

    /// The key channels of each head.
    pub fn head_k_dim(&self) -> (r: usize)
        ensures
            r == self.qkv.head_k_dim,
    {
        self.qkv.head_k_dim
    }

    /// The value channels of each head.
    pub fn head_v_dim(&self) -> (r: usize)
        ensures
            r == self.qkv.head_v_dim,
    {
        self.qkv.head_v_dim
    }

    /// The value channels of all heads.
    pub fn value_dim(&self) -> (r: usize)
        requires
            self.valid(),
        ensures
            r == self.qkv.shape().values(),
    {
        self.qkv.value_dim()
    }

    /// The width of each bottleneck.
    pub fn bottleneck(&self) -> (r: usize)
        ensures
            r == self.gate.up.weight.rows(),
    {
        self.gate.up.weight.rows()
    }

    /// The inputs of the two bottlenecks in the trailing segment.
    fn bottlenecks(&self, extra: &Tensor3<T>) -> (r: (Tensor3<T>, Option<Tensor3<T>>))
        requires
            self.valid(),
            extra.dims().2 == self.qkv.extra_channels,
        ensures
            r.0.has_shape(
                extra.dims().0 as int,
                extra.dims().1 as int,
                self.gate.up.weight.rows() as int,
            ),
            forall|a: int, t: int, c: int|
                0 <= a < extra.dims().0 && 0 <= t < extra.dims().1 && 0 <= c
                    < self.gate.up.weight.rows() ==> #[trigger] r.0@(a, t, c) == extra@(a, t, c),
            r.1 is Some == self.out_gate is Some,
            r.1 matches Some(z) ==> {
                &&& z.dims() == r.0.dims()
                &&& forall|a: int, t: int, c: int|
                    0 <= a < extra.dims().0 && 0 <= t < extra.dims().1 && 0 <= c
                        < self.gate.up.weight.rows() ==> #[trigger] z@(a, t, c) == extra@(
                        a,
                        t,
                        self.gate.up.weight.rows() + c,
                    )
            },
    {
        let n: usize = self.bottleneck();
        let f = |a: usize, t: usize, c: usize| -> (r: T)
            requires
                a < extra.dims().0,
                t < extra.dims().1,
                c < n,
            ensures
                r == extra@(a as int, t as int, c as int),
            { extra.at(a, t, c) };
        let decay_in = Tensor3::from_fn(extra.dims().0, extra.dims().1, n, f);
        let gate_in = if self.out_gate.is_some() {
            let g = |a: usize, t: usize, c: usize| -> (r: T)
                requires
                    a < extra.dims().0,
                    t < extra.dims().1,
                    c < n,
                ensures
                    r == extra@(a as int, t as int, n + c),
                { extra.at(a, t, n + c) };
            Some(Tensor3::from_fn(extra.dims().0, extra.dims().1, n, g))
        } else {
            None
        };
        (decay_in, gate_in)
    }

    /// The bottlenecks make the gates that the block reads.
    proof fn lemma_gates(
        &self,
        extra: Tensor3<T>,
        decay_in: Tensor3<T>,
        gate_in: Option<Tensor3<T>>,
        read: Qkv<T>,
        g: Tensor4<T>,
        gate: Option<Tensor4<T>>,
        x: spec_fn(int) -> Mat<T>,
        window: spec_fn(int) -> Mat<T>,
    )
        requires
            self.valid(),
            read.extra_bsx == Some(extra),
            read.follows(
                self.qkv,
                x,
                window,
                read.q_bshk.dims().0 as int,
                read.q_bshk.dims().1 as int,
            ),
            decay_in.has_shape(
                extra.dims().0 as int,
                extra.dims().1 as int,
                self.gate.up.weight.rows() as int,
            ),
            forall|a: int, t: int, c: int|
                0 <= a < extra.dims().0 && 0 <= t < extra.dims().1 && 0 <= c
                    < self.gate.up.weight.rows() ==> #[trigger] decay_in@(a, t, c) == extra@(
                    a,
                    t,
                    c,
                ),
            g.has_shape(
                extra.dims().0 as int,
                extra.dims().1 as int,
                self.qkv.n_value_heads as int,
                self.qkv.head_k_dim as int,
            ),
            forall|a: int, t: int, h: int, d: int|
                0 <= a < extra.dims().0 && 0 <= t < extra.dims().1 && 0 <= h
                    < self.qkv.n_value_heads && 0 <= d < self.qkv.head_k_dim ==> #[trigger] g@(
                    a,
                    t,
                    h,
                    d,
                ) == self.gate.decay(
                    |c: int| decay_in@(a, t, c),
                    self.qkv.shape().query_head(h),
                    d,
                ),
            gate_in is Some == self.out_gate is Some,
            gate is Some == self.out_gate is Some,
            gate_in matches Some(z) ==> {
                &&& z.dims() == decay_in.dims()
                &&& forall|a: int, t: int, c: int|
                    0 <= a < extra.dims().0 && 0 <= t < extra.dims().1 && 0 <= c
                        < self.gate.up.weight.rows() ==> #[trigger] z@(a, t, c) == extra@(
                        a,
                        t,
                        self.gate.up.weight.rows() + c,
                    )
            },
            gate matches Some(y) ==> {
                &&& y.has_shape(
                    extra.dims().0 as int,
                    extra.dims().1 as int,
                    self.qkv.n_value_heads as int,
                    self.qkv.head_v_dim as int,
                )
                &&& forall|a: int, t: int, h: int, e: int|
                    0 <= a < extra.dims().0 && 0 <= t < extra.dims().1 && 0 <= h
                        < self.qkv.n_value_heads && 0 <= e < self.qkv.head_v_dim
                        ==> #[trigger] y@(a, t, h, e) == self.out_gate->0.images(
                        sequence_of(gate_in->0@, a),
                    )(t, h * self.qkv.head_v_dim + e)
            },
        ensures
            self.pipeline().decays(
                read.q_bshk.dims().0 as int,
                read.q_bshk.dims().1 as int,
                x,
                Some(g),
            ),
            self.pipeline().gates(
                read.q_bshk.dims().0 as int,
                read.q_bshk.dims().1 as int,
                x,
                gate,
            ),
    {
        let p = self.pipeline();
        let (batch, sequence) = (read.q_bshk.dims().0 as int, read.q_bshk.dims().1 as int);
        let n = self.gate.up.weight.rows() as int;
        let raws = raw_rows(self.qkv, x);
        assert forall|a: int, t: int| 0 <= a < batch && 0 <= t < sequence implies (|c: int|
            decay_in@(a, t, c)) == self.decay_in(#[trigger] raws(a, t)) by {
            let (l, r) = (|c: int| decay_in@(a, t, c), self.decay_in(raws(a, t)));
            assert forall|c: int| #[trigger] l(c) == r(c) by {
                if 0 <= c < n {
                    assert(decay_in@(a, t, c) == extra@(a, t, c));
                    assert(extra@(a, t, c) == self.qkv.extra(raws(a, t), c));
                }
            }
            assert(l =~= r);
        }
        assert forall|a: int, t: int, h: int, d: int|
            0 <= a < batch && 0 <= t < sequence && 0 <= h < self.qkv.n_value_heads && 0 <= d
                < self.qkv.head_k_dim implies #[trigger] (p.decay)(
            p.qkv.raw(x(a), t),
            h,
            d,
        ) == widened(g.dims().3 as int, head_plane(g@, a, h))(t, d) by {
            assert((|c: int| decay_in@(a, t, c)) == self.decay_in(raws(a, t)));
            assert(g@(a, t, h, d) == self.gate.decay(
                |c: int| decay_in@(a, t, c),
                self.qkv.shape().query_head(h),
                d,
            ));
        }
        if gate is Some {
            let (y, z, up) = (gate->0, gate_in->0, self.out_gate->0);
            assert forall|a: int, t: int, h: int, e: int|
                0 <= a < batch && 0 <= t < sequence && 0 <= h < self.qkv.n_value_heads && 0 <= e
                    < self.qkv.head_v_dim implies #[trigger] y@(a, t, h, e) == (p.gate->0)(
                p.qkv.raw(x(a), t),
                h,
                e,
            ) by {
                let (l, r) = (|c: int| sequence_of(z@, a)(t, c), self.gate_in(raws(a, t)));
                assert forall|c: int| #[trigger] l(c) == r(c) by {
                    if 0 <= c < n {
                        assert(z@(a, t, c) == extra@(a, t, n + c));
                        assert(extra@(a, t, n + c) == self.qkv.extra(raws(a, t), n + c));
                    }
                }
                assert(l =~= r);
            }
        }
    }

    /// The model width.
    pub fn d_model(&self) -> (r: usize)
        ensures
            r == self.qkv.in_proj.weight.rows(),
    {
        self.qkv.in_proj.weight.rows()
    }

    /// The shape of a cache for a batch.
    pub open spec fn cache_shape(&self, batch: usize) -> GatedDeltaNet2CacheConfig {
        GatedDeltaNet2CacheConfig {
            batch,
            nheads: self.qkv.n_value_heads,
            head_k_dim: self.qkv.head_k_dim,
            head_v_dim: self.qkv.head_v_dim,
            conv_dim: self.qkv.shape().mixed() as usize,
            conv_kernel: match self.qkv.conv {
                Some(conv) => conv.weight.cols(),
                None => 0,
            },
        }
    }

    /// The caches of `n_virtual` layers before the first token.
    pub fn zero_caches(&self, batch: usize, n_virtual: usize) -> (r: GatedDeltaNet2Caches<T>)
        requires
            self.valid(),
        ensures
            r.caches@.len() == n_virtual,
            forall|i: int|
                0 <= i < n_virtual ==> self.cache_shape(batch).shapes(#[trigger] r.caches@[i]),
            forall|i: int, a: int, h: int, d: int, e: int|
                0 <= i < n_virtual ==> #[trigger] r.caches@[i].state_bhkv@(a, h, d, e) == T::zero(),
            forall|i: int, a: int, c: int, j: int|
                0 <= i < n_virtual && r.caches@[i].conv_bwc is Some
                    ==> #[trigger] r.caches@[i].conv_bwc->0@(a, c, j) == T::zero(),
    {
        GatedDeltaNet2CachesConfig {
            n_real_caches: n_virtual,
            cache: GatedDeltaNet2CacheConfig {
                batch,
                nheads: self.qkv.state_heads(),
                head_k_dim: self.qkv.head_k_dim,
                head_v_dim: self.qkv.head_v_dim,
                conv_dim: self.qkv.conv_dim(),
                conv_kernel: self.qkv.conv_kernel(),
            },
        }.init::<T>()
    }

    /// Runs the delta rule over what the front end made of a batch of sequences.
    fn run(
        &self,
        qkv: Qkv<T>,
        state_bhkv: Tensor4<T>,
        path: DeltaPath,
        Ghost(x): Ghost<spec_fn(int) -> Mat<T>>,
        Ghost(window): Ghost<spec_fn(int) -> Mat<T>>,
    ) -> (r: (Tensor3<T>, Tensor4<T>))
        requires
            self.valid(),
            qkv.q_bshk.dims().1 > 0,
            qkv.q_bshk.dims().1 * self.qkv.n_householder <= usize::MAX,
            path.admits(qkv.q_bshk.dims().1 * self.qkv.n_householder),
            qkv.follows(
                self.qkv,
                x,
                window,
                qkv.q_bshk.dims().0 as int,
                qkv.q_bshk.dims().1 as int,
            ),
            state_bhkv.has_shape(
                qkv.q_bshk.dims().0 as int,
                self.qkv.n_value_heads as int,
                self.qkv.head_k_dim as int,
                self.qkv.head_v_dim as int,
            ),
        ensures
            r.0.has_shape(
                qkv.q_bshk.dims().0 as int,
                qkv.q_bshk.dims().1 as int,
                self.out_proj.weight.cols() as int,
            ),
            forall|a: int, t: int, c: int|
                0 <= a < qkv.q_bshk.dims().0 && 0 <= t < qkv.q_bshk.dims().1 && 0 <= c
                    < self.out_proj.weight.cols() ==> #[trigger] r.0@(a, t, c)
                    == self.pipeline().out(
                    x(a),
                    window(a),
                    |h: int| states(Some(state_bhkv))(a, h),
                    t,
                    c,
                ),
            self.pipeline().leaves(
                qkv.q_bshk.dims().0 as int,
                x,
                window,
                states(Some(state_bhkv)),
                qkv.q_bshk.dims().1 as int,
                r.1,
            ),
    {
        let (nheads, nv) = (self.qkv.n_value_heads, self.qkv.head_v_dim);
        let (g, gate) = match &qkv.extra_bsx {
            Some(extra) => {
                let (decay_in, gate_in) = self.bottlenecks(extra);
                let narrow = self.gate.log_decay(&decay_in);
                let g = self.qkv.expand_to_value_heads(&narrow);
                let gate = match (&self.out_gate, &gate_in) {
                    (Some(up), Some(gate_in)) => {
                        let flat = up.forward(gate_in);
                        let y = split_heads(&flat, nheads, nv);
                        assert forall|a: int, t: int, h: int, e: int|
                            0 <= a < extra.dims().0 && 0 <= t < extra.dims().1 && 0 <= h < nheads
                                && 0 <= e < nv implies #[trigger] y@(a, t, h, e) == up.images(
                            sequence_of(gate_in@, a),
                        )(t, h * nv + e) by {
                            lemma_flat(h, nheads as int, e, nv as int);
                            assert(y@(a, t, h, e) == flat@(a, t, h * nv + e));
                        }
                        Some(y)
                    },
                    _ => None,
                };
                proof {
                    assert forall|a: int, t: int, h: int, d: int|
                        0 <= a < extra.dims().0 && 0 <= t < extra.dims().1 && 0 <= h < nheads && 0
                            <= d < self.qkv.head_k_dim implies #[trigger] g@(a, t, h, d)
                        == self.gate.decay(
                        |c: int| decay_in@(a, t, c),
                        self.qkv.shape().query_head(h),
                        d,
                    ) by {
                        self.qkv.shape().lemma_groups(h);
                        assert(g@(a, t, h, d) == narrow@(
                            a,
                            t,
                            self.qkv.shape().query_head(h),
                            d,
                        ));
                    }
                    self.lemma_gates(*extra, decay_in, gate_in, qkv, g, gate, x, window);
                }
                (Some(g), gate)
            },
            None => (None, None),
        };
        advance(
            qkv,
            g,
            gate,
            state_bhkv,
            path,
            self.qkv.n_householder,
            &self.norm,
            &self.out_proj,
            Ghost(self.pipeline()),
            Ghost(x),
            Ghost(window),
        )
    }

    /// Evaluates a batch of sequences, from a cache or from nothing.
    ///
    /// `[batch, sequence, d_model]` becomes `[batch, sequence, d_model]`.
    pub fn forward(
        &self,
        input_bsd: &Tensor3<T>,
        cache: Option<GatedDeltaNet2Cache<T>>,
        path: DeltaPath,
    ) -> (r: (Tensor3<T>, GatedDeltaNet2Cache<T>))
        requires
            self.valid(),
            input_bsd.dims().1 > 0,
            path.admits(input_bsd.dims().1 as int),
            input_bsd.dims().2 == self.qkv.in_proj.weight.rows(),
            enters2(self.qkv, input_bsd.dims().0 as int, cache),
        ensures
            r.0.dims() == input_bsd.dims(),
            enters(self.qkv, input_bsd.dims().0 as int, r.1.conv_bwc, r.1.state_bhkv),
            self.pipeline().evaluates(
                input_bsd.dims().0 as int,
                input_bsd.dims().1 as int,
                sequences(*input_bsd),
                entering_windows2(cache),
                entering_states2(cache),
                r.0@,
                r.1.conv_bwc,
                r.1.state_bhkv,
            ),
    {
        let (conv_bwc, state_bhkv) = entering_parts2(&self.qkv, input_bsd.dims().0, cache);
        let (qkv, next) = self.qkv.forward(input_bsd, &conv_bwc);
        let (out, last) = self.run(
            qkv,
            state_bhkv,
            path,
            Ghost(sequences(*input_bsd)),
            Ghost(windows(conv_bwc)),
        );
        (out, GatedDeltaNet2Cache { conv_bwc: next, state_bhkv: last })
    }

    /// Evaluates a batch of tokens, from a cache or from nothing.
    ///
    /// `[batch, d_model]` becomes `[batch, d_model]`.
    pub fn step(&self, input_bd: &Matrix<T>, cache: Option<GatedDeltaNet2Cache<T>>) -> (r: (
        Matrix<T>,
        GatedDeltaNet2Cache<T>,
    ))
        requires
            self.valid(),
            input_bd.cols() == self.qkv.in_proj.weight.rows(),
            enters2(self.qkv, input_bd.rows() as int, cache),
        ensures
            r.0.has_shape(input_bd.rows() as int, input_bd.cols() as int),
            enters(self.qkv, input_bd.rows() as int, r.1.conv_bwc, r.1.state_bhkv),
            self.pipeline().evaluates(
                input_bd.rows() as int,
                1,
                tokens(*input_bd),
                entering_windows2(cache),
                entering_states2(cache),
                token_outs(r.0),
                r.1.conv_bwc,
                r.1.state_bhkv,
            ),
    {
        let (conv_bwc, state_bhkv) = entering_parts2(&self.qkv, input_bd.rows(), cache);
        let (qkv, next) = self.qkv.step(input_bd, &conv_bwc);
        let (out, last) = self.run(
            qkv.into_sequence(),
            state_bhkv,
            DeltaPath::Recurrent,
            Ghost(tokens(*input_bd)),
            Ghost(windows(conv_bwc)),
        );
        let y = first_step(&out);
        proof {
            let (p, xs, ws) = (self.pipeline(), tokens(*input_bd), entering_windows2(cache));
            let ss = entering_states2(cache);
            assert forall|a: int, t: int, c: int|
                0 <= a < input_bd.rows() && 0 <= t < 1 && 0 <= c
                    < self.out_proj.weight.cols() implies #[trigger] token_outs(y)(a, t, c)
                == p.out(xs(a), ws(a), |h: int| ss(a, h), t, c) by {
                assert(y@(a, c) == out@(a, 0, c));
            }
        }
        (y, GatedDeltaNet2Cache { conv_bwc: next, state_bhkv: last })
    }
}

/// The value channels of each token, head by head.
fn split_heads<T: Real>(x: &Tensor3<T>, nheads: usize, nv: usize) -> (r: Tensor4<T>)
    requires
        x.dims().2 == nheads * nv,
    ensures
        r.has_shape(x.dims().0 as int, x.dims().1 as int, nheads as int, nv as int),
        forall|a: int, t: int, h: int, e: int|
            0 <= a < x.dims().0 && 0 <= t < x.dims().1 && 0 <= h < nheads && 0 <= e < nv
                ==> #[trigger] r@(a, t, h, e) == x@(a, t, h * nv + e),
{
    let f = |a: usize, t: usize, h: usize, e: usize| -> (r: T)
        requires
            a < x.dims().0,
            t < x.dims().1,
            h < nheads,
            e < nv,
        ensures
            r == x@(a as int, t as int, h * nv + e),
        {
            proof {
                lemma_flat(h as int, nheads as int, e as int, nv as int);
            }
            x.at(a, t, h * nv + e)
        };
    Tensor4::from_fn(x.dims().0, x.dims().1, nheads, nv, f)
}

/// The parts of a cache, whichever family it belongs to.
pub open spec fn as_delta<R>(cache: Option<GatedDeltaNet2Cache<R>>) -> Option<DeltaCache<R>> {
    match cache {
        Some(cache) => Some(
            DeltaCache { conv_bwc: cache.conv_bwc, state_bhkv: cache.state_bhkv },
        ),
        None => None,
    }
}

/// Whether a cache, if there is one, has the shapes that a block with this front
/// end is entered with.
pub open spec fn enters2<R: Real>(
    qkv: QkvProjection<R>,
    batch: int,
    cache: Option<GatedDeltaNet2Cache<R>>,
) -> bool {
    enters_with(qkv, batch, as_delta(cache))
}

/// The windows that a call is entered with: zero without a cache.
pub open spec fn entering_windows2<R: Ring>(
    cache: Option<GatedDeltaNet2Cache<R>>,
) -> spec_fn(int) -> Mat<R> {
    entering_windows(as_delta(cache))
}

/// The states that a call is entered with: zero without a cache.
pub open spec fn entering_states2<R: Ring>(
    cache: Option<GatedDeltaNet2Cache<R>>,
) -> spec_fn(int, int) -> Mat<R> {
    entering_states(as_delta(cache))
}

/// The window and the state that a call is entered with.
fn entering_parts2<T: Real>(
    qkv: &QkvProjection<T>,
    batch: usize,
    cache: Option<GatedDeltaNet2Cache<T>>,
) -> (r: (Option<Tensor3<T>>, Tensor4<T>))
    requires
        qkv.valid(),
        enters2(*qkv, batch as int, cache),
    ensures
        enters(*qkv, batch as int, r.0, r.1),
        windows(r.0) == entering_windows2(cache),
        states(Some(r.1)) == entering_states2(cache),
{
    match cache {
        Some(cache) => (cache.conv_bwc, cache.state_bhkv),
        None => entering_parts(qkv, batch, None),
    }
}

} // verus!
