//! DeltaNet: the delta rule without a forget gate.
//!
//! ```text
//!   x -> in_proj -> [ q | k | v | beta | gate? ] -> short convolution
//!     -> S' = (I - beta k k^T) S + beta k v^T,  y = S'^T q / sqrt(head_k_dim)
//!     -> norm per head -> out_proj
//! ```
//!
//! The state changes only where a token writes to it.
use vstd::prelude::*;

use crate::common::block::{
    entering_parts, entering_states, entering_windows, enters, enters_with, projected_gate,
    token_outs,
};
use crate::common::cache::{DeltaCache, DeltaCacheConfig, DeltaCaches, DeltaCachesConfig};
use crate::common::linear::{first_step, Linear, Row};
use crate::common::norm::OutNorm;
use crate::common::pipeline::{advance, states, Pipeline};
use crate::common::qkv::{sequences, tokens, windows, Qkv, QkvProjection};
use crate::delta::path::DeltaPath;
use crate::mat::Mat;
use crate::matrix::Matrix;
use crate::ring::Real;
use crate::tensor::{Tensor3, Tensor4};

verus! {

/// A DeltaNet block.
pub struct DeltaNet<T> {
    /// The front end.
    pub qkv: QkvProjection<T>,
    /// The norm of each head's output.
    pub norm: OutNorm<T>,
    /// Value channels to `d_model`.
    pub out_proj: Linear<T>,
}

impl<T: Real> DeltaNet<T> {
    /// What the block computes.
    pub open spec fn pipeline(&self) -> Pipeline<T> {
        Pipeline {
            qkv: self.qkv,
            decay: |raw: Row<T>, h: int, d: int| T::zero(),
            gate: projected_gate(self.qkv),
            norm: self.norm,
            out_proj: self.out_proj,
        }
    }

    /// Whether the parts fit together.
    pub open spec fn valid(&self) -> bool {
        &&& self.pipeline().valid()
        &&& self.out_proj.weight.cols() == self.qkv.in_proj.weight.rows()
        &&& self.qkv.n_householder == 1
    }

    /// The number of heads of the state: the value heads.
    pub fn nheads(&self) -> (r: usize)
        ensures
            r == self.qkv.n_value_heads,
    {
        self.qkv.state_heads()
    }

    /// The key channels of each head.
    pub fn head_k_dim(&self) -> (r: usize)
        ensures
            r == self.qkv.head_k_dim,
    {
        self.qkv.head_k_dim
    }

    /// The value channels of each head.
    pub fn head_v_dim(&self) -> (r: usize)
        ensures
            r == self.qkv.head_v_dim,
    {
        self.qkv.head_v_dim
    }

    /// The key channels of all heads.
    pub fn key_dim(&self) -> (r: usize)
        requires
            self.valid(),
        ensures
            r == self.qkv.shape().keys(),
    {
        self.qkv.key_dim()
    }

    /// The value channels of all heads.
    pub fn value_dim(&self) -> (r: usize)
        requires
            self.valid(),
        ensures
            r == self.qkv.shape().values(),
    {
        self.qkv.value_dim()
    }

    /// The model width.
    pub fn d_model(&self) -> (r: usize)
        ensures
            r == self.qkv.in_proj.weight.rows(),
    {
        self.qkv.in_proj.weight.rows()
    }

    /// The shape of a cache for a batch.
    pub open spec fn cache_shape(&self, batch: usize) -> DeltaCacheConfig {
        DeltaCacheConfig {
            batch,
            nheads: self.qkv.n_value_heads,
            head_k_dim: self.qkv.head_k_dim,
            head_v_dim: self.qkv.head_v_dim,
            conv_dim: self.qkv.shape().mixed() as usize,
            conv_kernel: match self.qkv.conv {
                Some(conv) => conv.weight.cols(),
                None => 0,
            },
        }
    }

    /// The caches of `n_virtual` layers before the first token.
    pub fn zero_caches(&self, batch: usize, n_virtual: usize) -> (r: DeltaCaches<T>)
        requires
            self.valid(),
        ensures
            r.caches@.len() == n_virtual,
            forall|i: int|
                0 <= i < n_virtual ==> self.cache_shape(batch).shapes(#[trigger] r.caches@[i]),
            forall|i: int, a: int, h: int, d: int, e: int|
                0 <= i < n_virtual ==> #[trigger] r.caches@[i].state_bhkv@(a, h, d, e) == T::zero(),
            forall|i: int, a: int, c: int, j: int|
                0 <= i < n_virtual && r.caches@[i].conv_bwc is Some
                    ==> #[trigger] r.caches@[i].conv_bwc->0@(a, c, j) == T::zero(),
    {
        DeltaCachesConfig {
            n_caches: n_virtual,
            cache: DeltaCacheConfig {
                batch,
                nheads: self.qkv.state_heads(),
                head_k_dim: self.qkv.head_k_dim,
                head_v_dim: self.qkv.head_v_dim,
                conv_dim: self.qkv.conv_dim(),
                conv_kernel: self.qkv.conv_kernel(),
            },
        }.init::<T>()
    }

    /// Runs the delta rule over what the front end made of a batch of sequences.
    fn run(
        &self,
        qkv: Qkv<T>,
        state_bhkv: Tensor4<T>,
        path: DeltaPath,
        Ghost(x): Ghost<spec_fn(int) -> Mat<T>>,
        Ghost(window): Ghost<spec_fn(int) -> Mat<T>>,
    ) -> (r: (Tensor3<T>, Tensor4<T>))
        requires
            self.valid(),
            qkv.q_bshk.dims().1 > 0,
            qkv.q_bshk.dims().1 * self.qkv.n_householder <= usize::MAX,
            path.admits(qkv.q_bshk.dims().1 * self.qkv.n_householder),
            qkv.follows(
                self.qkv,
                x,
                window,
                qkv.q_bshk.dims().0 as int,
                qkv.q_bshk.dims().1 as int,
            ),
            state_bhkv.has_shape(
                qkv.q_bshk.dims().0 as int,
                self.qkv.n_value_heads as int,
                self.qkv.head_k_dim as int,
                self.qkv.head_v_dim as int,
            ),
        ensures
            r.0.has_shape(
                qkv.q_bshk.dims().0 as int,
                qkv.q_bshk.dims().1 as int,
                self.out_proj.weight.cols() as int,
            ),
            forall|a: int, t: int, c: int|
                0 <= a < qkv.q_bshk.dims().0 && 0 <= t < qkv.q_bshk.dims().1 && 0 <= c
                    < self.out_proj.weight.cols() ==> #[trigger] r.0@(a, t, c)
                    == self.pipeline().out(
                    x(a),
                    window(a),
                    |h: int| states(Some(state_bhkv))(a, h),
                    t,
                    c,
                ),
            self.pipeline().leaves(
                qkv.q_bshk.dims().0 as int,
                x,
                window,
                states(Some(state_bhkv)),
                qkv.q_bshk.dims().1 as int,
                r.1,
            ),
    {
        advance(
            qkv,
            None,
            None,
            state_bhkv,
            path,
            self.qkv.n_householder,
            &self.norm,
            &self.out_proj,
            Ghost(self.pipeline()),
            Ghost(x),
            Ghost(window),
        )
    }

    /// Evaluates a batch of sequences, from a cache or from nothing.
    ///
    /// `[batch, sequence, d_model]` becomes `[batch, sequence, d_model]`.
    pub fn forward(
        &self,
        input_bsd: &Tensor3<T>,
        cache: Option<DeltaCache<T>>,
        path: DeltaPath,
    ) -> (r: (Tensor3<T>, DeltaCache<T>))
        requires
            self.valid(),
            input_bsd.dims().1 > 0,
            path.admits(input_bsd.dims().1 as int),
            input_bsd.dims().2 == self.qkv.in_proj.weight.rows(),
            enters_with(self.qkv, input_bsd.dims().0 as int, cache),
        ensures
            r.0.dims() == input_bsd.dims(),
            enters(self.qkv, input_bsd.dims().0 as int, r.1.conv_bwc, r.1.state_bhkv),
            self.pipeline().evaluates(
                input_bsd.dims().0 as int,
                input_bsd.dims().1 as int,
                sequences(*input_bsd),
                entering_windows(cache),
                entering_states(cache),
                r.0@,
                r.1.conv_bwc,
                r.1.state_bhkv,
            ),
    {
        let (conv_bwc, state_bhkv) = entering_parts(&self.qkv, input_bsd.dims().0, cache);
        let (qkv, next) = self.qkv.forward(input_bsd, &conv_bwc);
        let (out, last) = self.run(
            qkv,
            state_bhkv,
            path,
            Ghost(sequences(*input_bsd)),
            Ghost(windows(conv_bwc)),
        );
        (out, DeltaCache { conv_bwc: next, state_bhkv: last })
    }

    /// Evaluates a batch of tokens, from a cache or from nothing.
    ///
    /// `[batch, d_model]` becomes `[batch, d_model]`.
    pub fn step(&self, input_bd: &Matrix<T>, cache: Option<DeltaCache<T>>) -> (r: (
        Matrix<T>,
        DeltaCache<T>,
    ))
        requires
            self.valid(),
            input_bd.cols() == self.qkv.in_proj.weight.rows(),
            enters_with(self.qkv, input_bd.rows() as int, cache),
        ensures
            r.0.has_shape(input_bd.rows() as int, input_bd.cols() as int),
            enters(self.qkv, input_bd.rows() as int, r.1.conv_bwc, r.1.state_bhkv),
            self.pipeline().evaluates(
                input_bd.rows() as int,
                1,
                tokens(*input_bd),
                entering_windows(cache),
                entering_states(cache),
                token_outs(r.0),
                r.1.conv_bwc,
                r.1.state_bhkv,
            ),
    {
        let (conv_bwc, state_bhkv) = entering_parts(&self.qkv, input_bd.rows(), cache);
        let (qkv, next) = self.qkv.step(input_bd, &conv_bwc);
        let (out, last) = self.run(
            qkv.into_sequence(),
            state_bhkv,
            DeltaPath::Recurrent,
            Ghost(tokens(*input_bd)),
            Ghost(windows(conv_bwc)),
        );
        let y = first_step(&out);
        proof {
            let (p, xs, ws) = (self.pipeline(), tokens(*input_bd), entering_windows(cache));
            let ss = entering_states(cache);
            assert forall|a: int, t: int, c: int|
                0 <= a < input_bd.rows() && 0 <= t < 1 && 0 <= c
                    < self.out_proj.weight.cols() implies #[trigger] token_outs(y)(a, t, c)
                == p.out(xs(a), ws(a), |h: int| ss(a, h), t, c) by {
                assert(y@(a, c) == out@(a, 0, c));
            }
        }
        (y, DeltaCache { conv_bwc: next, state_bhkv: last })
    }
}

} // verus!
