//! The gradient of the chunkwise form, for all heads of a batch.
use vstd::prelude::*;

use crate::delta::forward::widened;
use crate::delta::head_grad::{head_adjoint, head_backward, moving, HeadGrads};
use crate::delta::path::DeltaInput;
use crate::delta::rates::output_rates;
use crate::delta::rule::{state_after, Stream};
use crate::delta::scan::padded_len;
use crate::dual::{constant, eps_part, lifted, Dual};
use crate::mat::Mat;
use crate::matrix::Matrix;
use crate::pair::{lemma_pair_agree, pair};
use crate::ring::{Ring, Scalar};
use crate::tensor::{head_plane, last_plane, Tensor4};

verus! {

/// The gradient of every input of the delta rule.
#[allow(non_snake_case)]
pub struct DeltaChunkGrads<T> {
    /// Of the queries: `[batch, sequence, nheads, head_k_dim]`.
    pub d_q_bshk: Tensor4<T>,
    /// Of the keys: `[batch, sequence, nheads, head_k_dim]`.
    pub d_k_bshk: Tensor4<T>,
    /// Of the values: `[batch, sequence, nheads, head_v_dim]`.
    pub d_v_bshv: Tensor4<T>,
    /// Of the erase gate, at its own width.
    pub d_erase_bshK: Tensor4<T>,
    /// Of the write gate, at its own width.
    pub d_write_bshV: Tensor4<T>,
    /// Of the log forget gate, at its own width; `None` without one.
    pub d_g_bshK: Option<Tensor4<T>>,
    /// Of the entering state: `[batch, nheads, head_k_dim, head_v_dim]`.
    pub d_state_bhkv: Tensor4<T>,
}

impl<T: Ring> DeltaInput<T> {
    /// The inputs of head `h` of sequence `a`, each changing at the given rate. The
    /// rates of the gates are given at the gates' own widths.
    pub open spec fn moving(&self, a: int, h: int, rate: Stream<T>) -> Stream<Dual<T>> {
        Stream {
            q: lifted(head_plane(self.q_bshk@, a, h), rate.q),
            k: lifted(head_plane(self.k_bshk@, a, h), rate.k),
            v: lifted(head_plane(self.v_bshv@, a, h), rate.v),
            erase: widened(
                self.erase_bshK.dims().3 as int,
                lifted(head_plane(self.erase_bshK@, a, h), rate.erase),
            ),
            write: widened(
                self.write_bshV.dims().3 as int,
                lifted(head_plane(self.write_bshV@, a, h), rate.write),
            ),
            g: match self.g_bshK {
                Some(g) => widened(g.dims().3 as int, lifted(head_plane(g@, a, h), rate.g)),
                None => |t: int, d: int| constant(T::zero()),
            },
        }
    }

    /// The pairing of the gradients `dy` and `d_last` of the outputs and of the last
    /// state with their rates of change, when the inputs of head `h` of sequence `a`
    /// change at the given rates and its state at `sd`.
    pub open spec fn output_pairing(
        &self,
        scale: T,
        dy: Tensor4<T>,
        d_last: Tensor4<T>,
        a: int,
        h: int,
        rate: Stream<T>,
        sd: Mat<T>,
    ) -> T {
        let (sequence, nk) = (self.q_bshk.dims().1 as int, self.q_bshk.dims().3 as int);
        let nv = self.v_bshv.dims().3 as int;
        let x = self.moving(a, h, rate);
        let s = lifted(last_plane(self.state_bhkv@, a, h), sd);
        pair(sequence, nv, head_plane(dy@, a, h), output_rates(x, nk, scale, s)) + pair(
            nk,
            nv,
            last_plane(d_last@, a, h),
            eps_part(state_after(x, nk, s, sequence)),
        )
    }
}

impl<T: Ring> DeltaChunkGrads<T> {
    /// Whether each gradient has the shape of its input.
    pub open spec fn shaped(&self, input: DeltaInput<T>) -> bool {
        &&& self.d_q_bshk.dims() == input.q_bshk.dims()
        &&& self.d_k_bshk.dims() == input.k_bshk.dims()
        &&& self.d_v_bshv.dims() == input.v_bshv.dims()
        &&& self.d_erase_bshK.dims() == input.erase_bshK.dims()
        &&& self.d_write_bshV.dims() == input.write_bshV.dims()
        &&& self.d_g_bshK is Some == input.g_bshK is Some
        &&& self.d_g_bshK matches Some(d_g) ==> d_g.dims() == input.g_bshK->0.dims()
        &&& self.d_state_bhkv.dims() == input.state_bhkv.dims()
    }

    /// The pairing of the gradients with the rates of change of the inputs of head
    /// `h` of sequence `a`, and of its state.
    pub open spec fn input_pairing(&self, a: int, h: int, rate: Stream<T>, sd: Mat<T>) -> T {
        let sequence = self.d_q_bshk.dims().1 as int;
        let (nk, nv) = (self.d_q_bshk.dims().3 as int, self.d_v_bshv.dims().3 as int);
        (((pair(sequence, nk, head_plane(self.d_q_bshk@, a, h), rate.q) + pair(
            sequence,
            nk,
            head_plane(self.d_k_bshk@, a, h),
            rate.k,
        )) + (pair(sequence, nv, head_plane(self.d_v_bshv@, a, h), rate.v) + pair(
            sequence,
            self.d_erase_bshK.dims().3 as int,
            head_plane(self.d_erase_bshK@, a, h),
            rate.erase,
        ))) + (pair(
            sequence,
            self.d_write_bshV.dims().3 as int,
            head_plane(self.d_write_bshV@, a, h),
            rate.write,
        ) + (match self.d_g_bshK {
            Some(d_g) => pair(sequence, d_g.dims().3 as int, head_plane(d_g@, a, h), rate.g),
            None => T::zero(),
        }))) + pair(nk, nv, last_plane(self.d_state_bhkv@, a, h), sd)
    }
}

impl<T: Ring> DeltaChunkGrads<T> {
    /// Whether these are the gradients of the delta rule for the gradients `dy` and
    /// `d_last` of its results: whatever the rates of change of the inputs of a head,
    /// both pairings agree.
    pub open spec fn differentiates(
        &self,
        input: DeltaInput<T>,
        scale: T,
        dy: Tensor4<T>,
        d_last: Tensor4<T>,
    ) -> bool {
        &&& self.shaped(input)
        &&& forall|a: int, h: int, rate: Stream<T>, sd: Mat<T>|
            0 <= a < input.q_bshk.dims().0 && 0 <= h < input.q_bshk.dims().2
                ==> #[trigger] input.output_pairing(scale, dy, d_last, a, h, rate, sd)
                == self.input_pairing(a, h, rate, sd)
    }
}

/// Whether the gradients of one head stand in the tensors at `(a, h)`.
spec fn placed<R: Ring>(
    input: DeltaInput<R>,
    grads: DeltaChunkGrads<R>,
    a: int,
    h: int,
    p: HeadGrads<R>,
    s: Matrix<R>,
) -> bool {
    let (sequence, nk) = (input.q_bshk.dims().1 as int, input.q_bshk.dims().3 as int);
    let nv = input.v_bshv.dims().3 as int;
    &&& forall|t: int, d: int|
        0 <= t < sequence && 0 <= d < nk ==> #[trigger] p.d_q@(t, d) == grads.d_q_bshk@(a, t, h, d)
    &&& forall|t: int, d: int|
        0 <= t < sequence && 0 <= d < nk ==> #[trigger] p.d_k@(t, d) == grads.d_k_bshk@(a, t, h, d)
    &&& forall|t: int, d: int|
        0 <= t < sequence && 0 <= d < nv ==> #[trigger] p.d_v@(t, d) == grads.d_v_bshv@(a, t, h, d)
    &&& forall|t: int, d: int|
        0 <= t < sequence && 0 <= d < input.erase_bshK.dims().3 ==> #[trigger] p.d_erase@(t, d)
            == grads.d_erase_bshK@(a, t, h, d)
    &&& forall|t: int, d: int|
        0 <= t < sequence && 0 <= d < input.write_bshV.dims().3 ==> #[trigger] p.d_write@(t, d)
            == grads.d_write_bshV@(a, t, h, d)
    &&& grads.d_g_bshK matches Some(d_g) ==> forall|t: int, d: int|
        0 <= t < sequence && 0 <= d < d_g.dims().3 ==> #[trigger] p.d_g->0@(t, d) == d_g@(
            a,
            t,
            h,
            d,
        )
    &&& forall|d: int, c: int|
        0 <= d < nk && 0 <= c < nv ==> #[trigger] s@(d, c) == grads.d_state_bhkv@(a, h, d, c)
}

/// The shapes of one head's gradients.
spec fn head_shaped<R: Ring>(input: DeltaInput<R>, p: HeadGrads<R>, s: Matrix<R>) -> bool {
    let (sequence, nk) = (input.q_bshk.dims().1 as int, input.q_bshk.dims().3 as int);
    let nv = input.v_bshv.dims().3 as int;
    &&& p.d_q.has_shape(sequence, nk)
    &&& p.d_k.has_shape(sequence, nk)
    &&& p.d_v.has_shape(sequence, nv)
    &&& p.d_erase.has_shape(sequence, input.erase_bshK.dims().3 as int)
    &&& p.d_write.has_shape(sequence, input.write_bshV.dims().3 as int)
    &&& p.d_g is Some == input.g_bshK is Some
    &&& p.d_g matches Some(d_g) ==> d_g.has_shape(sequence, input.g_bshK->0.dims().3 as int)
    &&& s.has_shape(nk, nv)
}

/// The gradient of one head, in terms of the batch's inputs.
spec fn head_differentiates<R: Ring>(
    input: DeltaInput<R>,
    scale: R,
    dy: Tensor4<R>,
    d_last: Tensor4<R>,
    a: int,
    h: int,
    p: HeadGrads<R>,
    s: Matrix<R>,
) -> bool {
    let (sequence, nk) = (input.q_bshk.dims().1 as int, input.q_bshk.dims().3 as int);
    let nv = input.v_bshv.dims().3 as int;
    forall|rate: Stream<R>, sd: Mat<R>| #[trigger]
        input.output_pairing(scale, dy, d_last, a, h, rate, sd) == p.pairing(sequence, rate) + pair(
            nk,
            nv,
            s@,
            sd,
        )
}

proof fn lemma_placed_pairs<R: Ring>(
    input: DeltaInput<R>,
    grads: DeltaChunkGrads<R>,
    a: int,
    h: int,
    p: HeadGrads<R>,
    s: Matrix<R>,
    rate: Stream<R>,
    sd: Mat<R>,
)
    requires
        input.valid(),
        grads.shaped(input),
        head_shaped(input, p, s),
        placed(input, grads, a, h, p, s),
    ensures
        p.pairing(input.q_bshk.dims().1 as int, rate) + pair(
            input.q_bshk.dims().3 as int,
            input.v_bshv.dims().3 as int,
            s@,
            sd,
        ) == grads.input_pairing(a, h, rate, sd),
{
    let (n, nk) = (input.q_bshk.dims().1 as int, input.q_bshk.dims().3 as int);
    let nv = input.v_bshv.dims().3 as int;
    let (we, ww) = (input.erase_bshK.dims().3 as int, input.write_bshV.dims().3 as int);
    lemma_pair_agree(n, nk, p.d_q@, rate.q, head_plane(grads.d_q_bshk@, a, h), rate.q);
    lemma_pair_agree(n, nk, p.d_k@, rate.k, head_plane(grads.d_k_bshk@, a, h), rate.k);
    lemma_pair_agree(n, nv, p.d_v@, rate.v, head_plane(grads.d_v_bshv@, a, h), rate.v);
    lemma_pair_agree(
        n,
        we,
        p.d_erase@,
        rate.erase,
        head_plane(grads.d_erase_bshK@, a, h),
        rate.erase,
    );
    lemma_pair_agree(
        n,
        ww,
        p.d_write@,
        rate.write,
        head_plane(grads.d_write_bshV@, a, h),
        rate.write,
    );
    if let Some(d_g) = grads.d_g_bshK {
        lemma_pair_agree(
            n,
            d_g.dims().3 as int,
            p.d_g->0@,
            rate.g,
            head_plane(d_g@, a, h),
            rate.g,
        );
    }
    lemma_pair_agree(nk, nv, s@, sd, last_plane(grads.d_state_bhkv@, a, h), sd);
}

/// The gradient of one head of one sequence.
fn gradient_of_head<T: Scalar>(
    input: &DeltaInput<T>,
    d_y_bshv: &Tensor4<T>,
    d_final_state_bhkv: &Tensor4<T>,
    a: usize,
    h: usize,
    chunk_len: usize,
    scale: T,
) -> (r: (HeadGrads<T>, Matrix<T>))
    requires
        input.valid(),
        d_y_bshv.dims() == input.v_bshv.dims(),
        d_final_state_bhkv.dims() == input.state_bhkv.dims(),
        chunk_len > 0,
        padded_len(input.q_bshk.dims().1 as int, chunk_len as int) <= usize::MAX,
        a < input.q_bshk.dims().0,
        h < input.q_bshk.dims().2,
    ensures
        head_shaped(*input, r.0, r.1),
        head_differentiates(
            *input,
            scale,
            *d_y_bshv,
            *d_final_state_bhkv,
            a as int,
            h as int,
            r.0,
            r.1,
        ),
{
    let head = input.head(a, h);
    let state = input.state_bhkv.block(a, h);
    let dy = d_y_bshv.head(a, h);
    let d_last = d_final_state_bhkv.block(a, h);
    let (batch, _, nheads, _) = input.q_bshk.dims();
    let (grads, d_state) = head_backward(
        &head,
        &state,
        &dy,
        &d_last,
        batch,
        nheads,
        chunk_len,
        scale,
    );
    proof {
        let (sequence, nk) = (input.q_bshk.dims().1 as int, input.q_bshk.dims().3 as int);
        let nv = input.v_bshv.dims().3 as int;
        assert forall|rate: Stream<T>, sd: Mat<T>| #[trigger]
            input.output_pairing(
                scale,
                *d_y_bshv,
                *d_final_state_bhkv,
                a as int,
                h as int,
                rate,
                sd,
            ) == grads.pairing(sequence, rate) + pair(nk, nv, d_state@, sd) by {
            assert(head_adjoint(
                head,
                scale,
                state@,
                dy@,
                d_last@,
                grads,
                d_state@,
                rate,
                sd,
            ));
            assert(moving(head, rate).g =~= input.moving(a as int, h as int, rate).g);
            assert(moving(head, rate) =~= input.moving(a as int, h as int, rate));
        }
    }
    (grads, d_state)
}

/// Replays the chunkwise form and differentiates it.
///
/// `d_y_bshv` and `d_final_state_bhkv` are the gradients of its two results. The
/// gradients that come back turn every pairing with the rates of change of the
/// results into the pairing with the rates of change of the inputs, head by head.
pub fn combined_backward<T: Scalar>(
    d_y_bshv: &Tensor4<T>,
    d_final_state_bhkv: &Tensor4<T>,
    input: &DeltaInput<T>,
    chunk_len: usize,
    scale: T,
) -> (r: DeltaChunkGrads<T>)
    requires
        input.valid(),
        d_y_bshv.dims() == input.v_bshv.dims(),
        d_final_state_bhkv.dims() == input.state_bhkv.dims(),
        chunk_len > 0,
        padded_len(input.q_bshk.dims().1 as int, chunk_len as int) <= usize::MAX,
    ensures
        r.differentiates(*input, scale, *d_y_bshv, *d_final_state_bhkv),
{
    let (batch, sequence, nheads, nk, nv) = input.dims();
    let mut parts: Vec<Vec<HeadGrads<T>>> = Vec::with_capacity(batch);
    let mut states: Vec<Vec<Matrix<T>>> = Vec::with_capacity(batch);
    for a in 0..batch
        invariant
            input.valid(),
            d_y_bshv.dims() == input.v_bshv.dims(),
            d_final_state_bhkv.dims() == input.state_bhkv.dims(),
            chunk_len > 0,
            padded_len(input.q_bshk.dims().1 as int, chunk_len as int) <= usize::MAX,
            batch == input.q_bshk.dims().0,
            nheads == input.q_bshk.dims().2,
            parts@.len() == a,
            states@.len() == a,
            forall|i: int| 0 <= i < a ==> (#[trigger] parts@[i])@.len() == nheads,
            forall|i: int| 0 <= i < a ==> (#[trigger] states@[i])@.len() == nheads,
            forall|i: int, h: int|
                0 <= i < a && 0 <= h < nheads ==> head_shaped(
                    *input,
                    #[trigger] parts@[i]@[h],
                    states@[i]@[h],
                ) && head_differentiates(
                    *input,
                    scale,
                    *d_y_bshv,
                    *d_final_state_bhkv,
                    i,
                    h,
                    parts@[i]@[h],
                    states@[i]@[h],
                ),
    {
        let mut prow: Vec<HeadGrads<T>> = Vec::with_capacity(nheads);
        let mut srow: Vec<Matrix<T>> = Vec::with_capacity(nheads);
        for h in 0..nheads
            invariant
                input.valid(),
                d_y_bshv.dims() == input.v_bshv.dims(),
                d_final_state_bhkv.dims() == input.state_bhkv.dims(),
                chunk_len > 0,
                padded_len(input.q_bshk.dims().1 as int, chunk_len as int) <= usize::MAX,
                a < batch,
                batch == input.q_bshk.dims().0,
                nheads == input.q_bshk.dims().2,
                prow@.len() == h,
                srow@.len() == h,
                forall|i: int|
                    0 <= i < h ==> head_shaped(*input, #[trigger] prow@[i], srow@[i])
                        && head_differentiates(
                        *input,
                        scale,
                        *d_y_bshv,
                        *d_final_state_bhkv,
                        a as int,
                        i,
                        prow@[i],
                        srow@[i],
                    ),
        {
            let (p, s) = gradient_of_head(
                input,
                d_y_bshv,
                d_final_state_bhkv,
                a,
                h,
                chunk_len,
                scale,
            );
            prow.push(p);
            srow.push(s);
        }
        parts.push(prow);
        states.push(srow);
    }
    let we: usize = input.erase_bshK.dims().3;
    let ww: usize = input.write_bshV.dims().3;
    let fq = |a: usize, t: usize, h: usize, d: usize| -> (r: T)
        requires
            a < batch,
            t < sequence,
            h < nheads,
            d < nk,
        ensures
            r == parts@[a as int]@[h as int].d_q@(t as int, d as int),
        { parts[a][h].d_q.at(t, d) };
    let fk = |a: usize, t: usize, h: usize, d: usize| -> (r: T)
        requires
            a < batch,
            t < sequence,
            h < nheads,
            d < nk,
        ensures
            r == parts@[a as int]@[h as int].d_k@(t as int, d as int),
        { parts[a][h].d_k.at(t, d) };
    let fv = |a: usize, t: usize, h: usize, d: usize| -> (r: T)
        requires
            a < batch,
            t < sequence,
            h < nheads,
            d < nv,
        ensures
            r == parts@[a as int]@[h as int].d_v@(t as int, d as int),
        { parts[a][h].d_v.at(t, d) };
    let fe = |a: usize, t: usize, h: usize, d: usize| -> (r: T)
        requires
            a < batch,
            t < sequence,
            h < nheads,
            d < we,
        ensures
            r == parts@[a as int]@[h as int].d_erase@(t as int, d as int),
        { parts[a][h].d_erase.at(t, d) };
    let fw = |a: usize, t: usize, h: usize, d: usize| -> (r: T)
        requires
            a < batch,
            t < sequence,
            h < nheads,
            d < ww,
        ensures
            r == parts@[a as int]@[h as int].d_write@(t as int, d as int),
        { parts[a][h].d_write.at(t, d) };
    let d_g_bshK = match &input.g_bshK {
        Some(g) => {
            let wg: usize = g.dims().3;
            let fg = |a: usize, t: usize, h: usize, d: usize| -> (r: T)
                requires
                    a < batch,
                    t < sequence,
                    h < nheads,
                    d < wg,
                ensures
                    r == parts@[a as int]@[h as int].d_g->0@(t as int, d as int),
                { parts[a][h].d_g.as_ref().unwrap().at(t, d) };
            Some(Tensor4::from_fn(batch, sequence, nheads, wg, fg))
        },
        None => None,
    };
    proof {
        assert forall|a: int, h: int| 0 <= a < batch && 0 <= h < nheads implies (
        #[trigger] states@[a]@[h]).has_shape(nk as int, nv as int) by {
            assert(head_shaped(*input, parts@[a]@[h], states@[a]@[h]));
        }
    }
    let fs = |a: usize, h: usize, d: usize, c: usize| -> (r: T)
        requires
            a < batch,
            h < nheads,
            d < nk,
            c < nv,
        ensures
            r == states@[a as int]@[h as int]@(d as int, c as int),
        { states[a][h].at(d, c) };
    let r = DeltaChunkGrads {
        d_q_bshk: Tensor4::from_fn(batch, sequence, nheads, nk, fq),
        d_k_bshk: Tensor4::from_fn(batch, sequence, nheads, nk, fk),
        d_v_bshv: Tensor4::from_fn(batch, sequence, nheads, nv, fv),
        d_erase_bshK: Tensor4::from_fn(batch, sequence, nheads, we, fe),
        d_write_bshV: Tensor4::from_fn(batch, sequence, nheads, ww, fw),
        d_g_bshK,
        d_state_bhkv: Tensor4::from_fn(batch, nheads, nk, nv, fs),
    };
    proof {
        assert forall|a: int, h: int, rate: Stream<T>, sd: Mat<T>|
            0 <= a < batch && 0 <= h < nheads implies #[trigger] input.output_pairing(
            scale,
            *d_y_bshv,
            *d_final_state_bhkv,
            a,
            h,
            rate,
            sd,
        ) == r.input_pairing(a, h, rate, sd) by {
            let (p, s) = (parts@[a]@[h], states@[a]@[h]);
            assert(head_shaped(*input, p, s));
            assert(placed(*input, r, a, h, p, s)) by {
                assert forall|t: int, d: int| 0 <= t < sequence && 0 <= d < nk implies
                    #[trigger] p.d_q@(t, d) == r.d_q_bshk@(a, t, h, d) by {
                    assert(r.d_q_bshk@(a, t, h, d) == parts@[a]@[h].d_q@(t, d));
                }
                assert forall|t: int, d: int| 0 <= t < sequence && 0 <= d < nk implies
                    #[trigger] p.d_k@(t, d) == r.d_k_bshk@(a, t, h, d) by {
                    assert(r.d_k_bshk@(a, t, h, d) == parts@[a]@[h].d_k@(t, d));
                }
                assert forall|t: int, d: int| 0 <= t < sequence && 0 <= d < nv implies
                    #[trigger] p.d_v@(t, d) == r.d_v_bshv@(a, t, h, d) by {
                    assert(r.d_v_bshv@(a, t, h, d) == parts@[a]@[h].d_v@(t, d));
                }
                assert forall|t: int, d: int| 0 <= t < sequence && 0 <= d < we implies
                    #[trigger] p.d_erase@(t, d) == r.d_erase_bshK@(a, t, h, d) by {
                    assert(r.d_erase_bshK@(a, t, h, d) == parts@[a]@[h].d_erase@(t, d));
                }
                assert forall|t: int, d: int| 0 <= t < sequence && 0 <= d < ww implies
                    #[trigger] p.d_write@(t, d) == r.d_write_bshV@(a, t, h, d) by {
                    assert(r.d_write_bshV@(a, t, h, d) == parts@[a]@[h].d_write@(t, d));
                }
                if let Some(d_g) = r.d_g_bshK {
                    assert forall|t: int, d: int| 0 <= t < sequence && 0 <= d < d_g.dims().3 implies
                        #[trigger] p.d_g->0@(t, d) == d_g@(a, t, h, d) by {
                        assert(d_g@(a, t, h, d) == parts@[a]@[h].d_g->0@(t, d));
                    }
                }
                assert forall|d: int, c: int| 0 <= d < nk && 0 <= c < nv implies #[trigger] s@(
                    d,
                    c,
                ) == r.d_state_bhkv@(a, h, d, c) by {
                    assert(r.d_state_bhkv@(a, h, d, c) == states@[a]@[h]@(d, c));
                }
            }
            lemma_placed_pairs(*input, r, a, h, p, s, rate, sd);
            assert(head_differentiates(
                *input,
                scale,
                *d_y_bshv,
                *d_final_state_bhkv,
                a,
                h,
                p,
                s,
            ));
        }
    }
    r
}

impl<T: Ring> DeltaInput<T> {
    /// The inputs in the order in which their gradients are registered.
    pub open spec fn in_order(&self) -> Seq<Option<Tensor4<T>>> {
        seq![
            Some(self.q_bshk),
            Some(self.k_bshk),
            Some(self.v_bshv),
            Some(self.erase_bshK),
            Some(self.write_bshV),
            self.g_bshK,
            Some(self.state_bhkv),
        ]
    }
}

impl<T: Ring> DeltaChunkGrads<T> {
    /// The gradients in the order of the inputs.
    pub open spec fn in_order(&self) -> Seq<Option<Tensor4<T>>> {
        seq![
            Some(self.d_q_bshk),
            Some(self.d_k_bshk),
            Some(self.d_v_bshv),
            Some(self.d_erase_bshK),
            Some(self.d_write_bshV),
            self.d_g_bshK,
            Some(self.d_state_bhkv),
        ]
    }

    /// What is registered where the inputs marked in `followed` are followed: the
    /// gradients of those, and nothing for the others.
    pub open spec fn registrations(&self, followed: Seq<bool>) -> Seq<Option<Tensor4<T>>> {
        Seq::new(
            7,
            |i: int|
                if followed[i] {
                    self.in_order()[i]
                } else {
                    None
                },
        )
    }
}

/// A gradient, if its input is followed.
fn if_followed<G>(followed: bool, gradient: Option<G>) -> (r: Option<G>)
    ensures
        r == (if followed {
            gradient
        } else {
            None
        }),
{
    if followed {
        gradient
    } else {
        None
    }
}

/// The gradients that a backward pass registers, one place per input in the order of
/// [`DeltaInput`]'s fields: `followed` marks the inputs that a gradient is asked for.
pub fn registered_gradients<T: Scalar>(
    d_y_bshv: &Tensor4<T>,
    d_final_state_bhkv: &Tensor4<T>,
    input: &DeltaInput<T>,
    chunk_len: usize,
    scale: T,
    followed: [bool; 7],
) -> (r: Vec<Option<Tensor4<T>>>)
    requires
        input.valid(),
        d_y_bshv.dims() == input.v_bshv.dims(),
        d_final_state_bhkv.dims() == input.state_bhkv.dims(),
        chunk_len > 0,
        padded_len(input.q_bshk.dims().1 as int, chunk_len as int) <= usize::MAX,
    ensures
        exists|g: DeltaChunkGrads<T>| #[trigger]
            g.differentiates(*input, scale, *d_y_bshv, *d_final_state_bhkv) && r@
                == g.registrations(followed@),
        r@.len() == 7,
        forall|i: int|
            0 <= i < 7 ==> ((#[trigger] r@[i]) is Some == (followed@[i] && input.in_order()[
                i
            ] is Some)),
        forall|i: int|
            0 <= i < 7 && (#[trigger] r@[i]) is Some ==> r@[i]->0.dims() == input.in_order()[
                i
            ]->0.dims(),
{
    let grads = combined_backward(d_y_bshv, d_final_state_bhkv, input, chunk_len, scale);
    let ghost g = grads;
    let mut r: Vec<Option<Tensor4<T>>> = Vec::with_capacity(7);
    r.push(if_followed(followed[0], Some(grads.d_q_bshk)));
    r.push(if_followed(followed[1], Some(grads.d_k_bshk)));
    r.push(if_followed(followed[2], Some(grads.d_v_bshv)));
    r.push(if_followed(followed[3], Some(grads.d_erase_bshK)));
    r.push(if_followed(followed[4], Some(grads.d_write_bshV)));
    r.push(if_followed(followed[5], grads.d_g_bshK));
    r.push(if_followed(followed[6], Some(grads.d_state_bhkv)));
    assert(r@ =~= g.registrations(followed@));
    r
}

} // verus!
