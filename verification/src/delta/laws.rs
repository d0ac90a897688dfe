//! What holds of the delta rule as a whole.
use vstd::prelude::*;

use crate::common::norm::squares;
use crate::delta::path::DeltaInput;
use crate::delta::rule::{
    correction, forgotten, from_step, lemma_run_continues, next_state, output, read, state_after,
    Stream,
};
use crate::delta::scan::lemma_output_continues;
use crate::delta::tri::{
    is_inverse, lemma_inverse_unique, lemma_neumann_inverts, neumann, strictly_lower, unit_lower,
};
use crate::delta::wy::{lemma_output_depends, lemma_run_depends, streams_agree};
use crate::mat::{agree, eye, Mat};
use crate::ring::{
    group_add, lemma_add_zero, lemma_distributes_right, lemma_mul_associates, lemma_mul_commutes,
    lemma_mul_neg, lemma_mul_one, lemma_mul_zero, lemma_neg_add, lemma_neg_mul, lemma_neg_neg,
    lemma_one_mul, lemma_sub_self, lemma_sub_zero, lemma_zero_add, lemma_zero_mul, Ring,
};
use crate::sum::{
    lemma_sum_add, lemma_sum_ext, lemma_sum_scale, lemma_sum_scale_right, lemma_sum_single,
    lemma_sum_zero, sum,
};
use crate::tensor::{last_plane, Tensor4};

verus! {

/// Every evaluation of the delta rule gives the same outputs and the same last
/// state: neither the path, nor the chunk length, nor the way the triangular
/// systems are inverted changes the answer.
pub proof fn law_paths_agree<R: Ring>(
    input: DeltaInput<R>,
    scale: R,
    y1: Tensor4<R>,
    last1: Tensor4<R>,
    y2: Tensor4<R>,
    last2: Tensor4<R>,
)
    requires
        input.evaluates_to(scale, y1, last1),
        input.evaluates_to(scale, y2, last2),
    ensures
        y1@ == y2@,
        last1@ == last2@,
{
    let (batch, sequence, nheads, nk) = input.q_bshk.dims();
    let nv = input.v_bshv.dims().3;
    assert forall|a: int, t: int, h: int, c: int|
        #[trigger] y1@(a, t, h, c) == y2@(a, t, h, c) by {
        if 0 <= a < batch && 0 <= t < sequence && 0 <= h < nheads && 0 <= c < nv {
            assert(y2@(a, t, h, c) == y2@(a, t, h, c));
        }
    }
    assert(y1@ =~= y2@);
    assert forall|a: int, h: int, d: int, c: int|
        #[trigger] last1@(a, h, d, c) == last2@(a, h, d, c) by {
        if 0 <= a < batch && 0 <= h < nheads && 0 <= d < nk && 0 <= c < nv {
            assert(last2@(a, h, d, c) == last2@(a, h, d, c));
        }
    }
    assert(last1@ =~= last2@);
}

/// Whether `second` reads what `whole` reads from step `t0` on, and `first` what it
/// reads before.
pub open spec fn splits_at<R: Ring>(
    whole: DeltaInput<R>,
    first: DeltaInput<R>,
    second: DeltaInput<R>,
    t0: int,
) -> bool {
    let (batch, sequence, nheads, nk) = whole.q_bshk.dims();
    let nv = whole.v_bshv.dims().3;
    &&& first.q_bshk.has_shape(batch as int, t0, nheads as int, nk as int)
    &&& first.v_bshv.has_shape(batch as int, t0, nheads as int, nv as int)
    &&& second.q_bshk.has_shape(batch as int, sequence - t0, nheads as int, nk as int)
    &&& second.v_bshv.has_shape(batch as int, sequence - t0, nheads as int, nv as int)
    &&& forall|a: int, h: int|
        0 <= a < batch && 0 <= h < nheads ==> streams_agree(
            t0,
            nk as int,
            nv as int,
            #[trigger] first.stream(a, h),
            whole.stream(a, h),
        )
    &&& forall|a: int, h: int|
        0 <= a < batch && 0 <= h < nheads ==> streams_agree(
            sequence - t0,
            nk as int,
            nv as int,
            #[trigger] second.stream(a, h),
            from_step(whole.stream(a, h), t0),
        )
    &&& first.state_bhkv@ == whole.state_bhkv@
}

/// A sequence evaluated in two calls, the second from the state that the first
/// left, gives what one call over all of it gives.
pub proof fn law_split_calls<R: Ring>(
    whole: DeltaInput<R>,
    first: DeltaInput<R>,
    second: DeltaInput<R>,
    t0: int,
    scale: R,
    y: Tensor4<R>,
    last: Tensor4<R>,
    y1: Tensor4<R>,
    middle: Tensor4<R>,
    y2: Tensor4<R>,
    end: Tensor4<R>,
)
    requires
        0 <= t0 <= whole.q_bshk.dims().1,
        splits_at(whole, first, second, t0),
        whole.evaluates_to(scale, y, last),
        first.evaluates_to(scale, y1, middle),
        second.evaluates_to(scale, y2, end),
        second.state_bhkv@ == middle@,
    ensures
        forall|a: int, t: int, h: int, c: int|
            0 <= a < whole.q_bshk.dims().0 && 0 <= t < t0 && 0 <= h < whole.q_bshk.dims().2 && 0
                <= c < whole.v_bshv.dims().3 ==> #[trigger] y1@(a, t, h, c) == y@(a, t, h, c),
        forall|a: int, t: int, h: int, c: int|
            0 <= a < whole.q_bshk.dims().0 && 0 <= t < whole.q_bshk.dims().1 - t0 && 0 <= h
                < whole.q_bshk.dims().2 && 0 <= c < whole.v_bshv.dims().3 ==> #[trigger] y2@(
                a,
                t,
                h,
                c,
            ) == y@(a, t0 + t, h, c),
        forall|a: int, h: int, d: int, c: int|
            0 <= a < whole.q_bshk.dims().0 && 0 <= h < whole.q_bshk.dims().2 && 0 <= d
                < whole.q_bshk.dims().3 && 0 <= c < whole.v_bshv.dims().3 ==> #[trigger] end@(
                a,
                h,
                d,
                c,
            ) == last@(a, h, d, c),
{
    let (batch, sequence, nheads, nk) = whole.q_bshk.dims();
    let (n, nv) = (nk as int, whole.v_bshv.dims().3 as int);
    assert forall|a: int, t: int, h: int, c: int|
        0 <= a < batch && 0 <= t < t0 && 0 <= h < nheads && 0 <= c < nv implies #[trigger] y1@(
        a,
        t,
        h,
        c,
    ) == y@(a, t, h, c) by {
        let (x, w) = (first.stream(a, h), whole.stream(a, h));
        let s = last_plane(whole.state_bhkv@, a, h);
        lemma_output_depends(x, w, n, nv, scale, s, s, t, c);
    }
    assert forall|a: int, h: int| 0 <= a < batch && 0 <= h < nheads implies agree(
        n,
        nv,
        #[trigger] last_plane(second.state_bhkv@, a, h),
        state_after(whole.stream(a, h), n, last_plane(whole.state_bhkv@, a, h), t0),
    ) by {
        let (x, w) = (first.stream(a, h), whole.stream(a, h));
        let s = last_plane(whole.state_bhkv@, a, h);
        lemma_run_depends(x, w, n, nv, s, s, t0);
        let m = last_plane(second.state_bhkv@, a, h);
        assert forall|d: int, c: int| 0 <= d < n && 0 <= c < nv implies #[trigger] m(d, c)
            == state_after(w, n, s, t0)(d, c) by {
            assert(middle@(a, h, d, c) == state_after(x, n, s, t0)(d, c));
        }
    }
    assert forall|a: int, t: int, h: int, c: int|
        0 <= a < batch && 0 <= t < sequence - t0 && 0 <= h < nheads && 0 <= c < nv implies
        #[trigger] y2@(a, t, h, c) == y@(a, t0 + t, h, c) by {
        let (x, w) = (second.stream(a, h), whole.stream(a, h));
        let s = last_plane(whole.state_bhkv@, a, h);
        let m = last_plane(second.state_bhkv@, a, h);
        let z = from_step(w, t0);
        let r = state_after(w, n, s, t0);
        lemma_output_depends(x, z, n, nv, scale, m, r, t, c);
        lemma_output_continues(w, n, scale, s, t0, t, c);
        assert(y@(a, t0 + t, h, c) == output(w, n, scale, s, t0 + t, c));
    }
    assert forall|a: int, h: int, d: int, c: int|
        0 <= a < batch && 0 <= h < nheads && 0 <= d < n && 0 <= c < nv implies #[trigger] end@(
        a,
        h,
        d,
        c,
    ) == last@(a, h, d, c) by {
        let (x, w) = (second.stream(a, h), whole.stream(a, h));
        let s = last_plane(whole.state_bhkv@, a, h);
        let m = last_plane(second.state_bhkv@, a, h);
        let z = from_step(w, t0);
        let r = state_after(w, n, s, t0);
        lemma_run_depends(x, z, n, nv, m, r, sequence - t0);
        lemma_run_continues(w, n, s, t0, sequence - t0);
        assert(last@(a, h, d, c) == state_after(w, n, s, sequence as int)(d, c));
        assert(end@(a, h, d, c) == state_after(x, n, m, sequence - t0)(d, c));
    }
}

/// Whether two inputs differ at most in their gates.
pub open spec fn same_but_gates<R: Ring>(a: DeltaInput<R>, b: DeltaInput<R>) -> bool {
    &&& a.q_bshk.dims() == b.q_bshk.dims()
    &&& a.v_bshv.dims() == b.v_bshv.dims()
    &&& a.q_bshk@ == b.q_bshk@
    &&& a.k_bshk@ == b.k_bshk@
    &&& a.v_bshv@ == b.v_bshv@
    &&& a.state_bhkv@ == b.state_bhkv@
}

/// Inputs whose streams agree are evaluated alike.
proof fn lemma_same_streams<R: Ring>(
    a: DeltaInput<R>,
    b: DeltaInput<R>,
    scale: R,
    y1: Tensor4<R>,
    last1: Tensor4<R>,
    y2: Tensor4<R>,
    last2: Tensor4<R>,
)
    requires
        same_but_gates(a, b),
        forall|i: int, h: int|
            0 <= i < a.q_bshk.dims().0 && 0 <= h < a.q_bshk.dims().2 ==> streams_agree(
                a.q_bshk.dims().1 as int,
                a.q_bshk.dims().3 as int,
                a.v_bshv.dims().3 as int,
                #[trigger] a.stream(i, h),
                b.stream(i, h),
            ),
        a.evaluates_to(scale, y1, last1),
        b.evaluates_to(scale, y2, last2),
    ensures
        y1@ == y2@,
        last1@ == last2@,
{
    let (batch, sequence, nheads, nk) = a.q_bshk.dims();
    let (n, nv) = (nk as int, a.v_bshv.dims().3 as int);
    assert forall|i: int, t: int, h: int, c: int|
        #[trigger] y1@(i, t, h, c) == y2@(i, t, h, c) by {
        if 0 <= i < batch && 0 <= t < sequence && 0 <= h < nheads && 0 <= c < nv {
            let s = last_plane(a.state_bhkv@, i, h);
            lemma_output_depends(a.stream(i, h), b.stream(i, h), n, nv, scale, s, s, t, c);
            assert(y2@(i, t, h, c) == output(b.stream(i, h), n, scale, s, t, c));
        }
    }
    assert(y1@ =~= y2@);
    assert forall|i: int, h: int, d: int, c: int|
        #[trigger] last1@(i, h, d, c) == last2@(i, h, d, c) by {
        if 0 <= i < batch && 0 <= h < nheads && 0 <= d < n && 0 <= c < nv {
            let s = last_plane(a.state_bhkv@, i, h);
            lemma_run_depends(a.stream(i, h), b.stream(i, h), n, nv, s, s, sequence as int);
            assert(last2@(i, h, d, c) == state_after(b.stream(i, h), n, s, sequence as int)(d, c));
        }
    }
    assert(last1@ =~= last2@);
}

/// A forget gate whose log decay is zero everywhere is no forget gate.
pub proof fn law_zero_gate_is_ungated<R: Ring>(
    gated: DeltaInput<R>,
    ungated: DeltaInput<R>,
    scale: R,
    y1: Tensor4<R>,
    last1: Tensor4<R>,
    y2: Tensor4<R>,
    last2: Tensor4<R>,
)
    requires
        same_but_gates(gated, ungated),
        gated.erase_bshK.dims() == ungated.erase_bshK.dims(),
        gated.erase_bshK@ == ungated.erase_bshK@,
        gated.write_bshV.dims() == ungated.write_bshV.dims(),
        gated.write_bshV@ == ungated.write_bshV@,
        gated.g_bshK matches Some(g) && forall|a: int, t: int, h: int, d: int| #[trigger]
            g@(a, t, h, d) == R::zero(),
        ungated.g_bshK is None,
        gated.evaluates_to(scale, y1, last1),
        ungated.evaluates_to(scale, y2, last2),
    ensures
        y1@ == y2@,
        last1@ == last2@,
{
    lemma_same_streams(gated, ungated, scale, y1, last1, y2, last2);
}

/// Whether gate `b` holds on every one of `full` channels the value that gate `a`
/// holds for the whole head.
pub open spec fn broadcasts<R: Ring>(a: Tensor4<R>, b: Tensor4<R>, full: int) -> bool {
    &&& a.dims().3 == 1
    &&& b.dims().3 == full
    &&& forall|i: int, t: int, h: int, d: int|
        0 <= d < full ==> #[trigger] b@(i, t, h, d) == a@(i, t, h, 0)
}

/// Whether gate `b` is gate `a`, as it stands or spread over `full` channels.
pub open spec fn widens<R: Ring>(a: Tensor4<R>, b: Tensor4<R>, full: int) -> bool {
    (a.dims() == b.dims() && a@ == b@) || broadcasts(a, b, full)
}

/// Gates with one value per head are gates with that value on every channel: the
/// rule with a gate per head is the channel-wise rule with constant gates, for each
/// of the three gates on its own.
pub proof fn law_broadcast_gates_are_the_scalar_rule<R: Ring>(
    scalar: DeltaInput<R>,
    channel: DeltaInput<R>,
    scale: R,
    y1: Tensor4<R>,
    last1: Tensor4<R>,
    y2: Tensor4<R>,
    last2: Tensor4<R>,
)
    requires
        same_but_gates(scalar, channel),
        widens(scalar.erase_bshK, channel.erase_bshK, scalar.q_bshk.dims().3 as int),
        widens(scalar.write_bshV, channel.write_bshV, scalar.v_bshv.dims().3 as int),
        scalar.g_bshK is Some == channel.g_bshK is Some,
        scalar.g_bshK is Some ==> widens(
            scalar.g_bshK->0,
            channel.g_bshK->0,
            scalar.q_bshk.dims().3 as int,
        ),
        scalar.evaluates_to(scale, y1, last1),
        channel.evaluates_to(scale, y2, last2),
    ensures
        y1@ == y2@,
        last1@ == last2@,
{
    lemma_same_streams(scalar, channel, scale, y1, last1, y2, last2);
}

/// What a state retrieves for a key.
pub open spec fn retrieves<R: Ring>(nk: int, s: Mat<R>, k: spec_fn(int) -> R, c: int) -> R {
    sum(nk, |d: int| k(d) * s(d, c))
}

/// Whether a key has unit length.
pub open spec fn unit_key<R: Ring>(nk: int, k: spec_fn(int) -> R) -> bool {
    sum(nk, |d: int| k(d) * k(d)) == R::one()
}

/// After a step with a unit key, an erase gate of `b` and a write gate of `w` for
/// the whole head, the state retrieves for that key `1 - b` of what it retrieved
/// before plus `w` of the value.
pub proof fn law_write_at_a_unit_key<R: Ring>(
    x: Stream<R>,
    nk: int,
    s: Mat<R>,
    t: int,
    c: int,
    b: R,
    w: R,
)
    requires
        unit_key(nk, |d: int| (x.k)(t, d)),
        forall|d: int| 0 <= d < nk ==> #[trigger] (x.erase)(t, d) == b,
        (x.write)(t, c) == w,
    ensures
        retrieves(nk, next_state(x, nk, s, t), |d: int| (x.k)(t, d), c) == (R::one() - b)
            * retrieves(nk, forgotten(x, s, t), |d: int| (x.k)(t, d), c) + w * (x.v)(t, c),
{
    let k = |d: int| (x.k)(t, d);
    let old = forgotten(x, s, t);
    let u = correction(x, nk, s, t, c);
    let before = retrieves(nk, old, k, c);
    let terms = |d: int| k(d) * old(d, c);
    lemma_step_delta(x, nk, s, t, c, b, w);
    // The key reads its own write once.
    let squares = |d: int| k(d) * k(d);
    lemma_sum_scale_right(nk, squares, u);
    let writes = |d: int| squares(d) * u;
    lemma_sum_add(nk, terms, writes);
    let after = |d: int| k(d) * next_state(x, nk, s, t)(d, c);
    assert forall|d: int| 0 <= d < nk implies #[trigger] after(d) == terms(d) + writes(d) by {
        R::mul_distributes(k(d), old(d, c), k(d) * u);
        R::mul_associates(k(d), k(d), u);
    }
    lemma_sum_ext(nk, after, |d: int| terms(d) + writes(d));
    lemma_one_mul(u);
    let v = (x.v)(t, c);
    assert(u == v * w - before * b);
    assert(before + (v * w - before * b) == (R::one() - b) * before + w * v) by {
        R::sub_is_add_neg(v * w, before * b);
        R::sub_is_add_neg(R::one(), b);
        lemma_distributes_right(before, R::one(), -b);
        lemma_one_mul(before);
        lemma_neg_mul(b, before);
        R::mul_commutes(b, before);
        R::mul_commutes(v, w);
        let (p, q, r) = (before, w * v, -(before * b));
        assert(p + (q + r) == (p + r) + q) by {
            broadcast use {crate::ring::lemma_add_commutes, crate::ring::lemma_add_associates};

        }
    }
}

/// A step is a linear transition and a write: the state after the forget gate times
/// `I - k (b k)^T`, plus `k` times the gated value.
pub proof fn law_transition<R: Ring>(x: Stream<R>, nk: int, s: Mat<R>, t: int, d: int, c: int)
    requires
        0 <= d < nk,
    ensures
        next_state(x, nk, s, t)(d, c) == sum(
            nk,
            |e: int|
                (eye::<R>()(d, e) - (x.k)(t, d) * ((x.k)(t, e) * (x.erase)(t, e))) * forgotten(
                    x,
                    s,
                    t,
                )(e, c),
        ) + (x.k)(t, d) * ((x.v)(t, c) * (x.write)(t, c)),
{
    let old = forgotten(x, s, t);
    let kd = (x.k)(t, d);
    let erased = |e: int| ((x.k)(t, e) * (x.erase)(t, e)) * old(e, c);
    let kept = |e: int| eye::<R>()(d, e) * old(e, c);
    let taken = |e: int| kd * erased(e);
    let whole = |e: int| (eye::<R>()(d, e) - kd * ((x.k)(t, e) * (x.erase)(t, e))) * old(e, c);
    assert forall|e: int| 0 <= e < nk implies #[trigger] whole(e) == kept(e) + -taken(e) by {
        let (i, w, o) = (eye::<R>()(d, e), (x.k)(t, e) * (x.erase)(t, e), old(e, c));
        R::sub_is_add_neg(i, kd * w);
        lemma_distributes_right(o, i, -(kd * w));
        lemma_neg_mul(kd * w, o);
        R::mul_associates(kd, w, o);
    }
    lemma_sum_ext(
        nk,
        whole,
        |e: int|
            (eye::<R>()(d, e) - (x.k)(t, d) * ((x.k)(t, e) * (x.erase)(t, e))) * forgotten(
                x,
                s,
                t,
            )(e, c),
    );
    lemma_sum_ext(
        nk,
        erased,
        |e: int| ((x.k)(t, e) * (x.erase)(t, e)) * forgotten(x, s, t)(e, c),
    );
    let lost = |e: int| -taken(e);
    lemma_sum_ext(nk, whole, |e: int| kept(e) + lost(e));
    lemma_sum_add(nk, kept, lost);
    crate::sum::lemma_sum_neg(nk, taken);
    lemma_sum_scale(nk, kd, erased);
    assert(sum(nk, kept) == old(d, c)) by {
        broadcast use {lemma_zero_mul, lemma_one_mul};

        lemma_sum_single(nk, d, kept);
    }
    let (o, w, r) = (old(d, c), (x.v)(t, c) * (x.write)(t, c), sum(nk, erased));
    assert(o + kd * (w - r) == (o + -(kd * r)) + kd * w) by {
        R::sub_is_add_neg(w, r);
        R::mul_distributes(kd, w, -r);
        lemma_mul_neg(kd, r);
        let (p, q) = (kd * w, -(kd * r));
        assert(o + (p + q) == (o + q) + p) by {
            broadcast use {crate::ring::lemma_add_commutes, crate::ring::lemma_add_associates};

        }
    }
}

/// A write disturbs nothing outside the direction of its key: what a key at right
/// angles to it retrieves stays what it was.
pub proof fn law_orthogonal_keys_are_kept<R: Ring>(
    x: Stream<R>,
    nk: int,
    s: Mat<R>,
    t: int,
    c: int,
    z: spec_fn(int) -> R,
)
    requires
        sum(nk, |d: int| z(d) * (x.k)(t, d)) == R::zero(),
    ensures
        retrieves(nk, next_state(x, nk, s, t), z, c) == retrieves(nk, forgotten(x, s, t), z, c),
{
    let old = forgotten(x, s, t);
    let u = correction(x, nk, s, t, c);
    let dot = |d: int| z(d) * (x.k)(t, d);
    let kept = |d: int| z(d) * old(d, c);
    let added = |d: int| dot(d) * u;
    let after = |d: int| z(d) * next_state(x, nk, s, t)(d, c);
    assert forall|d: int| 0 <= d < nk implies #[trigger] after(d) == kept(d) + added(d) by {
        R::mul_distributes(z(d), old(d, c), (x.k)(t, d) * u);
        R::mul_associates(z(d), (x.k)(t, d), u);
    }
    lemma_sum_ext(nk, after, |d: int| kept(d) + added(d));
    lemma_sum_add(nk, kept, added);
    lemma_sum_scale_right(nk, dot, u);
    lemma_zero_mul(u);
    lemma_add_zero(sum(nk, kept));
}

/// One gate for erasing and writing cannot add to what a key already holds: where
/// the key retrieves the value it is to be given, the step writes nothing, whatever
/// that gate is.
pub proof fn law_shared_gate_cannot_accumulate<R: Ring>(
    x: Stream<R>,
    nk: int,
    s: Mat<R>,
    t: int,
    d: int,
    c: int,
    b: R,
)
    requires
        forall|e: int| 0 <= e < nk ==> #[trigger] (x.erase)(t, e) == b,
        (x.write)(t, c) == b,
        retrieves(nk, forgotten(x, s, t), |e: int| (x.k)(t, e), c) == (x.v)(t, c),
    ensures
        next_state(x, nk, s, t)(d, c) == forgotten(x, s, t)(d, c),
{
    lemma_step_delta(x, nk, s, t, c, b, b);
    lemma_sub_self((x.v)(t, c) * b);
    lemma_mul_zero((x.k)(t, d));
    lemma_add_zero(forgotten(x, s, t)(d, c));
}

/// With both gates zero a step only forgets.
pub proof fn law_closed_gates_write_nothing<R: Ring>(
    x: Stream<R>,
    nk: int,
    s: Mat<R>,
    t: int,
    d: int,
    c: int,
)
    requires
        forall|e: int| 0 <= e < nk ==> #[trigger] (x.erase)(t, e) == R::zero(),
        (x.write)(t, c) == R::zero(),
    ensures
        next_state(x, nk, s, t)(d, c) == forgotten(x, s, t)(d, c),
{
    broadcast use {lemma_mul_zero, lemma_zero_mul};

    let erased = |e: int| ((x.k)(t, e) * (x.erase)(t, e)) * forgotten(x, s, t)(e, c);
    lemma_sum_zero(nk, erased);
    lemma_sub_self(R::zero());
    lemma_add_zero(forgotten(x, s, t)(d, c));
}

/// A unit key written with both gates one retrieves the value that was written.
pub proof fn law_full_write_replaces<R: Ring>(x: Stream<R>, nk: int, s: Mat<R>, t: int, c: int)
    requires
        unit_key(nk, |d: int| (x.k)(t, d)),
        forall|d: int| 0 <= d < nk ==> #[trigger] (x.erase)(t, d) == R::one(),
        (x.write)(t, c) == R::one(),
    ensures
        retrieves(nk, next_state(x, nk, s, t), |d: int| (x.k)(t, d), c) == (x.v)(t, c),
{
    law_write_at_a_unit_key(x, nk, s, t, c, R::one(), R::one());
    broadcast use {lemma_sub_self, lemma_zero_mul, lemma_one_mul, lemma_zero_add};

}

/// With an erase gate of one and a write gate of zero, a step deletes what a unit
/// key retrieves.
pub proof fn law_erase_without_write_deletes<R: Ring>(
    x: Stream<R>,
    nk: int,
    s: Mat<R>,
    t: int,
    c: int,
)
    requires
        unit_key(nk, |d: int| (x.k)(t, d)),
        forall|d: int| 0 <= d < nk ==> #[trigger] (x.erase)(t, d) == R::one(),
        (x.write)(t, c) == R::zero(),
    ensures
        retrieves(nk, next_state(x, nk, s, t), |d: int| (x.k)(t, d), c) == R::zero(),
{
    law_write_at_a_unit_key(x, nk, s, t, c, R::one(), R::zero());
    broadcast use {lemma_sub_self, lemma_zero_mul, lemma_zero_add};

}

/// With an erase gate of zero and a write gate of one, a step adds the value to
/// what the state already holds at the key.
pub proof fn law_write_without_erase_accumulates<R: Ring>(
    x: Stream<R>,
    nk: int,
    s: Mat<R>,
    t: int,
    d: int,
    c: int,
)
    requires
        forall|e: int| 0 <= e < nk ==> #[trigger] (x.erase)(t, e) == R::zero(),
        (x.write)(t, c) == R::one(),
    ensures
        next_state(x, nk, s, t)(d, c) == forgotten(x, s, t)(d, c) + (x.k)(t, d) * (x.v)(t, c),
{
    broadcast use {lemma_mul_zero, lemma_zero_mul, lemma_mul_one, lemma_sub_zero};

    let erased = |e: int| ((x.k)(t, e) * (x.erase)(t, e)) * forgotten(x, s, t)(e, c);
    lemma_sum_zero(nk, erased);
}

/// Taken twice with an erase gate of two and no decay in between, a step with a unit
/// key undoes itself, whatever the write gate and the value: the step is a reflection.
pub proof fn law_double_erase_reflects<R: Ring>(
    x: Stream<R>,
    nk: int,
    s: Mat<R>,
    t: int,
    c: int,
    two: R,
)
    requires
        two == R::one() + R::one(),
        unit_key(nk, |d: int| (x.k)(t, d)),
        forall|d: int| 0 <= d < nk ==> #[trigger] (x.erase)(t, d) == two,
        forall|d: int| 0 <= d < nk ==> #[trigger] (x.g)(t, d) == R::zero(),
    ensures
        forall|d: int|
            0 <= d < nk ==> #[trigger] next_state(x, nk, next_state(x, nk, s, t), t)(d, c) == s(
                d,
                c,
            ),
{
    let k = |d: int| (x.k)(t, d);
    let s1 = next_state(x, nk, s, t);
    let (u1, u2) = (correction(x, nk, s, t, c), correction(x, nk, s1, t, c));
    R::expo_zero();
    broadcast use lemma_one_mul;

    let w = (x.write)(t, c);
    lemma_step_delta(x, nk, s, t, c, two, w);
    lemma_step_delta(x, nk, s1, t, c, two, w);
    let (before, v) = (retrieves(nk, s, k, c), (x.v)(t, c));
    let middle = retrieves(nk, s1, k, c);
    law_write_at_a_unit_key(x, nk, s, t, c, two, w);
    lemma_sum_ext(nk, |d: int| k(d) * forgotten(x, s, t)(d, c), |d: int| k(d) * s(d, c));
    lemma_sum_ext(nk, |d: int| k(d) * forgotten(x, s1, t)(d, c), |d: int| k(d) * s1(d, c));
    R::mul_commutes(v, w);
    assert(middle == (R::one() - two) * before + v * w);
    assert(u1 == v * w - before * two);
    assert(u2 == v * w - middle * two);
    lemma_reflection(before, v * w, two);
    assert(u1 + u2 == R::zero());
    assert forall|d: int| 0 <= d < nk implies #[trigger] next_state(x, nk, s1, t)(d, c) == s(
        d,
        c,
    ) by {
        assert((x.g)(t, d) == R::zero());
        let (kd, sd) = (k(d), s(d, c));
        assert(s1(d, c) == sd + kd * u1);
        R::add_associates(sd, kd * u1, kd * u2);
        R::mul_distributes(kd, u1, u2);
        lemma_mul_zero(kd);
        R::add_zero(sd);
    }
}

/// A step whose two gates are one number for the whole head moves what is stored
/// towards the value: the delta is that fraction of the value less what the state
/// retrieves for the key.
pub proof fn law_shared_gate_corrects_an_error<R: Ring>(
    x: Stream<R>,
    nk: int,
    s: Mat<R>,
    t: int,
    c: int,
    b: R,
)
    requires
        forall|d: int| 0 <= d < nk ==> #[trigger] (x.erase)(t, d) == b,
        (x.write)(t, c) == b,
    ensures
        correction(x, nk, s, t, c) == b * ((x.v)(t, c) - retrieves(
            nk,
            forgotten(x, s, t),
            |d: int| (x.k)(t, d),
            c,
        )),
{
    lemma_step_delta(x, nk, s, t, c, b, b);
    let (v, r) = ((x.v)(t, c), retrieves(nk, forgotten(x, s, t), |d: int| (x.k)(t, d), c));
    R::sub_is_add_neg(v, r);
    R::mul_distributes(b, v, -r);
    lemma_mul_neg(b, r);
    R::sub_is_add_neg(v * b, r * b);
    R::mul_commutes(b, v);
    R::mul_commutes(b, r);
}

/// Row `d` of `(I - k (b k)^T) z`, for one gate `b` for the whole head.
pub open spec fn transition_of<R: Ring>(
    nk: int,
    k: spec_fn(int) -> R,
    b: R,
    z: spec_fn(int) -> R,
    d: int,
) -> R {
    sum(nk, |e: int| (eye::<R>()(d, e) - k(d) * (k(e) * b)) * z(e))
}

/// What a transition makes of a vector: the vector, less the key times `b` times
/// their product.
pub(crate) proof fn lemma_transition_of<R: Ring>(
    nk: int,
    k: spec_fn(int) -> R,
    b: R,
    z: spec_fn(int) -> R,
    d: int,
)
    requires
        0 <= d < nk,
    ensures
        transition_of(nk, k, b, z, d) == z(d) - k(d) * (b * sum(nk, |e: int| k(e) * z(e))),
{
    let kept = |e: int| eye::<R>()(d, e) * z(e);
    let dot = |e: int| k(e) * z(e);
    let taken = |e: int| (-(k(d) * b)) * dot(e);
    let whole = |e: int| (eye::<R>()(d, e) - k(d) * (k(e) * b)) * z(e);
    assert forall|e: int| 0 <= e < nk implies #[trigger] whole(e) == kept(e) + taken(e) by {
        let (i, p, q, w) = (eye::<R>()(d, e), k(d), k(e), z(e));
        R::sub_is_add_neg(i, p * (q * b));
        lemma_distributes_right(w, i, -(p * (q * b)));
        lemma_neg_mul(p * (q * b), w);
        lemma_neg_mul(p * b, q * w);
        assert((p * (q * b)) * w == (p * b) * (q * w)) by {
            broadcast use {lemma_mul_commutes, lemma_mul_associates};

        }
    }
    lemma_sum_ext(nk, whole, |e: int| kept(e) + taken(e));
    lemma_sum_add(nk, kept, taken);
    assert(sum(nk, kept) == z(d)) by {
        assert forall|e: int| 0 <= e < nk && e != d implies #[trigger] kept(e) == R::zero() by {
            lemma_zero_mul(z(e));
        }
        lemma_sum_single(nk, d, kept);
        lemma_one_mul(z(d));
    }
    lemma_sum_scale(nk, -(k(d) * b), dot);
    let total = sum(nk, dot);
    lemma_neg_mul(k(d) * b, total);
    R::mul_associates(k(d), b, total);
    R::sub_is_add_neg(z(d), k(d) * (b * total));
}

/// The key is an eigenvector of its own transition, for `1 - b |k|^2`.
pub proof fn law_key_is_an_eigenvector<R: Ring>(nk: int, k: spec_fn(int) -> R, b: R, d: int)
    requires
        0 <= d < nk,
    ensures
        transition_of(nk, k, b, k, d) == (R::one() - b * sum(nk, |e: int| k(e) * k(e))) * k(d),
{
    lemma_transition_of(nk, k, b, k, d);
    let (kd, n) = (k(d), b * sum(nk, |e: int| k(e) * k(e)));
    R::sub_is_add_neg(R::one(), n);
    lemma_distributes_right(kd, R::one(), -n);
    lemma_one_mul(kd);
    lemma_neg_mul(n, kd);
    R::mul_commutes(n, kd);
    R::sub_is_add_neg(kd, kd * n);
}

/// Every vector at right angles to the key is left alone by the transition.
pub proof fn law_complement_is_fixed<R: Ring>(
    nk: int,
    k: spec_fn(int) -> R,
    b: R,
    z: spec_fn(int) -> R,
    d: int,
)
    requires
        0 <= d < nk,
        sum(nk, |e: int| k(e) * z(e)) == R::zero(),
    ensures
        transition_of(nk, k, b, z, d) == z(d),
{
    lemma_transition_of(nk, k, b, z, d);
    lemma_mul_zero(b);
    lemma_mul_zero(k(d));
    lemma_sub_zero(z(d));
}

/// What a transition does to the length of a vector: it takes away `b (2 - b |k|^2)`
/// times the square of the vector's product with the key.
pub proof fn law_length_after_a_transition<R: Ring>(
    nk: int,
    k: spec_fn(int) -> R,
    b: R,
    z: spec_fn(int) -> R,
)
    ensures
        squares(nk, |d: int| transition_of(nk, k, b, z, d)) == squares(nk, z) - (b * ((R::one()
            + R::one()) - b * squares(nk, k))) * (sum(nk, |e: int| k(e) * z(e)) * sum(
            nk,
            |e: int| k(e) * z(e),
        )),
{
    let dot = |e: int| k(e) * z(e);
    let (kk, zz) = (|d: int| k(d) * k(d), |d: int| z(d) * z(d));
    let p = sum(nk, dot);
    let q = b * p;
    let image = |d: int| transition_of(nk, k, b, z, d);
    let whole = |d: int| image(d) * image(d);
    // (z - q k)^2 = z^2 - 2 q k z + q^2 k^2
    let crossed = |d: int| (-(q + q)) * dot(d);
    let added = |d: int| (q * q) * kk(d);
    let rest = |d: int| crossed(d) + added(d);
    let parts = |d: int| zz(d) + rest(d);
    assert forall|d: int| 0 <= d < nk implies #[trigger] whole(d) == parts(d) by {
        lemma_transition_of(nk, k, b, z, d);
        lemma_sum_ext(nk, dot, |e: int| k(e) * z(e));
        lemma_square_less(z(d), k(d), q);
    }
    lemma_sum_ext(nk, whole, parts);
    lemma_sum_add(nk, zz, rest);
    lemma_sum_add(nk, crossed, added);
    lemma_sum_scale(nk, -(q + q), dot);
    lemma_sum_scale(nk, q * q, kk);
    lemma_sum_ext(nk, |d: int| image(d) * image(d), whole);
    lemma_sum_ext(nk, |e: int| k(e) * z(e), dot);
    let (length, n) = (squares(nk, z), squares(nk, k));
    assert(sum(nk, whole) == length + ((-(q + q)) * p + (q * q) * n));
    lemma_length_lost(b, n, p);
    R::sub_is_add_neg(length, (b * ((R::one() + R::one()) - b * n)) * (p * p));
}

/// `(z - k q)^2 = z^2 - 2 q k z + q^2 k^2`
proof fn lemma_square_less<R: Ring>(z: R, k: R, q: R)
    ensures
        (z - k * q) * (z - k * q) == z * z + ((-(q + q)) * (k * z) + (q * q) * (k * k)),
{
    let y = -(k * q);
    R::sub_is_add_neg(z, k * q);
    lemma_distributes_right(z + y, z, y);
    R::mul_distributes(z, z, y);
    R::mul_distributes(y, z, y);
    lemma_mul_neg(z, k * q);
    lemma_neg_mul(k * q, z);
    lemma_neg_mul(k * q, y);
    lemma_mul_neg(k * q, k * q);
    lemma_neg_neg((k * q) * (k * q));
    let m = q * (k * z);
    assert(z * (k * q) == m && (k * q) * z == m && (k * q) * (k * q) == (q * q) * (k * k)) by {
        broadcast use {lemma_mul_commutes, lemma_mul_associates};

    }
    assert((-(q + q)) * (k * z) == -m + -m) by {
        lemma_neg_mul(q + q, k * z);
        lemma_distributes_right(k * z, q, q);
        lemma_neg_add(m, m);
    }
    R::add_associates(z * z, -m, -m + (q * q) * (k * k));
    R::add_associates(-m, -m, (q * q) * (k * k));
}

/// What a transition takes away, gathered.
proof fn lemma_length_lost<R: Ring>(b: R, n: R, p: R)
    ensures
        (-(b * p + b * p)) * p + ((b * p) * (b * p)) * n == -((b * ((R::one() + R::one()) - b * n))
            * (p * p)),
{
    let (one, w) = (R::one(), p * p);
    let (f, g) = (b * w, (b * (b * n)) * w);
    assert((b * ((one + one) - b * n)) * w == (f + f) + -g) by {
        R::sub_is_add_neg(one + one, b * n);
        R::mul_distributes(b, one + one, -(b * n));
        R::mul_distributes(b, one, one);
        lemma_mul_one(b);
        lemma_mul_neg(b, b * n);
        lemma_distributes_right(w, b + b, -(b * (b * n)));
        lemma_distributes_right(w, b, b);
        lemma_neg_mul(b * (b * n), w);
    }
    lemma_neg_add(f + f, -g);
    lemma_neg_neg(g);
    assert((-(b * p + b * p)) * p == -(f + f)) by {
        lemma_neg_mul(b * p + b * p, p);
        lemma_distributes_right(p, b * p, b * p);
        R::mul_associates(b, p, p);
    }
    assert(((b * p) * (b * p)) * n == g) by {
        broadcast use {lemma_mul_commutes, lemma_mul_associates};

    }
}

/// With a unit key the length of a vector loses `b (2 - b)` times the square of its
/// product with the key: nothing at `0` and at `2`, and never less than nothing in
/// between.
pub proof fn law_length_after_a_unit_transition<R: Ring>(
    nk: int,
    k: spec_fn(int) -> R,
    b: R,
    z: spec_fn(int) -> R,
)
    requires
        unit_key(nk, k),
    ensures
        squares(nk, |d: int| transition_of(nk, k, b, z, d)) == squares(nk, z) - (b * ((R::one()
            + R::one()) - b)) * (sum(nk, |e: int| k(e) * z(e)) * sum(nk, |e: int| k(e) * z(e))),
{
    law_length_after_a_transition(nk, k, b, z);
    lemma_mul_one(b);
}

/// Taken twice with an erase gate of one and no decay in between, a step with a unit
/// key does nothing the second time, whatever the write gate and the value: the step is
/// a projection.
pub proof fn law_full_erase_is_idempotent<R: Ring>(
    x: Stream<R>,
    nk: int,
    s: Mat<R>,
    t: int,
    d: int,
    c: int,
)
    requires
        0 <= d < nk,
        unit_key(nk, |e: int| (x.k)(t, e)),
        forall|e: int| 0 <= e < nk ==> #[trigger] (x.erase)(t, e) == R::one(),
        forall|e: int| 0 <= e < nk ==> #[trigger] (x.g)(t, e) == R::zero(),
    ensures
        next_state(x, nk, next_state(x, nk, s, t), t)(d, c) == next_state(x, nk, s, t)(d, c),
{
    let k = |e: int| (x.k)(t, e);
    let s1 = next_state(x, nk, s, t);
    let (v, w, one) = ((x.v)(t, c), (x.write)(t, c), R::one());
    R::expo_zero();
    assert forall|e: int| 0 <= e < nk implies #[trigger] forgotten(x, s1, t)(e, c) == s1(
        e,
        c,
    ) by {
        assert((x.g)(t, e) == R::zero());
        lemma_one_mul(s1(e, c));
    }
    lemma_sum_ext(nk, |e: int| k(e) * forgotten(x, s1, t)(e, c), |e: int| k(e) * s1(e, c));
    // The key retrieves the gated value, so that the second step corrects nothing.
    law_write_at_a_unit_key(x, nk, s, t, c, one, w);
    lemma_sub_self(one);
    lemma_zero_mul(retrieves(nk, forgotten(x, s, t), k, c));
    lemma_zero_add(w * v);
    lemma_step_delta(x, nk, s1, t, c, one, w);
    R::mul_commutes(v, w);
    lemma_mul_one(v * w);
    lemma_sub_self(v * w);
    assert(correction(x, nk, s1, t, c) == R::zero());
    assert(forgotten(x, s1, t)(d, c) == s1(d, c));
    lemma_mul_zero(k(d));
    lemma_add_zero(s1(d, c));
}

/// A step whose key and log decay are zero leaves the state as it is, and a query of
/// zero reads nothing: a sequence may be padded with zeros.
pub proof fn law_padding_changes_nothing<R: Ring>(
    x: Stream<R>,
    nk: int,
    scale: R,
    s: Mat<R>,
    t: int,
    d: int,
    c: int,
)
    requires
        0 <= d < nk,
        forall|e: int| 0 <= e < nk ==> #[trigger] (x.q)(t, e) == R::zero(),
        forall|e: int| 0 <= e < nk ==> #[trigger] (x.k)(t, e) == R::zero(),
        forall|e: int| 0 <= e < nk ==> #[trigger] (x.g)(t, e) == R::zero(),
    ensures
        next_state(x, nk, s, t)(d, c) == s(d, c),
        read(x, nk, scale, s, t, c) == R::zero(),
{
    assert((x.g)(t, d) == R::zero() && (x.k)(t, d) == R::zero());
    R::expo_zero();
    lemma_one_mul(s(d, c));
    lemma_zero_mul(correction(x, nk, s, t, c));
    lemma_add_zero(s(d, c));
    let reads = |e: int| ((x.q)(t, e) * scale) * s(e, c);
    assert forall|e: int| 0 <= e < nk implies #[trigger] reads(e) == R::zero() by {
        assert((x.q)(t, e) == R::zero());
        lemma_zero_mul(scale);
        lemma_zero_mul(s(e, c));
    }
    lemma_sum_zero(nk, reads);
}

/// An empty memory retrieves zero for every key.
pub proof fn law_empty_memory_retrieves_nothing<R: Ring>(
    nk: int,
    s: Mat<R>,
    k: spec_fn(int) -> R,
    c: int,
)
    requires
        forall|d: int| 0 <= d < nk ==> #[trigger] s(d, c) == R::zero(),
    ensures
        retrieves(nk, s, k, c) == R::zero(),
{
    let terms = |d: int| k(d) * s(d, c);
    assert forall|d: int| 0 <= d < nk implies #[trigger] terms(d) == R::zero() by {
        lemma_mul_zero(k(d));
    }
    lemma_sum_zero(nk, terms);
}

/// The delta of a step whose gates are the same on every channel.
proof fn lemma_step_delta<R: Ring>(
    x: Stream<R>,
    nk: int,
    s: Mat<R>,
    t: int,
    c: int,
    b: R,
    w: R,
)
    requires
        forall|d: int| 0 <= d < nk ==> #[trigger] (x.erase)(t, d) == b,
        (x.write)(t, c) == w,
    ensures
        correction(x, nk, s, t, c) == (x.v)(t, c) * w - retrieves(
            nk,
            forgotten(x, s, t),
            |d: int| (x.k)(t, d),
            c,
        ) * b,
{
    let k = |d: int| (x.k)(t, d);
    let old = forgotten(x, s, t);
    let terms = |d: int| k(d) * old(d, c);
    let erased = |d: int| ((x.k)(t, d) * (x.erase)(t, d)) * old(d, c);
    lemma_sum_scale_right(nk, terms, b);
    assert forall|d: int| 0 <= d < nk implies #[trigger] erased(d) == terms(d) * b by {
        let (p, q) = (k(d), old(d, c));
        assert((x.erase)(t, d) == b);
        assert((p * b) * q == (p * q) * b) by {
            broadcast use {lemma_mul_commutes, lemma_mul_associates};

        }
    }
    lemma_sum_ext(nk, erased, |d: int| terms(d) * b);
}

/// A unit key's correction with an erase gate of two, and the one that follows it.
proof fn lemma_reflection<R: Ring>(p: R, q: R, two: R)
    requires
        two == R::one() + R::one(),
    ensures
        (q - p * two) + (q - ((R::one() - two) * p + q) * two) == R::zero(),
{
    let one = R::one();
    assert((one - two) * p == -p) by {
        assert(one - two == -one) by {
            broadcast use group_add;

        }
        lemma_neg_mul(one, p);
        lemma_one_mul(p);
    }
    let b = p * two;
    assert(q * two == q + q) by {
        R::mul_distributes(q, one, one);
        R::mul_one(q);
    }
    lemma_distributes_right(two, -p, q);
    lemma_neg_mul(p, two);
    assert((q - b) + (q - (-b + (q + q))) == R::zero()) by {
        R::sub_is_add_neg(q, b);
        R::sub_is_add_neg(q, -b + (q + q));
        lemma_neg_add(-b, q + q);
        lemma_neg_neg(b);
        lemma_neg_add(q, q);
        let (nq, nb) = (-q, -b);
        assert((q + nb) + (q + (b + (nq + nq))) == ((q + nq) + (q + nq)) + (nb + b)) by {
            broadcast use {crate::ring::lemma_add_commutes, crate::ring::lemma_add_associates};

        }
        R::add_neg(q);
        crate::ring::lemma_neg_cancels(b);
        R::add_zero(R::zero());
    }
}

/// Both ways of inverting the triangular system give the same inverse.
pub proof fn law_solves_agree<R: Ring>(n: int, a: Mat<R>, t: Mat<R>)
    requires
        strictly_lower(n, a),
        is_inverse(n, t, unit_lower(a)),
    ensures
        agree(n, n, t, neumann(n, a)),
{
    lemma_neumann_inverts(n, a);
    lemma_inverse_unique(n, t, neumann(n, a), unit_lower(a));
}

} // verus!
