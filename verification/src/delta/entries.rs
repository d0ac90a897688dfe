//! The delta rule on the entries of its tensors, head by head.
//!
//! Every head of every sequence has a memory of its own, which starts as its part of the
//! entering state. A gate of width one is the same on every channel.
use vstd::prelude::*;

use crate::delta::path::DeltaInput;
use crate::delta::rule::{correction, forgotten, output, state_after};
use crate::mat::Mat;
use crate::ring::{Real, Ring};
use crate::sum::{lemma_sum_ext, sum};
use crate::tensor::{last_plane, Tensor4};

verus! {

/// The entry of a gate that channel `d` reads: the only one, or its own.
pub open spec fn gate_entry<R: Ring>(gate: Tensor4<R>, a: int, t: int, h: int, d: int) -> R {
    gate@(
        a,
        t,
        h,
        if gate.dims().3 == 1 {
            0
        } else {
            d
        },
    )
}

/// The memory of head `h` of sequence `a` after the first `t` steps.
pub open spec fn memory<R: Ring>(x: DeltaInput<R>, a: int, h: int, t: int) -> Mat<R>
    decreases t,
{
    if t <= 0 {
        |d: int, e: int| x.state_bhkv@(a, h, d, e)
    } else {
        let s = t - 1;
        let faded = |d: int, e: int|
            (match x.g_bshK {
                Some(g) => gate_entry(g, a, s, h, d),
                None => R::zero(),
            }).expo() * memory(x, a, h, s)(d, e);
        |d: int, e: int|
            faded(d, e) + x.k_bshk@(a, s, h, d) * (x.v_bshv@(a, s, h, e) * gate_entry(
                x.write_bshV,
                a,
                s,
                h,
                e,
            ) - sum(
                x.q_bshk.dims().3 as int,
                |i: int|
                    (x.k_bshk@(a, s, h, i) * gate_entry(x.erase_bshK, a, s, h, i)) * faded(i, e),
            ))
    }
}

proof fn lemma_memory<R: Ring>(x: DeltaInput<R>, a: int, h: int, t: int)
    ensures
        state_after(
            x.stream(a, h),
            x.q_bshk.dims().3 as int,
            last_plane(x.state_bhkv@, a, h),
            t,
        ) == memory(x, a, h, t),
    decreases t,
{
    let (nk, s0) = (x.q_bshk.dims().3 as int, last_plane(x.state_bhkv@, a, h));
    let stream = x.stream(a, h);
    if t <= 0 {
        assert(s0 =~= memory(x, a, h, t));
    } else {
        let s = t - 1;
        lemma_memory(x, a, h, s);
        let old = memory(x, a, h, s);
        let faded = |d: int, e: int|
            (match x.g_bshK {
                Some(g) => gate_entry(g, a, s, h, d),
                None => R::zero(),
            }).expo() * old(d, e);
        assert(forgotten(stream, old, s) =~= faded);
        assert forall|e: int| #[trigger] correction(stream, nk, old, s, e) == x.v_bshv@(a, s, h, e)
            * gate_entry(x.write_bshV, a, s, h, e) - sum(
            nk,
            |i: int|
                (x.k_bshk@(a, s, h, i) * gate_entry(x.erase_bshK, a, s, h, i)) * faded(i, e),
        ) by {
            lemma_sum_ext(
                nk,
                |d: int|
                    ((stream.k)(s, d) * (stream.erase)(s, d)) * forgotten(stream, old, s)(d, e),
                |i: int|
                    (x.k_bshk@(a, s, h, i) * gate_entry(x.erase_bshK, a, s, h, i)) * faded(i, e),
            );
        }
        assert(state_after(stream, nk, s0, t) =~= memory(x, a, h, t));
    }
}

/// Outputs and last state, entry by entry: each step fades the memory, writes what is
/// missing from it, and reads it with its own query.
pub proof fn law_rule_on_entries<R: Ring>(
    x: DeltaInput<R>,
    scale: R,
    y: Tensor4<R>,
    last: Tensor4<R>,
    a: int,
    h: int,
    e: int,
)
    requires
        x.evaluates_to(scale, y, last),
        0 <= a < x.q_bshk.dims().0,
        0 <= h < x.q_bshk.dims().2,
        0 <= e < x.v_bshv.dims().3,
    ensures
        forall|t: int|
            0 <= t < x.q_bshk.dims().1 ==> #[trigger] y@(a, t, h, e) == sum(
                x.q_bshk.dims().3 as int,
                |d: int| (x.q_bshk@(a, t, h, d) * scale) * memory(x, a, h, t + 1)(d, e),
            ),
        forall|d: int|
            0 <= d < x.q_bshk.dims().3 ==> #[trigger] last@(a, h, d, e) == memory(
                x,
                a,
                h,
                x.q_bshk.dims().1 as int,
            )(d, e),
{
    let (nk, s0) = (x.q_bshk.dims().3 as int, last_plane(x.state_bhkv@, a, h));
    let stream = x.stream(a, h);
    assert forall|t: int| 0 <= t < x.q_bshk.dims().1 implies #[trigger] y@(a, t, h, e) == sum(
        nk,
        |d: int| (x.q_bshk@(a, t, h, d) * scale) * memory(x, a, h, t + 1)(d, e),
    ) by {
        lemma_memory(x, a, h, t + 1);
        assert(y@(a, t, h, e) == output(stream, nk, scale, s0, t, e));
        lemma_sum_ext(
            nk,
            |d: int| ((stream.q)(t, d) * scale) * state_after(stream, nk, s0, t + 1)(d, e),
            |d: int| (x.q_bshk@(a, t, h, d) * scale) * memory(x, a, h, t + 1)(d, e),
        );
    }
    lemma_memory(x, a, h, x.q_bshk.dims().1 as int);
}

/// What is read is scaled as asked for, or else by one over the root of the number of
/// key channels.
pub proof fn law_readout_scale<R: Real>(x: DeltaInput<R>)
    ensures
        x.scale matches Some(scale) ==> x.readout_scale() == scale,
        x.scale is None ==> x.readout_scale() == R::count(x.q_bshk.dims().3).root().recip(),
{
}

/// Whether head `h` of sequence `a` of one input is head `g` of sequence `b` of another.
pub open spec fn same_head<R: Ring>(
    x: DeltaInput<R>,
    a: int,
    h: int,
    z: DeltaInput<R>,
    b: int,
    g: int,
) -> bool {
    &&& x.q_bshk.dims().1 == z.q_bshk.dims().1
    &&& x.q_bshk.dims().3 == z.q_bshk.dims().3
    &&& x.v_bshv.dims().3 == z.v_bshv.dims().3
    &&& x.erase_bshK.dims().3 == z.erase_bshK.dims().3
    &&& x.write_bshV.dims().3 == z.write_bshV.dims().3
    &&& forall|t: int, d: int| #[trigger] x.q_bshk@(a, t, h, d) == z.q_bshk@(b, t, g, d)
    &&& forall|t: int, d: int| #[trigger] x.k_bshk@(a, t, h, d) == z.k_bshk@(b, t, g, d)
    &&& forall|t: int, e: int| #[trigger] x.v_bshv@(a, t, h, e) == z.v_bshv@(b, t, g, e)
    &&& forall|t: int, d: int| #[trigger] x.erase_bshK@(a, t, h, d) == z.erase_bshK@(b, t, g, d)
    &&& forall|t: int, e: int| #[trigger] x.write_bshV@(a, t, h, e) == z.write_bshV@(b, t, g, e)
    &&& forall|d: int, e: int| #[trigger] x.state_bhkv@(a, h, d, e) == z.state_bhkv@(b, g, d, e)
    &&& match (x.g_bshK, z.g_bshK) {
        (Some(f), Some(r)) => f.dims().3 == r.dims().3 && forall|t: int, d: int| #[trigger]
            f@(a, t, h, d) == r@(b, t, g, d),
        (None, None) => true,
        _ => false,
    }
}

proof fn lemma_same_memory<R: Ring>(
    x: DeltaInput<R>,
    a: int,
    h: int,
    z: DeltaInput<R>,
    b: int,
    g: int,
    t: int,
)
    requires
        same_head(x, a, h, z, b, g),
    ensures
        memory(x, a, h, t) == memory(z, b, g, t),
    decreases t,
{
    if t > 0 {
        let s = t - 1;
        lemma_same_memory(x, a, h, z, b, g, s);
        let old = memory(x, a, h, s);
        let faded = |d: int, e: int|
            (match x.g_bshK {
                Some(g) => gate_entry(g, a, s, h, d),
                None => R::zero(),
            }).expo() * old(d, e);
        let other = |d: int, e: int|
            (match z.g_bshK {
                Some(r) => gate_entry(r, b, s, g, d),
                None => R::zero(),
            }).expo() * old(d, e);
        assert(faded =~= other);
        assert forall|d: int, e: int| #[trigger] memory(x, a, h, t)(d, e) == memory(z, b, g, t)(
            d,
            e,
        ) by {
            let nk = x.q_bshk.dims().3 as int;
            let left = |i: int|
                (x.k_bshk@(a, s, h, i) * gate_entry(x.erase_bshK, a, s, h, i)) * faded(i, e);
            let right = |i: int|
                (z.k_bshk@(b, s, g, i) * gate_entry(z.erase_bshK, b, s, g, i)) * other(i, e);
            assert(left =~= right);
            lemma_sum_ext(nk, left, right);
            assert(x.k_bshk@(a, s, h, d) == z.k_bshk@(b, s, g, d));
            assert(x.v_bshv@(a, s, h, e) == z.v_bshv@(b, s, g, e));
        }
    }
    assert(memory(x, a, h, t) =~= memory(z, b, g, t));
}

/// Heads and sequences do not mix: a head that two inputs have in common has the same
/// outputs and the same last state in both, wherever it stands.
pub proof fn law_heads_do_not_mix<R: Ring>(
    x: DeltaInput<R>,
    a: int,
    h: int,
    z: DeltaInput<R>,
    b: int,
    g: int,
    scale: R,
    y: Tensor4<R>,
    last: Tensor4<R>,
    other: Tensor4<R>,
    other_last: Tensor4<R>,
    e: int,
)
    requires
        same_head(x, a, h, z, b, g),
        x.evaluates_to(scale, y, last),
        z.evaluates_to(scale, other, other_last),
        0 <= a < x.q_bshk.dims().0,
        0 <= b < z.q_bshk.dims().0,
        0 <= h < x.q_bshk.dims().2,
        0 <= g < z.q_bshk.dims().2,
        0 <= e < x.v_bshv.dims().3,
    ensures
        forall|t: int|
            0 <= t < x.q_bshk.dims().1 ==> #[trigger] y@(a, t, h, e) == other@(b, t, g, e),
        forall|d: int|
            0 <= d < x.q_bshk.dims().3 ==> #[trigger] last@(a, h, d, e) == other_last@(b, g, d, e),
{
    law_rule_on_entries(x, scale, y, last, a, h, e);
    law_rule_on_entries(z, scale, other, other_last, b, g, e);
    assert forall|t: int| 0 <= t < x.q_bshk.dims().1 implies #[trigger] y@(a, t, h, e) == other@(
        b,
        t,
        g,
        e,
    ) by {
        lemma_same_memory(x, a, h, z, b, g, t + 1);
        lemma_sum_ext(
            x.q_bshk.dims().3 as int,
            |d: int| (x.q_bshk@(a, t, h, d) * scale) * memory(x, a, h, t + 1)(d, e),
            |d: int| (z.q_bshk@(b, t, g, d) * scale) * memory(z, b, g, t + 1)(d, e),
        );
    }
    assert forall|d: int| 0 <= d < x.q_bshk.dims().3 implies #[trigger] last@(a, h, d, e)
        == other_last@(b, g, d, e) by {
        lemma_same_memory(x, a, h, z, b, g, x.q_bshk.dims().1 as int);
    }
}

} // verus!
