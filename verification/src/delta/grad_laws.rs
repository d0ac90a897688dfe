//! What holds of the gradients of the delta rule.
use vstd::prelude::*;

use crate::delta::combined::DeltaChunkGrads;
use crate::delta::linear::{blended, lemma_blend_add, lemma_pair_blend, nought};
use crate::delta::path::DeltaInput;
use crate::delta::rates::output_rates;
use crate::delta::rule::{state_after, Stream};
use crate::dual::{eps_part, lifted};
use crate::mat::Mat;
use crate::pair::pair;
use crate::ring::{
    lemma_add_zero, lemma_mul_one, lemma_mul_zero, lemma_one_mul, lemma_zero_add, lemma_zero_mul,
    Ring,
};
use crate::sum::{lemma_sum_single, lemma_sum_zero, sum};
use crate::tensor::{head_plane, last_plane, Ten4, Tensor4};

verus! {

/// One at a single place, zero elsewhere.
spec fn probe<R: Ring>(i: int, j: int) -> Mat<R> {
    |t: int, d: int|
        if t == i && d == j {
            R::one()
        } else {
            R::zero()
        }
}

/// Zero everywhere.
pub open spec fn zero_tensor<R: Ring>() -> Ten4<R> {
    |i: int, j: int, k: int, l: int| R::zero()
}

/// Inputs that do not change.
spec fn at_rest<R: Ring>() -> Stream<R> {
    Stream {
        q: nought(),
        k: nought(),
        v: nought(),
        erase: nought(),
        write: nought(),
        g: nought(),
    }
}

/// The pairing with what does not change.
proof fn lemma_pair_nought<R: Ring>(n: int, m: int, a: Mat<R>)
    ensures
        pair(n, m, a, nought()) == R::zero(),
{
    broadcast use lemma_mul_zero;

    let f = |i: int| sum(m, |j: int| a(i, j) * nought::<R>()(i, j));
    assert forall|i: int| 0 <= i < n implies #[trigger] f(i) == R::zero() by {
        lemma_sum_zero(m, |j: int| a(i, j) * nought::<R>()(i, j));
    }
    lemma_sum_zero(n, f);
}

/// The pairing with a change at a single place.
proof fn lemma_pair_probe<R: Ring>(n: int, m: int, a: Mat<R>, i: int, j: int)
    requires
        0 <= i < n,
        0 <= j < m,
    ensures
        pair(n, m, a, probe(i, j)) == a(i, j),
{
    broadcast use {lemma_mul_zero, lemma_mul_one};

    let p = probe::<R>(i, j);
    let f = |t: int| sum(m, |d: int| a(t, d) * p(t, d));
    assert forall|t: int| 0 <= t < n && t != i implies #[trigger] f(t) == R::zero() by {
        lemma_sum_zero(m, |d: int| a(t, d) * p(t, d));
    }
    lemma_sum_single(n, i, f);
    lemma_sum_single(m, j, |d: int| a(i, d) * p(i, d));
}

/// The pairings of all gradients of one head with what does not change.
proof fn lemma_rests<R: Ring>(g: DeltaChunkGrads<R>, a: int, h: int)
    ensures
        pair(
            g.d_q_bshk.dims().1 as int,
            g.d_q_bshk.dims().3 as int,
            head_plane(g.d_q_bshk@, a, h),
            nought(),
        ) == R::zero(),
        pair(
            g.d_q_bshk.dims().1 as int,
            g.d_q_bshk.dims().3 as int,
            head_plane(g.d_k_bshk@, a, h),
            nought(),
        ) == R::zero(),
        pair(
            g.d_q_bshk.dims().1 as int,
            g.d_v_bshv.dims().3 as int,
            head_plane(g.d_v_bshv@, a, h),
            nought(),
        ) == R::zero(),
        pair(
            g.d_q_bshk.dims().1 as int,
            g.d_erase_bshK.dims().3 as int,
            head_plane(g.d_erase_bshK@, a, h),
            nought(),
        ) == R::zero(),
        pair(
            g.d_q_bshk.dims().1 as int,
            g.d_write_bshV.dims().3 as int,
            head_plane(g.d_write_bshV@, a, h),
            nought(),
        ) == R::zero(),
        g.d_g_bshK matches Some(d_g) ==> pair(
            g.d_q_bshk.dims().1 as int,
            d_g.dims().3 as int,
            head_plane(d_g@, a, h),
            nought(),
        ) == R::zero(),
        pair(
            g.d_q_bshk.dims().3 as int,
            g.d_v_bshv.dims().3 as int,
            last_plane(g.d_state_bhkv@, a, h),
            nought(),
        ) == R::zero(),
{
    let n = g.d_q_bshk.dims().1 as int;
    let (nk, nv) = (g.d_q_bshk.dims().3 as int, g.d_v_bshv.dims().3 as int);
    lemma_pair_nought(n, nk, head_plane(g.d_q_bshk@, a, h));
    lemma_pair_nought(n, nk, head_plane(g.d_k_bshk@, a, h));
    lemma_pair_nought(n, nv, head_plane(g.d_v_bshv@, a, h));
    lemma_pair_nought(n, g.d_erase_bshK.dims().3 as int, head_plane(g.d_erase_bshK@, a, h));
    lemma_pair_nought(n, g.d_write_bshV.dims().3 as int, head_plane(g.d_write_bshV@, a, h));
    if let Some(d_g) = g.d_g_bshK {
        lemma_pair_nought(n, d_g.dims().3 as int, head_plane(d_g@, a, h));
    }
    lemma_pair_nought(nk, nv, last_plane(g.d_state_bhkv@, a, h));
}

/// Each gradient, read off the pairing with a change at a single place.
proof fn lemma_probed<R: Ring>(g: DeltaChunkGrads<R>, a: int, h: int, i: int, j: int)
    ensures
        0 <= i < g.d_q_bshk.dims().1 && 0 <= j < g.d_q_bshk.dims().3 ==> {
            &&& g.input_pairing(a, h, (Stream { q: probe(i, j), ..at_rest() }), nought())
                == g.d_q_bshk@(a, i, h, j)
            &&& g.input_pairing(a, h, (Stream { k: probe(i, j), ..at_rest() }), nought())
                == g.d_k_bshk@(a, i, h, j)
        },
        0 <= i < g.d_q_bshk.dims().1 && 0 <= j < g.d_v_bshv.dims().3 ==> g.input_pairing(
            a,
            h,
            (Stream { v: probe(i, j), ..at_rest() }),
            nought(),
        ) == g.d_v_bshv@(a, i, h, j),
        0 <= i < g.d_q_bshk.dims().1 && 0 <= j < g.d_erase_bshK.dims().3 ==> g.input_pairing(
            a,
            h,
            (Stream { erase: probe(i, j), ..at_rest() }),
            nought(),
        ) == g.d_erase_bshK@(a, i, h, j),
        0 <= i < g.d_q_bshk.dims().1 && 0 <= j < g.d_write_bshV.dims().3 ==> g.input_pairing(
            a,
            h,
            (Stream { write: probe(i, j), ..at_rest() }),
            nought(),
        ) == g.d_write_bshV@(a, i, h, j),
        g.d_g_bshK matches Some(d_g) ==> (0 <= i < g.d_q_bshk.dims().1 && 0 <= j < d_g.dims().3
            ==> g.input_pairing(a, h, (Stream { g: probe(i, j), ..at_rest() }), nought()) == d_g@(
            a,
            i,
            h,
            j,
        )),
        0 <= i < g.d_q_bshk.dims().3 && 0 <= j < g.d_v_bshv.dims().3 ==> g.input_pairing(
            a,
            h,
            at_rest(),
            probe(i, j),
        ) == g.d_state_bhkv@(a, h, i, j),
{
    broadcast use {lemma_add_zero, lemma_zero_add};

    lemma_rests(g, a, h);
    let n = g.d_q_bshk.dims().1 as int;
    let (nk, nv) = (g.d_q_bshk.dims().3 as int, g.d_v_bshv.dims().3 as int);
    if 0 <= i < n && 0 <= j < nk {
        lemma_pair_probe(n, nk, head_plane(g.d_q_bshk@, a, h), i, j);
        lemma_pair_probe(n, nk, head_plane(g.d_k_bshk@, a, h), i, j);
    }
    if 0 <= i < n && 0 <= j < nv {
        lemma_pair_probe(n, nv, head_plane(g.d_v_bshv@, a, h), i, j);
    }
    if 0 <= i < n && 0 <= j < g.d_erase_bshK.dims().3 {
        lemma_pair_probe(
            n,
            g.d_erase_bshK.dims().3 as int,
            head_plane(g.d_erase_bshK@, a, h),
            i,
            j,
        );
    }
    if 0 <= i < n && 0 <= j < g.d_write_bshV.dims().3 {
        lemma_pair_probe(
            n,
            g.d_write_bshV.dims().3 as int,
            head_plane(g.d_write_bshV@, a, h),
            i,
            j,
        );
    }
    if let Some(d_g) = g.d_g_bshK {
        if 0 <= i < n && 0 <= j < d_g.dims().3 {
            lemma_pair_probe(n, d_g.dims().3 as int, head_plane(d_g@, a, h), i, j);
        }
    }
    if 0 <= i < nk && 0 <= j < nv {
        lemma_pair_probe(nk, nv, last_plane(g.d_state_bhkv@, a, h), i, j);
    }
}

/// `x a + y b`, entry by entry.
pub open spec fn blended_tensors<R: Ring>(x: R, a: Ten4<R>, y: R, b: Ten4<R>) -> Ten4<R> {
    |i: int, j: int, k: int, l: int| x * a(i, j, k, l) + y * b(i, j, k, l)
}

/// Outputs paired with a combination of gradients.
proof fn lemma_output_blends<R: Ring>(
    input: DeltaInput<R>,
    scale: R,
    x: R,
    dy1: Tensor4<R>,
    d_last1: Tensor4<R>,
    y: R,
    dy2: Tensor4<R>,
    d_last2: Tensor4<R>,
    dy: Tensor4<R>,
    d_last: Tensor4<R>,
    a: int,
    h: int,
    rate: Stream<R>,
    sd: Mat<R>,
)
    requires
        dy@ == blended_tensors(x, dy1@, y, dy2@),
        d_last@ == blended_tensors(x, d_last1@, y, d_last2@),
    ensures
        input.output_pairing(scale, dy, d_last, a, h, rate, sd) == x * input.output_pairing(
            scale,
            dy1,
            d_last1,
            a,
            h,
            rate,
            sd,
        ) + y * input.output_pairing(scale, dy2, d_last2, a, h, rate, sd),
{
    let (sequence, nk) = (input.q_bshk.dims().1 as int, input.q_bshk.dims().3 as int);
    let nv = input.v_bshv.dims().3 as int;
    let m = input.moving(a, h, rate);
    let s = lifted(last_plane(input.state_bhkv@, a, h), sd);
    let (o, e) = (output_rates(m, nk, scale, s), eps_part(state_after(m, nk, s, sequence)));
    let (p, p1, p2) = (head_plane(dy@, a, h), head_plane(dy1@, a, h), head_plane(dy2@, a, h));
    let (l, l1, l2) = (
        last_plane(d_last@, a, h),
        last_plane(d_last1@, a, h),
        last_plane(d_last2@, a, h),
    );
    assert(p =~= blended(x, p1, y, p2));
    assert(l =~= blended(x, l1, y, l2));
    lemma_pair_blend(sequence, nv, x, p1, y, p2, o);
    lemma_pair_blend(nk, nv, x, l1, y, l2, e);
    lemma_blend_add(
        x,
        pair(sequence, nv, p1, o),
        y,
        pair(sequence, nv, p2, o),
        pair(nk, nv, l1, e),
        pair(nk, nv, l2, e),
    );
}

/// The gradient is linear in what is pulled back: for `x` times one pair of gradients
/// of the results and `y` times another, every gradient of the inputs is `x` times
/// the one and `y` times the other, whatever the chunk lengths.
pub proof fn law_gradients_are_linear<R: Ring>(
    input: DeltaInput<R>,
    scale: R,
    x: R,
    dy1: Tensor4<R>,
    d_last1: Tensor4<R>,
    g1: DeltaChunkGrads<R>,
    y: R,
    dy2: Tensor4<R>,
    d_last2: Tensor4<R>,
    g2: DeltaChunkGrads<R>,
    dy: Tensor4<R>,
    d_last: Tensor4<R>,
    g: DeltaChunkGrads<R>,
)
    requires
        input.valid(),
        dy@ == blended_tensors(x, dy1@, y, dy2@),
        d_last@ == blended_tensors(x, d_last1@, y, d_last2@),
        g1.differentiates(input, scale, dy1, d_last1),
        g2.differentiates(input, scale, dy2, d_last2),
        g.differentiates(input, scale, dy, d_last),
    ensures
        g.d_q_bshk@ == blended_tensors(x, g1.d_q_bshk@, y, g2.d_q_bshk@),
        g.d_k_bshk@ == blended_tensors(x, g1.d_k_bshk@, y, g2.d_k_bshk@),
        g.d_v_bshv@ == blended_tensors(x, g1.d_v_bshv@, y, g2.d_v_bshv@),
        g.d_erase_bshK@ == blended_tensors(x, g1.d_erase_bshK@, y, g2.d_erase_bshK@),
        g.d_write_bshV@ == blended_tensors(x, g1.d_write_bshV@, y, g2.d_write_bshV@),
        g.d_g_bshK is Some ==> g.d_g_bshK->0@ == blended_tensors(
            x,
            g1.d_g_bshK->0@,
            y,
            g2.d_g_bshK->0@,
        ),
        g.d_state_bhkv@ == blended_tensors(x, g1.d_state_bhkv@, y, g2.d_state_bhkv@),
{
    let (batch, sequence, nheads, nk) = input.q_bshk.dims();
    let nv = input.v_bshv.dims().3;
    assert forall|a: int, h: int, rate: Stream<R>, sd: Mat<R>|
        0 <= a < batch && 0 <= h < nheads implies #[trigger] g.input_pairing(a, h, rate, sd) == x
        * g1.input_pairing(a, h, rate, sd) + y * g2.input_pairing(a, h, rate, sd) by {
        lemma_output_blends(
            input,
            scale,
            x,
            dy1,
            d_last1,
            y,
            dy2,
            d_last2,
            dy,
            d_last,
            a,
            h,
            rate,
            sd,
        );
    }
    assert forall|a: int, i: int, h: int, j: int|
        0 <= a < batch && 0 <= h < nheads && 0 <= i < sequence implies {
        &&& 0 <= j < nk ==> #[trigger] g.d_q_bshk@(a, i, h, j) == x * g1.d_q_bshk@(a, i, h, j) + y
            * g2.d_q_bshk@(a, i, h, j)
        &&& 0 <= j < nk ==> g.d_k_bshk@(a, i, h, j) == x * g1.d_k_bshk@(a, i, h, j) + y
            * g2.d_k_bshk@(a, i, h, j)
        &&& 0 <= j < nv ==> g.d_v_bshv@(a, i, h, j) == x * g1.d_v_bshv@(a, i, h, j) + y
            * g2.d_v_bshv@(a, i, h, j)
        &&& 0 <= j < input.erase_bshK.dims().3 ==> g.d_erase_bshK@(a, i, h, j) == x
            * g1.d_erase_bshK@(a, i, h, j) + y * g2.d_erase_bshK@(a, i, h, j)
        &&& 0 <= j < input.write_bshV.dims().3 ==> g.d_write_bshV@(a, i, h, j) == x
            * g1.d_write_bshV@(a, i, h, j) + y * g2.d_write_bshV@(a, i, h, j)
        &&& g.d_g_bshK is Some && 0 <= j < g.d_g_bshK->0.dims().3 ==> g.d_g_bshK->0@(a, i, h, j)
            == x * g1.d_g_bshK->0@(a, i, h, j) + y * g2.d_g_bshK->0@(a, i, h, j)
    } by {
        lemma_probed(g, a, h, i, j);
        lemma_probed(g1, a, h, i, j);
        lemma_probed(g2, a, h, i, j);
        let q = g.input_pairing(a, h, (Stream { q: probe::<R>(i, j), ..at_rest() }), nought());
        let k = g.input_pairing(a, h, (Stream { k: probe::<R>(i, j), ..at_rest() }), nought());
        let v = g.input_pairing(a, h, (Stream { v: probe::<R>(i, j), ..at_rest() }), nought());
        let e = g.input_pairing(a, h, (Stream { erase: probe::<R>(i, j), ..at_rest() }), nought());
        let w = g.input_pairing(a, h, (Stream { write: probe::<R>(i, j), ..at_rest() }), nought());
        let f = g.input_pairing(a, h, (Stream { g: probe::<R>(i, j), ..at_rest() }), nought());
    }
    assert forall|a: int, h: int, i: int, j: int|
        0 <= a < batch && 0 <= h < nheads && 0 <= i < nk && 0 <= j < nv implies
        #[trigger] g.d_state_bhkv@(a, h, i, j) == x * g1.d_state_bhkv@(a, h, i, j) + y
        * g2.d_state_bhkv@(a, h, i, j) by {
        lemma_probed(g, a, h, i, j);
        lemma_probed(g1, a, h, i, j);
        lemma_probed(g2, a, h, i, j);
        let s = g.input_pairing(a, h, at_rest(), probe(i, j));
    }
    // Outside the dimensions all of them are zero.
    assert forall|p: R| #[trigger] (p * R::zero()) == R::zero() by {
        lemma_mul_zero(p);
    }
    lemma_add_zero(R::zero());
    assert forall|a: int, i: int, h: int, j: int| #[trigger] g.d_q_bshk@(a, i, h, j)
        == blended_tensors(x, g1.d_q_bshk@, y, g2.d_q_bshk@)(a, i, h, j) by {
        let e = g.d_q_bshk@(a, i, h, j);
    }
    assert(g.d_q_bshk@ =~= blended_tensors(x, g1.d_q_bshk@, y, g2.d_q_bshk@));
    assert forall|a: int, i: int, h: int, j: int| #[trigger] g.d_k_bshk@(a, i, h, j)
        == blended_tensors(x, g1.d_k_bshk@, y, g2.d_k_bshk@)(a, i, h, j) by {
        let e = g.d_q_bshk@(a, i, h, j);
    }
    assert(g.d_k_bshk@ =~= blended_tensors(x, g1.d_k_bshk@, y, g2.d_k_bshk@));
    assert forall|a: int, i: int, h: int, j: int| #[trigger] g.d_v_bshv@(a, i, h, j)
        == blended_tensors(x, g1.d_v_bshv@, y, g2.d_v_bshv@)(a, i, h, j) by {
        let e = g.d_q_bshk@(a, i, h, j);
    }
    assert(g.d_v_bshv@ =~= blended_tensors(x, g1.d_v_bshv@, y, g2.d_v_bshv@));
    assert forall|a: int, i: int, h: int, j: int| #[trigger] g.d_erase_bshK@(a, i, h, j)
        == blended_tensors(x, g1.d_erase_bshK@, y, g2.d_erase_bshK@)(a, i, h, j) by {
        let e = g.d_q_bshk@(a, i, h, j);
    }
    assert(g.d_erase_bshK@ =~= blended_tensors(x, g1.d_erase_bshK@, y, g2.d_erase_bshK@));
    assert forall|a: int, i: int, h: int, j: int| #[trigger] g.d_write_bshV@(a, i, h, j)
        == blended_tensors(x, g1.d_write_bshV@, y, g2.d_write_bshV@)(a, i, h, j) by {
        let e = g.d_q_bshk@(a, i, h, j);
    }
    assert(g.d_write_bshV@ =~= blended_tensors(x, g1.d_write_bshV@, y, g2.d_write_bshV@));
    if g.d_g_bshK is Some {
        let (p, p1, p2) = (g.d_g_bshK->0, g1.d_g_bshK->0, g2.d_g_bshK->0);
        assert forall|a: int, i: int, h: int, j: int| #[trigger] p@(a, i, h, j)
            == blended_tensors(x, p1@, y, p2@)(a, i, h, j) by {
            let e = g.d_q_bshk@(a, i, h, j);
        }
        assert(p@ =~= blended_tensors(x, p1@, y, p2@));
    }
    assert(g.d_state_bhkv@ =~= blended_tensors(x, g1.d_state_bhkv@, y, g2.d_state_bhkv@));
}

/// Where the gradients of the results are zero, so are those of the inputs.
pub proof fn law_zero_gradients<R: Ring>(
    input: DeltaInput<R>,
    scale: R,
    dy: Tensor4<R>,
    d_last: Tensor4<R>,
    g: DeltaChunkGrads<R>,
)
    requires
        input.valid(),
        dy@ == zero_tensor::<R>(),
        d_last@ == zero_tensor::<R>(),
        g.differentiates(input, scale, dy, d_last),
    ensures
        g.d_q_bshk@ == zero_tensor::<R>(),
        g.d_k_bshk@ == zero_tensor::<R>(),
        g.d_v_bshv@ == zero_tensor::<R>(),
        g.d_erase_bshK@ == zero_tensor::<R>(),
        g.d_write_bshV@ == zero_tensor::<R>(),
        g.d_g_bshK matches Some(d_g) ==> d_g@ == zero_tensor::<R>(),
        g.d_state_bhkv@ == zero_tensor::<R>(),
{
    let z = R::zero();
    assert forall|a: Ten4<R>| #[trigger] blended_tensors(z, a, z, a) == zero_tensor::<R>() by {
        assert forall|i: int, j: int, k: int, l: int| #[trigger] blended_tensors(z, a, z, a)(
            i,
            j,
            k,
            l,
        ) == z by {
            lemma_zero_mul(a(i, j, k, l));
            lemma_add_zero(z);
        }
        assert(blended_tensors(z, a, z, a) =~= zero_tensor::<R>());
    }
    assert(dy@ == blended_tensors(z, dy@, z, dy@));
    assert(d_last@ == blended_tensors(z, d_last@, z, d_last@));
    law_gradients_are_linear(
        input,
        scale,
        z,
        dy,
        d_last,
        g,
        z,
        dy,
        d_last,
        g,
        dy,
        d_last,
        g,
    );
}

/// The delta rule has one gradient: any two that differentiate it are equal, entry
/// by entry. In particular the chunk length does not change it.
pub proof fn law_gradients_agree<R: Ring>(
    input: DeltaInput<R>,
    scale: R,
    dy: Tensor4<R>,
    d_last: Tensor4<R>,
    g1: DeltaChunkGrads<R>,
    g2: DeltaChunkGrads<R>,
)
    requires
        input.valid(),
        g1.differentiates(input, scale, dy, d_last),
        g2.differentiates(input, scale, dy, d_last),
    ensures
        g1.d_q_bshk@ == g2.d_q_bshk@,
        g1.d_k_bshk@ == g2.d_k_bshk@,
        g1.d_v_bshv@ == g2.d_v_bshv@,
        g1.d_erase_bshK@ == g2.d_erase_bshK@,
        g1.d_write_bshV@ == g2.d_write_bshV@,
        g1.d_g_bshK is Some ==> g1.d_g_bshK->0@ == g2.d_g_bshK->0@,
        g1.d_state_bhkv@ == g2.d_state_bhkv@,
{
    // One times the first and none of it.
    let (one, z) = (R::one(), R::zero());
    assert forall|a: Ten4<R>| #[trigger] blended_tensors(one, a, z, a) == a by {
        assert forall|i: int, j: int, k: int, l: int| #[trigger] blended_tensors(one, a, z, a)(
            i,
            j,
            k,
            l,
        ) == a(i, j, k, l) by {
            lemma_one_mul(a(i, j, k, l));
            lemma_zero_mul(a(i, j, k, l));
            lemma_add_zero(a(i, j, k, l));
        }
        assert(blended_tensors(one, a, z, a) =~= a);
    }
    assert(dy@ == blended_tensors(one, dy@, z, dy@));
    assert(d_last@ == blended_tensors(one, d_last@, z, d_last@));
    law_gradients_are_linear(
        input,
        scale,
        one,
        dy,
        d_last,
        g1,
        z,
        dy,
        d_last,
        g1,
        dy,
        d_last,
        g2,
    );
}

} // verus!
