//! The gradients of the delta rule against the rule itself, run on changing inputs.
//!
//! Run on dual numbers, the rule returns its results together with their rates of
//! change. The gradients say the same from the other end: the rates of the results,
//! weighted by the gradients of the results, add up to the rates of the inputs, weighted
//! by the gradients of the inputs.
use vstd::prelude::*;

use crate::delta::combined::DeltaChunkGrads;
use crate::delta::path::DeltaInput;
use crate::delta::rates::output_rates;
use crate::delta::rule::{output, state_after, Stream};
use crate::dual::{constant, eps_part, lifted, Dual};
use crate::pair::{lemma_pair_agree, pair};
use crate::ring::Ring;
use crate::sum::{lemma_sum_ext, sum};
use crate::tensor::{head_plane, last_plane, Tensor4};

verus! {

/// Whether a tensor of dual numbers has the given values, at whatever rates.
pub open spec fn moves<R: Ring>(x: Tensor4<R>, z: Tensor4<Dual<R>>) -> bool {
    &&& z.dims() == x.dims()
    &&& forall|a: int, b: int, i: int, j: int| (#[trigger] z@(a, b, i, j)).re == x@(a, b, i, j)
}

/// Whether inputs of dual numbers have the given values, at whatever rates.
pub open spec fn all_move<R: Ring>(x: DeltaInput<R>, z: DeltaInput<Dual<R>>) -> bool {
    &&& moves(x.q_bshk, z.q_bshk)
    &&& moves(x.k_bshk, z.k_bshk)
    &&& moves(x.v_bshv, z.v_bshv)
    &&& moves(x.erase_bshK, z.erase_bshK)
    &&& moves(x.write_bshV, z.write_bshV)
    &&& match (x.g_bshK, z.g_bshK) {
        (Some(g), Some(d)) => moves(g, d),
        (None, None) => true,
        _ => false,
    }
    &&& moves(x.state_bhkv, z.state_bhkv)
}

/// The rates of head `h` of sequence `a` of a `[batch, sequence, nheads, width]` tensor,
/// weighted by a gradient.
pub open spec fn weighted_rates<R: Ring>(
    n: int,
    m: int,
    d: Tensor4<R>,
    z: Tensor4<Dual<R>>,
    a: int,
    h: int,
) -> R {
    sum(n, |t: int| sum(m, |c: int| d@(a, t, h, c) * z@(a, t, h, c).eps))
}

/// The rates of the state of head `h` of sequence `a`, weighted by a gradient.
pub open spec fn weighted_state_rates<R: Ring>(
    n: int,
    m: int,
    d: Tensor4<R>,
    z: Tensor4<Dual<R>>,
    a: int,
    h: int,
) -> R {
    sum(n, |i: int| sum(m, |c: int| d@(a, h, i, c) * z@(a, h, i, c).eps))
}

proof fn lemma_weighted<R: Ring>(
    n: int,
    m: int,
    d: Tensor4<R>,
    z: Tensor4<Dual<R>>,
    a: int,
    h: int,
)
    ensures
        weighted_rates(n, m, d, z, a, h) == pair(
            n,
            m,
            head_plane(d@, a, h),
            eps_part(head_plane(z@, a, h)),
        ),
        weighted_state_rates(n, m, d, z, a, h) == pair(
            n,
            m,
            last_plane(d@, a, h),
            eps_part(last_plane(z@, a, h)),
        ),
{
    let (p, e) = (head_plane(d@, a, h), eps_part(head_plane(z@, a, h)));
    let (left, right) = (
        |t: int| sum(m, |c: int| d@(a, t, h, c) * z@(a, t, h, c).eps),
        |t: int| sum(m, |c: int| p(t, c) * e(t, c)),
    );
    assert forall|t: int| 0 <= t < n implies #[trigger] left(t) == right(t) by {
        lemma_sum_ext(
            m,
            |c: int| d@(a, t, h, c) * z@(a, t, h, c).eps,
            |c: int| p(t, c) * e(t, c),
        );
    }
    lemma_sum_ext(n, left, right);
    let (s, f) = (last_plane(d@, a, h), eps_part(last_plane(z@, a, h)));
    let (up, down) = (
        |i: int| sum(m, |c: int| d@(a, h, i, c) * z@(a, h, i, c).eps),
        |i: int| sum(m, |c: int| s(i, c) * f(i, c)),
    );
    assert forall|i: int| 0 <= i < n implies #[trigger] up(i) == down(i) by {
        lemma_sum_ext(
            m,
            |c: int| d@(a, h, i, c) * z@(a, h, i, c).eps,
            |c: int| s(i, c) * f(i, c),
        );
    }
    lemma_sum_ext(n, up, down);
}

/// Gradients turn rates around: run on changing inputs, the rule's results change at
/// rates whose weighted sum is the weighted sum of the rates of all seven inputs.
pub proof fn law_gradients_turn_rates_around<R: Ring>(
    x: DeltaInput<R>,
    z: DeltaInput<Dual<R>>,
    scale: R,
    dy: Tensor4<R>,
    d_last: Tensor4<R>,
    grads: DeltaChunkGrads<R>,
    y: Tensor4<Dual<R>>,
    last: Tensor4<Dual<R>>,
    a: int,
    h: int,
)
    requires
        x.valid(),
        all_move(x, z),
        grads.differentiates(x, scale, dy, d_last),
        z.evaluates_to(constant(scale), y, last),
        0 <= a < x.q_bshk.dims().0,
        0 <= h < x.q_bshk.dims().2,
    ensures
        ({
            let (n, nk) = (x.q_bshk.dims().1 as int, x.q_bshk.dims().3 as int);
            let nv = x.v_bshv.dims().3 as int;
            let (we, ww) = (x.erase_bshK.dims().3 as int, x.write_bshV.dims().3 as int);
            weighted_rates(n, nv, dy, y, a, h) + weighted_state_rates(nk, nv, d_last, last, a, h)
                == (((weighted_rates(n, nk, grads.d_q_bshk, z.q_bshk, a, h) + weighted_rates(
                n,
                nk,
                grads.d_k_bshk,
                z.k_bshk,
                a,
                h,
            )) + (weighted_rates(n, nv, grads.d_v_bshv, z.v_bshv, a, h) + weighted_rates(
                n,
                we,
                grads.d_erase_bshK,
                z.erase_bshK,
                a,
                h,
            ))) + (weighted_rates(n, ww, grads.d_write_bshV, z.write_bshV, a, h) + (
            match x.g_bshK {
                Some(g) => weighted_rates(
                    n,
                    g.dims().3 as int,
                    grads.d_g_bshK->0,
                    z.g_bshK->0,
                    a,
                    h,
                ),
                None => R::zero(),
            }))) + weighted_state_rates(nk, nv, grads.d_state_bhkv, z.state_bhkv, a, h)
        }),
{
    let (n, nk) = (x.q_bshk.dims().1 as int, x.q_bshk.dims().3 as int);
    let nv = x.v_bshv.dims().3 as int;
    let rate = Stream {
        q: eps_part(head_plane(z.q_bshk@, a, h)),
        k: eps_part(head_plane(z.k_bshk@, a, h)),
        v: eps_part(head_plane(z.v_bshv@, a, h)),
        erase: eps_part(head_plane(z.erase_bshK@, a, h)),
        write: eps_part(head_plane(z.write_bshV@, a, h)),
        g: match z.g_bshK {
            Some(g) => eps_part(head_plane(g@, a, h)),
            None => |t: int, d: int| R::zero(),
        },
    };
    let sd = eps_part(last_plane(z.state_bhkv@, a, h));
    let moving = x.moving(a, h, rate);
    assert(moving.q =~= z.stream(a, h).q);
    assert(moving.k =~= z.stream(a, h).k);
    assert(moving.v =~= z.stream(a, h).v);
    assert(moving.erase =~= z.stream(a, h).erase);
    assert(moving.write =~= z.stream(a, h).write);
    assert(moving.g =~= z.stream(a, h).g);
    assert(moving =~= z.stream(a, h));
    let s = lifted(last_plane(x.state_bhkv@, a, h), sd);
    assert(s =~= last_plane(z.state_bhkv@, a, h));
    assert(x.output_pairing(scale, dy, d_last, a, h, rate, sd) == grads.input_pairing(
        a,
        h,
        rate,
        sd,
    ));
    // The results, as the rule on dual numbers returns them.
    lemma_weighted(n, nv, dy, y, a, h);
    lemma_weighted(nk, nv, d_last, last, a, h);
    let (ye, se) = (eps_part(head_plane(y@, a, h)), eps_part(last_plane(last@, a, h)));
    let rates = output_rates(moving, nk, scale, s);
    assert forall|t: int, c: int| 0 <= t < n && 0 <= c < nv implies #[trigger] rates(t, c) == ye(
        t,
        c,
    ) by {
        assert(y@(a, t, h, c) == output(z.stream(a, h), nk, constant(scale), s, t, c));
    }
    lemma_pair_agree(n, nv, head_plane(dy@, a, h), rates, head_plane(dy@, a, h), ye);
    let after = eps_part(state_after(moving, nk, s, n));
    assert forall|d: int, c: int| 0 <= d < nk && 0 <= c < nv implies #[trigger] after(d, c) == se(
        d,
        c,
    ) by {
        assert(last@(a, h, d, c) == state_after(z.stream(a, h), nk, s, n)(d, c));
    }
    lemma_pair_agree(nk, nv, last_plane(d_last@, a, h), after, last_plane(d_last@, a, h), se);
    // The inputs.
    lemma_weighted(n, nk, grads.d_q_bshk, z.q_bshk, a, h);
    lemma_weighted(n, nk, grads.d_k_bshk, z.k_bshk, a, h);
    lemma_weighted(n, nv, grads.d_v_bshv, z.v_bshv, a, h);
    lemma_weighted(n, x.erase_bshK.dims().3 as int, grads.d_erase_bshK, z.erase_bshK, a, h);
    lemma_weighted(n, x.write_bshV.dims().3 as int, grads.d_write_bshV, z.write_bshV, a, h);
    if x.g_bshK is Some {
        lemma_weighted(n, x.g_bshK->0.dims().3 as int, grads.d_g_bshK->0, z.g_bshK->0, a, h);
    }
    lemma_weighted(nk, nv, grads.d_state_bhkv, z.state_bhkv, a, h);
}

/// Each input has its own place among the registered gradients, and an input that is not
/// followed leaves its place empty and moves no other.
pub proof fn law_registrations_stand_in_order<R: Ring>(
    grads: DeltaChunkGrads<R>,
    followed: Seq<bool>,
)
    ensures
        grads.registrations(followed).len() == 7,
        grads.registrations(followed)[0] == (if followed[0] {
            Some(grads.d_q_bshk)
        } else {
            None
        }),
        grads.registrations(followed)[1] == (if followed[1] {
            Some(grads.d_k_bshk)
        } else {
            None
        }),
        grads.registrations(followed)[2] == (if followed[2] {
            Some(grads.d_v_bshv)
        } else {
            None
        }),
        grads.registrations(followed)[3] == (if followed[3] {
            Some(grads.d_erase_bshK)
        } else {
            None
        }),
        grads.registrations(followed)[4] == (if followed[4] {
            Some(grads.d_write_bshV)
        } else {
            None
        }),
        grads.registrations(followed)[5] == (if followed[5] {
            grads.d_g_bshK
        } else {
            None
        }),
        grads.registrations(followed)[6] == (if followed[6] {
            Some(grads.d_state_bhkv)
        } else {
            None
        }),
{
}

} // verus!
