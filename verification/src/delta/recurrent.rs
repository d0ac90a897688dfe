//! The delta rule one step at a time.
use vstd::prelude::*;

use crate::delta::forward::gate_width;
use crate::delta::rule::{correction, forgotten, next_state, output, state_after, Stream};
use crate::ring::{lemma_one_mul, Ring, Scalar};
use crate::sum::{lemma_sum_ext, sum};
use crate::tensor::{last_plane, Ten3, Tensor3, Tensor4};

verus! {

/// The value on channel `d` of a `[batch, nheads, 1 or full]` gate.
pub open spec fn gate3<R>(width: int, gate: Ten3<R>, a: int, h: int, d: int) -> R {
    if width == 1 {
        gate(a, h, 0)
    } else {
        gate(a, h, d)
    }
}

/// What one head of one sequence reads in a single step.
pub open spec fn step_stream<R: Ring>(
    q_bhk: Tensor3<R>,
    k_bhk: Tensor3<R>,
    v_bhv: Tensor3<R>,
    erase_bhk: Tensor3<R>,
    write_bhv: Tensor3<R>,
    g_bhk: Option<Tensor3<R>>,
    a: int,
    h: int,
) -> Stream<R> {
    Stream {
        q: |t: int, d: int| q_bhk@(a, h, d),
        k: |t: int, d: int| k_bhk@(a, h, d),
        v: |t: int, c: int| v_bhv@(a, h, c),
        erase: |t: int, d: int| gate3(erase_bhk.dims().2 as int, erase_bhk@, a, h, d),
        write: |t: int, c: int| gate3(write_bhv.dims().2 as int, write_bhv@, a, h, c),
        g: |t: int, d: int|
            match g_bhk {
                Some(g) => gate3(g.dims().2 as int, g@, a, h, d),
                None => R::zero(),
            },
    }
}

/// Rows times a gate over their channels.
fn times_gate<T: Scalar>(x: &Tensor3<T>, gate: &Tensor3<T>) -> (r: Tensor3<T>)
    requires
        gate.dims().0 == x.dims().0,
        gate.dims().1 == x.dims().1,
        gate_width(gate.dims().2 as int, x.dims().2 as int),
    ensures
        r.dims() == x.dims(),
        forall|a: int, h: int, d: int|
            0 <= a < x.dims().0 && 0 <= h < x.dims().1 && 0 <= d < x.dims().2 ==> #[trigger] r@(
                a,
                h,
                d,
            ) == x@(a, h, d) * gate3(gate.dims().2 as int, gate@, a, h, d),
{
    let f = |a: usize, h: usize, d: usize| -> (r: T)
        requires
            a < x.dims().0,
            h < x.dims().1,
            d < x.dims().2,
        ensures
            r == x@(a as int, h as int, d as int) * gate3(
                gate.dims().2 as int,
                gate@,
                a as int,
                h as int,
                d as int,
            ),
        {
            let g = if gate.dims().2 == 1 {
                gate.at(a, h, 0)
            } else {
                gate.at(a, h, d)
            };
            x.at(a, h, d).times(g)
        };
    Tensor3::from_fn(x.dims().0, x.dims().1, x.dims().2, f)
}

/// One row of each head times the head's state.
fn row_times_state<T: Scalar>(x: &Tensor3<T>, s: &Tensor4<T>) -> (r: Tensor3<T>)
    requires
        s.dims().0 == x.dims().0,
        s.dims().1 == x.dims().1,
        s.dims().2 == x.dims().2,
    ensures
        r.has_shape(x.dims().0 as int, x.dims().1 as int, s.dims().3 as int),
        forall|a: int, h: int, c: int|
            0 <= a < x.dims().0 && 0 <= h < x.dims().1 && 0 <= c < s.dims().3 ==> #[trigger] r@(
                a,
                h,
                c,
            ) == sum(x.dims().2 as int, |d: int| x@(a, h, d) * s@(a, h, d, c)),
{
    let f = |a: usize, h: usize, c: usize| -> (r: T)
        requires
            a < x.dims().0,
            h < x.dims().1,
            c < s.dims().3,
        ensures
            r == sum(
                x.dims().2 as int,
                |d: int| x@(a as int, h as int, d) * s@(a as int, h as int, d, c as int),
            ),
        {
            let ghost terms = |d: int|
                x@(a as int, h as int, d) * s@(a as int, h as int, d, c as int);
            let mut r = T::nil();
            let n: usize = x.dims().2;
            for d in 0..n
                invariant
                    n == x.dims().2,
                    s.dims().0 == x.dims().0,
                    s.dims().1 == x.dims().1,
                    s.dims().2 == x.dims().2,
                    a < x.dims().0,
                    h < x.dims().1,
                    c < s.dims().3,
                    terms == (|d: int|
                        x@(a as int, h as int, d) * s@(a as int, h as int, d, c as int)),
                    r == sum(d as int, terms),
            {
                r = r.plus(x.at(a, h, d).times(s.at(a, h, d, c)));
                assert(sum(d + 1, terms) == sum(d as int, terms) + terms(d as int));
            }
            r
        };
    Tensor3::from_fn(x.dims().0, x.dims().1, s.dims().3, f)
}

/// A state after the forget gate, along its key axis.
fn forget<T: Scalar>(s: &Tensor4<T>, g: &Option<Tensor3<T>>) -> (r: Tensor4<T>)
    requires
        g matches Some(g) ==> {
            &&& g.dims().0 == s.dims().0
            &&& g.dims().1 == s.dims().1
            &&& gate_width(g.dims().2 as int, s.dims().2 as int)
        },
    ensures
        r.dims() == s.dims(),
        forall|a: int, h: int, d: int, c: int|
            0 <= a < s.dims().0 && 0 <= h < s.dims().1 && 0 <= d < s.dims().2 && 0 <= c
                < s.dims().3 ==> #[trigger] r@(a, h, d, c) == (match *g {
                Some(g) => gate3(g.dims().2 as int, g@, a, h, d),
                None => T::zero(),
            }).expo() * s@(a, h, d, c),
{
    let (batch, nheads, nk, nv) = s.dims();
    match g {
        Some(g) => {
            let f = |a: usize, h: usize, d: usize, c: usize| -> (r: T)
                requires
                    a < batch,
                    h < nheads,
                    d < nk,
                    c < nv,
                ensures
                    r == gate3(g.dims().2 as int, g@, a as int, h as int, d as int).expo() * s@(
                        a as int,
                        h as int,
                        d as int,
                        c as int,
                    ),
                {
                    let e = if g.dims().2 == 1 {
                        g.at(a, h, 0)
                    } else {
                        g.at(a, h, d)
                    };
                    e.exponential().times(s.at(a, h, d, c))
                };
            Tensor4::from_fn(batch, nheads, nk, nv, f)
        },
        None => {
            proof {
                T::expo_zero();
            }
            let f = |a: usize, h: usize, d: usize, c: usize| -> (r: T)
                requires
                    a < batch,
                    h < nheads,
                    d < nk,
                    c < nv,
                ensures
                    r == T::one() * s@(a as int, h as int, d as int, c as int),
                {
                    proof {
                        lemma_one_mul(s@(a as int, h as int, d as int, c as int));
                    }
                    s.at(a, h, d, c)
                };
            Tensor4::from_fn(batch, nheads, nk, nv, f)
        },
    }
}

/// Whether the inputs of a single step have the same lengths throughout.
pub open spec fn step_well_formed<R: Ring>(
    q_bhk: Tensor3<R>,
    k_bhk: Tensor3<R>,
    v_bhv: Tensor3<R>,
    erase_bhk: Tensor3<R>,
    write_bhv: Tensor3<R>,
    g_bhk: Option<Tensor3<R>>,
    state_bhkv: Tensor4<R>,
) -> bool {
    let (batch, nheads, nk) = q_bhk.dims();
    let nv = v_bhv.dims().2;
    &&& k_bhk.has_shape(batch as int, nheads as int, nk as int)
    &&& v_bhv.has_shape(batch as int, nheads as int, nv as int)
    &&& erase_bhk.has_shape(batch as int, nheads as int, erase_bhk.dims().2 as int)
    &&& gate_width(erase_bhk.dims().2 as int, nk as int)
    &&& write_bhv.has_shape(batch as int, nheads as int, write_bhv.dims().2 as int)
    &&& gate_width(write_bhv.dims().2 as int, nv as int)
    &&& g_bhk matches Some(g) ==> {
        &&& g.has_shape(batch as int, nheads as int, g.dims().2 as int)
        &&& gate_width(g.dims().2 as int, nk as int)
    }
    &&& state_bhkv.has_shape(batch as int, nheads as int, nk as int, nv as int)
}

/// One step of the delta rule, for all heads of a batch at once: the outputs and
/// the next state.
///
/// - `q_bhk`, `k_bhk`: `[batch, nheads, head_k_dim]`
/// - `v_bhv`: `[batch, nheads, head_v_dim]`
/// - `erase_bhk`, `g_bhk`: `[batch, nheads, 1 or head_k_dim]`
/// - `write_bhv`: `[batch, nheads, 1 or head_v_dim]`
/// - `state_bhkv`: `[batch, nheads, head_k_dim, head_v_dim]`
pub fn delta_step<T: Scalar>(
    q_bhk: &Tensor3<T>,
    k_bhk: &Tensor3<T>,
    v_bhv: &Tensor3<T>,
    erase_bhk: &Tensor3<T>,
    write_bhv: &Tensor3<T>,
    g_bhk: &Option<Tensor3<T>>,
    state_bhkv: &Tensor4<T>,
    scale: T,
) -> (r: (Tensor3<T>, Tensor4<T>))
    requires
        step_well_formed(
            *q_bhk,
            *k_bhk,
            *v_bhv,
            *erase_bhk,
            *write_bhv,
            *g_bhk,
            *state_bhkv,
        ),
    ensures
        r.0.has_shape(q_bhk.dims().0 as int, q_bhk.dims().1 as int, v_bhv.dims().2 as int),
        r.1.dims() == state_bhkv.dims(),
        forall|a: int, h: int, c: int|
            0 <= a < q_bhk.dims().0 && 0 <= h < q_bhk.dims().1 && 0 <= c < v_bhv.dims().2
                ==> #[trigger] r.0@(a, h, c) == output(
                step_stream(
                    *q_bhk,
                    *k_bhk,
                    *v_bhv,
                    *erase_bhk,
                    *write_bhv,
                    *g_bhk,
                    a,
                    h,
                ),
                q_bhk.dims().2 as int,
                scale,
                last_plane(state_bhkv@, a, h),
                0,
                c,
            ),
        forall|a: int, h: int, d: int, c: int|
            0 <= a < q_bhk.dims().0 && 0 <= h < q_bhk.dims().1 && 0 <= d < q_bhk.dims().2 && 0 <= c
                < v_bhv.dims().2 ==> #[trigger] r.1@(a, h, d, c) == state_after(
                step_stream(
                    *q_bhk,
                    *k_bhk,
                    *v_bhv,
                    *erase_bhk,
                    *write_bhv,
                    *g_bhk,
                    a,
                    h,
                ),
                q_bhk.dims().2 as int,
                last_plane(state_bhkv@, a, h),
                1,
            )(d, c),
{
    let (batch, nheads, nk) = q_bhk.dims();
    let nv: usize = v_bhv.dims().2;
    let kept = forget(state_bhkv, g_bhk);
    let erase_keys = times_gate(k_bhk, erase_bhk);
    let erased = row_times_state(&erase_keys, &kept);
    let target = times_gate(v_bhv, write_bhv);
    let fu = |a: usize, h: usize, c: usize| -> (r: T)
        requires
            a < batch,
            h < nheads,
            c < nv,
        ensures
            r == target@(a as int, h as int, c as int) - erased@(a as int, h as int, c as int),
        { target.at(a, h, c).minus(erased.at(a, h, c)) };
    let u = Tensor3::from_fn(batch, nheads, nv, fu);
    let fs = |a: usize, h: usize, d: usize, c: usize| -> (r: T)
        requires
            a < batch,
            h < nheads,
            d < nk,
            c < nv,
        ensures
            r == kept@(a as int, h as int, d as int, c as int) + k_bhk@(
                a as int,
                h as int,
                d as int,
            ) * u@(a as int, h as int, c as int),
        { kept.at(a, h, d, c).plus(k_bhk.at(a, h, d).times(u.at(a, h, c))) };
    let next = Tensor4::from_fn(batch, nheads, nk, nv, fs);
    let fq = |a: usize, h: usize, d: usize| -> (r: T)
        requires
            a < batch,
            h < nheads,
            d < nk,
        ensures
            r == q_bhk@(a as int, h as int, d as int) * scale,
        { q_bhk.at(a, h, d).times(scale) };
    let scaled = Tensor3::from_fn(batch, nheads, nk, fq);
    let y = row_times_state(&scaled, &next);
    proof {
        let n = nk as int;
        assert forall|a: int, h: int| 0 <= a < batch && 0 <= h < nheads implies {
            let x = #[trigger] step_stream(
                *q_bhk,
                *k_bhk,
                *v_bhv,
                *erase_bhk,
                *write_bhv,
                *g_bhk,
                a,
                h,
            );
            let s = last_plane(state_bhkv@, a, h);
            &&& forall|d: int, c: int|
                0 <= d < nk && 0 <= c < nv ==> #[trigger] next@(a, h, d, c) == state_after(
                    x,
                    n,
                    s,
                    1,
                )(d, c)
            &&& forall|c: int|
                0 <= c < nv ==> #[trigger] y@(a, h, c) == output(x, n, scale, s, 0, c)
        } by {
            let x = step_stream(
                *q_bhk,
                *k_bhk,
                *v_bhv,
                *erase_bhk,
                *write_bhv,
                *g_bhk,
                a,
                h,
            );
            let s = last_plane(state_bhkv@, a, h);
            let after = state_after(x, n, s, 1);
            assert(state_after(x, n, s, 0) == s);
            assert(after == next_state(x, n, s, 0));
            assert forall|d: int, c: int| 0 <= d < nk && 0 <= c < nv implies #[trigger] next@(
                a,
                h,
                d,
                c,
            ) == after(d, c) by {
                let taken = |d: int| erase_keys@(a, h, d) * kept@(a, h, d, c);
                let named = |d: int| ((x.k)(0, d) * (x.erase)(0, d)) * forgotten(x, s, 0)(d, c);
                assert forall|e: int| 0 <= e < nk implies #[trigger] taken(e) == named(e) by {
                    assert(kept@(a, h, e, c) == forgotten(x, s, 0)(e, c));
                }
                lemma_sum_ext(n, taken, named);
                assert(erased@(a, h, c) == sum(n, taken));
                assert(u@(a, h, c) == correction(x, n, s, 0, c));
                assert(kept@(a, h, d, c) == forgotten(x, s, 0)(d, c));
            }
            assert forall|c: int| 0 <= c < nv implies #[trigger] y@(a, h, c) == output(
                x,
                n,
                scale,
                s,
                0,
                c,
            ) by {
                lemma_sum_ext(
                    n,
                    |d: int| scaled@(a, h, d) * next@(a, h, d, c),
                    |d: int| ((x.q)(0, d) * scale) * after(d, c),
                );
            }
        }
    }
    (y, next)
}

} // verus!
