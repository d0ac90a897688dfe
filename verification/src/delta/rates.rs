//! Rates of change of the delta rule, and the gradient of a chunk against them.
use vstd::prelude::*;

use crate::delta::chunk_grad::{cotangent_of, frame_of};
use crate::delta::forward::{lemma_chunk_is_the_rule, Chunk, Wy};
use crate::delta::frame::{chunk_pairing, lemma_chunk_gradient, re_frame, Frame};
use crate::delta::rule::{
    correction, corrections, cumulative, decayed_scores, erase_keys, forgotten,
    lemma_corrections_solve, next_state, output, scaled_queries, state_after, write_values, Stream,
};
use crate::delta::wy::{lemma_chunk_outputs, lemma_chunk_state, lemma_corrections_depend};
use crate::dual::{constant, eps_part, lemma_sum_parts, lifted, re_part, Dual};
use crate::mat::{
    agree, hadamard, lemma_mul_agree_left, lemma_mul_agree_right, mat_add, mat_mul, mat_sub,
    transposed, tril, tril_strict, Mat,
};
use crate::pair::{lemma_pair_agree, pair};
use crate::ring::{lemma_zero_mul, Ring};
use crate::sum::{lemma_sum_ext, lemma_sum_truncate};

verus! {

/// The values of a stream of dual numbers.
pub open spec fn re_stream<R>(x: Stream<Dual<R>>) -> Stream<R> {
    Stream {
        q: re_part(x.q),
        k: re_part(x.k),
        v: re_part(x.v),
        erase: re_part(x.erase),
        write: re_part(x.write),
        g: re_part(x.g),
    }
}

/// The values of a delta of dual numbers.
proof fn lemma_correction_values<R: Ring>(
    x: Stream<Dual<R>>,
    nk: int,
    s: Mat<Dual<R>>,
    t: int,
    c: int,
)
    ensures
        correction(x, nk, s, t, c).re == correction(re_stream(x), nk, re_part(s), t, c),
{
    let f = |d: int| ((x.k)(t, d) * (x.erase)(t, d)) * forgotten(x, s, t)(d, c);
    let y = re_stream(x);
    lemma_sum_parts(nk, f);
    lemma_sum_ext(
        nk,
        |d: int| f(d).re,
        |d: int| ((y.k)(t, d) * (y.erase)(t, d)) * forgotten(y, re_part(s), t)(d, c),
    );
}

/// The values of a run of dual numbers are the run of the values.
pub proof fn lemma_run_values<R: Ring>(x: Stream<Dual<R>>, nk: int, s: Mat<Dual<R>>, t: int)
    ensures
        re_part(state_after(x, nk, s, t)) == state_after(re_stream(x), nk, re_part(s), t),
    decreases t,
{
    if t > 0 {
        lemma_run_values(x, nk, s, t - 1);
        let (a, y) = (state_after(x, nk, s, t - 1), re_stream(x));
        assert forall|d: int, c: int|
            (#[trigger] next_state(x, nk, a, t - 1)(d, c)).re == next_state(
                y,
                nk,
                re_part(a),
                t - 1,
            )(d, c) by {
            lemma_correction_values(x, nk, a, t - 1, c);
        }
        assert(re_part(state_after(x, nk, s, t)) =~= state_after(y, nk, re_part(s), t));
    } else {
        assert(re_part(s) =~= state_after(re_stream(x), nk, re_part(s), t));
    }
}

/// The values of the deltas of a run of dual numbers.
pub proof fn lemma_corrections_values<R: Ring>(x: Stream<Dual<R>>, nk: int, s: Mat<Dual<R>>)
    ensures
        re_part(corrections(x, nk, s)) == corrections(re_stream(x), nk, re_part(s)),
{
    assert forall|j: int, c: int|
        (#[trigger] corrections(x, nk, s)(j, c)).re == corrections(re_stream(x), nk, re_part(s))(
            j,
            c,
        ) by {
        lemma_run_values(x, nk, s, j);
        lemma_correction_values(x, nk, state_after(x, nk, s, j), j, c);
    }
    assert(re_part(corrections(x, nk, s)) =~= corrections(re_stream(x), nk, re_part(s)));
}

/// The first steps of a stream as the inputs of one chunk.
pub open spec fn first_chunk<R: Ring>(x: Stream<R>, scale: R) -> Frame<R> {
    Frame {
        q: scaled_queries(x, scale),
        k: x.k,
        v: x.v,
        erase: x.erase,
        write: x.write,
        gate: cumulative(x.g),
    }
}

/// The chunk of a stream's first steps computes the delta rule.
proof fn lemma_first_chunk<R: Ring>(
    x: Stream<R>,
    scale: R,
    nl: int,
    nk: int,
    nv: int,
    s: Mat<R>,
)
    requires
        nl > 0,
    ensures
        first_chunk(x, scale).solved_by(nl, nk, nv, s, corrections(x, nk, s)),
        forall|i: int, c: int|
            0 <= i < nl && 0 <= c < nv ==> #[trigger] first_chunk(x, scale).outputs(
                nl,
                nk,
                s,
                corrections(x, nk, s),
            )(i, c) == output(x, nk, scale, s, i, c),
        agree(
            nk,
            nv,
            first_chunk(x, scale).leaving(nl, s, corrections(x, nk, s)),
            state_after(x, nk, s, nl),
        ),
{
    let f = first_chunk(x, scale);
    let u = corrections(x, nk, s);
    let gc = cumulative(x.g);
    assert(f.ke() =~= erase_keys(x));
    assert(f.vw() =~= write_values(x));
    let akk = f.akk(nk);
    assert forall|i: int, c: int| 0 <= i < nl && 0 <= c < nv implies #[trigger] u(i, c) == mat_sub(
        f.vw(),
        mat_add(mat_mul(nk, f.kg(), s), mat_mul(nl, tril_strict(akk), u)),
    )(i, c) by {
        lemma_corrections_solve(x, nk, s, i, c);
        let masked = |j: int| tril_strict(akk)(i, j) * u(j, c);
        assert forall|j: int| i <= j < nl implies #[trigger] masked(j) == R::zero() by {
            lemma_zero_mul(u(j, c));
        }
        lemma_sum_truncate(nl, i, masked);
        lemma_sum_ext(
            i,
            masked,
            |j: int| decayed_scores(nk, erase_keys(x), x.k, gc)(i, j) * u(j, c),
        );
    }
    lemma_chunk_outputs(x, nk, nv, nl, scale, s, f.qg(), tril(f.aqk(nk)), u);
    lemma_chunk_state(x, nk, nv, nl, s, hadamard(f.el(nl), s), f.kc(nl), u);
}

/// Whether two frames agree over `nl` steps, on `nk` key and `nv` value channels.
pub open spec fn frames_agree<R>(nl: int, nk: int, nv: int, f: Frame<R>, g: Frame<R>) -> bool {
    &&& agree(nl, nk, f.q, g.q)
    &&& agree(nl, nk, f.k, g.k)
    &&& agree(nl, nv, f.v, g.v)
    &&& agree(nl, nk, f.erase, g.erase)
    &&& agree(nl, nv, f.write, g.write)
    &&& agree(nl, nk, f.gate, g.gate)
}

/// What a chunk computes depends only on the steps and channels there are.
proof fn lemma_frame_depends<R: Ring>(
    nl: int,
    nk: int,
    nv: int,
    f: Frame<R>,
    g: Frame<R>,
    s: Mat<R>,
    r: Mat<R>,
    u: Mat<R>,
    w: Mat<R>,
)
    requires
        nl > 0,
        frames_agree(nl, nk, nv, f, g),
        agree(nk, nv, s, r),
        agree(nl, nv, u, w),
    ensures
        f.solved_by(nl, nk, nv, s, u) ==> g.solved_by(nl, nk, nv, r, w),
        agree(nl, nv, f.outputs(nl, nk, s, u), g.outputs(nl, nk, r, w)),
        agree(nk, nv, f.leaving(nl, s, u), g.leaving(nl, r, w)),
{
    assert forall|i: int, d: int| 0 <= i < nl && 0 <= d < nk implies {
        &&& #[trigger] f.ke()(i, d) == g.ke()(i, d)
        &&& f.kg()(i, d) == g.kg()(i, d)
        &&& f.qg()(i, d) == g.qg()(i, d)
        &&& f.kc(nl)(i, d) == g.kc(nl)(i, d)
    } by {
        assert((f.k)(i, d) == (g.k)(i, d));
        assert((f.q)(i, d) == (g.q)(i, d));
        assert((f.erase)(i, d) == (g.erase)(i, d));
        assert((f.gate)(i, d) == (g.gate)(i, d));
        assert((f.gate)(nl - 1, d) == (g.gate)(nl - 1, d));
    }
    assert forall|i: int, j: int| 0 <= i < nl && 0 <= j < nl implies {
        &&& #[trigger] f.akk(nk)(i, j) == g.akk(nk)(i, j)
        &&& f.aqk(nk)(i, j) == g.aqk(nk)(i, j)
    } by {
        let a = |d: int|
            (f.ke()(i, d) * (f.k)(j, d)) * ((f.gate)(i, d) - (f.gate)(j, d)).expo();
        let b = |d: int|
            (g.ke()(i, d) * (g.k)(j, d)) * ((g.gate)(i, d) - (g.gate)(j, d)).expo();
        let p = |d: int|
            ((f.q)(i, d) * (f.k)(j, d)) * ((f.gate)(i, d) - (f.gate)(j, d)).expo();
        let q = |d: int|
            ((g.q)(i, d) * (g.k)(j, d)) * ((g.gate)(i, d) - (g.gate)(j, d)).expo();
        assert forall|d: int| 0 <= d < nk implies #[trigger] a(d) == b(d) by {
            assert(f.ke()(i, d) == g.ke()(i, d));
            assert((f.k)(j, d) == (g.k)(j, d));
            assert((f.gate)(i, d) == (g.gate)(i, d));
            assert((f.gate)(j, d) == (g.gate)(j, d));
        }
        assert forall|d: int| 0 <= d < nk implies #[trigger] p(d) == q(d) by {
            assert((f.q)(i, d) == (g.q)(i, d));
            assert((f.k)(j, d) == (g.k)(j, d));
            assert((f.gate)(i, d) == (g.gate)(i, d));
            assert((f.gate)(j, d) == (g.gate)(j, d));
        }
        lemma_sum_ext(nk, a, b);
        lemma_sum_ext(nk, p, q);
    }
    let (fa, ga) = (tril_strict(f.akk(nk)), tril_strict(g.akk(nk)));
    let (fq, gq) = (tril(f.aqk(nk)), tril(g.aqk(nk)));
    assert(agree(nl, nl, fa, ga));
    assert(agree(nl, nl, fq, gq)) by {
        assert forall|i: int, j: int| 0 <= i < nl && 0 <= j < nl implies #[trigger] fq(i, j) == gq(
            i,
            j,
        ) by {
            assert(f.akk(nk)(i, j) == g.akk(nk)(i, j));
        }
    }
    assert(agree(nl, nk, f.kg(), g.kg())) by {
        assert forall|i: int, d: int| 0 <= i < nl && 0 <= d < nk implies #[trigger] f.kg()(i, d)
            == g.kg()(i, d) by {
            assert(f.ke()(i, d) == g.ke()(i, d));
        }
    }
    assert(agree(nl, nk, f.qg(), g.qg())) by {
        assert forall|i: int, d: int| 0 <= i < nl && 0 <= d < nk implies #[trigger] f.qg()(i, d)
            == g.qg()(i, d) by {
            assert(f.ke()(i, d) == g.ke()(i, d));
        }
    }
    let (fk, gk) = (transposed(f.kc(nl)), transposed(g.kc(nl)));
    assert(agree(nk, nl, fk, gk)) by {
        assert forall|d: int, j: int| 0 <= d < nk && 0 <= j < nl implies #[trigger] fk(d, j) == gk(
            d,
            j,
        ) by {
            assert(f.ke()(j, d) == g.ke()(j, d));
        }
    }
    lemma_products_depend(nl, nk, nv, f.kg(), g.kg(), s, r);
    lemma_products_depend(nl, nl, nv, fa, ga, u, w);
    lemma_products_depend(nl, nk, nv, f.qg(), g.qg(), s, r);
    lemma_products_depend(nl, nl, nv, fq, gq, u, w);
    lemma_products_depend(nk, nl, nv, fk, gk, u, w);
    if f.solved_by(nl, nk, nv, s, u) {
        assert forall|i: int, c: int| 0 <= i < nl && 0 <= c < nv implies #[trigger] w(i, c)
            == mat_sub(g.vw(), mat_add(mat_mul(nk, g.kg(), r), mat_mul(nl, ga, w)))(i, c) by {
            assert(u(i, c) == w(i, c));
            assert((f.v)(i, c) == (g.v)(i, c));
            assert((f.write)(i, c) == (g.write)(i, c));
            assert(mat_mul(nk, f.kg(), s)(i, c) == mat_mul(nk, g.kg(), r)(i, c));
            assert(mat_mul(nl, fa, u)(i, c) == mat_mul(nl, ga, w)(i, c));
        }
    }
    assert forall|i: int, c: int| 0 <= i < nl && 0 <= c < nv implies #[trigger] f.outputs(
        nl,
        nk,
        s,
        u,
    )(i, c) == g.outputs(nl, nk, r, w)(i, c) by {
        assert(mat_mul(nk, f.qg(), s)(i, c) == mat_mul(nk, g.qg(), r)(i, c));
        assert(mat_mul(nl, fq, u)(i, c) == mat_mul(nl, gq, w)(i, c));
    }
    assert forall|d: int, c: int| 0 <= d < nk && 0 <= c < nv implies #[trigger] f.leaving(
        nl,
        s,
        u,
    )(d, c) == g.leaving(nl, r, w)(d, c) by {
        assert((f.gate)(nl - 1, d) == (g.gate)(nl - 1, d));
        assert(s(d, c) == r(d, c));
        assert(mat_mul(nl, fk, u)(d, c) == mat_mul(nl, gk, w)(d, c));
    }
}

/// A product depends only on the entries there are.
proof fn lemma_products_depend<R: Ring>(
    n: int,
    p: int,
    m: int,
    a: Mat<R>,
    b: Mat<R>,
    c: Mat<R>,
    d: Mat<R>,
)
    requires
        agree(n, p, a, b),
        agree(p, m, c, d),
    ensures
        agree(n, m, mat_mul(p, a, c), mat_mul(p, b, d)),
{
    lemma_mul_agree_left(p, n, a, b, c);
    lemma_mul_agree_right(p, m, b, c, d);
    assert forall|i: int, j: int| 0 <= i < n && 0 <= j < m implies #[trigger] mat_mul(p, a, c)(i, j)
        == mat_mul(p, b, d)(i, j) by {
        assert(mat_mul(p, b, c)(i, j) == mat_mul(p, b, d)(i, j));
    }
}

/// A frame with the given values and the rates of change of another.
pub open spec fn with_rates<R>(f: Frame<R>, g: Frame<Dual<R>>) -> Frame<Dual<R>> {
    Frame {
        q: lifted(f.q, eps_part(g.q)),
        k: lifted(f.k, eps_part(g.k)),
        v: lifted(f.v, eps_part(g.v)),
        erase: lifted(f.erase, eps_part(g.erase)),
        write: lifted(f.write, eps_part(g.write)),
        gate: lifted(f.gate, eps_part(g.gate)),
    }
}

/// The rates of change of a chunk's outputs, as a function of step and channel.
pub open spec fn output_rates<R: Ring>(
    x: Stream<Dual<R>>,
    nk: int,
    scale: R,
    s: Mat<Dual<R>>,
) -> Mat<R> {
    |i: int, c: int| output(x, nk, constant(scale), s, i, c).eps
}

/// The gradient of one chunk against the rates of change of the delta rule over
/// the steps it holds.
pub proof fn lemma_chunk_rates<R: Ring>(
    chunk: Chunk<R>,
    wy: Wy<R>,
    nl: int,
    nk: int,
    nv: int,
    x: Stream<Dual<R>>,
    scale: R,
    s: Mat<Dual<R>>,
    state: Mat<R>,
    dy: Mat<R>,
    d_state: Mat<R>,
)
    requires
        nl > 0,
        chunk.holds(nl, nk, nv, re_stream(x), scale),
        wy.matches(chunk, nl, nk, nv),
        agree(nk, nv, state, re_part(s)),
    ensures
        ({
            let c = cotangent_of(chunk, wy, state, dy, d_state);
            let f = with_rates(frame_of(chunk), first_chunk(x, constant(scale)));
            pair(nl, nv, dy, output_rates(x, nk, scale, s)) + pair(
                nk,
                nv,
                d_state,
                eps_part(state_after(x, nk, s, nl)),
            ) == chunk_pairing(c, f, nl, nk, nv) + pair(
                nk,
                nv,
                c.dstate(frame_of(chunk), nl, nk),
                eps_part(s),
            )
        }),
{
    let c = cotangent_of(chunk, wy, state, dy, d_state);
    let sc = constant(scale);
    let f = first_chunk(x, sc);
    let g = with_rates(frame_of(chunk), f);
    let y = re_stream(x);
    let u = corrections(x, nk, s);
    let deltas = wy.deltas(nk, state);
    let (s2, u2) = (lifted(state, eps_part(s)), lifted(deltas, eps_part(u)));
    lemma_first_chunk(x, sc, nl, nk, nv, s);
    lemma_chunk_is_the_rule(chunk, wy, nl, nk, nv, y, scale, state);
    lemma_corrections_values(x, nk, s);
    lemma_corrections_depend(y, nk, nv, state, re_part(s), nl);
    assert(agree(nk, nv, s, s2)) by {
        assert forall|d: int, b: int| 0 <= d < nk && 0 <= b < nv implies #[trigger] s(d, b) == s2(
            d,
            b,
        ) by {
            assert(state(d, b) == re_part(s)(d, b));
        }
    }
    assert(agree(nl, nv, u, u2)) by {
        assert forall|i: int, b: int| 0 <= i < nl && 0 <= b < nv implies #[trigger] u(i, b) == u2(
            i,
            b,
        ) by {
            assert(deltas(i, b) == corrections(y, nk, state)(i, b));
            assert(corrections(y, nk, state)(i, b) == corrections(y, nk, re_part(s))(i, b));
            assert(re_part(u)(i, b) == corrections(y, nk, re_part(s))(i, b));
        }
    }
    assert(frames_agree(nl, nk, nv, f, g)) by {
        assert forall|i: int, d: int| 0 <= i < nl && 0 <= d < nk implies {
            &&& #[trigger] (f.q)(i, d) == (g.q)(i, d)
            &&& (f.k)(i, d) == (g.k)(i, d)
            &&& (f.erase)(i, d) == (g.erase)(i, d)
            &&& (f.gate)(i, d) == (g.gate)(i, d)
        } by {
            assert(chunk.q@(i, d) == scaled_queries(y, scale)(i, d));
            assert(chunk.k@(i, d) == (y.k)(i, d));
            assert(chunk.erase_wide()(i, d) == (y.erase)(i, d));
            assert(chunk.gate()(i, d) == cumulative(y.g)(i, d));
            let terms = |j: int| (x.g)(j, d);
            lemma_sum_parts(i + 1, terms);
            lemma_sum_ext(i + 1, |j: int| terms(j).re, |j: int| (y.g)(j, d));
        }
        assert forall|i: int, d: int| 0 <= i < nl && 0 <= d < nk implies #[trigger] (f.k)(i, d)
            == (g.k)(i, d) by {
            assert((f.q)(i, d) == (g.q)(i, d));
        }
        assert forall|i: int, d: int| 0 <= i < nl && 0 <= d < nk implies #[trigger] (f.erase)(i, d)
            == (g.erase)(i, d) by {
            assert((f.q)(i, d) == (g.q)(i, d));
        }
        assert forall|i: int, d: int| 0 <= i < nl && 0 <= d < nk implies #[trigger] (f.gate)(i, d)
            == (g.gate)(i, d) by {
            assert((f.q)(i, d) == (g.q)(i, d));
        }
        assert forall|i: int, b: int| 0 <= i < nl && 0 <= b < nv implies #[trigger] (f.v)(i, b)
            == (g.v)(i, b) by {
            assert(chunk.v@(i, b) == (y.v)(i, b));
        }
        assert forall|i: int, b: int| 0 <= i < nl && 0 <= b < nv implies #[trigger] (f.write)(i, b)
            == (g.write)(i, b) by {
            assert(chunk.write_wide()(i, b) == (y.write)(i, b));
        }
    }
    lemma_frame_depends(nl, nk, nv, f, g, s, s2, u, u2);
    assert(re_frame(g) =~= frame_of(chunk));
    assert(re_frame(g).ke() =~= wy.ke@);
    assert(re_part(s2) =~= state);
    assert(re_part(u2) =~= deltas);
    lemma_chunk_gradient(g, nl, nk, nv, s2, u2, c);
    let rates = output_rates(x, nk, scale, s);
    assert(agree(nl, nv, eps_part(g.outputs(nl, nk, s2, u2)), rates)) by {
        assert forall|i: int, b: int| 0 <= i < nl && 0 <= b < nv implies #[trigger] eps_part(
            g.outputs(nl, nk, s2, u2),
        )(i, b) == rates(i, b) by {
            assert(f.outputs(nl, nk, s, u)(i, b) == g.outputs(nl, nk, s2, u2)(i, b));
        }
    }
    let last = state_after(x, nk, s, nl);
    assert(agree(nk, nv, eps_part(g.leaving(nl, s2, u2)), eps_part(last))) by {
        assert forall|d: int, b: int| 0 <= d < nk && 0 <= b < nv implies #[trigger] eps_part(
            g.leaving(nl, s2, u2),
        )(d, b) == eps_part(last)(d, b) by {
            assert(f.leaving(nl, s, u)(d, b) == g.leaving(nl, s2, u2)(d, b));
            assert(f.leaving(nl, s, u)(d, b) == last(d, b));
        }
    }
    lemma_pair_agree(nl, nv, dy, eps_part(g.outputs(nl, nk, s2, u2)), dy, rates);
    lemma_pair_agree(nk, nv, d_state, eps_part(g.leaving(nl, s2, u2)), d_state, eps_part(last));
    assert(eps_part(s2) =~= eps_part(s));
}

} // verus!
