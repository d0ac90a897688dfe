//! Combinations of matrices, and what keeps them: everything a gradient is computed by.
use vstd::prelude::*;

use crate::delta::chunk_grad::{arriving, cotangent_of, frame_of, walks_back, ScanGrads};
use crate::delta::forward::{Chunk, Wy};
use crate::delta::frame::{at_row, Cotangent, Frame};
use crate::mat::{
    agree, hadamard, lemma_mul_agree_left, mat_add, mat_mul, mat_neg, mat_sub, transposed, tril,
    Mat,
};
use crate::matrix::Matrix;
use crate::pair::pair;
use crate::ring::{
    lemma_add_zero, lemma_distributes_right, lemma_mul_neg, lemma_mul_zero, lemma_neg_add,
    lemma_zero_mul, Ring,
};
use crate::sum::{lemma_sum_add, lemma_sum_ext, lemma_sum_scale, sum};

verus! {

/// `x a + y b`, entry by entry.
pub open spec fn blended<R: Ring>(x: R, a: Mat<R>, y: R, b: Mat<R>) -> Mat<R> {
    |i: int, j: int| x * a(i, j) + y * b(i, j)
}

/// A combination times a number, from either side.
pub proof fn lemma_blend_times<R: Ring>(x: R, p: R, y: R, q: R, c: R)
    ensures
        (x * p + y * q) * c == x * (p * c) + y * (q * c),
        c * (x * p + y * q) == x * (c * p) + y * (c * q),
{
    lemma_distributes_right(c, x * p, y * q);
    R::mul_associates(x, p, c);
    R::mul_associates(y, q, c);
    R::mul_commutes(c, x * p + y * q);
    R::mul_commutes(p, c);
    R::mul_commutes(q, c);
}

/// The sum of two combinations.
pub proof fn lemma_blend_add<R: Ring>(x: R, p: R, y: R, q: R, r: R, s: R)
    ensures
        (x * p + y * q) + (x * r + y * s) == x * (p + r) + y * (q + s),
{
    R::mul_distributes(x, p, r);
    R::mul_distributes(y, q, s);
    let (a, b, c, d) = (x * p, y * q, x * r, y * s);
    assert((a + b) + (c + d) == (a + c) + (b + d)) by {
        broadcast use {crate::ring::lemma_add_commutes, crate::ring::lemma_add_associates};

    }
}

/// The negative of a combination.
pub proof fn lemma_blend_neg<R: Ring>(x: R, p: R, y: R, q: R)
    ensures
        -(x * p + y * q) == x * -p + y * -q,
{
    lemma_neg_add(x * p, y * q);
    lemma_mul_neg(x, p);
    lemma_mul_neg(y, q);
}

/// The sum of combinations.
pub proof fn lemma_sum_blend<R: Ring>(
    n: int,
    x: R,
    f: spec_fn(int) -> R,
    y: R,
    g: spec_fn(int) -> R,
)
    ensures
        sum(n, |i: int| x * f(i) + y * g(i)) == x * sum(n, f) + y * sum(n, g),
{
    let (p, q) = (|i: int| x * f(i), |i: int| y * g(i));
    lemma_sum_add(n, p, q);
    lemma_sum_scale(n, x, f);
    lemma_sum_scale(n, y, g);
    lemma_sum_ext(n, |i: int| x * f(i) + y * g(i), |i: int| p(i) + q(i));
}

/// A product with a combination on the left.
proof fn lemma_mul_blend_left<R: Ring>(n: int, x: R, a: Mat<R>, y: R, b: Mat<R>, c: Mat<R>)
    ensures
        mat_mul(n, blended(x, a, y, b), c) == blended(x, mat_mul(n, a, c), y, mat_mul(n, b, c)),
{
    assert forall|i: int, j: int|
        #[trigger] mat_mul(n, blended(x, a, y, b), c)(i, j) == blended(
            x,
            mat_mul(n, a, c),
            y,
            mat_mul(n, b, c),
        )(i, j) by {
        let (f, g) = (|k: int| a(i, k) * c(k, j), |k: int| b(i, k) * c(k, j));
        let whole = |k: int| blended(x, a, y, b)(i, k) * c(k, j);
        let parts = |k: int| x * f(k) + y * g(k);
        assert forall|k: int| 0 <= k < n implies #[trigger] whole(k) == parts(k) by {
            lemma_blend_times(x, a(i, k), y, b(i, k), c(k, j));
        }
        lemma_sum_ext(n, whole, parts);
        lemma_sum_blend(n, x, f, y, g);
    }
    assert(mat_mul(n, blended(x, a, y, b), c) =~= blended(
        x,
        mat_mul(n, a, c),
        y,
        mat_mul(n, b, c),
    ));
}

/// A product with a combination on the right.
proof fn lemma_mul_blend_right<R: Ring>(n: int, c: Mat<R>, x: R, a: Mat<R>, y: R, b: Mat<R>)
    ensures
        mat_mul(n, c, blended(x, a, y, b)) == blended(x, mat_mul(n, c, a), y, mat_mul(n, c, b)),
{
    assert forall|i: int, j: int|
        #[trigger] mat_mul(n, c, blended(x, a, y, b))(i, j) == blended(
            x,
            mat_mul(n, c, a),
            y,
            mat_mul(n, c, b),
        )(i, j) by {
        let (f, g) = (|k: int| c(i, k) * a(k, j), |k: int| c(i, k) * b(k, j));
        let whole = |k: int| c(i, k) * blended(x, a, y, b)(k, j);
        let parts = |k: int| x * f(k) + y * g(k);
        assert forall|k: int| 0 <= k < n implies #[trigger] whole(k) == parts(k) by {
            lemma_blend_times(x, a(k, j), y, b(k, j), c(i, k));
        }
        lemma_sum_ext(n, whole, parts);
        lemma_sum_blend(n, x, f, y, g);
    }
    assert(mat_mul(n, c, blended(x, a, y, b)) =~= blended(
        x,
        mat_mul(n, c, a),
        y,
        mat_mul(n, c, b),
    ));
}

/// A pairing with a combination on the left.
pub proof fn lemma_pair_blend<R: Ring>(
    n: int,
    m: int,
    x: R,
    a: Mat<R>,
    y: R,
    b: Mat<R>,
    c: Mat<R>,
)
    ensures
        pair(n, m, blended(x, a, y, b), c) == x * pair(n, m, a, c) + y * pair(n, m, b, c),
{
    let f = |i: int| sum(m, |j: int| a(i, j) * c(i, j));
    let g = |i: int| sum(m, |j: int| b(i, j) * c(i, j));
    let whole = |i: int| sum(m, |j: int| blended(x, a, y, b)(i, j) * c(i, j));
    let parts = |i: int| x * f(i) + y * g(i);
    assert forall|i: int| 0 <= i < n implies #[trigger] whole(i) == parts(i) by {
        let (p, q) = (|j: int| a(i, j) * c(i, j), |j: int| b(i, j) * c(i, j));
        let inner = |j: int| blended(x, a, y, b)(i, j) * c(i, j);
        let sums = |j: int| x * p(j) + y * q(j);
        assert forall|j: int| 0 <= j < m implies #[trigger] inner(j) == sums(j) by {
            lemma_blend_times(x, a(i, j), y, b(i, j), c(i, j));
        }
        lemma_sum_ext(m, inner, sums);
        lemma_sum_blend(m, x, p, y, q);
    }
    lemma_sum_ext(n, whole, parts);
    lemma_sum_blend(n, x, f, y, g);
}

/// Sums, negatives and entrywise products of combinations.
proof fn lemma_blend_entries<R: Ring>(
    x: R,
    a: Mat<R>,
    y: R,
    b: Mat<R>,
    c: Mat<R>,
    d: Mat<R>,
)
    ensures
        mat_add(blended(x, a, y, b), blended(x, c, y, d)) == blended(
            x,
            mat_add(a, c),
            y,
            mat_add(b, d),
        ),
        mat_neg(blended(x, a, y, b)) == blended(x, mat_neg(a), y, mat_neg(b)),
        hadamard(blended(x, a, y, b), c) == blended(x, hadamard(a, c), y, hadamard(b, c)),
        transposed(blended(x, a, y, b)) == blended(x, transposed(a), y, transposed(b)),
{
    assert forall|i: int, j: int|
        #[trigger] mat_add(blended(x, a, y, b), blended(x, c, y, d))(i, j) == blended(
            x,
            mat_add(a, c),
            y,
            mat_add(b, d),
        )(i, j) by {
        lemma_blend_add(x, a(i, j), y, b(i, j), c(i, j), d(i, j));
    }
    assert forall|i: int, j: int|
        #[trigger] mat_neg(blended(x, a, y, b))(i, j) == blended(x, mat_neg(a), y, mat_neg(b))(
            i,
            j,
        ) by {
        lemma_blend_neg(x, a(i, j), y, b(i, j));
    }
    assert forall|i: int, j: int|
        #[trigger] hadamard(blended(x, a, y, b), c)(i, j) == blended(
            x,
            hadamard(a, c),
            y,
            hadamard(b, c),
        )(i, j) by {
        lemma_blend_times(x, a(i, j), y, b(i, j), c(i, j));
    }
    assert(mat_add(blended(x, a, y, b), blended(x, c, y, d)) =~= blended(
        x,
        mat_add(a, c),
        y,
        mat_add(b, d),
    ));
    assert(mat_neg(blended(x, a, y, b)) =~= blended(x, mat_neg(a), y, mat_neg(b)));
    assert(hadamard(blended(x, a, y, b), c) =~= blended(x, hadamard(a, c), y, hadamard(b, c)));
    assert(transposed(blended(x, a, y, b)) =~= blended(x, transposed(a), y, transposed(b)));
}

/// Whether `c` pulls back `x` times what `c1` does and `y` times what `c2` does, at the
/// same place.
pub open spec fn blends<R: Ring>(
    x: R,
    c1: Cotangent<R>,
    y: R,
    c2: Cotangent<R>,
    c: Cotangent<R>,
) -> bool {
    &&& c.dy == blended(x, c1.dy, y, c2.dy)
    &&& c.ds == blended(x, c1.ds, y, c2.ds)
    &&& c.s == c1.s
    &&& c.s == c2.s
    &&& c.u == c1.u
    &&& c.u == c2.u
    &&& c.t == c1.t
    &&& c.t == c2.t
}

/// The parts of a chunk's gradient combine as what is pulled back does.
proof fn lemma_cotangent_blends<R: Ring>(
    f: Frame<R>,
    nl: int,
    nk: int,
    nv: int,
    x: R,
    c1: Cotangent<R>,
    y: R,
    c2: Cotangent<R>,
    c: Cotangent<R>,
)
    requires
        blends(x, c1, y, c2, c),
    ensures
        c.du(f, nl, nk) == blended(x, c1.du(f, nl, nk), y, c2.du(f, nl, nk)),
        c.dqg(nv) == blended(x, c1.dqg(nv), y, c2.dqg(nv)),
        c.dkc(nv) == blended(x, c1.dkc(nv), y, c2.dkc(nv)),
        mat_mul(nv, c.dy, transposed(c.u)) == blended(
            x,
            mat_mul(nv, c1.dy, transposed(c1.u)),
            y,
            mat_mul(nv, c2.dy, transposed(c2.u)),
        ),
        c.dstate(f, nl, nk) == blended(x, c1.dstate(f, nl, nk), y, c2.dstate(f, nl, nk)),
        c.dcarry(f, nl, nv) == blended(x, c1.dcarry(f, nl, nv), y, c2.dcarry(f, nl, nv)),
        forall|d: int| #[trigger]
            c.dlast(f, nl, nv, d) == x * c1.dlast(f, nl, nv, d) + y * c2.dlast(f, nl, nv, d),
{
    let attn = transposed(tril(f.aqk(nk)));
    lemma_mul_blend_right(nl, attn, x, c1.dy, y, c2.dy);
    lemma_mul_blend_right(nk, f.kc(nl), x, c1.ds, y, c2.ds);
    lemma_blend_entries(
        x,
        mat_mul(nl, attn, c1.dy),
        y,
        mat_mul(nl, attn, c2.dy),
        mat_mul(nk, f.kc(nl), c1.ds),
        mat_mul(nk, f.kc(nl), c2.ds),
    );
    let (du1, du2) = (c1.du(f, nl, nk), c2.du(f, nl, nk));
    lemma_mul_blend_left(nv, x, c1.dy, y, c2.dy, transposed(c.s));
    lemma_mul_blend_left(nv, x, c1.dy, y, c2.dy, transposed(c.u));
    lemma_blend_entries(x, c1.ds, y, c2.ds, f.el(nl), f.el(nl));
    lemma_mul_blend_right(nv, c.u, x, transposed(c1.ds), y, transposed(c2.ds));
    // The state that enters.
    lemma_mul_blend_right(nl, transposed(c.t), x, du1, y, du2);
    let (dv1, dv2) = (c1.dvw(f, nl, nk), c2.dvw(f, nl, nk));
    let (qt, kt) = (transposed(f.qg()), transposed(f.kg()));
    lemma_mul_blend_right(nl, qt, x, c1.dy, y, c2.dy);
    lemma_mul_blend_right(nl, kt, x, dv1, y, dv2);
    let (r1, r2) = (mat_mul(nl, qt, c1.dy), mat_mul(nl, qt, c2.dy));
    let (e1, e2) = (mat_mul(nl, kt, dv1), mat_mul(nl, kt, dv2));
    crate::mat::lemma_sub_as_add(blended(x, r1, y, r2), blended(x, e1, y, e2));
    crate::mat::lemma_sub_as_add(r1, e1);
    crate::mat::lemma_sub_as_add(r2, e2);
    lemma_blend_entries(x, e1, y, e2, e1, e2);
    lemma_blend_entries(x, r1, y, r2, mat_neg(e1), mat_neg(e2));
    lemma_blend_entries(
        x,
        mat_sub(r1, e1),
        y,
        mat_sub(r2, e2),
        hadamard(c1.ds, f.el(nl)),
        hadamard(c2.ds, f.el(nl)),
    );
    // The decay to the end.
    let (k1, k2) = (c1.dkc(nv), c2.dkc(nv));
    lemma_blend_entries(x, k1, y, k2, f.k, f.k);
    lemma_blend_entries(x, hadamard(k1, f.k), y, hadamard(k2, f.k), f.ec(nl), f.ec(nl));
    lemma_blend_entries(x, c1.ds, y, c2.ds, c.s, c.s);
    assert forall|d: int| #[trigger]
        c.dlast(f, nl, nv, d) == x * c1.dlast(f, nl, nv, d) + y * c2.dlast(f, nl, nv, d) by {
        let (p1, p2) = (c1.dcarry(f, nl, nv), c2.dcarry(f, nl, nv));
        let (s1, s2) = (hadamard(c1.ds, c.s), hadamard(c2.ds, c.s));
        let (p1d, p2d) = (|j: int| p1(j, d), |j: int| p2(j, d));
        let (s1d, s2d) = (|b: int| s1(d, b), |b: int| s2(d, b));
        lemma_sum_blend(nl, x, p1d, y, p2d);
        lemma_sum_blend(nv, x, s1d, y, s2d);
        lemma_sum_ext(
            nl,
            |j: int| c.dcarry(f, nl, nv)(j, d),
            |j: int| x * p1d(j) + y * p2d(j),
        );
        lemma_sum_ext(
            nv,
            |b: int| hadamard(c.ds, c.s)(d, b),
            |b: int| x * s1d(b) + y * s2d(b),
        );
        let e = f.gate(nl - 1, d).expo();
        lemma_blend_times(x, sum(nv, s1d), y, sum(nv, s2d), e);
        lemma_blend_add(
            x,
            sum(nl, p1d),
            y,
            sum(nl, p2d),
            sum(nv, s1d) * e,
            sum(nv, s2d) * e,
        );
        lemma_sum_ext(nl, |j: int| c1.dcarry(f, nl, nv)(j, d), p1d);
        lemma_sum_ext(nl, |j: int| c2.dcarry(f, nl, nv)(j, d), p2d);
        lemma_sum_ext(nv, |b: int| hadamard(c1.ds, c1.s)(d, b), s1d);
        lemma_sum_ext(nv, |b: int| hadamard(c2.ds, c2.s)(d, b), s2d);
    }
}

/// Whether every part of `g` is `x` times that of `g1` and `y` times that of `g2`.
pub open spec fn steps_blend<R: Ring>(
    x: R,
    g1: ScanGrads<R>,
    y: R,
    g2: ScanGrads<R>,
    g: ScanGrads<R>,
) -> bool {
    &&& g.d_u@ == blended(x, g1.d_u@, y, g2.d_u@)
    &&& g.d_w@ == blended(x, g1.d_w@, y, g2.d_w@)
    &&& g.d_attn@ == blended(x, g1.d_attn@, y, g2.d_attn@)
    &&& g.d_q@ == blended(x, g1.d_q@, y, g2.d_q@)
    &&& g.d_k@ == blended(x, g1.d_k@, y, g2.d_k@)
    &&& g.d_state@ == blended(x, g1.d_state@, y, g2.d_state@)
    &&& g.d_gc is Some == g1.d_gc is Some
    &&& g.d_gc is Some == g2.d_gc is Some
    &&& g.d_gc matches Some(d_gc) ==> d_gc@ == blended(x, g1.d_gc->0@, y, g2.d_gc->0@)
    &&& g.d_eg is Some == g1.d_eg is Some
    &&& g.d_eg is Some == g2.d_eg is Some
    &&& g.d_eg matches Some(d_eg) ==> d_eg@ == blended(x, g1.d_eg->0@, y, g2.d_eg->0@)
}

/// Matrices that combine inside their shape combine everywhere.
proof fn lemma_combined<R: Ring>(
    n: int,
    m: int,
    x: R,
    a: Matrix<R>,
    y: R,
    b: Matrix<R>,
    c: Matrix<R>,
)
    requires
        a.has_shape(n, m),
        b.has_shape(n, m),
        c.has_shape(n, m),
        agree(n, m, c@, blended(x, a@, y, b@)),
    ensures
        c@ == blended(x, a@, y, b@),
{
    assert forall|i: int, j: int| #[trigger] c@(i, j) == blended(x, a@, y, b@)(i, j) by {
        if !(0 <= i < n && 0 <= j < m) {
            lemma_mul_zero(x);
            lemma_mul_zero(y);
            lemma_add_zero(R::zero());
        }
    }
    assert(c@ =~= blended(x, a@, y, b@));
}

/// Walking the scan back over a chunk is linear: what comes out for `x` times one pair
/// of gradients and `y` times another is `x` times what comes out for the one and `y`
/// times what comes out for the other.
pub proof fn law_scan_gradients_are_linear<R: Ring>(
    chunk: Chunk<R>,
    x: R,
    c1: Cotangent<R>,
    g1: ScanGrads<R>,
    y: R,
    c2: Cotangent<R>,
    g2: ScanGrads<R>,
    c: Cotangent<R>,
    g: ScanGrads<R>,
)
    requires
        chunk.well_formed(),
        blends(x, c1, y, c2, c),
        g1.differentiates(chunk, c1),
        g2.differentiates(chunk, c2),
        g.differentiates(chunk, c),
    ensures
        steps_blend(x, g1, y, g2, g),
{
    let (nl, nk, nv) = (chunk.k.rows() as int, chunk.k.cols() as int, chunk.v.cols() as int);
    let f = frame_of(chunk);
    lemma_cotangent_blends(f, nl, nk, nv, x, c1, y, c2, c);
    let s = transposed(c.s);
    let (u1, u2) = (g1.d_u@, g2.d_u@);
    assert(agree(nl, nv, g.d_u@, blended(x, u1, y, u2)));
    lemma_mul_agree_left(nv, nl, g.d_u@, blended(x, u1, y, u2), s);
    lemma_mul_blend_left(nv, x, u1, y, u2, s);
    lemma_blend_entries(x, mat_mul(nv, u1, s), y, mat_mul(nv, u2, s), s, s);
    assert forall|i: int, d: int| 0 <= i < nl && 0 <= d < nk implies #[trigger] g.d_w@(i, d)
        == blended(x, g1.d_w@, y, g2.d_w@)(i, d) by {
        assert(mat_mul(nv, g.d_u@, s)(i, d) == mat_mul(nv, blended(x, u1, y, u2), s)(i, d));
        assert(g.d_w@(i, d) == mat_neg(blended(x, mat_mul(nv, u1, s), y, mat_mul(nv, u2, s)))(
            i,
            d,
        ));
    }
    lemma_blend_entries(x, c1.dqg(nv), y, c2.dqg(nv), f.eg(), f.eg());
    lemma_blend_entries(x, c1.dkc(nv), y, c2.dkc(nv), f.ec(nl), f.ec(nl));
    lemma_blend_entries(x, c1.dqg(nv), y, c2.dqg(nv), f.q, f.q);
    if chunk.gc is Some {
        let (p, p1, p2) = (c.dcarry(f, nl, nv), c1.dcarry(f, nl, nv), c2.dcarry(f, nl, nv));
        let last = |d: int| c.dlast(f, nl, nv, d);
        let last1 = |d: int| c1.dlast(f, nl, nv, d);
        let last2 = |d: int| c2.dlast(f, nl, nv, d);
        assert forall|i: int, d: int| 0 <= i < nl && 0 <= d < nk implies #[trigger] g.d_gc->0@(i, d)
            == blended(x, g1.d_gc->0@, y, g2.d_gc->0@)(i, d) by {
            let (r, r1, r2) = (
                at_row(nl - 1, last)(i, d),
                at_row(nl - 1, last1)(i, d),
                at_row(nl - 1, last2)(i, d),
            );
            assert(g1.d_gc->0@(i, d) == -p1(i, d) + r1);
            assert(g2.d_gc->0@(i, d) == -p2(i, d) + r2);
            lemma_blend_neg(x, p1(i, d), y, p2(i, d));
            assert(r == x * r1 + y * r2) by {
                if i != nl - 1 {
                    broadcast use {lemma_mul_zero, lemma_add_zero};

                }
            }
            lemma_blend_add(x, -p1(i, d), y, -p2(i, d), r1, r2);
        }
    }
    assert(g.d_u@ == blended(x, u1, y, u2)) by {
        lemma_combined(nl, nv, x, g1.d_u, y, g2.d_u, g.d_u);
    }
    lemma_combined(nl, nk, x, g1.d_w, y, g2.d_w, g.d_w);
    lemma_combined(nl, nl, x, g1.d_attn, y, g2.d_attn, g.d_attn);
    lemma_combined(nl, nk, x, g1.d_q, y, g2.d_q, g.d_q);
    lemma_combined(nl, nk, x, g1.d_k, y, g2.d_k, g.d_k);
    lemma_combined(nk, nv, x, g1.d_state, y, g2.d_state, g.d_state);
    if chunk.gc is Some {
        lemma_combined(nl, nk, x, g1.d_gc->0, y, g2.d_gc->0, g.d_gc->0);
        lemma_combined(nl, nk, x, g1.d_eg->0, y, g2.d_eg->0, g.d_eg->0);
    }
}

/// Zero everywhere.
pub open spec fn nought<R: Ring>() -> Mat<R> {
    |i: int, j: int| R::zero()
}

/// Whether every part of `g` is zero.
pub open spec fn step_is_nought<R: Ring>(g: ScanGrads<R>) -> bool {
    &&& g.d_u@ == nought::<R>()
    &&& g.d_w@ == nought::<R>()
    &&& g.d_attn@ == nought::<R>()
    &&& g.d_q@ == nought::<R>()
    &&& g.d_k@ == nought::<R>()
    &&& g.d_state@ == nought::<R>()
    &&& g.d_gc matches Some(d_gc) ==> d_gc@ == nought::<R>()
    &&& g.d_eg matches Some(d_eg) ==> d_eg@ == nought::<R>()
}

/// None of one thing and none of another is nothing.
proof fn lemma_nought_blends<R: Ring>()
    ensures
        forall|a: Mat<R>, b: Mat<R>| #[trigger]
            blended(R::zero(), a, R::zero(), b) == nought::<R>(),
{
    let z = R::zero();
    assert forall|a: Mat<R>, b: Mat<R>| #[trigger] blended(z, a, z, b) == nought::<R>() by {
        assert forall|i: int, j: int| #[trigger] blended(z, a, z, b)(i, j) == z by {
            lemma_zero_mul(a(i, j));
            lemma_zero_mul(b(i, j));
            lemma_add_zero(z);
        }
        assert(blended(z, a, z, b) =~= nought::<R>());
    }
}

/// Where nothing is pulled back, nothing comes out.
pub proof fn law_zero_scan_gradients<R: Ring>(chunk: Chunk<R>, c: Cotangent<R>, g: ScanGrads<R>)
    requires
        chunk.well_formed(),
        c.dy == nought::<R>(),
        c.ds == nought::<R>(),
        g.differentiates(chunk, c),
    ensures
        step_is_nought(g),
{
    let z = R::zero();
    lemma_nought_blends::<R>();
    law_scan_gradients_are_linear(chunk, z, c, g, z, c, g, c, g);
}

/// Walking the scan back over any number of chunks is linear in the gradients of the
/// outputs and of the last state, chunk by chunk.
pub proof fn law_reverse_scan_is_linear<R: Ring>(
    chunks: Seq<Chunk<R>>,
    wys: Seq<Wy<R>>,
    states: Seq<Matrix<R>>,
    x: R,
    dys1: Seq<Matrix<R>>,
    d_last1: Mat<R>,
    g1: Seq<ScanGrads<R>>,
    y: R,
    dys2: Seq<Matrix<R>>,
    d_last2: Mat<R>,
    g2: Seq<ScanGrads<R>>,
    dys: Seq<Matrix<R>>,
    d_last: Mat<R>,
    g: Seq<ScanGrads<R>>,
    n: int,
)
    requires
        0 <= n < chunks.len(),
        forall|i: int| 0 <= i < chunks.len() ==> (#[trigger] chunks[i]).well_formed(),
        forall|i: int|
            0 <= i < chunks.len() ==> (#[trigger] dys[i])@ == blended(x, dys1[i]@, y, dys2[i]@),
        d_last == blended(x, d_last1, y, d_last2),
        walks_back(chunks, wys, states, dys1, d_last1, g1),
        walks_back(chunks, wys, states, dys2, d_last2, g2),
        walks_back(chunks, wys, states, dys, d_last, g),
    ensures
        steps_blend(x, g1[n], y, g2[n], g[n]),
    decreases chunks.len() - n,
{
    if n + 1 < chunks.len() {
        law_reverse_scan_is_linear(
            chunks,
            wys,
            states,
            x,
            dys1,
            d_last1,
            g1,
            y,
            dys2,
            d_last2,
            g2,
            dys,
            d_last,
            g,
            n + 1,
        );
    }
    let (chunk, wy, s) = (chunks[n], wys[n], states[n]@);
    let c1 = cotangent_of(chunk, wy, s, dys1[n]@, arriving(g1, d_last1, n));
    let c2 = cotangent_of(chunk, wy, s, dys2[n]@, arriving(g2, d_last2, n));
    let c = cotangent_of(chunk, wy, s, dys[n]@, arriving(g, d_last, n));
    assert(g1[n].differentiates(chunk, c1));
    assert(g2[n].differentiates(chunk, c2));
    assert(g[n].differentiates(chunk, c));
    law_scan_gradients_are_linear(chunk, x, c1, g1[n], y, c2, g2[n], c, g[n]);
}

/// Where the gradients of the outputs and of the last state are zero, walking the scan
/// back gives zero for every chunk.
pub proof fn law_reverse_scan_of_zero<R: Ring>(
    chunks: Seq<Chunk<R>>,
    wys: Seq<Wy<R>>,
    states: Seq<Matrix<R>>,
    dys: Seq<Matrix<R>>,
    d_last: Mat<R>,
    g: Seq<ScanGrads<R>>,
    n: int,
)
    requires
        0 <= n < chunks.len(),
        forall|i: int| 0 <= i < chunks.len() ==> (#[trigger] chunks[i]).well_formed(),
        forall|i: int| 0 <= i < chunks.len() ==> (#[trigger] dys[i])@ == nought::<R>(),
        d_last == nought::<R>(),
        walks_back(chunks, wys, states, dys, d_last, g),
    ensures
        step_is_nought(g[n]),
{
    let z = R::zero();
    lemma_nought_blends::<R>();
    law_reverse_scan_is_linear(
        chunks,
        wys,
        states,
        z,
        dys,
        d_last,
        g,
        z,
        dys,
        d_last,
        g,
        dys,
        d_last,
        g,
        n,
    );
}

} // verus!
