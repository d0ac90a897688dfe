//! The gradient of the chunkwise form, as a pairing.
//!
//! The outputs of a chunk change with its inputs at rates that are the `eps` parts
//! of the chunkwise form over dual numbers. The gradient is what turns a pairing
//! with the rates of the outputs into a pairing with the rates of the inputs.
use vstd::prelude::*;

use crate::delta::rule::decayed_scores;
use crate::dual::{eps_part, lemma_sum_parts, re_part, Dual};
use crate::mat::{mat_sub, Mat};
use crate::pair::{lemma_pair_agree, lemma_pair_sub_left, pair};
use crate::ring::{
    lemma_distributes_right, lemma_mul_associates, lemma_mul_commutes, lemma_mul_neg, Ring,
};
use crate::sum::{
    lemma_sum3_add, lemma_sum3_ext, lemma_sum3_neg, lemma_sum3_swap_inner, lemma_sum3_swap_outer,
    lemma_sum_ext, lemma_sum_scale, lemma_sum_scale_right, sum, sum3,
};

verus! {

/// The decay from step `j` to step `i` on channel `d`.
pub open spec fn span<R: Ring>(g: Mat<R>, i: int, j: int, d: int) -> R {
    (g(i, d) - g(j, d)).expo()
}

/// The gradient of scores with respect to their rows.
pub open spec fn score_rows<R: Ring>(nl: int, da: Mat<R>, k: Mat<R>, g: Mat<R>) -> Mat<R> {
    |i: int, d: int| sum(nl, |j: int| da(i, j) * (k(j, d) * span(g, i, j, d)))
}

/// The gradient of scores with respect to the keys.
pub open spec fn score_keys<R: Ring>(nl: int, da: Mat<R>, rows: Mat<R>, g: Mat<R>) -> Mat<R> {
    |j: int, d: int| sum(nl, |i: int| da(i, j) * (rows(i, d) * span(g, i, j, d)))
}

/// What one pair of steps contributes to the gradient of the accumulated decay.
pub open spec fn score_term<R: Ring>(
    da: Mat<R>,
    rows: Mat<R>,
    k: Mat<R>,
    g: Mat<R>,
    i: int,
    j: int,
    d: int,
) -> R {
    da(i, j) * ((rows(i, d) * k(j, d)) * span(g, i, j, d))
}

/// The gradient of scores with respect to the accumulated decay.
pub open spec fn score_gate<R: Ring>(
    nl: int,
    da: Mat<R>,
    rows: Mat<R>,
    k: Mat<R>,
    g: Mat<R>,
) -> Mat<R> {
    |i: int, d: int|
        sum(nl, |j: int| score_term(da, rows, k, g, i, j, d)) - sum(
            nl,
            |j: int| score_term(da, rows, k, g, j, i, d),
        )
}

/// Scores of dual numbers, part by part.
pub proof fn lemma_scores_parts<R: Ring>(
    nk: int,
    rows: Mat<Dual<R>>,
    k: Mat<Dual<R>>,
    g: Mat<Dual<R>>,
    i: int,
    j: int,
)
    ensures
        decayed_scores(nk, rows, k, g)(i, j).re == decayed_scores(
            nk,
            re_part(rows),
            re_part(k),
            re_part(g),
        )(i, j),
        decayed_scores(nk, rows, k, g)(i, j).eps == sum(
            nk,
            |d: int|
                (rows(i, d).eps * k(j, d).re + rows(i, d).re * k(j, d).eps) * span(
                    re_part(g),
                    i,
                    j,
                    d,
                ) + (rows(i, d).re * k(j, d).re) * (span(re_part(g), i, j, d) * (g(i, d).eps - g(
                    j,
                    d,
                ).eps)),
        ),
{
    let f = |d: int| (rows(i, d) * k(j, d)) * (g(i, d) - g(j, d)).expo();
    lemma_sum_parts(nk, f);
    lemma_sum_ext(
        nk,
        |d: int| f(d).re,
        |d: int|
            (re_part(rows)(i, d) * re_part(k)(j, d)) * (re_part(g)(i, d) - re_part(g)(j, d)).expo(),
    );
    lemma_sum_ext(
        nk,
        |d: int| f(d).eps,
        |d: int|
            (rows(i, d).eps * k(j, d).re + rows(i, d).re * k(j, d).eps) * span(
                re_part(g),
                i,
                j,
                d,
            ) + (rows(i, d).re * k(j, d).re) * (span(re_part(g), i, j, d) * (g(i, d).eps - g(
                j,
                d,
            ).eps)),
    );
}

/// A pairing as a triple sum over an inner contraction.
proof fn lemma_pair_as_sum3<R: Ring>(n: int, m: int, p: int, x: spec_fn(int, int, int) -> R, a: Mat<R>, b: Mat<R>)
    requires
        forall|i: int, j: int|
            0 <= i < n && 0 <= j < m ==> #[trigger] a(i, j) * b(i, j) == sum(
                p,
                |k: int| x(i, j, k),
            ),
    ensures
        pair(n, m, a, b) == sum3(n, m, p, x),
{
    let f = |i: int| sum(m, |j: int| a(i, j) * b(i, j));
    let g = |i: int| sum(m, |j: int| sum(p, |k: int| x(i, j, k)));
    assert forall|i: int| 0 <= i < n implies #[trigger] f(i) == g(i) by {
        let fj = |j: int| a(i, j) * b(i, j);
        let gj = |j: int| sum(p, |k: int| x(i, j, k));
        assert forall|j: int| 0 <= j < m implies #[trigger] fj(j) == gj(j) by {
            assert(a(i, j) * b(i, j) == gj(j));
        }
        lemma_sum_ext(m, fj, gj);
    }
    lemma_sum_ext(n, f, g);
}

/// The gradient of scores: the pairing with their rate of change is a pairing
/// with the rates of the rows, the keys and the accumulated decay.
pub proof fn lemma_scores_adjoint<R: Ring>(
    nl: int,
    nk: int,
    da: Mat<R>,
    rows: Mat<Dual<R>>,
    k: Mat<Dual<R>>,
    g: Mat<Dual<R>>,
)
    ensures
        pair(nl, nl, da, eps_part(decayed_scores(nk, rows, k, g))) == pair(
            nl,
            nk,
            score_rows(nl, da, re_part(k), re_part(g)),
            eps_part(rows),
        ) + pair(nl, nk, score_keys(nl, da, re_part(rows), re_part(g)), eps_part(k)) + pair(
            nl,
            nk,
            score_gate(nl, da, re_part(rows), re_part(k), re_part(g)),
            eps_part(g),
        ),
{
    let (r, kk, gg) = (re_part(rows), re_part(k), re_part(g));
    let (rd, kd, gd) = (eps_part(rows), eps_part(k), eps_part(g));
    let scores = decayed_scores(nk, rows, k, g);
    let t1 = |i: int, j: int, d: int| (da(i, j) * (kk(j, d) * span(gg, i, j, d))) * rd(i, d);
    let t2 = |i: int, j: int, d: int| (da(i, j) * (r(i, d) * span(gg, i, j, d))) * kd(j, d);
    let t3 = |i: int, j: int, d: int| score_term(da, r, kk, gg, i, j, d) * gd(i, d);
    let t4 = |i: int, j: int, d: int| score_term(da, r, kk, gg, i, j, d) * gd(j, d);
    let t12 = |i: int, j: int, d: int| t1(i, j, d) + t2(i, j, d);
    let n4 = |i: int, j: int, d: int| -t4(i, j, d);
    let t34 = |i: int, j: int, d: int| t3(i, j, d) + n4(i, j, d);
    let all = |i: int, j: int, d: int| t12(i, j, d) + t34(i, j, d);
    assert forall|i: int, j: int| 0 <= i < nl && 0 <= j < nl implies #[trigger] da(i, j) * eps_part(
        scores,
    )(i, j) == sum(nk, |d: int| all(i, j, d)) by {
        lemma_scores_parts(nk, rows, k, g, i, j);
        let inner = |d: int|
            (rd(i, d) * kk(j, d) + r(i, d) * kd(j, d)) * span(gg, i, j, d) + (r(i, d) * kk(j, d))
                * (span(gg, i, j, d) * (gd(i, d) - gd(j, d)));
        lemma_sum_ext(
            nk,
            |d: int|
                (rows(i, d).eps * k(j, d).re + rows(i, d).re * k(j, d).eps) * span(
                    re_part(g),
                    i,
                    j,
                    d,
                ) + (rows(i, d).re * k(j, d).re) * (span(re_part(g), i, j, d) * (g(i, d).eps - g(
                    j,
                    d,
                ).eps)),
            inner,
        );
        lemma_sum_scale(nk, da(i, j), inner);
        assert forall|d: int| 0 <= d < nk implies da(i, j) * #[trigger] inner(d) == all(i, j, d) by {
            lemma_score_rates(
                da(i, j),
                r(i, d),
                kk(j, d),
                span(gg, i, j, d),
                rd(i, d),
                kd(j, d),
                gd(i, d),
                gd(j, d),
            );
        }
        lemma_sum_ext(nk, |d: int| da(i, j) * inner(d), |d: int| all(i, j, d));
    }
    lemma_pair_as_sum3(nl, nl, nk, all, da, eps_part(scores));
    lemma_sum3_add(nl, nl, nk, t12, t34);
    lemma_sum3_add(nl, nl, nk, t1, t2);
    lemma_sum3_add(nl, nl, nk, t3, n4);
    lemma_sum3_neg(nl, nl, nk, t4);
    // The rows: sum over the columns first.
    lemma_sum3_swap_inner(nl, nl, nk, t1);
    let for_rows = |i: int, d: int, j: int| da(i, j) * (kk(j, d) * span(gg, i, j, d));
    lemma_fold(nl, nk, nl, for_rows, rd);
    lemma_sum3_ext(
        nl,
        nk,
        nl,
        |i: int, d: int, j: int| t1(i, j, d),
        |i: int, d: int, j: int| for_rows(i, d, j) * rd(i, d),
    );
    let rs = |i: int, d: int| sum(nl, |j: int| for_rows(i, d, j));
    assert forall|i: int, d: int| 0 <= i < nl && 0 <= d < nk implies #[trigger] rs(i, d)
        == score_rows(nl, da, kk, gg)(i, d) by {
        lemma_sum_ext(
            nl,
            |j: int| for_rows(i, d, j),
            |j: int| da(i, j) * (kk(j, d) * span(gg, i, j, d)),
        );
    }
    lemma_pair_agree(nl, nk, rs, rd, score_rows(nl, da, kk, gg), rd);
    assert(sum3(nl, nl, nk, t1) == pair(nl, nk, score_rows(nl, da, kk, gg), rd));
    // The keys: sum over the rows first.
    lemma_sum3_swap_outer(nl, nl, nk, t2);
    let t2b = |j: int, i: int, d: int| t2(i, j, d);
    lemma_sum3_swap_inner(nl, nl, nk, t2b);
    let for_keys = |j: int, d: int, i: int| da(i, j) * (r(i, d) * span(gg, i, j, d));
    lemma_fold(nl, nk, nl, for_keys, kd);
    lemma_sum3_ext(
        nl,
        nk,
        nl,
        |j: int, d: int, i: int| t2b(j, i, d),
        |j: int, d: int, i: int| for_keys(j, d, i) * kd(j, d),
    );
    let ks = |j: int, d: int| sum(nl, |i: int| for_keys(j, d, i));
    assert forall|j: int, d: int| 0 <= j < nl && 0 <= d < nk implies #[trigger] ks(j, d)
        == score_keys(nl, da, r, gg)(j, d) by {
        lemma_sum_ext(
            nl,
            |i: int| for_keys(j, d, i),
            |i: int| da(i, j) * (r(i, d) * span(gg, i, j, d)),
        );
    }
    lemma_pair_agree(nl, nk, ks, kd, score_keys(nl, da, r, gg), kd);
    assert(sum3(nl, nl, nk, t2) == pair(nl, nk, score_keys(nl, da, r, gg), kd));
    // The accumulated decay, once as a row and once as a column.
    lemma_sum3_swap_inner(nl, nl, nk, t3);
    let as_row = |i: int, d: int, j: int| score_term(da, r, kk, gg, i, j, d);
    lemma_fold(nl, nk, nl, as_row, gd);
    lemma_sum3_ext(
        nl,
        nk,
        nl,
        |i: int, d: int, j: int| t3(i, j, d),
        |i: int, d: int, j: int| as_row(i, d, j) * gd(i, d),
    );
    lemma_sum3_swap_outer(nl, nl, nk, t4);
    let t4b = |j: int, i: int, d: int| t4(i, j, d);
    lemma_sum3_swap_inner(nl, nl, nk, t4b);
    let as_col = |j: int, d: int, i: int| score_term(da, r, kk, gg, i, j, d);
    lemma_fold(nl, nk, nl, as_col, gd);
    lemma_sum3_ext(
        nl,
        nk,
        nl,
        |j: int, d: int, i: int| t4b(j, i, d),
        |j: int, d: int, i: int| as_col(j, d, i) * gd(j, d),
    );
    let row_sums = |i: int, d: int| sum(nl, |j: int| as_row(i, d, j));
    let col_sums = |j: int, d: int| sum(nl, |i: int| as_col(j, d, i));
    lemma_pair_sub_left(nl, nk, row_sums, col_sums, gd);
    assert forall|i: int, d: int| 0 <= i < nl && 0 <= d < nk implies #[trigger] mat_sub(
        row_sums,
        col_sums,
    )(i, d) == score_gate(nl, da, r, kk, gg)(i, d) by {
        lemma_sum_ext(
            nl,
            |j: int| as_row(i, d, j),
            |j: int| score_term(da, r, kk, gg, i, j, d),
        );
        lemma_sum_ext(
            nl,
            |j: int| as_col(i, d, j),
            |j: int| score_term(da, r, kk, gg, j, i, d),
        );
    }
    lemma_pair_agree(
        nl,
        nk,
        mat_sub(row_sums, col_sums),
        gd,
        score_gate(nl, da, r, kk, gg),
        gd,
    );
    assert(sum3(nl, nl, nk, t3) == pair(nl, nk, row_sums, gd));
    assert(sum3(nl, nl, nk, t4) == pair(nl, nk, col_sums, gd));
    R::sub_is_add_neg(pair(nl, nk, row_sums, gd), pair(nl, nk, col_sums, gd));
}

/// The rate of change of one term of a score, weighted.
proof fn lemma_score_rates<R: Ring>(w: R, r: R, k: R, e: R, rd: R, kd: R, gi: R, gj: R)
    ensures
        w * ((rd * k + r * kd) * e + (r * k) * (e * (gi - gj))) == ((w * (k * e)) * rd + (w * (r
            * e)) * kd) + ((w * ((r * k) * e)) * gi + (-((w * ((r * k) * e)) * gj))),
{
    let p = (r * k) * e;
    assert((rd * k + r * kd) * e == (rd * k) * e + (r * kd) * e) by {
        lemma_distributes_right(e, rd * k, r * kd);
    }
    assert((r * k) * (e * (gi - gj)) == p * gi + (-(p * gj))) by {
        R::mul_associates(r * k, e, gi - gj);
        R::sub_is_add_neg(gi, gj);
        R::mul_distributes(p, gi, -gj);
        lemma_mul_neg(p, gj);
    }
    let (x, y, z, v) = ((rd * k) * e, (r * kd) * e, p * gi, -(p * gj));
    R::mul_distributes(w, x + y, z + v);
    R::mul_distributes(w, x, y);
    R::mul_distributes(w, z, v);
    lemma_mul_neg(w, p * gj);
    R::mul_associates(w, p, gi);
    R::mul_associates(w, p, gj);
    assert(w * x == (w * (k * e)) * rd && w * y == (w * (r * e)) * kd) by {
        broadcast use {lemma_mul_commutes, lemma_mul_associates};

    }
}

/// A triple sum with a factor that the inner index does not reach is a pairing.
proof fn lemma_fold<R: Ring>(n: int, m: int, p: int, x: spec_fn(int, int, int) -> R, b: Mat<R>)
    ensures
        sum3(n, m, p, |i: int, j: int, k: int| x(i, j, k) * b(i, j)) == pair(
            n,
            m,
            |i: int, j: int| sum(p, |k: int| x(i, j, k)),
            b,
        ),
{
    let a = |i: int, j: int| sum(p, |k: int| x(i, j, k));
    let y = |i: int, j: int, k: int| x(i, j, k) * b(i, j);
    assert forall|i: int, j: int| 0 <= i < n && 0 <= j < m implies #[trigger] a(i, j) * b(i, j)
        == sum(p, |k: int| y(i, j, k)) by {
        let f = |k: int| x(i, j, k);
        lemma_sum_scale_right(p, f, b(i, j));
        lemma_sum_ext(p, |k: int| f(k) * b(i, j), |k: int| y(i, j, k));
    }
    lemma_pair_as_sum3(n, m, p, y, a, b);
}

} // verus!
