//! One chunk as a function of its inputs, and the gradient of that function.
use vstd::prelude::*;

use crate::delta::adjoint::{lemma_scores_adjoint, score_gate, score_keys, score_rows};
use crate::delta::rule::{decayed_rows, decayed_scores};
use crate::delta::tri::{is_inverse, unit_lower};
use crate::dual::{eps_part, lemma_mul_parts, re_part, Dual};
use crate::mat::{
    agree, eye, hadamard, lemma_eye_mul, lemma_mul_agree_left, lemma_mul_agree_right,
    lemma_mul_assoc, lemma_mul_neg_left, lemma_mul_sub_left, lemma_transpose_mul, mat_add,
    mat_mul, mat_neg, mat_sub, transposed, tril, tril_strict, Mat,
};
use crate::pair::{
    lemma_pair_add, lemma_pair_add_left, lemma_pair_agree, lemma_pair_hadamard,
    lemma_pair_mul_left, lemma_pair_mul_right, lemma_pair_neg, lemma_pair_sub, lemma_pair_sub_left,
    lemma_pair_transposed, lemma_pair_tril, pair,
};
use crate::ring::{
    group_add, lemma_add_associates, lemma_add_commutes, lemma_add_zero,
    lemma_distributes_right, lemma_mul_commutes, lemma_neg_add, lemma_neg_zero, lemma_zero_mul, Ring,
};
use crate::sum::{
    lemma_sum_ext, lemma_sum_scale_right, lemma_sum_single, lemma_sum_swap, lemma_sum_zero, sum,
};

verus! {

/// The inputs of one chunk, with gates on every channel and the log decay
/// accumulated.
#[verifier::ext_equal]
pub struct Frame<R> {
    /// Queries times the readout scale.
    pub q: Mat<R>,
    /// Keys.
    pub k: Mat<R>,
    /// Values.
    pub v: Mat<R>,
    /// The erase gate.
    pub erase: Mat<R>,
    /// The write gate.
    pub write: Mat<R>,
    /// The accumulated log decay.
    pub gate: Mat<R>,
}

impl<R: Ring> Frame<R> {
    /// The keys times the erase gate.
    pub open spec fn ke(self) -> Mat<R> {
        hadamard(self.k, self.erase)
    }

    /// The values times the write gate.
    pub open spec fn vw(self) -> Mat<R> {
        hadamard(self.v, self.write)
    }

    /// The erase keys decayed from the start of the chunk.
    pub open spec fn kg(self) -> Mat<R> {
        decayed_rows(self.ke(), self.gate)
    }

    /// The queries decayed from the start of the chunk.
    pub open spec fn qg(self) -> Mat<R> {
        decayed_rows(self.q, self.gate)
    }

    /// The decay from each step to the end of the chunk.
    pub open spec fn ec(self, nl: int) -> Mat<R> {
        |j: int, d: int| (self.gate(nl - 1, d) - self.gate(j, d)).expo()
    }

    /// The accumulated log decay at a step.
    pub open spec fn gate(self, i: int, d: int) -> R {
        (self.gate)(i, d)
    }

    /// The keys decayed from their own step to the end of the chunk.
    pub open spec fn kc(self, nl: int) -> Mat<R> {
        hadamard(self.k, self.ec(nl))
    }

    /// The decay over the whole chunk, on the state's key axis.
    pub open spec fn el(self, nl: int) -> Mat<R> {
        |d: int, c: int| self.gate(nl - 1, d).expo()
    }

    /// The key-key scores.
    pub open spec fn akk(self, nk: int) -> Mat<R> {
        decayed_scores(nk, self.ke(), self.k, self.gate)
    }

    /// The query-key scores.
    pub open spec fn aqk(self, nk: int) -> Mat<R> {
        decayed_scores(nk, self.q, self.k, self.gate)
    }

    /// Whether `u` holds the deltas of the chunk when `s` enters it.
    pub open spec fn solved_by(self, nl: int, nk: int, nv: int, s: Mat<R>, u: Mat<R>) -> bool {
        agree(
            nl,
            nv,
            u,
            mat_sub(
                self.vw(),
                mat_add(mat_mul(nk, self.kg(), s), mat_mul(nl, tril_strict(self.akk(nk)), u)),
            ),
        )
    }

    /// The outputs of the chunk when `s` enters it and its deltas are `u`.
    pub open spec fn outputs(self, nl: int, nk: int, s: Mat<R>, u: Mat<R>) -> Mat<R> {
        mat_add(mat_mul(nk, self.qg(), s), mat_mul(nl, tril(self.aqk(nk)), u))
    }

    /// The state that leaves the chunk when `s` enters it and its deltas are `u`.
    pub open spec fn leaving(self, nl: int, s: Mat<R>, u: Mat<R>) -> Mat<R> {
        mat_add(hadamard(self.el(nl), s), mat_mul(nl, transposed(self.kc(nl)), u))
    }
}

/// The values of a frame of dual numbers.
pub open spec fn re_frame<R>(f: Frame<Dual<R>>) -> Frame<R> {
    Frame {
        q: re_part(f.q),
        k: re_part(f.k),
        v: re_part(f.v),
        erase: re_part(f.erase),
        write: re_part(f.write),
        gate: re_part(f.gate),
    }
}

/// What the gradient of a chunk is computed from.
#[verifier::ext_equal]
pub struct Cotangent<R> {
    /// The gradient of the outputs.
    pub dy: Mat<R>,
    /// The gradient of the state that leaves the chunk.
    pub ds: Mat<R>,
    /// The state that enters the chunk.
    pub s: Mat<R>,
    /// The deltas of the chunk.
    pub u: Mat<R>,
    /// The inverse of the chunk's triangular system.
    pub t: Mat<R>,
}

impl<R: Ring> Cotangent<R> {
    /// The gradient of the deltas.
    pub open spec fn du(self, f: Frame<R>, nl: int, nk: int) -> Mat<R> {
        mat_add(
            mat_mul(nl, transposed(tril(f.aqk(nk))), self.dy),
            mat_mul(nk, f.kc(nl), self.ds),
        )
    }

    /// The gradient of the right-hand side of the triangular system.
    pub open spec fn dvw(self, f: Frame<R>, nl: int, nk: int) -> Mat<R> {
        mat_mul(nl, transposed(self.t), self.du(f, nl, nk))
    }

    /// The gradient of the decayed queries.
    pub open spec fn dqg(self, nv: int) -> Mat<R> {
        mat_mul(nv, self.dy, transposed(self.s))
    }

    /// The gradient of the decayed erase keys.
    pub open spec fn dkg(self, f: Frame<R>, nl: int, nk: int, nv: int) -> Mat<R> {
        mat_neg(mat_mul(nv, self.dvw(f, nl, nk), transposed(self.s)))
    }

    /// The gradient of the carried keys.
    pub open spec fn dkc(self, nv: int) -> Mat<R> {
        mat_mul(nv, self.u, transposed(self.ds))
    }

    /// The gradient of the query-key scores.
    pub open spec fn daqk(self, nv: int) -> Mat<R> {
        tril(mat_mul(nv, self.dy, transposed(self.u)))
    }

    /// The gradient of the key-key scores.
    pub open spec fn dakk(self, f: Frame<R>, nl: int, nk: int, nv: int) -> Mat<R> {
        mat_neg(tril_strict(mat_mul(nv, self.dvw(f, nl, nk), transposed(self.u))))
    }

    /// The gradient of the state that enters the chunk.
    pub open spec fn dstate(self, f: Frame<R>, nl: int, nk: int) -> Mat<R> {
        mat_add(
            mat_sub(
                mat_mul(nl, transposed(f.qg()), self.dy),
                mat_mul(nl, transposed(f.kg()), self.dvw(f, nl, nk)),
            ),
            hadamard(self.ds, f.el(nl)),
        )
    }
}

/// The values of what a frame of dual numbers derives are what its values derive.
proof fn lemma_frame_parts<R: Ring>(f: Frame<Dual<R>>, nl: int, nk: int)
    ensures
        re_part(f.vw()) == re_frame(f).vw(),
        re_part(f.ke()) == re_frame(f).ke(),
        re_part(f.kg()) == re_frame(f).kg(),
        re_part(f.qg()) == re_frame(f).qg(),
        re_part(f.kc(nl)) == re_frame(f).kc(nl),
        re_part(f.el(nl)) == re_frame(f).el(nl),
        re_part(f.akk(nk)) == re_frame(f).akk(nk),
        re_part(f.aqk(nk)) == re_frame(f).aqk(nk),
        re_part(tril(f.aqk(nk))) == tril(re_frame(f).aqk(nk)),
        eps_part(tril(f.aqk(nk))) == tril(eps_part(f.aqk(nk))),
        re_part(tril_strict(f.akk(nk))) == tril_strict(re_frame(f).akk(nk)),
        eps_part(tril_strict(f.akk(nk))) == tril_strict(eps_part(f.akk(nk))),
{
    let r = re_frame(f);
    assert(re_part(f.vw()) =~= r.vw());
    assert(re_part(f.ke()) =~= r.ke());
    assert(re_part(f.kg()) =~= r.kg());
    assert(re_part(f.qg()) =~= r.qg());
    assert(re_part(f.kc(nl)) =~= r.kc(nl));
    assert(re_part(f.el(nl)) =~= r.el(nl));
    assert forall|i: int, j: int|
        (#[trigger] f.akk(nk)(i, j)).re == r.akk(nk)(i, j) by {
        crate::delta::adjoint::lemma_scores_parts(nk, f.ke(), f.k, f.gate, i, j);
    }
    assert(re_part(f.akk(nk)) =~= r.akk(nk));
    assert forall|i: int, j: int|
        (#[trigger] f.aqk(nk)(i, j)).re == r.aqk(nk)(i, j) by {
        crate::delta::adjoint::lemma_scores_parts(nk, f.q, f.k, f.gate, i, j);
    }
    assert(re_part(f.aqk(nk)) =~= r.aqk(nk));
    assert(re_part(tril(f.aqk(nk))) =~= tril(r.aqk(nk)));
    assert(eps_part(tril(f.aqk(nk))) =~= tril(eps_part(f.aqk(nk))));
    assert(re_part(tril_strict(f.akk(nk))) =~= tril_strict(r.akk(nk)));
    assert(eps_part(tril_strict(f.akk(nk))) =~= tril_strict(eps_part(f.akk(nk))));
}

/// The rate of change of the deltas: the triangular system turns it back.
proof fn lemma_delta_rates<R: Ring>(
    f: Frame<Dual<R>>,
    nl: int,
    nk: int,
    nv: int,
    s: Mat<Dual<R>>,
    u: Mat<Dual<R>>,
    t: Mat<R>,
    du: Mat<R>,
)
    requires
        f.solved_by(nl, nk, nv, s, u),
        is_inverse(nl, t, unit_lower(mat_neg(re_frame(f).akk(nk)))),
    ensures
        pair(nl, nv, du, eps_part(u)) == pair(
            nl,
            nv,
            mat_mul(nl, transposed(t), du),
            mat_sub(
                eps_part(f.vw()),
                mat_add(
                    mat_add(
                        mat_mul(nk, eps_part(f.kg()), re_part(s)),
                        mat_mul(nk, re_frame(f).kg(), eps_part(s)),
                    ),
                    mat_mul(nl, tril_strict(eps_part(f.akk(nk))), re_part(u)),
                ),
            ),
        ),
{
    lemma_frame_parts(f, nl, nk);
    let r = re_frame(f);
    let (kgs, au) = (mat_mul(nk, f.kg(), s), mat_mul(nl, tril_strict(f.akk(nk)), u));
    lemma_mul_parts(nk, f.kg(), s);
    lemma_mul_parts(nl, tril_strict(f.akk(nk)), u);
    let strict = tril_strict(r.akk(nk));
    let ud = eps_part(u);
    let m = unit_lower(mat_neg(r.akk(nk)));
    let rhs = mat_sub(
        eps_part(f.vw()),
        mat_add(
            mat_add(mat_mul(nk, eps_part(f.kg()), re_part(s)), mat_mul(nk, r.kg(), eps_part(s))),
            mat_mul(nl, tril_strict(eps_part(f.akk(nk))), re_part(u)),
        ),
    );
    assert(tril_strict(mat_neg(r.akk(nk))) =~= mat_neg(strict)) by {
        lemma_neg_zero::<R>();
    }
    lemma_mul_sub_left(nl, eye(), mat_neg(strict), ud);
    lemma_mul_neg_left(nl, strict, ud);
    assert forall|i: int, c: int| 0 <= i < nl && 0 <= c < nv implies #[trigger] mat_mul(nl, m, ud)(
        i,
        c,
    ) == rhs(i, c) by {
        lemma_eye_mul(nl, ud, i, c);
        assert(u(i, c) == f.vw()(i, c) - (kgs(i, c) + au(i, c)));
        let x = eps_part(kgs)(i, c);
        let y = mat_mul(nl, tril_strict(eps_part(f.akk(nk))), re_part(u))(i, c);
        let z = mat_mul(nl, strict, ud)(i, c);
        let v = eps_part(f.vw())(i, c);
        assert(eps_part(au)(i, c) == y + z);
        assert(ud(i, c) == v - (x + (y + z)));
        assert((v - (x + (y + z))) - (-z) == v - (x + y)) by {
            broadcast use group_add;

        }
    }
    lemma_mul_assoc(nl, nl, t, m, ud);
    lemma_mul_agree_left(nl, nl, mat_mul(nl, t, m), eye(), ud);
    lemma_mul_agree_right(nl, nv, t, mat_mul(nl, m, ud), rhs);
    assert forall|i: int, c: int| 0 <= i < nl && 0 <= c < nv implies #[trigger] ud(i, c)
        == mat_mul(nl, t, rhs)(i, c) by {
        lemma_eye_mul(nl, ud, i, c);
        assert(mat_mul(nl, t, mat_mul(nl, m, ud))(i, c) == mat_mul(nl, t, rhs)(i, c));
        assert(mat_mul(nl, mat_mul(nl, t, m), ud)(i, c) == mat_mul(nl, eye(), ud)(i, c));
    }
    lemma_pair_agree(nl, nv, du, ud, du, mat_mul(nl, t, rhs));
    lemma_pair_mul_right(nl, nv, nl, du, t, rhs);
}

proof fn lemma_regroup<R: Ring>(
    a1: R,
    a2: R,
    a3: R,
    a4: R,
    b1: R,
    b2: R,
    b3: R,
    b4: R,
    v: R,
    x: R,
    y: R,
    z: R,
)
    requires
        a4 + b4 == v - ((x + y) + z),
    ensures
        ((a1 + a2) + (a3 + a4)) + ((b1 + b2) + (b3 + b4)) == ((((a1 + (-x)) + (v + b3)) + (a3 + (
        -z))) + b1) + ((a2 - y) + b2),
{
    let w = a4 + b4;
    assert(((a1 + a2) + (a3 + a4)) + ((b1 + b2) + (b3 + b4)) == ((a1 + a2) + (a3 + b1)) + ((b2 + b3)
        + w)) by {
        broadcast use {lemma_add_commutes, lemma_add_associates};

    }
    R::sub_is_add_neg(v, (x + y) + z);
    lemma_neg_add(x + y, z);
    lemma_neg_add(x, y);
    R::sub_is_add_neg(a2, y);
    let (nx, ny, nz) = (-x, -y, -z);
    assert(w == v + ((nx + ny) + nz));
    let (p, q) = (a1 + a3, b1 + b3);
    assert(((a1 + a2) + (a3 + b1)) + ((b2 + b3) + w) == (p + q) + ((a2 + b2) + w)) by {
        broadcast use {lemma_add_commutes, lemma_add_associates};

    }
    let c = a2 + b2;
    assert(c + (v + ((nx + ny) + nz)) == (v + (nx + nz)) + (ny + c)) by {
        broadcast use {lemma_add_commutes, lemma_add_associates};

    }
    assert(ny + c == (a2 + ny) + b2) by {
        broadcast use {lemma_add_commutes, lemma_add_associates};

    }
    let e = ny + c;
    R::add_associates(p + q, v + (nx + nz), e);
    assert((p + q) + (v + (nx + nz)) == (((a1 + nx) + (v + b3)) + (a3 + nz)) + b1) by {
        broadcast use {lemma_add_commutes, lemma_add_associates};

    }
}

/// The gradient of a chunk through its deltas, outputs and leaving state.
pub proof fn lemma_chunk_adjoint<R: Ring>(
    f: Frame<Dual<R>>,
    nl: int,
    nk: int,
    nv: int,
    s: Mat<Dual<R>>,
    u: Mat<Dual<R>>,
    g: Cotangent<R>,
)
    requires
        f.solved_by(nl, nk, nv, s, u),
        is_inverse(nl, g.t, unit_lower(mat_neg(re_frame(f).akk(nk)))),
        g.s == re_part(s),
        g.u == re_part(u),
    ensures
        pair(nl, nv, g.dy, eps_part(f.outputs(nl, nk, s, u))) + pair(
            nk,
            nv,
            g.ds,
            eps_part(f.leaving(nl, s, u)),
        ) == ((((pair(nl, nk, g.dqg(nv), eps_part(f.qg())) + pair(
            nl,
            nk,
            g.dkg(re_frame(f), nl, nk, nv),
            eps_part(f.kg()),
        )) + (pair(nl, nv, g.dvw(re_frame(f), nl, nk), eps_part(f.vw())) + pair(
            nl,
            nk,
            g.dkc(nv),
            eps_part(f.kc(nl)),
        ))) + (pair(nl, nl, g.daqk(nv), eps_part(f.aqk(nk))) + pair(
            nl,
            nl,
            g.dakk(re_frame(f), nl, nk, nv),
            eps_part(f.akk(nk)),
        ))) + pair(nk, nv, hadamard(g.ds, g.s), eps_part(f.el(nl)))) + pair(
            nk,
            nv,
            g.dstate(re_frame(f), nl, nk),
            eps_part(s),
        ),
{
    lemma_frame_parts(f, nl, nk);
    let r = re_frame(f);
    let (sv, sd, uv, ud) = (re_part(s), eps_part(s), re_part(u), eps_part(u));
    let (dy, dd, t) = (g.dy, g.ds, g.t);
    let attn = tril(r.aqk(nk));
    // The outputs.
    let (m1, m2) = (mat_mul(nk, f.qg(), s), mat_mul(nl, tril(f.aqk(nk)), u));
    lemma_mul_parts(nk, f.qg(), s);
    lemma_mul_parts(nl, tril(f.aqk(nk)), u);
    assert(eps_part(f.outputs(nl, nk, s, u)) =~= mat_add(eps_part(m1), eps_part(m2)));
    lemma_pair_add(nl, nv, dy, eps_part(m1), eps_part(m2));
    let (o1, o2) = (mat_mul(nk, eps_part(f.qg()), sv), mat_mul(nk, r.qg(), sd));
    lemma_pair_add(nl, nv, dy, o1, o2);
    let aqkd = tril(eps_part(f.aqk(nk)));
    let (o3, o4) = (mat_mul(nl, aqkd, uv), mat_mul(nl, attn, ud));
    lemma_pair_add(nl, nv, dy, o3, o4);
    let (a1, a2) = (pair(nl, nv, dy, o1), pair(nl, nv, dy, o2));
    let (a3, a4) = (pair(nl, nv, dy, o3), pair(nl, nv, dy, o4));
    lemma_pair_mul_left(nl, nv, nk, dy, eps_part(f.qg()), sv);
    lemma_pair_mul_right(nl, nv, nk, dy, r.qg(), sd);
    lemma_pair_mul_left(nl, nv, nl, dy, aqkd, uv);
    lemma_pair_tril(nl, nl, mat_mul(nv, dy, transposed(uv)), eps_part(f.aqk(nk)));
    lemma_pair_mul_right(nl, nv, nl, dy, attn, ud);
    // The state that leaves.
    let kct = transposed(f.kc(nl));
    let (m3, m4) = (hadamard(f.el(nl), s), mat_mul(nl, kct, u));
    lemma_mul_parts(nl, kct, u);
    assert(eps_part(f.leaving(nl, s, u)) =~= mat_add(eps_part(m3), eps_part(m4)));
    lemma_pair_add(nk, nv, dd, eps_part(m3), eps_part(m4));
    let (eld, el) = (eps_part(f.el(nl)), r.el(nl));
    let (l1, l2) = (hadamard(sv, eld), hadamard(el, sd));
    assert(eps_part(m3) =~= mat_add(l1, l2)) by {
        broadcast use lemma_mul_commutes;

    }
    lemma_pair_add(nk, nv, dd, l1, l2);
    lemma_pair_hadamard(nk, nv, dd, sv, eld);
    lemma_pair_hadamard(nk, nv, dd, el, sd);
    let kcd = eps_part(f.kc(nl));
    assert(eps_part(kct) =~= transposed(kcd));
    assert(re_part(kct) =~= transposed(r.kc(nl)));
    let (l3, l4) = (mat_mul(nl, transposed(kcd), uv), mat_mul(nl, transposed(r.kc(nl)), ud));
    lemma_pair_add(nk, nv, dd, l3, l4);
    let (b1, b2) = (pair(nk, nv, dd, l1), pair(nk, nv, dd, l2));
    let (b3, b4) = (pair(nk, nv, dd, l3), pair(nk, nv, dd, l4));
    lemma_pair_mul_left(nk, nv, nl, dd, transposed(kcd), uv);
    lemma_pair_transposed(nk, nl, mat_mul(nv, dd, transposed(uv)), transposed(kcd));
    lemma_transpose_mul(nv, dd, transposed(uv));
    assert(transposed(transposed(uv)) =~= uv);
    assert(transposed(transposed(kcd)) =~= kcd);
    lemma_pair_mul_right(nk, nv, nl, dd, transposed(r.kc(nl)), ud);
    assert(transposed(transposed(r.kc(nl))) =~= r.kc(nl));
    // The deltas.
    let du = g.du(r, nl, nk);
    let (d1, d2) = (mat_mul(nl, transposed(attn), dy), mat_mul(nk, r.kc(nl), dd));
    lemma_pair_add_left(nl, nv, d1, d2, ud);
    lemma_delta_rates(f, nl, nk, nv, s, u, t, du);
    let w = g.dvw(r, nl, nk);
    let (kgd, akkd) = (eps_part(f.kg()), tril_strict(eps_part(f.akk(nk))));
    let (r1, r2, r3) = (mat_mul(nk, kgd, sv), mat_mul(nk, r.kg(), sd), mat_mul(nl, akkd, uv));
    lemma_pair_sub(nl, nv, w, eps_part(f.vw()), mat_add(mat_add(r1, r2), r3));
    lemma_pair_add(nl, nv, w, mat_add(r1, r2), r3);
    lemma_pair_add(nl, nv, w, r1, r2);
    let v = pair(nl, nv, w, eps_part(f.vw()));
    let (x, y, z) = (pair(nl, nv, w, r1), pair(nl, nv, w, r2), pair(nl, nv, w, r3));
    lemma_pair_mul_left(nl, nv, nk, w, kgd, sv);
    lemma_pair_neg(nl, nk, mat_mul(nv, w, transposed(sv)), kgd);
    lemma_pair_mul_right(nl, nv, nk, w, r.kg(), sd);
    lemma_pair_mul_left(nl, nv, nl, w, akkd, uv);
    lemma_pair_tril(nl, nl, mat_mul(nv, w, transposed(uv)), eps_part(f.akk(nk)));
    lemma_pair_neg(
        nl,
        nl,
        tril_strict(mat_mul(nv, w, transposed(uv))),
        eps_part(f.akk(nk)),
    );
    // The state that enters.
    let (s1, s2) = (mat_mul(nl, transposed(r.qg()), dy), mat_mul(nl, transposed(r.kg()), w));
    lemma_pair_add_left(nk, nv, mat_sub(s1, s2), hadamard(dd, el), sd);
    lemma_pair_sub_left(nk, nv, s1, s2, sd);
    lemma_regroup(a1, a2, a3, a4, b1, b2, b3, b4, v, x, y, z);
}

impl<R: Ring> Frame<R> {
    /// The decay from the start of the chunk to each step.
    pub open spec fn eg(self) -> Mat<R> {
        |i: int, d: int| self.gate(i, d).expo()
    }
}

impl<R: Ring> Cotangent<R> {
    /// The gradient of the erase keys.
    pub open spec fn dke(self, f: Frame<R>, nl: int, nk: int, nv: int) -> Mat<R> {
        mat_add(
            hadamard(self.dkg(f, nl, nk, nv), f.eg()),
            score_rows(nl, self.dakk(f, nl, nk, nv), f.k, f.gate),
        )
    }

    /// The gradient of the scaled queries.
    pub open spec fn dq(self, f: Frame<R>, nl: int, nv: int) -> Mat<R> {
        mat_add(
            hadamard(self.dqg(nv), f.eg()),
            score_rows(nl, self.daqk(nv), f.k, f.gate),
        )
    }

    /// The gradient of the keys.
    pub open spec fn dk(self, f: Frame<R>, nl: int, nk: int, nv: int) -> Mat<R> {
        mat_add(
            mat_add(
                hadamard(self.dkc(nv), f.ec(nl)),
                mat_add(
                    score_keys(nl, self.dakk(f, nl, nk, nv), f.ke(), f.gate),
                    score_keys(nl, self.daqk(nv), f.q, f.gate),
                ),
            ),
            hadamard(self.dke(f, nl, nk, nv), f.erase),
        )
    }

    /// The gradient of the erase gate.
    pub open spec fn derase(self, f: Frame<R>, nl: int, nk: int, nv: int) -> Mat<R> {
        hadamard(self.dke(f, nl, nk, nv), f.k)
    }

    /// The gradient of the values.
    pub open spec fn dv(self, f: Frame<R>, nl: int, nk: int) -> Mat<R> {
        hadamard(self.dvw(f, nl, nk), f.write)
    }

    /// The gradient of the write gate.
    pub open spec fn dwrite(self, f: Frame<R>, nl: int, nk: int) -> Mat<R> {
        hadamard(self.dvw(f, nl, nk), f.v)
    }

    /// What the decay to the end of the chunk contributes, step by step.
    pub open spec fn dcarry(self, f: Frame<R>, nl: int, nv: int) -> Mat<R> {
        hadamard(hadamard(self.dkc(nv), f.k), f.ec(nl))
    }

    /// The gradient of the log decay accumulated over the whole chunk, where it
    /// stands for the last step in the decay to it.
    pub open spec fn dlast(self, f: Frame<R>, nl: int, nv: int, d: int) -> R {
        sum(nl, |j: int| self.dcarry(f, nl, nv)(j, d)) + sum(
            nv,
            |c: int| hadamard(self.ds, self.s)(d, c),
        ) * f.gate(nl - 1, d).expo()
    }

    /// The gradient of the decay from the start of the chunk.
    pub open spec fn deg(self, f: Frame<R>, nl: int, nk: int, nv: int) -> Mat<R> {
        mat_add(
            hadamard(self.dqg(nv), f.q),
            hadamard(self.dkg(f, nl, nk, nv), f.ke()),
        )
    }

    /// What the scores contribute to the gradient of the accumulated log decay.
    pub open spec fn dscore(self, f: Frame<R>, nl: int, nk: int, nv: int) -> Mat<R> {
        mat_add(
            score_gate(nl, self.daqk(nv), f.q, f.k, f.gate),
            score_gate(nl, self.dakk(f, nl, nk, nv), f.ke(), f.k, f.gate),
        )
    }

    /// The gradient of the accumulated log decay.
    pub open spec fn dgate(self, f: Frame<R>, nl: int, nk: int, nv: int) -> Mat<R> {
        mat_add(
            mat_add(
                self.dscore(f, nl, nk, nv),
                mat_add(
                    mat_neg(self.dcarry(f, nl, nv)),
                    at_row(nl - 1, |d: int| self.dlast(f, nl, nv, d)),
                ),
            ),
            hadamard(self.deg(f, nl, nk, nv), f.eg()),
        )
    }
}

/// A single row of an otherwise zero matrix.
pub open spec fn at_row<R: Ring>(row: int, a: spec_fn(int) -> R) -> Mat<R> {
    |i: int, d: int|
        if i == row {
            a(d)
        } else {
            R::zero()
        }
}

/// The gradient of an entrywise product.
proof fn lemma_hadamard_adjoint<R: Ring>(
    n: int,
    m: int,
    a: Mat<R>,
    b: Mat<Dual<R>>,
    c: Mat<Dual<R>>,
)
    ensures
        pair(n, m, a, eps_part(hadamard(b, c))) == pair(
            n,
            m,
            hadamard(a, re_part(c)),
            eps_part(b),
        ) + pair(n, m, hadamard(a, re_part(b)), eps_part(c)),
{
    let (x, y) = (hadamard(re_part(c), eps_part(b)), hadamard(re_part(b), eps_part(c)));
    assert(eps_part(hadamard(b, c)) =~= mat_add(x, y)) by {
        broadcast use lemma_mul_commutes;

    }
    lemma_pair_add(n, m, a, x, y);
    lemma_pair_hadamard(n, m, a, re_part(c), eps_part(b));
    lemma_pair_hadamard(n, m, a, re_part(b), eps_part(c));
}

/// The gradient of decayed rows.
proof fn lemma_decayed_adjoint<R: Ring>(
    n: int,
    m: int,
    a: Mat<R>,
    rows: Mat<Dual<R>>,
    g: Mat<Dual<R>>,
    eg: Mat<R>,
)
    requires
        eg == (|i: int, d: int| re_part(g)(i, d).expo()),
    ensures
        pair(n, m, a, eps_part(decayed_rows(rows, g))) == pair(
            n,
            m,
            hadamard(a, eg),
            eps_part(rows),
        ) + pair(n, m, hadamard(hadamard(a, re_part(rows)), eg), eps_part(g)),
{
    let e = |i: int, d: int| g(i, d).expo();
    assert(decayed_rows(rows, g) =~= hadamard(rows, e));
    lemma_hadamard_adjoint(n, m, a, rows, e);
    assert(re_part(e) =~= eg);
    assert(eps_part(e) =~= hadamard(eg, eps_part(g)));
    lemma_pair_hadamard(n, m, hadamard(a, re_part(rows)), eg, eps_part(g));
}

/// A row paired on its own is the pairing of the matrix it stands in.
proof fn lemma_at_row<R: Ring>(n: int, m: int, row: int, a: spec_fn(int) -> R, b: Mat<R>)
    requires
        0 <= row < n,
    ensures
        pair(n, m, at_row(row, a), b) == sum(m, |d: int| a(d) * b(row, d)),
{
    let f = |i: int| sum(m, |d: int| at_row(row, a)(i, d) * b(i, d));
    assert forall|i: int| 0 <= i < n && i != row implies #[trigger] f(i) == R::zero() by {
        broadcast use lemma_zero_mul;

        lemma_sum_zero(m, |d: int| at_row(row, a)(i, d) * b(i, d));
    }
    lemma_sum_single(n, row, f);
    lemma_sum_ext(m, |d: int| at_row(row, a)(row, d) * b(row, d), |d: int| a(d) * b(row, d));
}

/// The gradient of the carried keys.
proof fn lemma_carry_adjoint<R: Ring>(f: Frame<Dual<R>>, nl: int, nk: int, a: Mat<R>)
    requires
        nl > 0,
    ensures
        ({
            let r = re_frame(f);
            let carry = hadamard(hadamard(a, r.k), r.ec(nl));
            pair(nl, nk, a, eps_part(f.kc(nl))) == pair(
                nl,
                nk,
                hadamard(a, r.ec(nl)),
                eps_part(f.k),
            ) + (pair(
                nl,
                nk,
                at_row(nl - 1, |d: int| sum(nl, |j: int| carry(j, d))),
                eps_part(f.gate),
            ) + (-pair(nl, nk, carry, eps_part(f.gate))))
        }),
{
    let r = re_frame(f);
    let (ec, gd) = (f.ec(nl), eps_part(f.gate));
    let carry = hadamard(hadamard(a, r.k), r.ec(nl));
    lemma_hadamard_adjoint(nl, nk, a, f.k, ec);
    assert(re_part(ec) =~= r.ec(nl));
    let last = |j: int, d: int| gd(nl - 1, d);
    assert(eps_part(ec) =~= hadamard(r.ec(nl), mat_sub(last, gd)));
    lemma_pair_hadamard(nl, nk, hadamard(a, r.k), r.ec(nl), mat_sub(last, gd));
    lemma_pair_sub(nl, nk, carry, last, gd);
    R::sub_is_add_neg(pair(nl, nk, carry, last), pair(nl, nk, carry, gd));
    // The last step's log decay is read once for every step.
    let sums = |d: int| sum(nl, |j: int| carry(j, d));
    lemma_at_row(nl, nk, nl - 1, sums, gd);
    let h = |j: int, d: int| carry(j, d) * gd(nl - 1, d);
    lemma_sum_swap(nl, nk, h);
    let x = |j: int| sum(nk, |d: int| h(j, d));
    let x2 = |j: int| sum(nk, |d: int| carry(j, d) * last(j, d));
    assert forall|j: int| 0 <= j < nl implies #[trigger] x(j) == x2(j) by {
        lemma_sum_ext(nk, |d: int| h(j, d), |d: int| carry(j, d) * last(j, d));
    }
    lemma_sum_ext(nl, x, x2);
    let y = |d: int| sum(nl, |j: int| h(j, d));
    let y2 = |d: int| sums(d) * gd(nl - 1, d);
    assert forall|d: int| 0 <= d < nk implies #[trigger] y(d) == y2(d) by {
        let c = |j: int| carry(j, d);
        lemma_sum_scale_right(nl, c, gd(nl - 1, d));
        lemma_sum_ext(nl, |j: int| c(j) * gd(nl - 1, d), |j: int| h(j, d));
    }
    lemma_sum_ext(nk, y, y2);
}

/// The gradient of the decay over the whole chunk.
proof fn lemma_last_adjoint<R: Ring>(f: Frame<Dual<R>>, nl: int, nk: int, nv: int, a: Mat<R>)
    requires
        nl > 0,
    ensures
        pair(nk, nv, a, eps_part(f.el(nl))) == pair(
            nl,
            nk,
            at_row(
                nl - 1,
                |d: int| sum(nv, |c: int| a(d, c)) * re_frame(f).gate(nl - 1, d).expo(),
            ),
            eps_part(f.gate),
        ),
{
    let r = re_frame(f);
    let gd = eps_part(f.gate);
    let row = |d: int| sum(nv, |c: int| a(d, c)) * r.gate(nl - 1, d).expo();
    lemma_at_row(nl, nk, nl - 1, row, gd);
    let x = |d: int| sum(nv, |c: int| a(d, c) * eps_part(f.el(nl))(d, c));
    let y = |d: int| row(d) * gd(nl - 1, d);
    assert forall|d: int| 0 <= d < nk implies #[trigger] x(d) == y(d) by {
        let e = r.gate(nl - 1, d).expo();
        let c = |c: int| a(d, c);
        lemma_sum_scale_right(nv, c, e * gd(nl - 1, d));
        R::mul_associates(sum(nv, c), e, gd(nl - 1, d));
        lemma_sum_ext(
            nv,
            |c: int| a(d, c) * eps_part(f.el(nl))(d, c),
            |b: int| c(b) * (e * gd(nl - 1, d)),
        );
    }
    lemma_sum_ext(nk, x, y);
}

/// The pairing of a chunk's gradient with the rates of change of its inputs.
pub open spec fn chunk_pairing<R: Ring>(
    g: Cotangent<R>,
    f: Frame<Dual<R>>,
    nl: int,
    nk: int,
    nv: int,
) -> R {
    let r = re_frame(f);
    ((pair(nl, nk, g.dq(r, nl, nv), eps_part(f.q)) + pair(
        nl,
        nk,
        g.dk(r, nl, nk, nv),
        eps_part(f.k),
    )) + (pair(nl, nv, g.dv(r, nl, nk), eps_part(f.v)) + pair(
        nl,
        nk,
        g.derase(r, nl, nk, nv),
        eps_part(f.erase),
    ))) + (pair(nl, nv, g.dwrite(r, nl, nk), eps_part(f.write)) + pair(
        nl,
        nk,
        g.dgate(r, nl, nk, nv),
        eps_part(f.gate),
    ))
}

/// `(a + b) + (c + d) == (a + c) + (b + d)`
proof fn lemma_exchange<R: Ring>(a: R, b: R, c: R, d: R)
    ensures
        (a + b) + (c + d) == (a + c) + (b + d),
{
    broadcast use {lemma_add_commutes, lemma_add_associates};

}

/// `(a + b) + c == (a + c) + b`
proof fn lemma_swap_last<R: Ring>(a: R, b: R, c: R)
    ensures
        (a + b) + c == (a + c) + b,
{
    broadcast use {lemma_add_commutes, lemma_add_associates};

}

proof fn lemma_regroup_inputs<R: Ring>(
    a1: R,
    a2: R,
    b1: R,
    b2: R,
    c1: R,
    c2: R,
    d1: R,
    d2: R,
    d3: R,
    e1: R,
    e2: R,
    e3: R,
    f1: R,
    f2: R,
    f3: R,
    h: R,
    k: R,
    m: R,
)
    requires
        b1 + f1 == k + m,
    ensures
        ((((a1 + a2) + (b1 + b2)) + ((c1 + c2) + (d1 + (d2 + d3)))) + (((e1 + e2) + e3) + ((f1 + f2)
            + f3))) + h == (((a1 + e1) + ((d1 + (f2 + e2)) + k)) + (c1 + m)) + (c2 + (((e3 + f3) + (
        d3 + (d2 + h))) + (a2 + b2))),
{
    let (p1, p2, s1, s2, s3) = (a1 + b1, a2 + b2, e1 + f1, f2 + e2, e3 + f3);
    let (p, v, w, s, w2) = (
        p1 + p2,
        c1 + c2,
        d1 + (d2 + d3),
        s1 + (s2 + s3),
        d3 + (d2 + h),
    );
    lemma_exchange(a1, a2, b1, b2);
    lemma_exchange(e1 + e2, e3, f1 + f2, f3);
    lemma_exchange(e1, e2, f1, f2);
    R::add_commutes(e2, f2);
    R::add_associates(s1, s2, s3);
    assert(((e1 + e2) + e3) + ((f1 + f2) + f3) == s);
    // The end of the chunk goes with the state's own decay.
    R::add_associates(d1, d2 + d3, h);
    R::add_commutes(d2, d3);
    R::add_associates(d3, d2, h);
    assert(w + h == d1 + w2);
    R::add_associates(p, v, w);
    lemma_swap_last(p + v, w, s);
    R::add_associates((p + v) + s, w, h);
    assert(((p + (v + w)) + s) + h == ((p + v) + s) + (d1 + w2));
    // Queries, erase keys and values to the front.
    lemma_swap_last(p1, p2, v);
    lemma_exchange(p1 + v, p2, s1, s2 + s3);
    lemma_swap_last(p1, v, s1);
    let (x, q) = (p1 + s1, (p1 + s1) + v);
    assert((p + v) + s == q + (p2 + (s2 + s3)));
    let gg = (s3 + w2) + p2;
    R::add_commutes(p2, s2 + s3);
    R::add_associates(s2, s3, p2);
    R::add_associates(q, s2 + (s3 + p2), d1 + w2);
    lemma_exchange(s2, s3 + p2, d1, w2);
    R::add_commutes(s2, d1);
    lemma_swap_last(s3, p2, w2);
    R::add_associates(q, d1 + s2, gg);
    assert(((p + v) + s) + (d1 + w2) == (q + (d1 + s2)) + gg);
    lemma_exchange(a1, b1, e1, f1);
    let (y, z) = (a1 + e1, d1 + s2);
    assert(x == y + (k + m));
    R::add_associates(y, k, m);
    R::add_associates(y + k, m, c1 + c2);
    R::add_associates(m, c1, c2);
    R::add_commutes(m, c1);
    R::add_associates(y + k, c1 + m, c2);
    let yk = (y + k) + (c1 + m);
    assert(q == yk + c2);
    lemma_swap_last(yk, c2, z);
    lemma_swap_last(y + k, c1 + m, z);
    R::add_associates(y, k, z);
    R::add_commutes(k, z);
    R::add_associates((y + (z + k)) + (c1 + m), c2, gg);
}

/// The gradient of a chunk: the pairing with the rates of its outputs and leaving
/// state is the pairing with the rates of its inputs and entering state.
pub proof fn lemma_chunk_gradient<R: Ring>(
    f: Frame<Dual<R>>,
    nl: int,
    nk: int,
    nv: int,
    s: Mat<Dual<R>>,
    u: Mat<Dual<R>>,
    g: Cotangent<R>,
)
    requires
        nl > 0,
        f.solved_by(nl, nk, nv, s, u),
        is_inverse(nl, g.t, unit_lower(mat_neg(re_frame(f).akk(nk)))),
        g.s == re_part(s),
        g.u == re_part(u),
    ensures
        pair(nl, nv, g.dy, eps_part(f.outputs(nl, nk, s, u))) + pair(
            nk,
            nv,
            g.ds,
            eps_part(f.leaving(nl, s, u)),
        ) == chunk_pairing(g, f, nl, nk, nv) + pair(
            nk,
            nv,
            g.dstate(re_frame(f), nl, nk),
            eps_part(s),
        ),
{
    lemma_chunk_adjoint(f, nl, nk, nv, s, u, g);
    lemma_frame_parts(f, nl, nk);
    let r = re_frame(f);
    let (qd, kd, vd) = (eps_part(f.q), eps_part(f.k), eps_part(f.v));
    let (ed, wd, gd) = (eps_part(f.erase), eps_part(f.write), eps_part(f.gate));
    let ked = eps_part(f.ke());
    let eg = r.eg();
    assert(eg =~= (|i: int, d: int| re_part(f.gate)(i, d).expo()));
    let (dqg, dkg, dvw, dkc) = (
        g.dqg(nv),
        g.dkg(r, nl, nk, nv),
        g.dvw(r, nl, nk),
        g.dkc(nv),
    );
    let (daqk, dakk) = (g.daqk(nv), g.dakk(r, nl, nk, nv));
    lemma_decayed_adjoint(nl, nk, dqg, f.q, f.gate, eg);
    lemma_decayed_adjoint(nl, nk, dkg, f.ke(), f.gate, eg);
    lemma_hadamard_adjoint(nl, nv, dvw, f.v, f.write);
    lemma_carry_adjoint(f, nl, nk, dkc);
    lemma_scores_adjoint(nl, nk, daqk, f.q, f.k, f.gate);
    lemma_scores_adjoint(nl, nk, dakk, f.ke(), f.k, f.gate);
    lemma_last_adjoint(f, nl, nk, nv, hadamard(g.ds, g.s));
    let (qa, qb) = (hadamard(dqg, eg), score_rows(nl, daqk, r.k, r.gate));
    let (ka, kb) = (hadamard(dkg, eg), score_rows(nl, dakk, r.k, r.gate));
    let dke = g.dke(r, nl, nk, nv);
    lemma_pair_add_left(nl, nk, qa, qb, qd);
    lemma_pair_add_left(nl, nk, ka, kb, ked);
    lemma_hadamard_adjoint(nl, nk, dke, f.k, f.erase);
    let k1 = hadamard(dkc, r.ec(nl));
    let (k2, k3) = (score_keys(nl, dakk, r.ke(), r.gate), score_keys(nl, daqk, r.q, r.gate));
    lemma_pair_add_left(nl, nk, k2, k3, kd);
    lemma_pair_add_left(nl, nk, k1, mat_add(k2, k3), kd);
    lemma_pair_add_left(nl, nk, mat_add(k1, mat_add(k2, k3)), hadamard(dke, r.erase), kd);
    // The accumulated log decay.
    let (ga, gb) = (
        hadamard(hadamard(dqg, r.q), eg),
        hadamard(hadamard(dkg, r.ke()), eg),
    );
    assert(hadamard(g.deg(r, nl, nk, nv), eg) =~= mat_add(ga, gb)) by {
        broadcast use lemma_distributes_right;

    }
    lemma_pair_add_left(nl, nk, ga, gb, gd);
    let (gs, gt) = (
        score_gate(nl, daqk, r.q, r.k, r.gate),
        score_gate(nl, dakk, r.ke(), r.k, r.gate),
    );
    lemma_pair_add_left(nl, nk, gs, gt, gd);
    let carry = hadamard(hadamard(dkc, r.k), r.ec(nl));
    let from_carry = |d: int| sum(nl, |j: int| carry(j, d));
    let from_state = |d: int|
        sum(nv, |c: int| hadamard(g.ds, g.s)(d, c)) * r.gate(nl - 1, d).expo();
    let last = |d: int| g.dlast(r, nl, nv, d);
    assert(at_row(nl - 1, last) =~= mat_add(
        at_row(nl - 1, from_carry),
        at_row(nl - 1, from_state),
    )) by {
        broadcast use lemma_add_zero;

        assert forall|d: int| #[trigger] last(d) == from_carry(d) + from_state(d) by {
            lemma_sum_ext(
                nl,
                |j: int| g.dcarry(r, nl, nv)(j, d),
                |j: int| carry(j, d),
            );
        }
    }
    lemma_pair_add_left(nl, nk, at_row(nl - 1, from_carry), at_row(nl - 1, from_state), gd);
    lemma_pair_neg(nl, nk, carry, gd);
    lemma_pair_add_left(nl, nk, mat_neg(carry), at_row(nl - 1, last), gd);
    let rest = mat_add(mat_neg(carry), at_row(nl - 1, last));
    lemma_pair_add_left(nl, nk, mat_add(gs, gt), rest, gd);
    lemma_pair_add_left(nl, nk, mat_add(mat_add(gs, gt), rest), mat_add(ga, gb), gd);
    lemma_regroup_inputs(
        pair(nl, nk, qa, qd),
        pair(nl, nk, ga, gd),
        pair(nl, nk, ka, ked),
        pair(nl, nk, gb, gd),
        pair(nl, nv, hadamard(dvw, r.write), vd),
        pair(nl, nv, hadamard(dvw, r.v), wd),
        pair(nl, nk, k1, kd),
        pair(nl, nk, at_row(nl - 1, from_carry), gd),
        -pair(nl, nk, carry, gd),
        pair(nl, nk, qb, qd),
        pair(nl, nk, k3, kd),
        pair(nl, nk, gs, gd),
        pair(nl, nk, kb, ked),
        pair(nl, nk, k2, kd),
        pair(nl, nk, gt, gd),
        pair(nl, nk, at_row(nl - 1, from_state), gd),
        pair(nl, nk, hadamard(dke, r.erase), kd),
        pair(nl, nk, hadamard(dke, r.k), ed),
    );
}

} // verus!
