//! What stays bounded, where numbers are ordered as the real numbers are.
use vstd::prelude::*;

use crate::common::linear::Row;
use crate::common::norm::{l2_normed, law_length_after_l2, squares, L2_EPS_PARTS};
use crate::common::order::{
    at_most, lemma_at_most_chain, lemma_decay, lemma_flip, lemma_product_not_positive,
    lemma_sum_not_positive, ordered,
};
use crate::delta::laws::{law_length_after_a_transition, law_transition, transition_of, unit_key};
use crate::delta::rule::{forgotten, next_state, Stream};
use crate::delta::tri::{is_inverse, law_constant_keys, power, unit_lower};
use crate::mat::{eye, Mat};
use crate::ring::{
    lemma_add_associates, lemma_add_commutes, lemma_add_zero, lemma_distributes_right,
    lemma_mul_associates, lemma_mul_commutes, lemma_mul_neg, lemma_mul_one, lemma_mul_zero,
    lemma_neg_add, lemma_neg_cancels, lemma_neg_mul, lemma_neg_neg, lemma_neg_zero, lemma_one_mul,
    lemma_sub_self, lemma_zero_add, lemma_zero_mul, Real,
};
use crate::sum::{lemma_sum_ext, sum};

verus! {

/// Whether the square root undoes the square.
pub open spec fn rooted<R: Real>() -> bool {
    forall|a: R|
        a.positive() ==> (#[trigger] a.root()).positive() && a.root() * a.root() == a
}

/// A square is not negative.
proof fn lemma_square<R: Real>(a: R)
    requires
        ordered::<R>(),
    ensures
        !(-(a * a)).positive(),
{
    if a == R::zero() {
        lemma_zero_mul(a);
        lemma_neg_zero::<R>();
    } else if a.positive() {
        assert((a * a).positive());
    } else {
        assert((-a).positive());
        assert((-a * -a).positive());
        lemma_neg_mul(a, -a);
        lemma_mul_neg(a, a);
        lemma_neg_neg(a * a);
    }
}

/// The product of two values that are not negative.
proof fn lemma_product_not_negative<R: Real>(p: R, q: R)
    requires
        ordered::<R>(),
        !(-p).positive(),
        !(-q).positive(),
    ensures
        !(-(p * q)).positive(),
{
    lemma_product_not_positive(p, -q);
    lemma_mul_neg(p, q);
}

/// A sum of squares is not negative.
proof fn lemma_squares<R: Real>(n: int, x: Row<R>)
    requires
        ordered::<R>(),
    ensures
        !(-squares(n, x)).positive(),
    decreases n,
{
    lemma_neg_zero::<R>();
    if n > 0 {
        let (s, a) = (squares(n - 1, x), x(n - 1) * x(n - 1));
        lemma_squares(n - 1, x);
        lemma_square(x(n - 1));
        lemma_sum_ext(n - 1, |d: int| x(d) * x(d), |d: int| x(d) * x(d));
        assert(squares(n, x) == s + a);
        lemma_sum_not_positive(-s, -a);
        lemma_neg_add(s, a);
    }
}

/// Sums go with the order, term by term.
proof fn lemma_sum_at_most<R: Real>(n: int, f: spec_fn(int) -> R, g: spec_fn(int) -> R)
    requires
        ordered::<R>(),
        forall|i: int| 0 <= i < n ==> at_most(#[trigger] f(i), g(i)),
    ensures
        at_most(sum(n, f), sum(n, g)),
    decreases n,
{
    if n > 0 {
        lemma_sum_at_most(n - 1, f, g);
        let (a, b, p, q) = (sum(n - 1, f), sum(n - 1, g), f(n - 1), g(n - 1));
        assert(at_most(f(n - 1), g(n - 1)));
        lemma_sum_not_positive(a - b, p - q);
        assert((a - b) + (p - q) == (a + p) - (b + q)) by {
            R::sub_is_add_neg(a, b);
            R::sub_is_add_neg(p, q);
            R::sub_is_add_neg(a + p, b + q);
            lemma_neg_add(b, q);
            let (nb, nq) = (-b, -q);
            assert((a + nb) + (p + nq) == (a + p) + (nb + nq)) by {
                broadcast use {lemma_add_commutes, lemma_add_associates};

            }
        }
    } else {
        lemma_sub_self(R::zero());
    }
}

/// A transition whose key is no longer than one lengthens nothing, for any gate from
/// zero to two.
pub proof fn law_short_keys_never_expand<R: Real>(nk: int, k: Row<R>, b: R, z: Row<R>)
    requires
        ordered::<R>(),
        at_most(squares(nk, k), R::one()),
        !(-b).positive(),
        at_most(b, R::one() + R::one()),
    ensures
        at_most(squares(nk, |d: int| transition_of(nk, k, b, z, d)), squares(nk, z)),
{
    let (one, n) = (R::one(), squares(nk, k));
    let two = one + one;
    let p = sum(nk, |e: int| k(e) * z(e));
    law_length_after_a_transition(nk, k, b, z);
    // b n <= b <= 2
    assert(at_most(b * n, b)) by {
        lemma_product_not_positive(b, n - one);
        R::sub_is_add_neg(n, one);
        R::mul_distributes(b, n, -one);
        lemma_mul_neg(b, one);
        lemma_mul_one(b);
        R::sub_is_add_neg(b * n, b);
    }
    lemma_at_most_chain(b * n, b, two);
    lemma_flip(two, b * n);
    lemma_product_not_negative(b, two - b * n);
    lemma_square(p);
    lemma_product_not_negative(b * (two - b * n), p * p);
    let (lost, length) = ((b * (two - b * n)) * (p * p), squares(nk, z));
    lemma_differences(length, lost);
}

/// A transition whose key has unit length lengthens nothing, for any gate from zero to
/// two.
pub proof fn law_unit_keys_never_expand<R: Real>(nk: int, k: Row<R>, b: R, z: Row<R>)
    requires
        ordered::<R>(),
        unit_key(nk, k),
        !(-b).positive(),
        at_most(b, R::one() + R::one()),
    ensures
        at_most(squares(nk, |d: int| transition_of(nk, k, b, z, d)), squares(nk, z)),
{
    lemma_sub_self(R::one());
    law_short_keys_never_expand(nk, k, b, z);
}

/// A key that was normalised to unit length is shorter than one, by what guards against
/// a length of zero.
pub proof fn law_l2_keys_are_short<R: Real>(n: int, x: Row<R>)
    requires
        ordered::<R>(),
        rooted::<R>(),
        R::count(L2_EPS_PARTS).positive(),
    ensures
        (R::one() - squares(n, l2_normed(n, x))).positive(),
{
    let (one, s, eps) = (R::one(), squares(n, x), R::count(L2_EPS_PARTS).recip());
    let (g, q) = (s + eps, squares(n, l2_normed(n, x)));
    assert(eps.positive());
    lemma_squares(n, x);
    assert(g.positive()) by {
        if s == R::zero() {
            lemma_zero_add(eps);
        } else {
            assert(s.positive());
        }
    }
    assert(g.root().positive());
    law_length_after_l2(n, x);
    // (1 - q) g = eps
    assert((one - q) * g == eps) by {
        R::sub_is_add_neg(one, q);
        lemma_distributes_right(g, one, -q);
        lemma_one_mul(g);
        lemma_neg_mul(q, g);
        R::add_commutes(s, eps);
        R::add_associates(eps, s, -s);
        R::add_neg(s);
        lemma_add_zero(eps);
    }
    let inverse = g.recip();
    assert(inverse.positive() && g * inverse == one);
    assert((eps * inverse).positive());
    assert(eps * inverse == one - q) by {
        R::mul_associates(one - q, g, inverse);
        lemma_mul_one(one - q);
    }
}

/// A transition whose key was normalised lengthens nothing, for any gate from zero to
/// two.
pub proof fn law_l2_keys_never_expand<R: Real>(nk: int, x: Row<R>, b: R, z: Row<R>)
    requires
        ordered::<R>(),
        rooted::<R>(),
        R::count(L2_EPS_PARTS).positive(),
        !(-b).positive(),
        at_most(b, R::one() + R::one()),
    ensures
        at_most(
            squares(nk, |d: int| transition_of(nk, l2_normed(nk, x), b, z, d)),
            squares(nk, z),
        ),
{
    let (one, q) = (R::one(), squares(nk, l2_normed(nk, x)));
    law_l2_keys_are_short(nk, x);
    lemma_flip(one, q);
    assert(at_most(q, one)) by {
        if (q - one).positive() {
            assert((-(one - q)).positive());
        }
    }
    law_short_keys_never_expand(nk, l2_normed(nk, x), b, z);
}

/// A step that writes nothing lengthens no column of the state: its key is no longer
/// than one, its erase gate lies between zero and two, and its forget gate decays.
pub proof fn law_steps_never_expand<R: Real>(
    x: Stream<R>,
    nk: int,
    s: Mat<R>,
    t: int,
    c: int,
    b: R,
)
    requires
        ordered::<R>(),
        at_most(squares(nk, |d: int| (x.k)(t, d)), R::one()),
        !(-b).positive(),
        at_most(b, R::one() + R::one()),
        forall|d: int| 0 <= d < nk ==> #[trigger] (x.erase)(t, d) == b,
        forall|d: int| 0 <= d < nk ==> !(#[trigger] (x.g)(t, d)).positive(),
        (x.v)(t, c) * (x.write)(t, c) == R::zero(),
    ensures
        at_most(
            squares(nk, |d: int| next_state(x, nk, s, t)(d, c)),
            squares(nk, |d: int| s(d, c)),
        ),
{
    let k = |d: int| (x.k)(t, d);
    let (before, old) = (|d: int| s(d, c), |d: int| forgotten(x, s, t)(d, c));
    let (after, image) = (
        |d: int| next_state(x, nk, s, t)(d, c),
        |d: int| transition_of(nk, k, b, old, d),
    );
    assert forall|d: int| 0 <= d < nk implies #[trigger] after(d) == image(d) by {
        law_transition(x, nk, s, t, d, c);
        lemma_mul_zero(k(d));
        lemma_sum_ext(
            nk,
            |e: int|
                (eye::<R>()(d, e) - (x.k)(t, d) * ((x.k)(t, e) * (x.erase)(t, e))) * forgotten(
                    x,
                    s,
                    t,
                )(e, c),
            |e: int| (eye::<R>()(d, e) - k(d) * (k(e) * b)) * old(e),
        );
        lemma_add_zero(image(d));
    }
    lemma_sum_ext(nk, |d: int| after(d) * after(d), |d: int| image(d) * image(d));
    law_short_keys_never_expand(nk, k, b, old);
    // What decays grows no longer either.
    let (decayed, kept) = (|d: int| old(d) * old(d), |d: int| before(d) * before(d));
    assert forall|d: int| 0 <= d < nk implies at_most(#[trigger] decayed(d), kept(d)) by {
        let (e, a, one) = ((x.g)(t, d).expo(), s(d, c), R::one());
        lemma_decay((x.g)(t, d));
        assert((e + one).positive());
        assert(!(-(e + one)).positive());
        lemma_product_not_positive(e + one, e - one);
        assert((e + one) * (e - one) == e * e - one) by {
            R::sub_is_add_neg(e, one);
            R::sub_is_add_neg(e * e, one);
            lemma_distributes_right(e + -one, e, one);
            R::mul_distributes(e, e, -one);
            lemma_mul_neg(e, one);
            lemma_mul_one(e);
            lemma_one_mul(e + -one);
            let f = e * e;
            R::add_associates(f, -e, e + -one);
            R::add_associates(-e, e, -one);
            lemma_neg_cancels(e);
            lemma_zero_add(-one);
        }
        lemma_square(a);
        lemma_product_not_positive(a * a, e * e - one);
        assert((a * a) * (e * e - one) == decayed(d) - kept(d)) by {
            R::sub_is_add_neg(e * e, one);
            R::mul_distributes(a * a, e * e, -one);
            lemma_mul_neg(a * a, one);
            lemma_mul_one(a * a);
            R::sub_is_add_neg(decayed(d), kept(d));
            assert((a * a) * (e * e) == (e * a) * (e * a)) by {
                broadcast use {lemma_mul_commutes, lemma_mul_associates};

            }
        }
    }
    lemma_sum_at_most(nk, decayed, kept);
    lemma_sum_ext(nk, |d: int| old(d) * old(d), decayed);
    lemma_sum_ext(nk, |d: int| before(d) * before(d), kept);
    lemma_at_most_chain(squares(nk, image), squares(nk, old), squares(nk, before));
}

/// What lies between a value and one, and between it and minus one.
proof fn lemma_from_one<R: Real>(a: R)
    ensures
        -(R::one() + -a) == a - R::one(),
        -(R::one() + a) == -R::one() - a,
{
    let one = R::one();
    lemma_neg_add(one, -a);
    lemma_neg_neg(a);
    R::add_commutes(-one, a);
    R::sub_is_add_neg(a, one);
    lemma_neg_add(one, a);
    R::sub_is_add_neg(-one, a);
}

/// Two values between minus one and one have a product of at most one.
proof fn lemma_product_at_most_one<R: Real>(a: R, p: R)
    requires
        ordered::<R>(),
        at_most(a, R::one()),
        at_most(-R::one(), a),
        at_most(p, R::one()),
        at_most(-R::one(), p),
    ensures
        at_most(a * p, R::one()),
{
    let one = R::one();
    let m = -(a * p);
    lemma_from_one(a);
    lemma_from_one(p);
    let (f, g) = ((one + -a) * (one + p), (one + a) * (one + -p));
    lemma_product_not_negative(one + -a, one + p);
    lemma_product_not_negative(one + a, one + -p);
    // Together they are twice 1 - a p.
    let y = one + m;
    assert(f == (one + p) + (-a + m)) by {
        lemma_distributes_right(one + p, one, -a);
        lemma_one_mul(one + p);
        R::mul_distributes(-a, one, p);
        lemma_mul_one(-a);
        lemma_neg_mul(a, p);
    }
    assert(g == (one + -p) + (a + m)) by {
        lemma_distributes_right(one + -p, one, a);
        lemma_one_mul(one + -p);
        R::mul_distributes(a, one, -p);
        lemma_mul_one(a);
        lemma_mul_neg(a, p);
    }
    let (na, np) = (-a, -p);
    assert(f + g == (y + y) + ((p + np) + (a + na))) by {
        broadcast use {lemma_add_commutes, lemma_add_associates};

    }
    R::add_neg(p);
    R::add_neg(a);
    lemma_add_zero(R::zero());
    lemma_add_zero(y + y);
    lemma_sum_not_positive(-f, -g);
    lemma_neg_add(f, g);
    lemma_neg_add(y, y);
    assert(-y == a * p - one) by {
        lemma_neg_add(one, m);
        lemma_neg_neg(a * p);
        R::add_commutes(-one, a * p);
        R::sub_is_add_neg(a * p, one);
    }
    if (-y).positive() {
        assert((-y + -y).positive());
    }
}

/// The powers of a value between minus one and one stay there.
proof fn lemma_powers<R: Real>(a: R, p: nat)
    requires
        ordered::<R>(),
        at_most(a, R::one()),
        at_most(-R::one(), a),
    ensures
        at_most(power(a, p), R::one()),
        at_most(-R::one(), power(a, p)),
    decreases p,
{
    let one = R::one();
    if p == 0 {
        lemma_sub_self(one);
        assert(!(-one).positive());
        lemma_sum_not_positive(-one, -one);
        R::sub_is_add_neg(-one, one);
    } else {
        let q = power(a, (p - 1) as nat);
        lemma_powers(a, (p - 1) as nat);
        lemma_product_at_most_one(a, q);
        lemma_from_one(q);
        lemma_from_one(-q);
        lemma_neg_neg(q);
        assert(at_most(-q, one) && at_most(-one, -q));
        lemma_product_at_most_one(a, -q);
        lemma_mul_neg(a, q);
        lemma_from_one(a * q);
        lemma_from_one(-(a * q));
        lemma_neg_neg(a * q);
    }
}

/// How far `a - b` lies from `a` and from `-a`.
proof fn lemma_differences<R: Real>(a: R, b: R)
    ensures
        (a - b) - a == -b,
        -a - (a - b) == b - (a + a),
{
    R::sub_is_add_neg(a, b);
    assert((a + -b) - a == -b) by {
        R::sub_is_add_neg(a + -b, a);
        R::add_commutes(a, -b);
        R::add_associates(-b, a, -a);
        R::add_neg(a);
        lemma_add_zero(-b);
    }
    assert(-a - (a + -b) == b - (a + a)) by {
        R::sub_is_add_neg(-a, a + -b);
        lemma_neg_add(a, -b);
        lemma_neg_neg(b);
        R::add_associates(-a, -a, b);
        lemma_neg_add(a, a);
        R::sub_is_add_neg(b, a + a);
        R::add_commutes(b, -a + -a);
    }
}

/// The inverse for constant keys stays bounded at every length: with a gate `b` from
/// zero to two, no entry below the diagonal exceeds `b` in size.
pub proof fn law_constant_keys_stay_bounded<R: Real>(
    n: int,
    t: Mat<R>,
    a: Mat<R>,
    b: R,
    i: int,
    j: int,
)
    requires
        ordered::<R>(),
        is_inverse(n, t, unit_lower(a)),
        forall|p: int, q: int| 0 <= q < p < n ==> #[trigger] a(p, q) == -b,
        !(-b).positive(),
        at_most(b, R::one() + R::one()),
        0 <= j < i < n,
    ensures
        at_most(t(i, j), b),
        at_most(-b, t(i, j)),
{
    let one = R::one();
    let r = one - b;
    let p = power(r, (i - j - 1) as nat);
    law_constant_keys(n, t, a, b, i, j);
    assert(at_most(r, one) && at_most(-one, r)) by {
        lemma_differences(one, b);
    }
    lemma_powers(r, (i - j - 1) as nat);
    lemma_neg_mul(b, p);
    let e = b * p;
    lemma_product_not_positive(b, p - one);
    assert(b * (p - one) == -b - t(i, j)) by {
        R::sub_is_add_neg(p, one);
        R::mul_distributes(b, p, -one);
        lemma_mul_neg(b, one);
        lemma_mul_one(b);
        R::sub_is_add_neg(-b, -e);
        lemma_neg_neg(e);
        R::add_commutes(e, -b);
    }
    lemma_product_not_positive(b, -one - p);
    assert(b * (-one - p) == t(i, j) - b) by {
        R::sub_is_add_neg(-one, p);
        R::mul_distributes(b, -one, -p);
        lemma_mul_neg(b, one);
        lemma_mul_one(b);
        lemma_mul_neg(b, p);
        R::sub_is_add_neg(-e, b);
        R::add_commutes(-b, -e);
    }
}

} // verus!
