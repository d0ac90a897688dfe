//! Dual numbers: a value together with its rate of change along a direction.
//!
//! A [`Dual`] is `re + eps e` with `e * e == 0`. Computing with dual numbers
//! carries first derivatives along, so the derivative of anything stated over a
//! ring is the `eps` part of the same statement over its dual numbers.
use vstd::prelude::*;

use crate::mat::{mat_add, mat_mul, Mat};
use crate::ring::{
    group_add, group_mul, lemma_add_associates, lemma_add_commutes, lemma_distributes_right,
    lemma_mul_associates, lemma_mul_commutes, lemma_mul_zero, lemma_sub_is_add_neg, Real, Ring,
    Scalar,
};
use crate::sum::{lemma_sum_add, lemma_sum_ext, sum};

verus! {

/// A value and its rate of change.
#[derive(Clone, Copy, Debug, PartialEq, Eq)]
pub struct Dual<R> {
    /// The value.
    pub re: R,
    /// The rate of change.
    pub eps: R,
}

/// A value that does not change.
pub open spec fn constant<R: Ring>(a: R) -> Dual<R> {
    Dual { re: a, eps: R::zero() }
}

impl<R: Ring> Ring for Dual<R> {
    open spec fn zero() -> Self {
        constant(R::zero())
    }

    open spec fn one() -> Self {
        constant(R::one())
    }

    open spec fn spec_add(self, other: Self) -> Self {
        Dual { re: self.re + other.re, eps: self.eps + other.eps }
    }

    open spec fn spec_mul(self, other: Self) -> Self {
        Dual { re: self.re * other.re, eps: self.eps * other.re + self.re * other.eps }
    }

    open spec fn spec_neg(self) -> Self {
        Dual { re: -self.re, eps: -self.eps }
    }

    open spec fn spec_sub(self, other: Self) -> Self {
        Dual { re: self.re - other.re, eps: self.eps - other.eps }
    }

    open spec fn expo(self) -> Self {
        Dual { re: self.re.expo(), eps: self.re.expo() * self.eps }
    }

    proof fn add_commutes(a: Self, b: Self) {
        broadcast use lemma_add_commutes;

    }

    proof fn add_associates(a: Self, b: Self, c: Self) {
        broadcast use lemma_add_associates;

    }

    proof fn add_zero(a: Self) {
        broadcast use group_add;

    }

    proof fn add_neg(a: Self) {
        broadcast use group_add;

    }

    proof fn sub_is_add_neg(a: Self, b: Self) {
        broadcast use lemma_sub_is_add_neg;

    }

    proof fn mul_commutes(a: Self, b: Self) {
        broadcast use {lemma_mul_commutes, lemma_add_commutes};

    }

    proof fn mul_associates(a: Self, b: Self, c: Self) {
        R::mul_associates(a.re, b.re, c.re);
        let (x, y, z) = (a.eps * b.re, a.re * b.eps, c.re);
        assert(((x + y) * z) + (a.re * b.re) * c.eps == a.eps * (b.re * c.re) + a.re * (b.eps * c.re
            + b.re * c.eps)) by {
            lemma_distributes_right(z, x, y);
            R::mul_distributes(a.re, b.eps * c.re, b.re * c.eps);
            R::mul_associates(a.eps, b.re, c.re);
            R::mul_associates(a.re, b.eps, c.re);
            R::mul_associates(a.re, b.re, c.eps);
            R::add_associates(
                a.eps * (b.re * c.re),
                a.re * (b.eps * c.re),
                a.re * (b.re * c.eps),
            );
        }
    }

    proof fn mul_one(a: Self) {
        broadcast use {group_mul, group_add};

    }

    proof fn mul_distributes(a: Self, b: Self, c: Self) {
        R::mul_distributes(a.re, b.re, c.re);
        R::mul_distributes(a.eps, b.re, c.re);
        R::mul_distributes(a.re, b.eps, c.eps);
        let (w, x, y, z) = (a.eps * b.re, a.eps * c.re, a.re * b.eps, a.re * c.eps);
        assert((w + x) + (y + z) == (w + y) + (x + z)) by {
            broadcast use {lemma_add_commutes, lemma_add_associates};

        }
    }

    proof fn expo_zero() {
        R::expo_zero();
        broadcast use lemma_mul_zero;

    }

    proof fn expo_add(a: Self, b: Self) {
        R::expo_add(a.re, b.re);
        let (x, y) = (a.re.expo(), b.re.expo());
        R::mul_distributes(x * y, a.eps, b.eps);
        assert((x * y) * a.eps == (x * a.eps) * y) by {
            broadcast use {lemma_mul_commutes, lemma_mul_associates};

        }
        R::mul_associates(x, y, b.eps);
    }
}

impl<T: Scalar> Scalar for Dual<T> {
    fn nil() -> (r: Self) {
        Dual { re: T::nil(), eps: T::nil() }
    }

    fn unit() -> (r: Self) {
        Dual { re: T::unit(), eps: T::nil() }
    }

    fn plus(self, other: Self) -> (r: Self) {
        Dual { re: self.re.plus(other.re), eps: self.eps.plus(other.eps) }
    }

    fn minus(self, other: Self) -> (r: Self) {
        Dual { re: self.re.minus(other.re), eps: self.eps.minus(other.eps) }
    }

    fn times(self, other: Self) -> (r: Self) {
        Dual {
            re: self.re.times(other.re),
            eps: self.eps.times(other.re).plus(self.re.times(other.eps)),
        }
    }

    fn negated(self) -> (r: Self) {
        Dual { re: self.re.negated(), eps: self.eps.negated() }
    }

    fn exponential(self) -> (r: Self) {
        let e = self.re.exponential();
        Dual { re: e, eps: e.times(self.eps) }
    }
}

impl<T: Real> Real for Dual<T> {
    open spec fn count(n: usize) -> Self {
        constant(T::count(n))
    }

    open spec fn recip(self) -> Self {
        Dual { re: self.re.recip(), eps: -(self.eps * (self.re.recip() * self.re.recip())) }
    }

    open spec fn root(self) -> Self {
        Dual { re: self.re.root(), eps: self.eps * (self.re.root() + self.re.root()).recip() }
    }

    open spec fn ln(self) -> Self {
        Dual { re: self.re.ln(), eps: self.eps * self.re.recip() }
    }

    open spec fn positive(self) -> bool {
        self.re.positive()
    }

    open spec fn finite(self) -> bool {
        self.re.finite() && self.eps.finite()
    }

    open spec fn guard() -> Self {
        constant(T::guard())
    }

    fn from_count(n: usize) -> (r: Self) {
        Dual { re: T::from_count(n), eps: T::nil() }
    }

    fn reciprocal(self) -> (r: Self) {
        let inverse = self.re.reciprocal();
        Dual { re: inverse, eps: self.eps.times(inverse.times(inverse)).negated() }
    }

    fn square_root(self) -> (r: Self) {
        let root = self.re.square_root();
        Dual { re: root, eps: self.eps.times(root.plus(root).reciprocal()) }
    }

    fn logarithm(self) -> (r: Self) {
        Dual { re: self.re.logarithm(), eps: self.eps.times(self.re.reciprocal()) }
    }

    fn is_positive(self) -> (r: bool) {
        self.re.is_positive()
    }

    fn is_finite(self) -> (r: bool) {
        self.re.is_finite() && self.eps.is_finite()
    }

    fn division_guard() -> (r: Self) {
        Dual { re: T::division_guard(), eps: T::nil() }
    }
}

/// The value parts of a matrix of dual numbers.
pub open spec fn re_part<R>(a: Mat<Dual<R>>) -> Mat<R> {
    |i: int, j: int| a(i, j).re
}

/// The rates of change of a matrix of dual numbers.
pub open spec fn eps_part<R>(a: Mat<Dual<R>>) -> Mat<R> {
    |i: int, j: int| a(i, j).eps
}

/// The matrix of dual numbers with the given values and rates of change.
pub open spec fn lifted<R>(a: Mat<R>, dot: Mat<R>) -> Mat<Dual<R>> {
    |i: int, j: int| Dual { re: a(i, j), eps: dot(i, j) }
}

/// A sum of dual numbers, part by part.
pub proof fn lemma_sum_parts<R: Ring>(n: int, f: spec_fn(int) -> Dual<R>)
    ensures
        sum(n, f).re == sum(n, |i: int| f(i).re),
        sum(n, f).eps == sum(n, |i: int| f(i).eps),
    decreases n,
{
    if n > 0 {
        lemma_sum_parts(n - 1, f);
    }
}

/// A product of matrices of dual numbers, part by part.
pub proof fn lemma_mul_parts<R: Ring>(n: int, a: Mat<Dual<R>>, b: Mat<Dual<R>>)
    ensures
        re_part(mat_mul(n, a, b)) == mat_mul(n, re_part(a), re_part(b)),
        eps_part(mat_mul(n, a, b)) == mat_add(
            mat_mul(n, eps_part(a), re_part(b)),
            mat_mul(n, re_part(a), eps_part(b)),
        ),
{
    assert forall|i: int, j: int|
        (#[trigger] mat_mul(n, a, b)(i, j)).re == mat_mul(n, re_part(a), re_part(b))(i, j)
            && mat_mul(n, a, b)(i, j).eps == mat_mul(n, eps_part(a), re_part(b))(i, j) + mat_mul(
            n,
            re_part(a),
            eps_part(b),
        )(i, j) by {
        let f = |k: int| a(i, k) * b(k, j);
        lemma_sum_parts(n, f);
        lemma_sum_ext(n, |k: int| f(k).re, |k: int| re_part(a)(i, k) * re_part(b)(k, j));
        let x = |k: int| eps_part(a)(i, k) * re_part(b)(k, j);
        let y = |k: int| re_part(a)(i, k) * eps_part(b)(k, j);
        lemma_sum_add(n, x, y);
        lemma_sum_ext(n, |k: int| f(k).eps, |k: int| x(k) + y(k));
    }
    assert(re_part(mat_mul(n, a, b)) =~= mat_mul(n, re_part(a), re_part(b)));
    assert(eps_part(mat_mul(n, a, b)) =~= mat_add(
        mat_mul(n, eps_part(a), re_part(b)),
        mat_mul(n, re_part(a), eps_part(b)),
    ));
}

/// The rates that the functions of a real change at: of a product by the product rule,
/// of an exponential by itself, of a constant not at all.
pub proof fn law_rates_of_the_functions<R: Real>(a: Dual<R>, b: Dual<R>, n: usize)
    ensures
        (a * b).re == a.re * b.re,
        (a * b).eps == a.eps * b.re + a.re * b.eps,
        (a + b).eps == a.eps + b.eps,
        a.expo().re == a.re.expo(),
        a.expo().eps == a.re.expo() * a.eps,
        Dual::<R>::count(n).re == R::count(n) && Dual::<R>::count(n).eps == R::zero(),
        Dual::<R>::guard().re == R::guard() && Dual::<R>::guard().eps == R::zero(),
        a.positive() == a.re.positive(),
        a.finite() == (a.re.finite() && a.eps.finite()),
{
}

/// A dual number times its reciprocal is one, where that holds of its value.
pub proof fn law_reciprocals_invert<R: Real>(a: Dual<R>)
    requires
        a.re * a.re.recip() == R::one(),
    ensures
        a * a.recip() == Dual::<R>::one(),
{
    let (x, e, r) = (a.re, a.eps, a.re.recip());
    let t = e * r;
    assert(x * -(e * (r * r)) == -t) by {
        crate::ring::lemma_mul_neg(x, e * (r * r));
        assert(x * (e * (r * r)) == e * ((x * r) * r)) by {
            broadcast use {lemma_mul_commutes, lemma_mul_associates};

        }
        crate::ring::lemma_one_mul(r);
    }
    R::add_neg(t);
}

/// The square of a root is the dual number itself, where that holds of its value and
/// twice the root can be divided by.
pub proof fn law_roots_square<R: Real>(a: Dual<R>)
    requires
        a.re.root() * a.re.root() == a.re,
        (a.re.root() + a.re.root()) * (a.re.root() + a.re.root()).recip() == R::one(),
    ensures
        a.root() * a.root() == a,
{
    let (s, e) = (a.re.root(), a.eps);
    let h = (s + s).recip();
    assert((e * h) * s + s * (e * h) == e) by {
        R::mul_commutes(s, e * h);
        R::mul_distributes(e * h, s, s);
        R::mul_associates(e, h, s + s);
        R::mul_commutes(h, s + s);
        R::mul_one(e);
    }
}

/// The exponential of a logarithm is the dual number itself, where that holds of its
/// value and the value can be divided by.
pub proof fn law_logarithms_undo<R: Real>(a: Dual<R>)
    requires
        a.re.ln().expo() == a.re,
        a.re * a.re.recip() == R::one(),
    ensures
        a.ln().expo() == a,
{
    let (x, e, r) = (a.re, a.eps, a.re.recip());
    assert(x * (e * r) == e) by {
        R::mul_commutes(e, r);
        R::mul_associates(x, r, e);
        crate::ring::lemma_one_mul(e);
    }
}

} // verus!
