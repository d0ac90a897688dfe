//! Commutative rings with an exponential, and the scalars that compute in them.
use vstd::prelude::*;

verus! {

/// A commutative ring together with an exponential: a map that turns sums into
/// products.
///
/// Everything this library states is an identity between sums and products of
/// scalars, so it is stated and proved for every such ring at once.
pub trait Ring: Sized {
    /// The neutral element of addition.
    spec fn zero() -> Self;

    /// The neutral element of multiplication.
    spec fn one() -> Self;

    /// `self + other`
    spec fn spec_add(self, other: Self) -> Self;

    /// `self * other`
    spec fn spec_mul(self, other: Self) -> Self;

    /// `-self`
    spec fn spec_neg(self) -> Self;

    /// `self - other`
    spec fn spec_sub(self, other: Self) -> Self;

    /// The exponential of `self`.
    spec fn expo(self) -> Self;

    proof fn add_commutes(a: Self, b: Self)
        ensures
            a + b == b + a,
    ;

    proof fn add_associates(a: Self, b: Self, c: Self)
        ensures
            (a + b) + c == a + (b + c),
    ;

    proof fn add_zero(a: Self)
        ensures
            a + Self::zero() == a,
    ;

    proof fn add_neg(a: Self)
        ensures
            a + (-a) == Self::zero(),
    ;

    proof fn sub_is_add_neg(a: Self, b: Self)
        ensures
            a - b == a + (-b),
    ;

    proof fn mul_commutes(a: Self, b: Self)
        ensures
            a * b == b * a,
    ;

    proof fn mul_associates(a: Self, b: Self, c: Self)
        ensures
            (a * b) * c == a * (b * c),
    ;

    proof fn mul_one(a: Self)
        ensures
            a * Self::one() == a,
    ;

    proof fn mul_distributes(a: Self, b: Self, c: Self)
        ensures
            a * (b + c) == a * b + a * c,
    ;

    proof fn expo_zero()
        ensures
            Self::zero().expo() == Self::one(),
    ;

    proof fn expo_add(a: Self, b: Self)
        ensures
            (a + b).expo() == a.expo() * b.expo(),
    ;
}

/// A ring element that a program computes with.
pub trait Scalar: Ring + Copy {
    /// The neutral element of addition.
    fn nil() -> (r: Self)
        ensures
            r == Self::zero(),
    ;

    /// The neutral element of multiplication.
    fn unit() -> (r: Self)
        ensures
            r == Self::one(),
    ;

    /// `self + other`
    fn plus(self, other: Self) -> (r: Self)
        ensures
            r == self + other,
    ;

    /// `self - other`
    fn minus(self, other: Self) -> (r: Self)
        ensures
            r == self - other,
    ;

    /// `self * other`
    fn times(self, other: Self) -> (r: Self)
        ensures
            r == self * other,
    ;

    /// `-self`
    fn negated(self) -> (r: Self)
        ensures
            r == -self,
    ;

    /// The exponential of `self`.
    fn exponential(self) -> (r: Self)
        ensures
            r == self.expo(),
    ;
}

/// A scalar with the further operations that the layers around the delta rule
/// apply entry by entry. Nothing is asked of them but that the program computes
/// what the specification names.
pub trait Real: Scalar {
    /// The number `n`.
    spec fn count(n: usize) -> Self;

    /// `1 / self`
    spec fn recip(self) -> Self;

    /// The square root of `self`.
    spec fn root(self) -> Self;

    /// The natural logarithm of `self`.
    spec fn ln(self) -> Self;

    /// Whether `self` is greater than zero.
    spec fn positive(self) -> bool;

    /// Whether `self` is a number: neither infinite nor undefined.
    spec fn finite(self) -> bool;

    /// What is added to a denominator that may vanish.
    spec fn guard() -> Self;

    /// The number `n`.
    fn from_count(n: usize) -> (r: Self)
        ensures
            r == Self::count(n),
    ;

    /// `1 / self`
    fn reciprocal(self) -> (r: Self)
        ensures
            r == self.recip(),
    ;

    /// The square root of `self`.
    fn square_root(self) -> (r: Self)
        ensures
            r == self.root(),
    ;

    /// The natural logarithm of `self`.
    fn logarithm(self) -> (r: Self)
        ensures
            r == self.ln(),
    ;

    /// Whether `self` is greater than zero.
    fn is_positive(self) -> (r: bool)
        ensures
            r == self.positive(),
    ;

    /// Whether `self` is a number: neither infinite nor undefined.
    fn is_finite(self) -> (r: bool)
        ensures
            r == self.finite(),
    ;

    /// What is added to a denominator that may vanish.
    fn division_guard() -> (r: Self)
        ensures
            r == Self::guard(),
    ;
}

pub broadcast proof fn lemma_add_commutes<R: Ring>(a: R, b: R)
    ensures
        #[trigger] (a + b) == b + a,
{
    R::add_commutes(a, b);
}

pub broadcast proof fn lemma_add_associates<R: Ring>(a: R, b: R, c: R)
    ensures
        #[trigger] ((a + b) + c) == a + (b + c),
{
    R::add_associates(a, b, c);
}

pub broadcast proof fn lemma_add_zero<R: Ring>(a: R)
    ensures
        #[trigger] (a + R::zero()) == a,
{
    R::add_zero(a);
}

pub broadcast proof fn lemma_zero_add<R: Ring>(a: R)
    ensures
        #[trigger] (R::zero() + a) == a,
{
    R::add_zero(a);
    R::add_commutes(a, R::zero());
}

pub broadcast proof fn lemma_add_neg<R: Ring>(a: R)
    ensures
        #[trigger] (a + (-a)) == R::zero(),
{
    R::add_neg(a);
}

pub broadcast proof fn lemma_neg_cancels<R: Ring>(a: R)
    ensures
        #[trigger] ((-a) + a) == R::zero(),
{
    R::add_neg(a);
    R::add_commutes(a, -a);
}

pub broadcast proof fn lemma_sub_is_add_neg<R: Ring>(a: R, b: R)
    ensures
        #[trigger] (a - b) == a + (-b),
{
    R::sub_is_add_neg(a, b);
}

pub broadcast proof fn lemma_mul_commutes<R: Ring>(a: R, b: R)
    ensures
        #[trigger] (a * b) == b * a,
{
    R::mul_commutes(a, b);
}

pub broadcast proof fn lemma_mul_associates<R: Ring>(a: R, b: R, c: R)
    ensures
        #[trigger] ((a * b) * c) == a * (b * c),
{
    R::mul_associates(a, b, c);
}

pub broadcast proof fn lemma_mul_one<R: Ring>(a: R)
    ensures
        #[trigger] (a * R::one()) == a,
{
    R::mul_one(a);
}

pub broadcast proof fn lemma_one_mul<R: Ring>(a: R)
    ensures
        #[trigger] (R::one() * a) == a,
{
    R::mul_one(a);
    R::mul_commutes(a, R::one());
}

pub broadcast proof fn lemma_mul_distributes<R: Ring>(a: R, b: R, c: R)
    ensures
        #[trigger] (a * (b + c)) == a * b + a * c,
{
    R::mul_distributes(a, b, c);
}

pub broadcast proof fn lemma_distributes_right<R: Ring>(a: R, b: R, c: R)
    ensures
        #[trigger] ((b + c) * a) == b * a + c * a,
{
    R::mul_distributes(a, b, c);
    R::mul_commutes(a, b + c);
    R::mul_commutes(a, b);
    R::mul_commutes(a, c);
}

/// If `a + b == a + c` then `b == c`.
pub proof fn lemma_add_cancels<R: Ring>(a: R, b: R, c: R)
    requires
        a + b == a + c,
    ensures
        b == c,
{
    R::add_associates(-a, a, b);
    R::add_associates(-a, a, c);
    broadcast use {lemma_neg_cancels, lemma_zero_add};

}

pub broadcast proof fn lemma_mul_zero<R: Ring>(a: R)
    ensures
        #[trigger] (a * R::zero()) == R::zero(),
{
    let z = R::zero();
    R::mul_distributes(a, z, z);
    R::add_zero(z);
    R::add_zero(a * z);
    lemma_add_cancels(a * z, a * z, z);
}

pub broadcast proof fn lemma_zero_mul<R: Ring>(a: R)
    ensures
        #[trigger] (R::zero() * a) == R::zero(),
{
    lemma_mul_zero(a);
    R::mul_commutes(a, R::zero());
}

pub proof fn lemma_neg_zero<R: Ring>()
    ensures
        -R::zero() == R::zero(),
{
    R::add_neg(R::zero());
    lemma_zero_add::<R>(-R::zero());
}

pub broadcast proof fn lemma_neg_neg<R: Ring>(a: R)
    ensures
        #[trigger] (-(-a)) == a,
{
    R::add_neg(-a);
    lemma_neg_cancels(a);
    lemma_add_cancels(-a, -(-a), a);
}

pub broadcast proof fn lemma_neg_add<R: Ring>(a: R, b: R)
    ensures
        #[trigger] (-(a + b)) == (-a) + (-b),
{
    assert((a + b) + ((-a) + (-b)) == (a + (-a)) + (b + (-b))) by {
        broadcast use {lemma_add_commutes, lemma_add_associates};

    }
    broadcast use {lemma_add_neg, lemma_add_zero};

    lemma_add_cancels(a + b, -(a + b), (-a) + (-b));
}

pub broadcast proof fn lemma_mul_neg<R: Ring>(a: R, b: R)
    ensures
        #[trigger] (a * (-b)) == -(a * b),
{
    R::mul_distributes(a, b, -b);
    lemma_add_neg(b);
    lemma_mul_zero(a);
    lemma_add_neg(a * b);
    lemma_add_cancels(a * b, a * (-b), -(a * b));
}

pub broadcast proof fn lemma_neg_mul<R: Ring>(a: R, b: R)
    ensures
        #[trigger] ((-a) * b) == -(a * b),
{
    lemma_mul_neg(b, a);
    R::mul_commutes(-a, b);
    R::mul_commutes(a, b);
}

pub broadcast proof fn lemma_sub_self<R: Ring>(a: R)
    ensures
        #[trigger] (a - a) == R::zero(),
{
    broadcast use {lemma_sub_is_add_neg, lemma_add_neg};

}

pub broadcast proof fn lemma_sub_zero<R: Ring>(a: R)
    ensures
        #[trigger] (a - R::zero()) == a,
{
    broadcast use {lemma_sub_is_add_neg, lemma_add_zero};

    lemma_neg_zero::<R>();
}

/// Sums of any grouping and order agree; zeros and opposites cancel.
pub broadcast group group_add {
    lemma_add_commutes,
    lemma_add_associates,
    lemma_add_zero,
    lemma_zero_add,
    lemma_add_neg,
    lemma_neg_cancels,
    lemma_sub_is_add_neg,
    lemma_neg_neg,
    lemma_neg_add,
}

/// Products of any grouping and order agree.
pub broadcast group group_mul {
    lemma_mul_commutes,
    lemma_mul_associates,
    lemma_mul_one,
    lemma_one_mul,
    lemma_mul_zero,
    lemma_zero_mul,
}

/// `exp(a - b) * exp(b - c) == exp(a - c)`
pub proof fn lemma_expo_chain<R: Ring>(a: R, b: R, c: R)
    ensures
        (a - b).expo() * (b - c).expo() == (a - c).expo(),
{
    R::expo_add(a - b, b - c);
    assert((a - b) + (b - c) == a - c) by {
        broadcast use group_add;

    }
}

/// `exp(a - a) == 1`
pub proof fn lemma_expo_self<R: Ring>(a: R)
    ensures
        (a - a).expo() == R::one(),
{
    lemma_sub_self(a);
    R::expo_zero();
}

} // verus!
