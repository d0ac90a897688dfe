//! Functions applied entry by entry.
use vstd::prelude::*;

use crate::ring::{Real, Ring};

verus! {

/// `1 / (1 + exp(-x))`
pub open spec fn sigmoid<R: Real>(x: R) -> R {
    (R::one() + (-x).expo()).recip()
}

/// `x sigmoid(x)`
pub open spec fn silu<R: Real>(x: R) -> R {
    x * sigmoid(x)
}

/// `max(x, 0)`
pub open spec fn relu<R: Real>(x: R) -> R {
    if x.positive() {
        x
    } else {
        R::zero()
    }
}

/// `elu(x) + 1`: `x + 1`, or `exp(x)` where `x` is negative.
pub open spec fn elu_plus_one<R: Real>(x: R) -> R {
    if (-x).positive() {
        x.expo()
    } else {
        x + R::one()
    }
}

/// `ln(1 + exp(x))`, written so that no large exponential is taken.
pub open spec fn softplus<R: Real>(x: R) -> R {
    if x.positive() {
        x + (R::one() + (-x).expo()).ln()
    } else {
        (R::one() + x.expo()).ln()
    }
}

/// `min(x, hi)`
pub open spec fn lowered<R: Real>(hi: R, x: R) -> R {
    if (x - hi).positive() {
        hi
    } else {
        x
    }
}

/// `max(x, lo)`
pub open spec fn raised<R: Real>(lo: R, x: R) -> R {
    if (lo - x).positive() {
        lo
    } else {
        x
    }
}

/// `x`, lowered to `hi` and then raised to `lo`: where the two are out of order, `lo`.
pub open spec fn clamped<R: Real>(lo: R, hi: R, x: R) -> R {
    raised(lo, lowered(hi, x))
}

/// Twice `x`.
pub open spec fn twice<R: Ring>(x: R) -> R {
    x * (R::one() + R::one())
}

/// `1 / (1 + exp(-x))`
pub fn sigmoid_of<T: Real>(x: T) -> (r: T)
    ensures
        r == sigmoid(x),
{
    T::unit().plus(x.negated().exponential()).reciprocal()
}

/// `x sigmoid(x)`
pub fn silu_of<T: Real>(x: T) -> (r: T)
    ensures
        r == silu(x),
{
    x.times(sigmoid_of(x))
}

/// `max(x, 0)`
pub fn relu_of<T: Real>(x: T) -> (r: T)
    ensures
        r == relu(x),
{
    if x.is_positive() {
        x
    } else {
        T::nil()
    }
}

/// `elu(x) + 1`
pub fn elu_plus_one_of<T: Real>(x: T) -> (r: T)
    ensures
        r == elu_plus_one(x),
{
    if x.negated().is_positive() {
        x.exponential()
    } else {
        x.plus(T::unit())
    }
}

/// `ln(1 + exp(x))`
pub fn softplus_of<T: Real>(x: T) -> (r: T)
    ensures
        r == softplus(x),
{
    if x.is_positive() {
        x.plus(T::unit().plus(x.negated().exponential()).logarithm())
    } else {
        T::unit().plus(x.exponential()).logarithm()
    }
}

/// `x`, lowered to `hi` and then raised to `lo`.
pub fn clamp_to<T: Real>(lo: T, hi: T, x: T) -> (r: T)
    ensures
        r == clamped(lo, hi, x),
{
    let x = if x.minus(hi).is_positive() {
        hi
    } else {
        x
    };
    if lo.minus(x).is_positive() {
        lo
    } else {
        x
    }
}

/// Twice `x`.
pub fn twice_of<T: Real>(x: T) -> (r: T)
    ensures
        r == twice(x),
{
    x.times(T::unit().plus(T::unit()))
}

} // verus!
