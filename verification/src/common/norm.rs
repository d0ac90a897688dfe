//! Activation and normalisation of queries and keys, and the norm of the output.
//!
//! The delta rule's transition is the generalised Householder `I - b k k^T`. Along
//! `k` it scales by `1 - b |k|^2`, so a key of unit length leaves the decision to
//! gate `b` alone: the identity at `0`, a projection at `1`, a reflection at `2`.
use vstd::prelude::*;

use crate::common::activation::{
    elu_plus_one, elu_plus_one_of, relu, relu_of, silu, silu_of,
};
use crate::common::linear::Row;
use crate::ring::{
    lemma_mul_associates, lemma_mul_commutes, lemma_mul_one, lemma_zero_mul, Real, Ring,
};
use crate::sum::{lemma_sum_ext, lemma_sum_scale_right, sum};
use crate::tensor::{Ten4, Tensor4};

verus! {

/// The activation of queries and keys before they are normalised.
#[derive(Debug, Clone, Copy, PartialEq, Eq, Structural)]
pub enum QkActivation {
    /// No activation.
    Identity,
    /// `x sigmoid(x)`.
    Silu,
    /// `max(x, 0)`.
    Relu,
    /// `elu(x) + 1`, which is positive everywhere.
    EluPlusOne,
}

impl Default for QkActivation {
    fn default() -> (r: Self)
        ensures
            r == QkActivation::Identity,
    {
        QkActivation::Identity
    }
}

impl QkActivation {
    /// The activation of one value.
    pub open spec fn value<R: Real>(self, x: R) -> R {
        match self {
            QkActivation::Identity => x,
            QkActivation::Silu => silu(x),
            QkActivation::Relu => relu(x),
            QkActivation::EluPlusOne => elu_plus_one(x),
        }
    }

    /// Applies the activation to one value.
    pub fn apply<T: Real>(self, x: T) -> (r: T)
        ensures
            r == self.value(x),
    {
        match self {
            QkActivation::Identity => x,
            QkActivation::Silu => silu_of(x),
            QkActivation::Relu => relu_of(x),
            QkActivation::EluPlusOne => elu_plus_one_of(x),
        }
    }
}

/// The normalisation of queries and keys over their channels.
#[derive(Debug, Clone, Copy, PartialEq, Eq, Structural)]
pub enum QkNorm {
    /// Unit length.
    L2,
    /// Unit sum, for channels that are positive.
    Sum,
    /// None: left as projected.
    Identity,
}

impl Default for QkNorm {
    fn default() -> (r: Self)
        ensures
            r == QkNorm::L2,
    {
        QkNorm::L2
    }
}

/// The number of parts that `1` is divided into for the term that guards the
/// length of a vanishing row.
pub const L2_EPS_PARTS: usize = 1_000_000;

/// `sum x^2` over `n` channels.
pub open spec fn squares<R: Ring>(n: int, x: Row<R>) -> R {
    sum(n, |d: int| x(d) * x(d))
}

/// `x / sqrt(sum x^2 + eps)` over `n` channels.
pub open spec fn l2_normed<R: Real>(n: int, x: Row<R>) -> Row<R> {
    let norm = (squares(n, x) + R::count(L2_EPS_PARTS).recip()).root();
    |d: int| x(d) * norm.recip()
}

/// `x / (sum x + guard)` over `n` channels.
pub open spec fn sum_normed<R: Real>(n: int, x: Row<R>) -> Row<R> {
    let total = sum(n, x) + R::guard();
    |d: int| x(d) * total.recip()
}

impl QkNorm {
    /// The normalised row of `n` channels.
    pub open spec fn normed<R: Real>(self, n: int, x: Row<R>) -> Row<R> {
        match self {
            QkNorm::L2 => l2_normed(n, x),
            QkNorm::Sum => sum_normed(n, x),
            QkNorm::Identity => x,
        }
    }

    /// Normalises the last axis.
    pub fn apply<T: Real>(self, x: Tensor4<T>) -> (r: Tensor4<T>)
        ensures
            r.dims() == x.dims(),
            forall|a: int, b: int, i: int, j: int|
                0 <= a < x.dims().0 && 0 <= b < x.dims().1 && 0 <= i < x.dims().2 && 0 <= j
                    < x.dims().3 ==> #[trigger] r@(a, b, i, j) == self.normed(
                    x.dims().3 as int,
                    last_row(x@, a, b, i),
                )(j),
    {
        match self {
            QkNorm::L2 => l2_normalize(&x),
            QkNorm::Sum => sum_normalize(&x),
            QkNorm::Identity => x,
        }
    }
}

/// The last axis of a tensor at the given indices of the others.
pub open spec fn last_row<R>(x: Ten4<R>, a: int, b: int, i: int) -> Row<R> {
    |j: int| x(a, b, i, j)
}

/// The sum of squares of the last axis.
fn squares_of<T: Real>(x: &Tensor4<T>, a: usize, b: usize, i: usize) -> (r: T)
    requires
        a < x.dims().0,
        b < x.dims().1,
        i < x.dims().2,
    ensures
        r == squares(x.dims().3 as int, last_row(x@, a as int, b as int, i as int)),
{
    let ghost row = last_row(x@, a as int, b as int, i as int);
    let ghost terms = |d: int| row(d) * row(d);
    let mut r = T::nil();
    let n: usize = x.dims().3;
    for j in 0..n
        invariant
            a < x.dims().0,
            b < x.dims().1,
            i < x.dims().2,
            n == x.dims().3,
            row == last_row(x@, a as int, b as int, i as int),
            terms == (|d: int| row(d) * row(d)),
            r == sum(j as int, terms),
    {
        let v = x.at(a, b, i, j);
        r = r.plus(v.times(v));
        assert(sum(j + 1, terms) == sum(j as int, terms) + terms(j as int));
    }
    r
}

/// The sum of the last axis.
fn total_of<T: Real>(x: &Tensor4<T>, a: usize, b: usize, i: usize) -> (r: T)
    requires
        a < x.dims().0,
        b < x.dims().1,
        i < x.dims().2,
    ensures
        r == sum(x.dims().3 as int, last_row(x@, a as int, b as int, i as int)),
{
    let ghost row = last_row(x@, a as int, b as int, i as int);
    let mut r = T::nil();
    let n: usize = x.dims().3;
    for j in 0..n
        invariant
            a < x.dims().0,
            b < x.dims().1,
            i < x.dims().2,
            n == x.dims().3,
            row == last_row(x@, a as int, b as int, i as int),
            r == sum(j as int, row),
    {
        r = r.plus(x.at(a, b, i, j));
        assert(sum(j + 1, row) == sum(j as int, row) + row(j as int));
    }
    r
}

/// `x / sqrt(sum x^2 + eps)` over the last axis.
pub fn l2_normalize<T: Real>(x: &Tensor4<T>) -> (r: Tensor4<T>)
    ensures
        r.dims() == x.dims(),
        forall|a: int, b: int, i: int, j: int|
            0 <= a < x.dims().0 && 0 <= b < x.dims().1 && 0 <= i < x.dims().2 && 0 <= j < x.dims().3
                ==> #[trigger] r@(a, b, i, j) == l2_normed(
                x.dims().3 as int,
                last_row(x@, a, b, i),
            )(j),
{
    let f = |a: usize, b: usize, i: usize, j: usize| -> (r: T)
        requires
            a < x.dims().0,
            b < x.dims().1,
            i < x.dims().2,
            j < x.dims().3,
        ensures
            r == l2_normed(x.dims().3 as int, last_row(x@, a as int, b as int, i as int))(
                j as int,
            ),
        {
            let eps = T::from_count(L2_EPS_PARTS).reciprocal();
            let norm = squares_of(x, a, b, i).plus(eps).square_root();
            x.at(a, b, i, j).times(norm.reciprocal())
        };
    Tensor4::from_fn(x.dims().0, x.dims().1, x.dims().2, x.dims().3, f)
}

/// `x / (sum x + guard)` over the last axis.
pub fn sum_normalize<T: Real>(x: &Tensor4<T>) -> (r: Tensor4<T>)
    ensures
        r.dims() == x.dims(),
        forall|a: int, b: int, i: int, j: int|
            0 <= a < x.dims().0 && 0 <= b < x.dims().1 && 0 <= i < x.dims().2 && 0 <= j < x.dims().3
                ==> #[trigger] r@(a, b, i, j) == sum_normed(
                x.dims().3 as int,
                last_row(x@, a, b, i),
            )(j),
{
    let f = |a: usize, b: usize, i: usize, j: usize| -> (r: T)
        requires
            a < x.dims().0,
            b < x.dims().1,
            i < x.dims().2,
            j < x.dims().3,
        ensures
            r == sum_normed(x.dims().3 as int, last_row(x@, a as int, b as int, i as int))(
                j as int,
            ),
        {
            let total = total_of(x, a, b, i).plus(T::division_guard());
            x.at(a, b, i, j).times(total.reciprocal())
        };
    Tensor4::from_fn(x.dims().0, x.dims().1, x.dims().2, x.dims().3, f)
}

/// The norm of each head's output: root mean square over the value channels, a
/// learned scale, and an optional gate.
pub struct OutNorm<T> {
    /// The scale of each value channel.
    pub gamma_v: Vec<T>,
    /// What is added to the mean square.
    pub epsilon: T,
}

impl<T: Real> OutNorm<T> {
    /// A norm over `width` channels with a scale of one.
    pub fn init(width: usize, epsilon: T) -> (r: Self)
        ensures
            r.gamma_v@.len() == width,
            r.epsilon == epsilon,
            forall|e: int| 0 <= e < width ==> #[trigger] r.gamma_v@[e] == T::one(),
    {
        let mut gamma_v: Vec<T> = Vec::with_capacity(width);
        for i in 0..width
            invariant
                gamma_v@.len() == i,
                forall|e: int| 0 <= e < i ==> #[trigger] gamma_v@[e] == T::one(),
        {
            gamma_v.push(T::unit());
        }
        OutNorm { gamma_v, epsilon }
    }

    /// The normed channel `e` of a head's output `y`, before any gate.
    pub open spec fn scaled(&self, y: Row<T>, e: int) -> T {
        let n = self.gamma_v@.len();
        let mean = squares(n as int, y) * T::count(n as usize).recip();
        (y(e) * (mean + self.epsilon).root().recip()) * self.gamma_v@[e]
    }

    /// The normed channel `e` of a head's output `y`, under its gate `z` if there
    /// is one.
    pub open spec fn normed(&self, y: Row<T>, z: Option<Row<T>>, e: int) -> T {
        match z {
            Some(z) => self.scaled(y, e) * silu(z(e)),
            None => self.scaled(y, e),
        }
    }

    /// Norms the last axis.
    pub fn forward(&self, y: &Tensor4<T>, gate: &Option<Tensor4<T>>) -> (r: Tensor4<T>)
        requires
            y.dims().3 == self.gamma_v@.len(),
            gate matches Some(z) ==> z.dims() == y.dims(),
        ensures
            r.dims() == y.dims(),
            forall|a: int, b: int, i: int, e: int|
                0 <= a < y.dims().0 && 0 <= b < y.dims().1 && 0 <= i < y.dims().2 && 0 <= e
                    < y.dims().3 ==> #[trigger] r@(a, b, i, e) == self.normed(
                    last_row(y@, a, b, i),
                    gate_row(*gate, a, b, i),
                    e,
                ),
    {
        let f = |a: usize, b: usize, i: usize, e: usize| -> (r: T)
            requires
                a < y.dims().0,
                b < y.dims().1,
                i < y.dims().2,
                e < y.dims().3,
            ensures
                r == self.scaled(last_row(y@, a as int, b as int, i as int), e as int),
            {
                let n: usize = self.gamma_v.len();
                let mean = squares_of(y, a, b, i).times(T::from_count(n).reciprocal());
                let norm = mean.plus(self.epsilon).square_root();
                y.at(a, b, i, e).times(norm.reciprocal()).times(self.gamma_v[e])
            };
        let plain = Tensor4::from_fn(y.dims().0, y.dims().1, y.dims().2, y.dims().3, f);
        match gate {
            Some(z) => {
                let g = |a: usize, b: usize, i: usize, e: usize| -> (r: T)
                    requires
                        a < y.dims().0,
                        b < y.dims().1,
                        i < y.dims().2,
                        e < y.dims().3,
                    ensures
                        r == plain@(a as int, b as int, i as int, e as int) * silu(
                            z@(a as int, b as int, i as int, e as int),
                        ),
                    { plain.at(a, b, i, e).times(silu_of(z.at(a, b, i, e))) };
                Tensor4::from_fn(y.dims().0, y.dims().1, y.dims().2, y.dims().3, g)
            },
            None => plain,
        }
    }
}

/// The output gate of one head at one step.
pub open spec fn gate_row<R: Ring>(
    gate: Option<Tensor4<R>>,
    a: int,
    b: int,
    i: int,
) -> Option<Row<R>> {
    match gate {
        Some(z) => Some(last_row(z@, a, b, i)),
        None => None,
    }
}

/// A row of zeros is normalised to zeros, whichever way.
pub proof fn law_zeros_stay_zeros<R: Real>(norm: QkNorm, n: int, x: Row<R>, d: int)
    requires
        0 <= d < n,
        forall|e: int| 0 <= e < n ==> #[trigger] x(e) == R::zero(),
    ensures
        norm.normed(n, x)(d) == R::zero(),
{
    assert(x(d) == R::zero());
    broadcast use lemma_zero_mul;

}

/// The length that L2 normalisation gives: the squares of the channels add up to
/// `s / (s + eps)`, where `s` is what they added up to before. It holds wherever the
/// root and the reciprocal are what they are named for.
pub proof fn law_length_after_l2<R: Real>(n: int, x: Row<R>)
    requires
        ({
            let guarded = squares(n, x) + R::count(L2_EPS_PARTS).recip();
            &&& guarded.root() * guarded.root() == guarded
            &&& guarded.root() * guarded.root().recip() == R::one()
        }),
    ensures
        squares(n, l2_normed(n, x)) * (squares(n, x) + R::count(L2_EPS_PARTS).recip()) == squares(
            n,
            x,
        ),
{
    let s = squares(n, x);
    let guarded = s + R::count(L2_EPS_PARTS).recip();
    let (norm, inverse) = (guarded.root(), guarded.root().recip());
    let y = l2_normed(n, x);
    let (before, after) = (|d: int| x(d) * x(d), |d: int| y(d) * y(d));
    let scaled = |d: int| before(d) * (inverse * inverse);
    assert forall|d: int| 0 <= d < n implies #[trigger] after(d) == scaled(d) by {
        let a = x(d);
        assert((a * inverse) * (a * inverse) == (a * a) * (inverse * inverse)) by {
            broadcast use {lemma_mul_commutes, lemma_mul_associates};

        }
    }
    lemma_sum_ext(n, after, scaled);
    lemma_sum_scale_right(n, before, inverse * inverse);
    assert((inverse * inverse) * (norm * norm) == R::one()) by {
        assert((inverse * inverse) * (norm * norm) == (norm * inverse) * (norm * inverse)) by {
            broadcast use {lemma_mul_commutes, lemma_mul_associates};

        }
        lemma_mul_one(R::one());
    }
    R::mul_associates(s, inverse * inverse, norm * norm);
    lemma_mul_one(s);
}

/// The sum that sum normalisation gives: `t / (t + guard)`, where `t` is what the
/// channels added up to before, wherever the reciprocal is one.
pub proof fn law_total_after_sum<R: Real>(n: int, x: Row<R>)
    requires
        (sum(n, x) + R::guard()) * (sum(n, x) + R::guard()).recip() == R::one(),
    ensures
        sum(n, sum_normed(n, x)) * (sum(n, x) + R::guard()) == sum(n, x),
{
    let total = sum(n, x) + R::guard();
    lemma_sum_scale_right(n, x, total.recip());
    lemma_sum_ext(n, sum_normed(n, x), |d: int| x(d) * total.recip());
    R::mul_associates(sum(n, x), total.recip(), total);
    R::mul_commutes(total.recip(), total);
    lemma_mul_one(sum(n, x));
}

} // verus!
