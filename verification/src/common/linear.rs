//! Affine maps of the last axis.
use vstd::prelude::*;

use crate::mat::Mat;
use crate::matrix::Matrix;
use crate::ring::{Real, Ring, Scalar};
use crate::sum::sum;
use crate::tensor::{Ten3, Tensor3};

verus! {

/// One value per channel.
pub type Row<R> = spec_fn(int) -> R;

/// One sequence of a `[batch, sequence, width]` tensor: `[sequence, width]`.
pub open spec fn sequence_of<R>(x: Ten3<R>, a: int) -> Mat<R> {
    |t: int, c: int| x(a, t, c)
}

/// Row `a` of a `[batch, width]` matrix, as a sequence of one step.
pub open spec fn token_of<R: Ring>(x: Mat<R>, a: int) -> Mat<R> {
    |t: int, c: int|
        if t == 0 {
            x(a, c)
        } else {
            R::zero()
        }
}

/// A row of `n` channels, zero on all others.
pub open spec fn within<R: Ring>(n: int, x: Row<R>) -> Row<R> {
    |c: int|
        if 0 <= c < n {
            x(c)
        } else {
            R::zero()
        }
}

/// Step `t` of sequence `a`.
pub open spec fn row_of<R>(x: Ten3<R>, a: int, t: int) -> Row<R> {
    |c: int| x(a, t, c)
}

/// A map `x W + b` from `weight.rows()` to `weight.cols()` channels.
pub struct Linear<T> {
    /// The weight, `[inputs, outputs]`.
    pub weight: Matrix<T>,
    /// The bias, if there is one: one value per output.
    pub bias: Option<Vec<T>>,
}

/// A sum of products, plus an offset where there is one.
pub open spec fn offset_by<R: Ring>(bias: Option<Vec<R>>, c: int, total: R) -> R {
    match bias {
        Some(b) => total + b@[c],
        None => total,
    }
}

impl<T: Ring> Linear<T> {
    /// Whether the bias has one value per output.
    pub open spec fn valid(&self) -> bool {
        self.bias matches Some(b) ==> b@.len() == self.weight.cols()
    }

    /// The image of a row.
    pub open spec fn image(&self, x: Row<T>) -> Row<T> {
        |c: int|
            offset_by(
                self.bias,
                c,
                sum(self.weight.rows() as int, |d: int| x(d) * self.weight@(d, c)),
            )
    }

    /// The image of every step of a sequence.
    pub open spec fn images(&self, x: Mat<T>) -> Mat<T> {
        |t: int, c: int| self.image(|d: int| x(t, d))(c)
    }
}

/// Adds the offset of channel `c`, if there is one.
pub fn with_offset<T: Scalar>(bias: &Option<Vec<T>>, c: usize, total: T) -> (r: T)
    requires
        bias matches Some(b) ==> c < b@.len(),
    ensures
        r == offset_by(*bias, c as int, total),
{
    match bias {
        Some(b) => total.plus(b[c]),
        None => total,
    }
}

impl<T: Scalar> Linear<T> {
    /// Applies the map to every step of every sequence.
    pub fn forward(&self, x: &Tensor3<T>) -> (y: Tensor3<T>)
        requires
            self.valid(),
            x.dims().2 == self.weight.rows(),
        ensures
            y.has_shape(x.dims().0 as int, x.dims().1 as int, self.weight.cols() as int),
            forall|a: int, t: int, c: int|
                0 <= a < x.dims().0 && 0 <= t < x.dims().1 && 0 <= c < self.weight.cols()
                    ==> #[trigger] y@(a, t, c) == self.images(sequence_of(x@, a))(t, c),
    {
        let f = |a: usize, t: usize, c: usize| -> (r: T)
            requires
                a < x.dims().0,
                t < x.dims().1,
                c < self.weight.cols(),
            ensures
                r == self.images(sequence_of(x@, a as int))(t as int, c as int),
            {
                let ghost row = |d: int| sequence_of(x@, a as int)(t as int, d);
                let ghost terms = |d: int| row(d) * self.weight@(d, c as int);
                let mut r = T::nil();
                let n: usize = self.weight.rows();
                for d in 0..n
                    invariant
                        n == self.weight.rows(),
                        x.dims().2 == n,
                        a < x.dims().0,
                        t < x.dims().1,
                        c < self.weight.cols(),
                        row == (|d: int| sequence_of(x@, a as int)(t as int, d)),
                        terms == (|d: int| row(d) * self.weight@(d, c as int)),
                        r == sum(d as int, terms),
                {
                    r = r.plus(x.at(a, t, d).times(self.weight.at(d, c)));
                    assert(sum(d + 1, terms) == sum(d as int, terms) + terms(d as int));
                }
                with_offset(&self.bias, c, r)
            };
        Tensor3::from_fn(x.dims().0, x.dims().1, self.weight.cols(), f)
    }
}

/// `1 / sqrt(n)`, the range that parameters with `n` inputs are drawn from.
pub open spec fn fan_in_bound<R: Real>(n: usize) -> R {
    R::count(n).root().recip()
}

/// Whether every entry of `b` is that of `a` times `bound`.
pub open spec fn spread<R: Ring>(a: Mat<R>, bound: R, b: Mat<R>) -> bool {
    forall|i: int, j: int| #[trigger] b(i, j) == a(i, j) * bound
}

/// Whether every entry of `b` is that of `a` times `bound`.
pub open spec fn spread_bias<R: Ring>(a: Option<Vec<R>>, bound: R, b: Option<Vec<R>>) -> bool {
    match (a, b) {
        (Some(a), Some(b)) => {
            &&& a@.len() == b@.len()
            &&& forall|i: int| 0 <= i < a@.len() ==> #[trigger] b@[i] == a@[i] * bound
        },
        (None, None) => true,
        _ => false,
    }
}

/// `1 / sqrt(n)`
pub fn bound_of<T: Real>(n: usize) -> (r: T)
    ensures
        r == fan_in_bound::<T>(n),
{
    T::from_count(n).square_root().reciprocal()
}

/// Every entry times `bound`.
pub fn spread_to<T: Scalar>(a: &Matrix<T>, bound: T) -> (b: Matrix<T>)
    ensures
        b.has_shape(a.rows() as int, a.cols() as int),
        spread(a@, bound, b@),
{
    a.scaled(bound)
}

/// Every entry times `bound`.
pub fn spread_bias_to<T: Scalar>(a: &Option<Vec<T>>, bound: T) -> (b: Option<Vec<T>>)
    ensures
        spread_bias(*a, bound, b),
{
    match a {
        Some(a) => {
            let mut b: Vec<T> = Vec::with_capacity(a.len());
            for i in 0..a.len()
                invariant
                    b@.len() == i,
                    forall|j: int| 0 <= j < i ==> #[trigger] b@[j] == a@[j] * bound,
            {
                b.push(a[i].times(bound));
            }
            Some(b)
        },
        None => None,
    }
}

impl<T: Real> Linear<T> {
    /// The map whose parameters are the given draws from `[-1, 1)`, scaled to
    /// `1 / sqrt(inputs)`.
    pub fn from_draws(weight: &Matrix<T>, bias: &Option<Vec<T>>) -> (r: Self)
        requires
            bias matches Some(b) ==> b@.len() == weight.cols(),
        ensures
            r.valid(),
            r.weight.has_shape(weight.rows() as int, weight.cols() as int),
            spread(weight@, fan_in_bound(weight.rows()), r.weight@),
            spread_bias(*bias, fan_in_bound(weight.rows()), r.bias),
    {
        let bound = bound_of::<T>(weight.rows());
        Linear { weight: spread_to(weight, bound), bias: spread_bias_to(bias, bound) }
    }
}

/// A `[batch, width]` matrix as a batch of sequences of one step.
pub fn as_sequence<T: Scalar>(x: &Matrix<T>) -> (y: Tensor3<T>)
    ensures
        y.has_shape(x.rows() as int, 1, x.cols() as int),
        forall|a: int| #[trigger] sequence_of(y@, a) == token_of(x@, a),
{
    let f = |a: usize, t: usize, c: usize| -> (r: T)
        requires
            a < x.rows(),
            c < x.cols(),
        ensures
            r == x@(a as int, c as int),
        { x.at(a, c) };
    let y = Tensor3::from_fn(x.rows(), 1, x.cols(), f);
    assert forall|a: int| #[trigger] sequence_of(y@, a) == token_of(x@, a) by {
        assert(sequence_of(y@, a) =~= token_of(x@, a));
    }
    y
}

/// The first step of every sequence.
pub fn first_step<T: Scalar>(x: &Tensor3<T>) -> (y: Matrix<T>)
    requires
        x.dims().1 > 0,
    ensures
        y.has_shape(x.dims().0 as int, x.dims().2 as int),
        forall|a: int, c: int|
            0 <= a < x.dims().0 && 0 <= c < x.dims().2 ==> #[trigger] y@(a, c) == x@(a, 0, c),
{
    let f = |a: usize, c: usize| -> (r: T)
        requires
            a < x.dims().0,
            c < x.dims().2,
        ensures
            r == x@(a as int, 0, c as int),
        { x.at(a, 0, c) };
    Matrix::from_fn(x.dims().0, x.dims().2, f)
}

} // verus!
