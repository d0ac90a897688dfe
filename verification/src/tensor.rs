//! Dense tensors of scalars with three and four axes.
use vstd::prelude::*;

use crate::mat::Mat;
use crate::matrix::Matrix;
use crate::ring::{Ring, Scalar};

verus! {

/// A three-axis tensor: its entry at each index.
pub type Ten3<R> = spec_fn(int, int, int) -> R;

/// A four-axis tensor: its entry at each index.
pub type Ten4<R> = spec_fn(int, int, int, int) -> R;

/// A dense tensor with three axes.
pub struct Tensor3<T> {
    axes: (usize, usize, usize),
    data: Vec<Matrix<T>>,
}

/// A dense tensor with four axes.
pub struct Tensor4<T> {
    axes: (usize, usize, usize, usize),
    data: Vec<Vec<Matrix<T>>>,
}

impl<T> Tensor3<T> {
    #[verifier::type_invariant]
    spec fn regular(self) -> bool {
        &&& self.data@.len() == self.axes.0
        &&& forall|a: int|
            0 <= a < self.axes.0 ==> (#[trigger] self.data@[a]).has_shape(
                self.axes.1 as int,
                self.axes.2 as int,
            )
    }

    /// The lengths of the axes, in specifications.
    pub closed spec fn spec_dims(&self) -> (usize, usize, usize) {
        self.axes
    }

    /// Whether the axes have the given lengths.
    pub open spec fn has_shape(&self, a: int, b: int, c: int) -> bool {
        self.dims().0 == a && self.dims().1 == b && self.dims().2 == c
    }

    /// The lengths of the axes.
    #[verifier::when_used_as_spec(spec_dims)]
    pub fn dims(&self) -> (r: (usize, usize, usize))
        ensures
            r == self.dims(),
    {
        self.axes
    }
}

impl<T: Ring> Tensor3<T> {
    /// The stored entry at the given index.
    pub closed spec fn entry(&self, a: int, i: int, j: int) -> T {
        self.data@[a]@(i, j)
    }

    /// The tensor as a function of its indices, zero outside its shape.
    pub open spec fn view(&self) -> Ten3<T> {
        |a: int, i: int, j: int|
            if 0 <= a < self.dims().0 && 0 <= i < self.dims().1 && 0 <= j < self.dims().2 {
                self.entry(a, i, j)
            } else {
                T::zero()
            }
    }
}

impl<T> Tensor4<T> {
    #[verifier::type_invariant]
    spec fn regular(self) -> bool {
        &&& self.data@.len() == self.axes.0
        &&& forall|a: int| 0 <= a < self.axes.0 ==> (#[trigger] self.data@[a])@.len() == self.axes.1
        &&& forall|a: int, b: int|
            0 <= a < self.axes.0 && 0 <= b < self.axes.1 ==> (
            #[trigger] self.data@[a]@[b]).has_shape(self.axes.2 as int, self.axes.3 as int)
    }

    /// The lengths of the axes, in specifications.
    pub closed spec fn spec_dims(&self) -> (usize, usize, usize, usize) {
        self.axes
    }

    /// Whether the axes have the given lengths.
    pub open spec fn has_shape(&self, a: int, b: int, c: int, d: int) -> bool {
        self.dims().0 == a && self.dims().1 == b && self.dims().2 == c && self.dims().3 == d
    }

    /// The lengths of the axes.
    #[verifier::when_used_as_spec(spec_dims)]
    pub fn dims(&self) -> (r: (usize, usize, usize, usize))
        ensures
            r == self.dims(),
    {
        self.axes
    }
}

impl<T: Ring> Tensor4<T> {
    /// The stored entry at the given index.
    pub closed spec fn entry(&self, a: int, b: int, i: int, j: int) -> T {
        self.data@[a]@[b]@(i, j)
    }

    /// The tensor as a function of its indices, zero outside its shape.
    pub open spec fn view(&self) -> Ten4<T> {
        |a: int, b: int, i: int, j: int|
            if 0 <= a < self.dims().0 && 0 <= b < self.dims().1 && 0 <= i < self.dims().2 && 0 <= j
                < self.dims().3 {
                self.entry(a, b, i, j)
            } else {
                T::zero()
            }
    }
}

/// Whether `f` may return `r` at the given index.
spec fn yields3<T, F: Fn(usize, usize, usize) -> T>(
    f: &F,
    a: usize,
    i: usize,
    j: usize,
    r: T,
) -> bool {
    f.ensures((a, i, j), r)
}

/// Whether `f` may return `r` at the given index.
spec fn yields4<T, F: Fn(usize, usize, usize, usize) -> T>(
    f: &F,
    a: usize,
    b: usize,
    i: usize,
    j: usize,
    r: T,
) -> bool {
    f.ensures((a, b, i, j), r)
}

impl<T: Scalar> Tensor3<T> {
    /// The tensor of zeros.
    pub fn zeros(d0: usize, d1: usize, d2: usize) -> (t: Self)
        ensures
            t.has_shape(d0 as int, d1 as int, d2 as int),
            forall|a: int, i: int, j: int| #[trigger] t@(a, i, j) == T::zero(),
    {
        let f = |a: usize, i: usize, j: usize| -> (r: T)
            ensures
                r == T::zero(),
            { T::nil() };
        Tensor3::from_fn(d0, d1, d2, f)
    }

    /// The tensor whose entry at `(a, i, j)` is `f(a, i, j)`.
    pub fn from_fn<F: Fn(usize, usize, usize) -> T>(d0: usize, d1: usize, d2: usize, f: F) -> (t:
        Self)
        requires
            forall|a: usize, i: usize, j: usize|
                a < d0 && i < d1 && j < d2 ==> #[trigger] f.requires((a, i, j)),
        ensures
            t.has_shape(d0 as int, d1 as int, d2 as int),
            forall|a: int, i: int, j: int|
                0 <= a < d0 && 0 <= i < d1 && 0 <= j < d2 ==> f.ensures(
                    (a as usize, i as usize, j as usize),
                    #[trigger] t@(a, i, j),
                ),
    {
        let mut data: Vec<Matrix<T>> = Vec::with_capacity(d0);
        for a in 0..d0
            invariant
                data@.len() == a,
                forall|a: usize, i: usize, j: usize|
                    a < d0 && i < d1 && j < d2 ==> #[trigger] f.requires((a, i, j)),
                forall|c: int|
                    0 <= c < a ==> (#[trigger] data@[c]).has_shape(d1 as int, d2 as int)
                        && forall|i: int, j: int|
                        0 <= i < d1 && 0 <= j < d2 ==> f.ensures(
                            (c as usize, i as usize, j as usize),
                            #[trigger] data@[c]@(i, j),
                        ),
        {
            let g = |i: usize, j: usize| -> (r: T)
                requires
                    i < d1,
                    j < d2,
                ensures
                    yields3(&f, a, i, j, r),
                { f(a, i, j) };
            let m = Matrix::from_fn(d1, d2, g);
            data.push(m);
        }
        Tensor3 { axes: (d0, d1, d2), data }
    }

    /// The entry at `(a, i, j)`.
    pub fn at(&self, a: usize, i: usize, j: usize) -> (r: T)
        requires
            a < self.dims().0,
            i < self.dims().1,
            j < self.dims().2,
        ensures
            r == self@(a as int, i as int, j as int),
    {
        proof {
            use_type_invariant(self);
        }
        self.data[a].at(i, j)
    }
}

impl<T: Scalar> Tensor4<T> {
    /// The tensor of zeros.
    pub fn zeros(d0: usize, d1: usize, d2: usize, d3: usize) -> (t: Self)
        ensures
            t.has_shape(d0 as int, d1 as int, d2 as int, d3 as int),
            forall|a: int, b: int, i: int, j: int| #[trigger] t@(a, b, i, j) == T::zero(),
    {
        let f = |a: usize, b: usize, i: usize, j: usize| -> (r: T)
            ensures
                r == T::zero(),
            { T::nil() };
        Tensor4::from_fn(d0, d1, d2, d3, f)
    }

    /// The tensor whose entry at `(a, b, i, j)` is `f(a, b, i, j)`.
    pub fn from_fn<F: Fn(usize, usize, usize, usize) -> T>(
        d0: usize,
        d1: usize,
        d2: usize,
        d3: usize,
        f: F,
    ) -> (t: Self)
        requires
            forall|a: usize, b: usize, i: usize, j: usize|
                a < d0 && b < d1 && i < d2 && j < d3 ==> #[trigger] f.requires((a, b, i, j)),
        ensures
            t.has_shape(d0 as int, d1 as int, d2 as int, d3 as int),
            forall|a: int, b: int, i: int, j: int|
                0 <= a < d0 && 0 <= b < d1 && 0 <= i < d2 && 0 <= j < d3 ==> f.ensures(
                    (a as usize, b as usize, i as usize, j as usize),
                    #[trigger] t@(a, b, i, j),
                ),
    {
        let mut data: Vec<Vec<Matrix<T>>> = Vec::with_capacity(d0);
        for a in 0..d0
            invariant
                data@.len() == a,
                forall|a: usize, b: usize, i: usize, j: usize|
                    a < d0 && b < d1 && i < d2 && j < d3 ==> #[trigger] f.requires((a, b, i, j)),
                forall|c: int| 0 <= c < a ==> (#[trigger] data@[c])@.len() == d1,
                forall|c: int, b: int|
                    0 <= c < a && 0 <= b < d1 ==> (#[trigger] data@[c]@[b]).has_shape(
                        d2 as int,
                        d3 as int,
                    ) && forall|i: int, j: int|
                        0 <= i < d2 && 0 <= j < d3 ==> f.ensures(
                            (c as usize, b as usize, i as usize, j as usize),
                            #[trigger] data@[c]@[b]@(i, j),
                        ),
        {
            let mut row: Vec<Matrix<T>> = Vec::with_capacity(d1);
            for b in 0..d1
                invariant
                    a < d0,
                    row@.len() == b,
                    forall|a: usize, b: usize, i: usize, j: usize|
                        a < d0 && b < d1 && i < d2 && j < d3 ==> #[trigger] f.requires(
                            (a, b, i, j),
                        ),
                    forall|c: int|
                        0 <= c < b ==> (#[trigger] row@[c]).has_shape(d2 as int, d3 as int)
                            && forall|i: int, j: int|
                            0 <= i < d2 && 0 <= j < d3 ==> f.ensures(
                                (a, c as usize, i as usize, j as usize),
                                #[trigger] row@[c]@(i, j),
                            ),
            {
                let g = |i: usize, j: usize| -> (r: T)
                    requires
                        i < d2,
                        j < d3,
                    ensures
                        yields4(&f, a, b, i, j, r),
                    { f(a, b, i, j) };
                let m = Matrix::from_fn(d2, d3, g);
                row.push(m);
            }
            data.push(row);
        }
        Tensor4 { axes: (d0, d1, d2, d3), data }
    }

    /// The entry at `(a, b, i, j)`.
    pub fn at(&self, a: usize, b: usize, i: usize, j: usize) -> (r: T)
        requires
            a < self.dims().0,
            b < self.dims().1,
            i < self.dims().2,
            j < self.dims().3,
        ensures
            r == self@(a as int, b as int, i as int, j as int),
    {
        proof {
            use_type_invariant(self);
        }
        self.data[a][b].at(i, j)
    }

    /// The `[axis 1, axis 3]` plane at index `a` of axis 0 and `h` of axis 2.
    pub fn head(&self, a: usize, h: usize) -> (m: Matrix<T>)
        requires
            a < self.dims().0,
            h < self.dims().2,
        ensures
            m.has_shape(self.dims().1 as int, self.dims().3 as int),
            m@ == head_plane(self@, a as int, h as int),
    {
        let f = |i: usize, j: usize| -> (r: T)
            requires
                i < self.dims().1,
                j < self.dims().3,
            ensures
                r == self@(a as int, i as int, h as int, j as int),
            { self.at(a, i, h, j) };
        let m = Matrix::from_fn(self.dims().1, self.dims().3, f);
        assert(m@ =~= head_plane(self@, a as int, h as int));
        m
    }

    /// The `[axis 2, axis 3]` plane at index `a` of axis 0 and `b` of axis 1.
    pub fn block(&self, a: usize, b: usize) -> (m: Matrix<T>)
        requires
            a < self.dims().0,
            b < self.dims().1,
        ensures
            m.has_shape(self.dims().2 as int, self.dims().3 as int),
            m@ == last_plane(self@, a as int, b as int),
    {
        let f = |i: usize, j: usize| -> (r: T)
            requires
                i < self.dims().2,
                j < self.dims().3,
            ensures
                r == self@(a as int, b as int, i as int, j as int),
            { self.at(a, b, i, j) };
        let m = Matrix::from_fn(self.dims().2, self.dims().3, f);
        assert(m@ =~= last_plane(self@, a as int, b as int));
        m
    }

    /// The three-axis tensor at index `t` of axis 1.
    pub fn step(&self, t: usize) -> (r: Tensor3<T>)
        requires
            t < self.dims().1,
        ensures
            r.has_shape(self.dims().0 as int, self.dims().2 as int, self.dims().3 as int),
            r@ == at_step(self@, t as int),
    {
        let f = |a: usize, i: usize, j: usize| -> (r: T)
            requires
                a < self.dims().0,
                i < self.dims().2,
                j < self.dims().3,
            ensures
                r == self@(a as int, t as int, i as int, j as int),
            { self.at(a, t, i, j) };
        let r = Tensor3::from_fn(self.dims().0, self.dims().2, self.dims().3, f);
        assert(r@ =~= at_step(self@, t as int));
        r
    }
}

/// The plane of a `[batch, sequence, nheads, width]` tensor that belongs to one
/// head of one sequence: `[sequence, width]`.
pub open spec fn head_plane<R>(x: Ten4<R>, a: int, h: int) -> Mat<R> {
    |t: int, d: int| x(a, t, h, d)
}

/// The last two axes of a tensor at indices `a` and `b` of the first two.
pub open spec fn last_plane<R>(x: Ten4<R>, a: int, b: int) -> Mat<R> {
    |i: int, j: int| x(a, b, i, j)
}

/// A `[batch, sequence, ..]` tensor at one step of the sequence.
pub open spec fn at_step<R>(x: Ten4<R>, t: int) -> Ten3<R> {
    |a: int, i: int, j: int| x(a, t, i, j)
}

} // verus!
