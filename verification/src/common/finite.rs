//! Guards against entries that are no numbers.
use vstd::prelude::*;

use crate::ring::Real;
use crate::tensor::{Tensor3, Tensor4};

verus! {

/// Whether every entry is a number.
pub open spec fn finite3<R: Real>(x: Tensor3<R>) -> bool {
    forall|a: int, i: int, j: int|
        0 <= a < x.dims().0 && 0 <= i < x.dims().1 && 0 <= j < x.dims().2 ==> (#[trigger] x@(
            a,
            i,
            j,
        )).finite()
}

/// Whether every entry is a number.
pub open spec fn finite4<R: Real>(x: Tensor4<R>) -> bool {
    forall|a: int, b: int, i: int, j: int|
        0 <= a < x.dims().0 && 0 <= b < x.dims().1 && 0 <= i < x.dims().2 && 0 <= j < x.dims().3
            ==> (#[trigger] x@(a, b, i, j)).finite()
}

/// Whether every entry of plane `a` is a number.
fn rows_finite3<T: Real>(x: &Tensor3<T>, a: usize) -> (r: bool)
    requires
        a < x.dims().0,
    ensures
        r == forall|i: int, j: int|
            0 <= i < x.dims().1 && 0 <= j < x.dims().2 ==> (#[trigger] x@(
                a as int,
                i,
                j,
            )).finite(),
{
    let (_, n, m) = x.dims();
    for i in 0..n
        invariant
            a < x.dims().0,
            n == x.dims().1,
            m == x.dims().2,
            forall|k: int, j: int|
                0 <= k < i && 0 <= j < m ==> (#[trigger] x@(a as int, k, j)).finite(),
    {
        for j in 0..m
            invariant
                a < x.dims().0,
                i < n,
                n == x.dims().1,
                m == x.dims().2,
                forall|k: int, j: int|
                    0 <= k < i && 0 <= j < m ==> (#[trigger] x@(a as int, k, j)).finite(),
                forall|k: int| 0 <= k < j ==> (#[trigger] x@(a as int, i as int, k)).finite(),
        {
            if !x.at(a, i, j).is_finite() {
                return false;
            }
        }
    }
    true
}

/// Whether every entry is a number.
pub fn is_finite3<T: Real>(x: &Tensor3<T>) -> (r: bool)
    ensures
        r == finite3(*x),
{
    let n: usize = x.dims().0;
    for a in 0..n
        invariant
            n == x.dims().0,
            forall|k: int, i: int, j: int|
                0 <= k < a && 0 <= i < x.dims().1 && 0 <= j < x.dims().2 ==> (#[trigger] x@(
                    k,
                    i,
                    j,
                )).finite(),
    {
        if !rows_finite3(x, a) {
            return false;
        }
    }
    true
}

/// Whether every entry is a number.
pub fn is_finite4<T: Real>(x: &Tensor4<T>) -> (r: bool)
    ensures
        r == finite4(*x),
{
    let n: usize = x.dims().1;
    for b in 0..n
        invariant
            n == x.dims().1,
            forall|a: int, k: int, i: int, j: int|
                0 <= a < x.dims().0 && 0 <= k < b && 0 <= i < x.dims().2 && 0 <= j < x.dims().3
                    ==> (#[trigger] x@(a, k, i, j)).finite(),
    {
        let plane = x.step(b);
        if !is_finite3(&plane) {
            proof {
                let (a, i, j) = choose|a: int, i: int, j: int|
                    0 <= a < plane.dims().0 && 0 <= i < plane.dims().1 && 0 <= j < plane.dims().2
                        && !(#[trigger] plane@(a, i, j)).finite();
                assert(plane@(a, i, j) == x@(a, b as int, i, j));
            }
            return false;
        }
        assert forall|a: int, i: int, j: int|
            0 <= a < x.dims().0 && 0 <= i < x.dims().2 && 0 <= j < x.dims().3 implies (
        #[trigger] x@(a, b as int, i, j)).finite() by {
            assert(plane@(a, i, j) == x@(a, b as int, i, j));
        }
    }
    true
}

} // verus!
