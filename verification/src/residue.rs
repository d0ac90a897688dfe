//! Integers modulo `2^64`: a ring in which every identity can be computed exactly.
use vstd::prelude::*;
use vstd::arithmetic::div_mod::*;
use vstd::arithmetic::mul::*;
use vstd::arithmetic::power::*;

use crate::ring::{Real, Ring, Scalar};


verus! {

/// `2^64`
pub open spec fn modulus() -> int {
    0x1_0000_0000_0000_0000
}

/// A residue class modulo `2^64`, by its least non-negative member.
///
/// The exponential is `5^x`: the powers of five modulo `2^64` repeat with a
/// period that divides `2^64`, so it turns sums of residues into products.
#[derive(Clone, Copy, Debug, PartialEq, Eq, Structural)]
pub struct Residue {
    /// The least non-negative member of the class.
    pub value: u64,
}

/// The class of an integer.
pub open spec fn class(x: int) -> Residue {
    Residue { value: (x % modulus()) as u64 }
}

impl Ring for Residue {
    open spec fn zero() -> Self {
        class(0)
    }

    open spec fn one() -> Self {
        class(1)
    }

    open spec fn spec_add(self, other: Self) -> Self {
        class(self.value + other.value)
    }

    open spec fn spec_mul(self, other: Self) -> Self {
        class(self.value * other.value)
    }

    open spec fn spec_neg(self) -> Self {
        class(-self.value)
    }

    open spec fn spec_sub(self, other: Self) -> Self {
        class(self.value - other.value)
    }

    open spec fn expo(self) -> Self {
        class(pow(5, self.value as nat))
    }

    proof fn add_commutes(a: Self, b: Self) {
    }

    proof fn add_associates(a: Self, b: Self, c: Self) {
    }

    proof fn add_zero(a: Self) {
    }

    proof fn add_neg(a: Self) {
    }

    proof fn sub_is_add_neg(a: Self, b: Self) {
    }

    proof fn mul_commutes(a: Self, b: Self) {
        lemma_mul_is_commutative(a.value as int, b.value as int);
    }

    proof fn mul_associates(a: Self, b: Self, c: Self) {
        let (x, y, z) = (a.value as int, b.value as int, c.value as int);
        lemma_mul_mod_noop_left(x * y, z, modulus());
        lemma_mul_mod_noop_right(x, y * z, modulus());
        lemma_mul_is_associative(x, y, z);
    }

    proof fn mul_one(a: Self) {
        lemma_small_mod(a.value as nat, modulus() as nat);
        lemma_mul_basics_3(a.value as int);
    }

    proof fn mul_distributes(a: Self, b: Self, c: Self) {
        let (x, y, z) = (a.value as int, b.value as int, c.value as int);
        lemma_mul_mod_noop_right(x, y + z, modulus());
        lemma_mul_is_distributive_add(x, y, z);
        lemma_add_mod_noop(x * y, x * z, modulus());
    }

    proof fn expo_zero() {
        lemma_pow0(5);
    }

    proof fn expo_add(a: Self, b: Self) {
        let (x, y) = (a.value as nat, b.value as nat);
        lemma_pow_adds(5, x, y);
        lemma_mul_mod_noop(pow(5, x), pow(5, y), modulus());
        if x + y >= modulus() {
            let rest = (x + y - modulus()) as nat;
            lemma_pow_adds(5, rest, modulus() as nat);
            lemma_five_repeats();
            lemma_mul_mod_noop_right(pow(5, rest), pow(5, modulus() as nat), modulus());
            assert((a + b).value == rest);
        } else {
            assert((a + b).value == x + y);
        }
    }
}

/// `2^n`, by doubling.
spec fn two_to(n: nat) -> nat
    decreases n,
{
    if n == 0 {
        1
    } else {
        2 * two_to((n - 1) as nat)
    }
}

/// `5^(2^n)` is one more than a multiple of `2^(n + 2)`.
proof fn lemma_five_power(n: nat) -> (m: int)
    ensures
        pow(5, two_to(n)) == 1 + 4 * two_to(n) * m,
    decreases n,
{
    if n == 0 {
        lemma_pow1(5);
        1
    } else {
        let h = two_to((n - 1) as nat);
        let m = lemma_five_power((n - 1) as nat);
        lemma_pow_adds(5, h, h);
        let r = m + 2 * h * m * m;
        assert((1 + 4 * h * m) * (1 + 4 * h * m) == 1 + 4 * (2 * h) * r) by (nonlinear_arith)
            requires
                r == m + 2 * h * m * m,
        ;
        r
    }
}

/// `5^(2^64)` is congruent to one.
proof fn lemma_five_repeats()
    ensures
        pow(5, modulus() as nat) % modulus() == 1,
{
    assert(two_to(64) == modulus()) by {
        reveal_with_fuel(two_to, 65);
    }
    let m = lemma_five_power(64);
    lemma_mod_multiples_vanish(4 * m, 1, modulus());
    assert(4 * two_to(64) * m == modulus() * (4 * m)) by (nonlinear_arith)
        requires
            two_to(64) == modulus(),
    ;
}

impl Scalar for Residue {
    fn nil() -> (r: Self) {
        Residue { value: 0 }
    }

    fn unit() -> (r: Self) {
        Residue { value: 1 }
    }

    fn plus(self, other: Self) -> (r: Self) {
        Residue { value: self.value.wrapping_add(other.value) }
    }

    fn minus(self, other: Self) -> (r: Self) {
        Residue { value: self.value.wrapping_sub(other.value) }
    }

    fn times(self, other: Self) -> (r: Self) {
        Residue { value: self.value.wrapping_mul(other.value) }
    }

    fn negated(self) -> (r: Self) {
        Residue { value: (0u64).wrapping_sub(self.value) }
    }

    fn exponential(self) -> (r: Self) {
        power(Residue { value: 5 }, self.value)
    }
}

/// Modulo `2^64` only the odd residues have an inverse, and few have a root. So
/// `recip` is the power that inverts every odd residue, `root` and `ln` are fixed
/// polynomials, and a residue counts as positive in the lower half of the range.
impl Real for Residue {
    open spec fn count(n: usize) -> Self {
        class(n as int)
    }

    open spec fn recip(self) -> Self {
        class(pow(self.value as int, 0x3fff_ffff_ffff_ffff))
    }

    open spec fn root(self) -> Self {
        self + class(3)
    }

    open spec fn ln(self) -> Self {
        self * self + class(7)
    }

    open spec fn positive(self) -> bool {
        0 < self.value < 0x8000_0000_0000_0000
    }

    open spec fn finite(self) -> bool {
        true
    }

    open spec fn guard() -> Self {
        Self::one()
    }

    fn from_count(n: usize) -> (r: Self) {
        Residue { value: n as u64 }
    }

    fn reciprocal(self) -> (r: Self) {
        power(self, 0x3fff_ffff_ffff_ffff)
    }

    fn square_root(self) -> (r: Self) {
        self.plus(Residue { value: 3 })
    }

    fn logarithm(self) -> (r: Self) {
        self.times(self).plus(Residue { value: 7 })
    }

    fn is_positive(self) -> (r: bool) {
        0 < self.value && self.value < 0x8000_0000_0000_0000
    }

    fn is_finite(self) -> (r: bool) {
        true
    }

    fn division_guard() -> (r: Self) {
        Self::unit()
    }
}

/// `x^e` modulo `2^64`, by repeated squaring.
fn power(x: Residue, e: u64) -> (r: Residue)
    ensures
        r == class(pow(x.value as int, e as nat)),
{
    let ghost whole = pow(x.value as int, e as nat);
    let mut left: u64 = e;
    let mut square = x;
    let mut r = Residue { value: 1 };
    let ghost mut base: int = x.value as int;
    let ghost mut done: int = 1;
    proof {
        lemma_mul_basics_3(whole);
        lemma_small_mod(x.value as nat, modulus() as nat);
    }
    while left > 0
        invariant
            square == class(base),
            r == class(done),
            done * pow(base, left as nat) == whole,
        decreases left,
    {
        let ghost (b0, d0, n) = (base, done, left as nat);
        let half: u64 = left / 2;
        proof {
            lemma_pow_multiplies(b0, 2, half as nat);
            lemma_pow_adds(b0, 1, 1);
            lemma_pow1(b0);
            lemma_pow_adds(b0, (2 * half) as nat, (n % 2) as nat);
            lemma_mul_mod_noop(b0, b0, modulus());
            lemma_mul_mod_noop(d0, b0, modulus());
            lemma_pow0(b0);
        }
        if left % 2 == 1 {
            r = r.times(square);
            proof {
                done = d0 * b0;
                lemma_mul_is_associative(d0, b0, pow(b0 * b0, half as nat));
                lemma_mul_is_commutative(b0, pow(b0 * b0, half as nat));
            }
        }
        square = square.times(square);
        proof {
            base = b0 * b0;
        }
        left = half;
    }
    proof {
        lemma_pow0(base);
        lemma_mul_basics_3(done);
    }
    r
}

/// An odd number to the power `2^n` is one more than a multiple of `2^(n + 2)`.
proof fn lemma_odd_power(x: int, n: nat) -> (m: int)
    requires
        x % 2 == 1,
        n > 0,
    ensures
        pow(x, two_to(n)) == 1 + 4 * two_to(n) * m,
    decreases n,
{
    if n == 1 {
        reveal_with_fuel(two_to, 2);
        let y = x / 2;
        lemma_pow_adds(x, 1, 1);
        lemma_pow1(x);
        let z = y / 2;
        let m = if y % 2 == 0 {
            z * (y + 1)
        } else {
            y * (z + 1)
        };
        assert(x == 2 * y + 1);
        assert(x * x == 1 + 8 * m) by (nonlinear_arith)
            requires
                x == 2 * y + 1,
                (y == 2 * z && m == z * (y + 1)) || (y == 2 * z + 1 && m == y * (z + 1)),
        ;
        m
    } else {
        let h = two_to((n - 1) as nat);
        let m = lemma_odd_power(x, (n - 1) as nat);
        lemma_pow_adds(x, h, h);
        let r = m + 2 * h * m * m;
        assert((1 + 4 * h * m) * (1 + 4 * h * m) == 1 + 4 * (2 * h) * r) by (nonlinear_arith)
            requires
                r == m + 2 * h * m * m,
        ;
        r
    }
}

/// Every odd residue has an inverse, and its reciprocal is it.
pub proof fn law_odd_residues_invert(x: Residue)
    requires
        x.value % 2 == 1,
    ensures
        x * x.recip() == Residue::one(),
{
    let e: nat = 0x3fff_ffff_ffff_ffff;
    assert(two_to(62) == e + 1) by {
        reveal_with_fuel(two_to, 63);
    }
    let v = x.value as int;
    let m = lemma_odd_power(v, 62);
    lemma_pow_adds(v, 1, e);
    lemma_pow1(v);
    assert(1 + 4 * two_to(62) * m == modulus() * m + 1) by (nonlinear_arith)
        requires
            4 * two_to(62) == modulus(),
    ;
    lemma_mod_multiples_vanish(m, 1, modulus());
    lemma_mul_mod_noop_right(v, pow(v, e), modulus());
}

/// Of a residue and its negative exactly one is positive, but for the two that are their
/// own negatives; and counting up adds one.
pub proof fn law_signs_and_counts(x: Residue, n: usize)
    requires
        x.value != 0,
        x.value != 0x8000_0000_0000_0000,
        n < usize::MAX,
    ensures
        x.positive() != (-x).positive(),
        !Residue::zero().positive(),
        Residue::one().positive(),
        Residue::count(0) == Residue::zero(),
        Residue::count((n + 1) as usize) == Residue::count(n) + Residue::one(),
{
}

} // verus!
