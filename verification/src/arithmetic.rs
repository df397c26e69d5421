//! Arithmetic on numbers of the format binary64.
//!
//! The computations of this library are written over a provider of the
//! arithmetic operations.  What a computation yields is a formula; it is
//! stated for every reading of the operations as functions that the provider
//! follows.  The formulas themselves speak of numbers of any kind, so that a
//! law can also be stated of a formula read over the real numbers.

use crate::binary64::{Binary64, ONE_BITS};
use vstd::prelude::*;

verus! {

/// A provider of the arithmetic operations.
pub trait Arithmetic {
    /// `a + b`
    fn plus(a: Binary64, b: Binary64) -> (r: Binary64);

    /// `a - b`
    fn minus(a: Binary64, b: Binary64) -> (r: Binary64);

    /// `a * b`
    fn times(a: Binary64, b: Binary64) -> (r: Binary64);

    /// `a / b`
    fn over(a: Binary64, b: Binary64) -> (r: Binary64);

    /// The square root.
    fn root(a: Binary64) -> (r: Binary64);

    /// The exponential function.
    fn exp(a: Binary64) -> (r: Binary64);

    /// The natural logarithm.
    fn ln(a: Binary64) -> (r: Binary64);

    /// The length of the hypotenuse over the legs `a` and `b`.
    fn hypot(a: Binary64, b: Binary64) -> (r: Binary64);

    /// `a` raised to the power `n`.
    fn power(a: Binary64, n: usize) -> (r: Binary64);

    /// The number nearest to a count.
    fn of_count(n: usize) -> (r: Binary64);
}

/// A reading of the operations, as functions on numbers of the kind `T`.
#[verifier::reject_recursive_types(T)]
pub struct Meaning<T> {
    pub plus: spec_fn(T, T) -> T,
    pub minus: spec_fn(T, T) -> T,
    pub times: spec_fn(T, T) -> T,
    pub over: spec_fn(T, T) -> T,
    pub root: spec_fn(T) -> T,
    pub exp: spec_fn(T) -> T,
    pub ln: spec_fn(T) -> T,
    pub hypot: spec_fn(T, T) -> T,
    pub power: spec_fn(T, nat) -> T,
    pub of_count: spec_fn(nat) -> T,
    /// the constant with a given bit pattern
    pub constant: spec_fn(u64) -> T,
    pub opposite: spec_fn(T) -> T,
    pub magnitude: spec_fn(T) -> T,
    pub larger: spec_fn(T, T) -> T,
    pub smaller: spec_fn(T, T) -> T,
    pub below: spec_fn(T, T) -> bool,
    pub equals: spec_fn(T, T) -> bool,
    pub finite: spec_fn(T) -> bool,
    /// the first number with the sign of the second
    pub signed_as: spec_fn(T, T) -> T,
}

impl<T> Meaning<T> {
    pub open spec fn add(self, a: T, b: T) -> T {
        (self.plus)(a, b)
    }

    pub open spec fn sub(self, a: T, b: T) -> T {
        (self.minus)(a, b)
    }

    pub open spec fn mul(self, a: T, b: T) -> T {
        (self.times)(a, b)
    }

    pub open spec fn div(self, a: T, b: T) -> T {
        (self.over)(a, b)
    }

    pub open spec fn sqrt(self, a: T) -> T {
        (self.root)(a)
    }

    pub open spec fn e(self, a: T) -> T {
        (self.exp)(a)
    }

    pub open spec fn log(self, a: T) -> T {
        (self.ln)(a)
    }

    pub open spec fn legs(self, a: T, b: T) -> T {
        (self.hypot)(a, b)
    }

    pub open spec fn pow(self, a: T, n: nat) -> T {
        (self.power)(a, n)
    }

    pub open spec fn count(self, n: nat) -> T {
        (self.of_count)(n)
    }

    pub open spec fn num(self, bits: u64) -> T {
        (self.constant)(bits)
    }

    pub open spec fn neg(self, a: T) -> T {
        (self.opposite)(a)
    }

    pub open spec fn abs(self, a: T) -> T {
        (self.magnitude)(a)
    }

    pub open spec fn max(self, a: T, b: T) -> T {
        (self.larger)(a, b)
    }

    pub open spec fn min(self, a: T, b: T) -> T {
        (self.smaller)(a, b)
    }

    pub open spec fn lt(self, a: T, b: T) -> bool {
        (self.below)(a, b)
    }

    pub open spec fn eq(self, a: T, b: T) -> bool {
        (self.equals)(a, b)
    }

    pub open spec fn fin(self, a: T) -> bool {
        (self.finite)(a)
    }

    pub open spec fn sign(self, a: T, b: T) -> T {
        (self.signed_as)(a, b)
    }

    pub open spec fn le(self, a: T, b: T) -> bool {
        self.lt(a, b) || self.eq(a, b)
    }

    pub open spec fn zero(self) -> T {
        self.num(0)
    }

    pub open spec fn one(self) -> T {
        self.num(ONE_BITS)
    }
}

/// The operations that need the bit patterns alone, read as they are.
pub open spec fn native(m: Meaning<Binary64>) -> bool {
    &&& forall|b: u64| #[trigger] (m.constant)(b) == Binary64 { bits: b }
    &&& forall|a: Binary64| #[trigger] (m.opposite)(a) == a.negated()
    &&& forall|a: Binary64| #[trigger] (m.magnitude)(a) == a.absolute()
    &&& forall|a: Binary64, b: Binary64| #[trigger] (m.larger)(a, b) == a.larger(b)
    &&& forall|a: Binary64, b: Binary64| #[trigger] (m.smaller)(a, b) == a.smaller(b)
    &&& forall|a: Binary64, b: Binary64| #[trigger] (m.below)(a, b) == a.below(b)
    &&& forall|a: Binary64, b: Binary64| #[trigger] (m.equals)(a, b) == a.equals(b)
    &&& forall|a: Binary64| #[trigger] (m.finite)(a) == a.finite()
    &&& forall|a: Binary64, b: Binary64| #[trigger] (m.signed_as)(a, b) == a.with_sign(b)
}

/// The operations of `A` return what the reading `m` says.
pub open spec fn follows<A: Arithmetic>(m: Meaning<Binary64>) -> bool {
    &&& native(m)
    &&& forall|a: Binary64, b: Binary64, r: Binary64| #[trigger]
        call_ensures(A::plus, (a, b), r) ==> r == (m.plus)(a, b)
    &&& forall|a: Binary64, b: Binary64, r: Binary64| #[trigger]
        call_ensures(A::minus, (a, b), r) ==> r == (m.minus)(a, b)
    &&& forall|a: Binary64, b: Binary64, r: Binary64| #[trigger]
        call_ensures(A::times, (a, b), r) ==> r == (m.times)(a, b)
    &&& forall|a: Binary64, b: Binary64, r: Binary64| #[trigger]
        call_ensures(A::over, (a, b), r) ==> r == (m.over)(a, b)
    &&& forall|a: Binary64, r: Binary64| #[trigger]
        call_ensures(A::root, (a,), r) ==> r == (m.root)(a)
    &&& forall|a: Binary64, r: Binary64| #[trigger]
        call_ensures(A::exp, (a,), r) ==> r == (m.exp)(a)
    &&& forall|a: Binary64, r: Binary64| #[trigger]
        call_ensures(A::ln, (a,), r) ==> r == (m.ln)(a)
    &&& forall|a: Binary64, b: Binary64, r: Binary64| #[trigger]
        call_ensures(A::hypot, (a, b), r) ==> r == (m.hypot)(a, b)
    &&& forall|a: Binary64, n: usize, r: Binary64| #[trigger]
        call_ensures(A::power, (a, n), r) ==> r == (m.power)(a, n as nat)
    &&& forall|n: usize, r: Binary64| #[trigger]
        call_ensures(A::of_count, (n,), r) ==> r == (m.of_count)(n as nat)
}

/// The operations on real numbers.  Nothing is said here of roots,
/// exponentials, logarithms and hypotenuses.
pub open spec fn exact(m: Meaning<real>) -> bool {
    &&& forall|a: real, b: real| #[trigger] (m.plus)(a, b) == a + b
    &&& forall|a: real, b: real| #[trigger] (m.minus)(a, b) == a - b
    &&& forall|a: real, b: real| #[trigger] (m.times)(a, b) == a * b
    &&& forall|a: real, b: real| b != 0real ==> #[trigger] (m.over)(a, b) == a / b
    &&& forall|n: nat| #[trigger] (m.of_count)(n) == n as real
    &&& (m.constant)(0) == 0real
    &&& (m.constant)(ONE_BITS) == 1real
    &&& forall|a: real| #[trigger] (m.opposite)(a) == -a
    &&& forall|a: real| #[trigger] (m.magnitude)(a) == (if a < 0real { -a } else { a })
    &&& forall|a: real, b: real| #[trigger] (m.larger)(a, b) == (if a < b { b } else { a })
    &&& forall|a: real, b: real| #[trigger] (m.smaller)(a, b) == (if b < a { b } else { a })
    &&& forall|a: real, b: real| #[trigger] (m.below)(a, b) == (a < b)
    &&& forall|a: real, b: real| #[trigger] (m.equals)(a, b) == (a == b)
    &&& forall|a: real| #[trigger] (m.finite)(a)
}

} // verus!
