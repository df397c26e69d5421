//! Binary floating-point numbers by their bit pattern.
//!
//! A measured coordinate is a number of the IEEE 754 format binary64.  The
//! library orders such numbers and tells finite ones from others; for that it
//! needs the 64 bits alone.  Every finite number of the format is a whole
//! multiple of 2^-1074, so its exact value is an integer in that unit.

use vstd::arithmetic::power2::{
    lemma2_to64, lemma2_to64_rest, lemma_pow2_adds, lemma_pow2_pos, lemma_pow2_strictly_increases,
    lemma_pow2_unfold, pow2,
};
use vstd::prelude::*;

verus! {

/// A number of the format binary64: sign bit, eleven bits of exponent,
/// fifty-two bits of fraction.
#[derive(Clone, Copy, Debug, PartialEq, Eq, Structural)]
pub struct Binary64 {
    pub bits: u64,
}

/// The bit pattern of the number one.
pub const ONE_BITS: u64 = 0x3ff0_0000_0000_0000;

/// The exact value, in units of 2^-1074, of a pattern without its sign bit.
/// Infinity ranks above every finite number by the same formula.
pub open spec fn scaled(u: int) -> int {
    let e = u / 0x10_0000_0000_0000;
    let m = u % 0x10_0000_0000_0000;
    if e == 0 {
        m
    } else {
        (0x10_0000_0000_0000 + m) * pow2((e - 1) as nat)
    }
}

impl Binary64 {
    /// The pattern without its sign bit.
    pub open spec fn unsigned(self) -> int {
        if self.bits >= 0x8000_0000_0000_0000 {
            self.bits - 0x8000_0000_0000_0000
        } else {
            self.bits as int
        }
    }

    /// The sign bit is set.
    pub open spec fn negative(self) -> bool {
        self.bits >= 0x8000_0000_0000_0000
    }

    /// Not a number.
    pub open spec fn nan(self) -> bool {
        self.unsigned() > 0x7ff0_0000_0000_0000
    }

    /// Neither infinite nor not a number.
    pub open spec fn finite(self) -> bool {
        self.unsigned() < 0x7ff0_0000_0000_0000
    }

    /// The exact value in units of 2^-1074; for the infinities, a value beyond
    /// those of all finite numbers.
    pub open spec fn value(self) -> int {
        if self.negative() {
            -scaled(self.unsigned())
        } else {
            scaled(self.unsigned())
        }
    }

    /// The pattern without its sign bit, with the sign of the number.
    pub open spec fn signed_pattern(self) -> int {
        if self.negative() {
            -self.unsigned()
        } else {
            self.unsigned()
        }
    }

    /// The order of numbers; nothing is below or above what is not a number.
    pub open spec fn below(self, other: Binary64) -> bool {
        !self.nan() && !other.nan() && self.value() < other.value()
    }

    /// Equality of numbers; the two zeros are equal.
    pub open spec fn equals(self, other: Binary64) -> bool {
        !self.nan() && !other.nan() && self.value() == other.value()
    }

    /// The larger of two numbers; where one is not a number, the other.
    pub open spec fn larger(self, other: Binary64) -> Binary64 {
        if self.nan() || self.below(other) {
            other
        } else {
            self
        }
    }

    /// The smaller of two numbers; where one is not a number, the other.
    pub open spec fn smaller(self, other: Binary64) -> Binary64 {
        if self.nan() || other.below(self) {
            other
        } else {
            self
        }
    }

    /// The number with its sign bit cleared.
    pub open spec fn absolute(self) -> Binary64 {
        Binary64 { bits: self.unsigned() as u64 }
    }

    /// The number with its sign bit flipped.
    pub open spec fn negated(self) -> Binary64 {
        if self.negative() {
            self.absolute()
        } else {
            Binary64 { bits: (self.bits + 0x8000_0000_0000_0000) as u64 }
        }
    }

    /// The number with the sign bit of another.
    pub open spec fn with_sign(self, other: Binary64) -> Binary64 {
        if self.negative() == other.negative() {
            self
        } else {
            self.negated()
        }
    }
}

/// Larger patterns have larger values.
pub proof fn lemma_scaled_increases(u: int, v: int)
    requires
        0 <= u < v,
    ensures
        scaled(u) < scaled(v),
{
    let b = 0x10_0000_0000_0000int;
    let e = u / b;
    let m = u % b;
    let f = v / b;
    let n = v % b;
    assert(u == b * e + m && v == b * f + n && 0 <= m < b && 0 <= n < b);
    assert(0 <= e <= f);
    if e == f {
        assert(m < n);
        if e > 0 {
            let p = pow2((e - 1) as nat) as int;
            lemma_pow2_pos((e - 1) as nat);
            assert((b + m) * p < (b + n) * p) by (nonlinear_arith)
                requires
                    m < n,
                    p > 0,
            ;
        }
    } else {
        let q = pow2((f - 1) as nat) as int;
        lemma_pow2_pos((f - 1) as nat);
        assert((b + n) * q >= b * q) by (nonlinear_arith)
            requires
                n >= 0,
                q > 0,
        ;
        if e == 0 {
            assert(b * q >= b) by (nonlinear_arith)
                requires
                    q >= 1,
                    b > 0,
            ;
        } else {
            let p = pow2((e - 1) as nat) as int;
            lemma_pow2_pos((e - 1) as nat);
            assert(q >= 2 * p) by {
                lemma_pow2_unfold(e as nat);
                if e < f - 1 {
                    lemma_pow2_strictly_increases(e as nat, (f - 1) as nat);
                }
            }
            assert((b + m) * p < b * q) by (nonlinear_arith)
                requires
                    m < b,
                    b > 0,
                    p > 0,
                    q >= 2 * p,
            ;
        }
    }
}

/// Zero is the least value of a pattern, and of no other pattern.
pub proof fn lemma_scaled_sign(u: int)
    requires
        0 <= u,
    ensures
        scaled(u) >= 0,
        scaled(u) == 0 <==> u == 0,
{
    if u > 0 {
        lemma_scaled_increases(0, u);
    }
}

/// The order of values is that of the signed patterns.
pub proof fn lemma_order(a: Binary64, b: Binary64)
    ensures
        a.value() < b.value() <==> a.signed_pattern() < b.signed_pattern(),
        a.value() == b.value() <==> a.signed_pattern() == b.signed_pattern(),
{
    let u = a.unsigned();
    let v = b.unsigned();
    lemma_scaled_sign(u);
    lemma_scaled_sign(v);
    if u < v {
        lemma_scaled_increases(u, v);
    }
    if v < u {
        lemma_scaled_increases(v, u);
    }
}

impl Binary64 {
    /// A number by which finite numbers are ordered.
    pub fn key(&self) -> (r: i64)
        ensures
            r == self.signed_pattern(),
    {
        if self.bits >= 0x8000_0000_0000_0000 {
            -((self.bits - 0x8000_0000_0000_0000) as i64)
        } else {
            self.bits as i64
        }
    }

    /// Whether this is not a number.
    pub fn is_nan(&self) -> (r: bool)
        ensures
            r == self.nan(),
    {
        self.abs().bits > 0x7ff0_0000_0000_0000
    }

    /// Whether this is neither infinite nor not a number.
    pub fn is_finite(&self) -> (r: bool)
        ensures
            r == self.finite(),
    {
        self.abs().bits < 0x7ff0_0000_0000_0000
    }

    /// Whether this is one of the two zeros.
    pub fn is_zero(&self) -> (r: bool)
        ensures
            r == (self.value() == 0 && !self.nan()),
            r == (self.unsigned() == 0),
    {
        proof {
            lemma_scaled_sign(self.unsigned());
        }
        self.abs().bits == 0
    }

    /// `self < other`.
    pub fn lt(&self, other: &Binary64) -> (r: bool)
        ensures
            r == self.below(*other),
    {
        proof {
            lemma_order(*self, *other);
        }
        !self.is_nan() && !other.is_nan() && self.key() < other.key()
    }

    /// `self <= other`.
    pub fn le(&self, other: &Binary64) -> (r: bool)
        ensures
            r == (self.below(*other) || self.equals(*other)),
    {
        proof {
            lemma_order(*self, *other);
        }
        !self.is_nan() && !other.is_nan() && self.key() <= other.key()
    }

    /// `self == other`.
    pub fn same(&self, other: &Binary64) -> (r: bool)
        ensures
            r == self.equals(*other),
    {
        proof {
            lemma_order(*self, *other);
        }
        !self.is_nan() && !other.is_nan() && self.key() == other.key()
    }

    /// The larger of two numbers; where one is not a number, the other.
    pub fn max(self, other: Binary64) -> (r: Binary64)
        ensures
            r == self.larger(other),
    {
        if self.is_nan() || self.lt(&other) {
            other
        } else {
            self
        }
    }

    /// The smaller of two numbers; where one is not a number, the other.
    pub fn min(self, other: Binary64) -> (r: Binary64)
        ensures
            r == self.smaller(other),
    {
        if self.is_nan() || other.lt(&self) {
            other
        } else {
            self
        }
    }

    /// The number with its sign bit cleared.
    pub fn abs(&self) -> (r: Binary64)
        ensures
            r == self.absolute(),
    {
        if self.bits >= 0x8000_0000_0000_0000 {
            Binary64 { bits: self.bits - 0x8000_0000_0000_0000 }
        } else {
            *self
        }
    }

    /// The number with its sign bit flipped.
    pub fn neg(&self) -> (r: Binary64)
        ensures
            r == self.negated(),
    {
        if self.bits >= 0x8000_0000_0000_0000 {
            self.abs()
        } else {
            Binary64 { bits: self.bits + 0x8000_0000_0000_0000 }
        }
    }

    /// The number with the sign bit of another.
    pub fn copysign(&self, other: Binary64) -> (r: Binary64)
        ensures
            r == self.with_sign(other),
    {
        if (self.bits >= 0x8000_0000_0000_0000) == (other.bits >= 0x8000_0000_0000_0000) {
            *self
        } else {
            self.neg()
        }
    }

    /// The number `k / 2^53`, exactly.
    pub fn from_53_bits(k: u64) -> (r: Binary64)
        requires
            k < 0x20_0000_0000_0000,
        ensures
            r.finite(),
            !r.negative(),
            r.value() == k * pow2(1021),
    {
        if k == 0 {
            let r: Binary64 = Binary64 { bits: 0 };
            assert(r.value() == 0);
            return r;
        }
        let mut m: u64 = k;
        let mut e: u64 = 1022;
        assert(m == k * pow2(0)) by {
            lemma2_to64();
        }
        while m < 0x10_0000_0000_0000
            invariant
                0 < k,
                0 < m < 0x20_0000_0000_0000,
                970 <= e <= 1022,
                m == k * pow2((1022 - e) as nat),
            decreases 0x20_0000_0000_0000 - m,
        {
            proof {
                let s = (1022 - e) as nat;
                let p = pow2(s) as int;
                assert(p <= m) by (nonlinear_arith)
                    requires
                        m == k * p,
                        k >= 1,
                        p >= 0,
                ;
                lemma2_to64_rest();
                if s >= 52 {
                    if s > 52 {
                        lemma_pow2_strictly_increases(52, s);
                    }
                    assert(false);
                }
                lemma_pow2_unfold(s + 1);
                assert(2 * (k * p) == k * (2 * p)) by (nonlinear_arith);
            }
            m = 2 * m;
            e = e - 1;
        }
        proof {
            let s = (1022 - e) as nat;
            lemma_pow2_adds(s, (e - 1) as nat);
            let p = pow2(s) as int;
            let q = pow2((e - 1) as nat) as int;
            assert(m * q == k * (p * q)) by (nonlinear_arith)
                requires
                    m == k * p,
            ;
            let u = e * 0x10_0000_0000_0000 + (m - 0x10_0000_0000_0000);
            assert(u / 0x10_0000_0000_0000 == e && u % 0x10_0000_0000_0000 == m
                - 0x10_0000_0000_0000);
        }
        Binary64 { bits: e * 0x10_0000_0000_0000 + (m - 0x10_0000_0000_0000) }
    }
}

} // verus!
