//! Products and quotients of real numbers, by their rules alone.

use vstd::prelude::*;

verus! {

/// A product.
#[verifier::opaque]
pub open spec fn prod(a: real, b: real) -> real {
    a * b
}

/// A quotient.
#[verifier::opaque]
pub open spec fn quot(a: real, b: real) -> real {
    a / b
}

pub proof fn lemma_prod(a: real, b: real)
    ensures
        prod(a, b) == a * b,
{
    reveal(prod);
}

pub proof fn lemma_quot(a: real, b: real)
    ensures
        quot(a, b) == a / b,
{
    reveal(quot);
}

/// Factors may change places.
pub proof fn lemma_swap(a: real, b: real)
    ensures
        prod(a, b) == prod(b, a),
{
    reveal(prod);
    assert(a * b == b * a) by (nonlinear_arith);
}

/// Factors may be grouped in any way.
pub proof fn lemma_group(a: real, b: real, c: real)
    ensures
        prod(prod(a, b), c) == prod(a, prod(b, c)),
{
    reveal(prod);
    assert((a * b) * c == a * (b * c)) by (nonlinear_arith);
}

/// A product of two products.
pub proof fn lemma_cross(a: real, b: real, c: real, d: real)
    ensures
        prod(prod(a, b), prod(c, d)) == prod(prod(a, c), prod(b, d)),
{
    lemma_group(a, b, prod(c, d));
    lemma_group(b, c, d);
    lemma_swap(b, c);
    lemma_group(c, b, d);
    lemma_group(a, c, prod(b, d));
}

/// A factor of a sum.
pub proof fn lemma_share(a: real, b: real, c: real)
    ensures
        prod(a + b, c) == prod(a, c) + prod(b, c),
        prod(a - b, c) == prod(a, c) - prod(b, c),
{
    reveal(prod);
    assert((a + b) * c == a * c + b * c) by (nonlinear_arith);
    assert((a - b) * c == a * c - b * c) by (nonlinear_arith);
}

pub proof fn lemma_one(a: real)
    ensures
        prod(a, 1real) == a,
        prod(1real, a) == a,
        prod(a, 0real) == 0real,
        prod(0real, a) == 0real,
{
    reveal(prod);
    assert(a * 1real == a && 1real * a == a && a * 0real == 0real && 0real * a == 0real)
        by (nonlinear_arith);
}

/// A quotient times its divisor.
pub proof fn lemma_undo(a: real, b: real)
    requires
        b != 0real,
    ensures
        prod(quot(a, b), b) == a,
{
    reveal(prod);
    reveal(quot);
    assert((a / b) * b == a) by (nonlinear_arith)
        requires
            b != 0real,
    ;
}

pub proof fn lemma_both_positive(a: real, b: real)
    requires
        a > 0real,
        b > 0real,
    ensures
        prod(a, b) > 0real,
{
    reveal(prod);
    assert(a * b > 0real) by (nonlinear_arith)
        requires
            a > 0real,
            b > 0real,
    ;
}

pub proof fn lemma_quot_positive(a: real, b: real)
    requires
        a > 0real,
        b > 0real,
    ensures
        quot(a, b) > 0real,
{
    lemma_undo(a, b);
    lemma_prod(quot(a, b), b);
    let q = quot(a, b);
    assert(q > 0real) by (nonlinear_arith)
        requires
            q * b > 0real,
            b > 0real,
    ;
}

pub proof fn lemma_square_not_negative(a: real)
    ensures
        prod(a, a) >= 0real,
{
    reveal(prod);
    assert(a * a >= 0real) by (nonlinear_arith);
}

/// A common factor that is not zero.
pub proof fn lemma_common(a: real, b: real, k: real)
    requires
        prod(a, k) == prod(b, k),
        k != 0real,
    ensures
        a == b,
{
    lemma_share(a, b, k);
    lemma_prod(a - b, k);
    let d = a - b;
    assert(d == 0real) by (nonlinear_arith)
        requires
            d * k == 0real,
            k != 0real,
    ;
}

} // verus!
