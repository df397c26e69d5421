//! Laws of the order and the signs of numbers.

use crate::binary64::{lemma_scaled_sign, Binary64};
use vstd::prelude::*;

verus! {

/// Of two numbers the larger one has the larger value, and the smaller one the
/// smaller; where one is not a number, both are the other.
pub proof fn law_larger_and_smaller(a: Binary64, b: Binary64)
    ensures
        a.nan() ==> a.larger(b) == b && a.smaller(b) == b,
        !a.nan() && b.nan() ==> a.larger(b) == a && a.smaller(b) == a,
        !a.nan() && !b.nan() ==> {
            &&& a.larger(b) == a || a.larger(b) == b
            &&& a.smaller(b) == a || a.smaller(b) == b
            &&& a.larger(b).value() >= a.value() && a.larger(b).value() >= b.value()
            &&& a.smaller(b).value() <= a.value() && a.smaller(b).value() <= b.value()
        },
        a.below(b) <==> !a.nan() && !b.nan() && a.value() < b.value(),
        a.equals(b) <==> !a.nan() && !b.nan() && a.value() == b.value(),
{
}

/// The magnitude of a number is not below zero and differs from it in sign at most;
/// the opposite has the opposite value.
pub proof fn law_magnitude_and_opposite(a: Binary64)
    ensures
        a.value() >= 0 ==> a.absolute().value() == a.value(),
        a.value() < 0 ==> a.absolute().value() == -a.value(),
        a.negated().value() == -a.value(),
        a.negated().negated() == a,
        a.absolute().nan() == a.nan() && a.negated().nan() == a.nan(),
        a.absolute().finite() == a.finite() && a.negated().finite() == a.finite(),
{
    lemma_scaled_sign(a.unsigned());
    assert(a.absolute().unsigned() == a.unsigned());
    assert(a.negated().unsigned() == a.unsigned());
    assert(a.negated().negative() != a.negative());
}

/// A number with the sign of another has its magnitude, and the sign of the other.
pub proof fn law_sign_of_another(a: Binary64, b: Binary64)
    ensures
        a.with_sign(b).negative() == b.negative(),
        a.with_sign(b).absolute() == a.absolute(),
{
    assert(a.negated().unsigned() == a.unsigned());
}

} // verus!
