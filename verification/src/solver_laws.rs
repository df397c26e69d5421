//! Laws of the choice of pivots, of the couplings of a quadrature, and of the
//! comparison of ranges.

use crate::arithmetic::{exact, Meaning};
use crate::cholesky_laws::exact_roots;
use crate::linalg::{at, pivot_row};
use crate::products::{lemma_prod, lemma_quot, lemma_quot_positive, lemma_undo, quot};
use crate::quadrature::{hermite_couplings, SQRT_2_BITS};
use crate::units::{agree, inside};
use vstd::prelude::*;

verus! {

/// The magnitude of a number.
pub open spec fn size(a: real) -> real {
    if a < 0real {
        -a
    } else {
        a
    }
}

/// The pivot is partial: among the rows from `c` to `r` none has a larger entry in
/// column `c` than the row of the pivot, and none before it has one as large.
pub proof fn law_pivot_is_largest(m: Meaning<real>, a: Seq<real>, n: nat, c: int, r: int)
    requires
        exact(m),
        c <= r,
    ensures
        ({
            let p = pivot_row(m, a, n, c, r);
            &&& c <= p <= r
            &&& forall|i: int|
                c <= i <= r ==> size(a[#[trigger] at(n, i, c)]) <= size(a[at(n, p, c)])
            &&& forall|i: int|
                c <= i < p ==> size(a[#[trigger] at(n, i, c)]) < size(a[at(n, p, c)])
        }),
    decreases r - c,
{
    if r > c {
        law_pivot_is_largest(m, a, n, c, r - 1);
        let p = pivot_row(m, a, n, c, r - 1);
        assert(m.abs(a[at(n, p, c)]) == size(a[at(n, p, c)]));
        assert(m.abs(a[at(n, r, c)]) == size(a[at(n, r, c)]));
        assert forall|i: int| c <= i <= r implies size(a[#[trigger] at(n, i, c)]) <= size(
            a[at(n, pivot_row(m, a, n, c, r), c)],
        ) by {}
    }
}

/// Two ranges agree if and only if neither their lower nor their upper bounds differ
/// by more than the part `tol` of the largest of all magnitudes and widths of the
/// two.
pub proof fn law_ranges_that_agree(
    m: Meaning<real>,
    a: (real, real),
    b: (real, real),
    tol: real,
    top: real,
)
    requires
        exact(m),
        size(a.0) <= top && size(a.1) <= top && size(b.0) <= top && size(b.1) <= top,
        size(a.1 - a.0) <= top && size(b.1 - b.0) <= top,
        top == size(a.0) || top == size(a.1) || top == size(b.0) || top == size(b.1) || top == size(
            a.1 - a.0,
        ) || top == size(b.1 - b.0),
    ensures
        agree(m, a, b, tol) <==> size(a.0 - b.0) <= tol * top && size(a.1 - b.1) <= tol * top,
{
    let span = m.max(m.abs(m.sub(a.1, a.0)), m.abs(m.sub(b.1, b.0)));
    let most = m.max(m.max(m.max(m.abs(a.0), m.abs(a.1)), m.abs(b.0)), m.abs(b.1));
    assert(m.max(span, most) == top);
}

/// A coordinate lies in a range if and only if it is not below the lower bound and
/// not above the upper one.
pub proof fn law_bounds_belong_to_a_range(m: Meaning<real>, lo: real, hi: real, x: real)
    requires
        exact(m),
    ensures
        inside(m, lo, hi, x) <==> lo <= x <= hi,
{
}

/// The couplings of the Jacobi matrix of the Hermite polynomials: the square of the
/// one between rows `i - 1` and `i` is half of `i`.
pub proof fn law_hermite_couplings(m: Meaning<real>, n: nat, i: nat, r: real)
    requires
        exact(m),
        exact_roots(m),
        m.num(SQRT_2_BITS) == r,
        r > 0real,
        r * r == 2real,
        1 <= i < n,
    ensures
        ({
            let c = hermite_couplings(m, n)[i as int];
            &&& c > 0real
            &&& 2real * (c * c) == i as real
        }),
{
    let t = m.sqrt(i as real);
    assert(t > 0real && t * t == i as real);
    lemma_quot(t, r);
    lemma_quot_positive(t, r);
    lemma_undo(t, r);
    let c = quot(t, r);
    lemma_prod(c, r);
    assert(c * r == t);
    assert((c * r) * (c * r) == (r * r) * (c * c)) by (nonlinear_arith);
    assert(hermite_couplings(m, n)[i as int] == c);
}

} // verus!
