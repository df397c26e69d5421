//! Finite sums of real numbers.

use vstd::prelude::*;

verus! {

/// The sum of `f` over the whole numbers from zero to `k`, `k` excluded.
pub open spec fn sum(f: spec_fn(int) -> real, k: int) -> real
    decreases k,
{
    if k <= 0 {
        0real
    } else {
        sum(f, k - 1) + f(k - 1)
    }
}

/// Equal terms have equal sums.
pub proof fn lemma_sum_same(f: spec_fn(int) -> real, g: spec_fn(int) -> real, k: int)
    requires
        forall|j: int| 0 <= j < k ==> #[trigger] f(j) == g(j),
    ensures
        sum(f, k) == sum(g, k),
    decreases k,
{
    if k > 0 {
        lemma_sum_same(f, g, k - 1);
        assert(f(k - 1) == g(k - 1));
    }
}

/// The sum of sums.
pub proof fn lemma_sum_add(
    f: spec_fn(int) -> real,
    g: spec_fn(int) -> real,
    h: spec_fn(int) -> real,
    k: int,
)
    requires
        forall|j: int| 0 <= j < k ==> #[trigger] h(j) == f(j) + g(j),
    ensures
        sum(h, k) == sum(f, k) + sum(g, k),
    decreases k,
{
    if k > 0 {
        lemma_sum_add(f, g, h, k - 1);
        assert(h(k - 1) == f(k - 1) + g(k - 1));
    }
}

/// A common factor of all terms.
pub proof fn lemma_sum_scale(c: real, f: spec_fn(int) -> real, h: spec_fn(int) -> real, k: int)
    requires
        forall|j: int| 0 <= j < k ==> #[trigger] h(j) == c * f(j),
    ensures
        sum(h, k) == c * sum(f, k),
    decreases k,
{
    if k > 0 {
        lemma_sum_scale(c, f, h, k - 1);
        assert(h(k - 1) == c * f(k - 1));
        let s = sum(f, k - 1);
        let t = f(k - 1);
        assert(c * (s + t) == c * s + c * t) by (nonlinear_arith);
    } else {
        assert(c * 0real == 0real) by (nonlinear_arith);
    }
}

/// Terms from `k` on that vanish.
pub proof fn lemma_sum_tail(f: spec_fn(int) -> real, k: int, n: int)
    requires
        0 <= k <= n,
        forall|j: int| k <= j < n ==> #[trigger] f(j) == 0real,
    ensures
        sum(f, n) == sum(f, k),
    decreases n - k,
{
    if k < n {
        lemma_sum_tail(f, k, n - 1);
        assert(f(n - 1) == 0real);
    }
}

/// A sum with one term.
pub proof fn lemma_sum_one(f: spec_fn(int) -> real, i: int, n: int)
    requires
        0 <= i < n,
        forall|j: int| 0 <= j < n && j != i ==> #[trigger] f(j) == 0real,
    ensures
        sum(f, n) == f(i),
{
    lemma_sum_tail(f, i + 1, n);
    lemma_sum_tail(f, 0, i);
}

/// Terms that are not negative.
pub proof fn lemma_sum_nonnegative(f: spec_fn(int) -> real, k: int)
    requires
        forall|j: int| 0 <= j < k ==> #[trigger] f(j) >= 0real,
    ensures
        sum(f, k) >= 0real,
    decreases k,
{
    if k > 0 {
        lemma_sum_nonnegative(f, k - 1);
        assert(f(k - 1) >= 0real);
    }
}

/// The rows of a table of terms.
pub open spec fn inner(f: spec_fn(int, int) -> real, l: int) -> spec_fn(int) -> real {
    |j: int| sum(|k: int| f(j, k), l)
}

/// The columns of a table of terms.
pub open spec fn outer(f: spec_fn(int, int) -> real, l: int) -> spec_fn(int) -> real {
    |k: int| sum(|j: int| f(j, k), l)
}

/// A table of terms can be added row by row or column by column.
pub proof fn lemma_sum_swap(f: spec_fn(int, int) -> real, a: int, b: int)
    requires
        0 <= a,
        0 <= b,
    ensures
        sum(inner(f, b), a) == sum(outer(f, a), b),
    decreases a,
{
    if a == 0 {
        assert forall|k: int| 0 <= k < b implies #[trigger] outer(f, 0)(k) == 0real by {}
        lemma_sum_tail(outer(f, 0), 0, b);
    } else {
        lemma_sum_swap(f, a - 1, b);
        let last = |k: int| f(a - 1, k);
        assert forall|k: int| 0 <= k < b implies #[trigger] outer(f, a)(k) == outer(f, a - 1)(k)
            + last(k) by {
            let col = |j: int| f(j, k);
            assert(sum(col, a) == sum(col, a - 1) + col(a - 1));
        }
        lemma_sum_add(outer(f, a - 1), last, outer(f, a), b);
        assert(inner(f, b)(a - 1) == sum(last, b));
    }
}

/// Factors in another order.
pub proof fn lemma_regroup(u: real, v: real, p: real, q: real)
    ensures
        u * ((v * p) * q) == (v * q) * (u * p),
{
    assert(u * ((v * p) * q) == (v * q) * (u * p)) by (nonlinear_arith);
}

/// A weighted square of a sum.
pub proof fn lemma_expand(v: real, q: real, e: real)
    ensures
        v * ((q + e) * (q + e)) == (v * (q * q) + (v * (q * e) + v * (q * e))) + v * (e * e),
{
    let s = q * q;
    let t = q * e;
    let u = e * e;
    assert((q + e) * (q + e) == s + t + t + u) by (nonlinear_arith)
        requires
            s == q * q,
            t == q * e,
            u == e * e,
    ;
    assert(v * (s + t + t + u) == v * s + v * t + v * t + v * u) by (nonlinear_arith);
}

/// A weighted square is not negative.
pub proof fn lemma_weighted_square(v: real, e: real)
    requires
        v >= 0real,
    ensures
        v * (e * e) >= 0real,
{
    let s = e * e;
    assert(s >= 0real) by (nonlinear_arith)
        requires
            s == e * e,
    ;
    assert(v * s >= 0real) by (nonlinear_arith)
        requires
            v >= 0real,
            s >= 0real,
    ;
}

} // verus!
