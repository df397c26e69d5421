//! Laws of the solver for symmetric matrices, read over the real numbers.

use crate::arithmetic::{exact, Meaning};
use crate::linalg::{
    at, complement, halfway, halfway_rest, lower, positive, sym_solution, weight, weight_rest,
};
use crate::linalg_laws::{row_sum, solves};
use crate::sums::{
    inner, lemma_sum_same, lemma_sum_scale, lemma_sum_swap, lemma_sum_tail, outer, sum,
};
use vstd::prelude::*;

verus! {

/// Roots of positive numbers are positive, and squared they give the number.
pub open spec fn exact_roots(m: Meaning<real>) -> bool {
    forall|v: real|
        v > 0real ==> (#[trigger] (m.root)(v)) > 0real && (m.root)(v) * (m.root)(v) == v
}

/// The matrix is its own transpose.
pub open spec fn symmetric(a: Seq<real>, n: nat) -> bool {
    forall|i: int, j: int|
        0 <= i < n && 0 <= j < n ==> #[trigger] a[at(n, i, j)] == a[at(n, j, i)]
}

/// The triangular factor with its zeros.
spec fn low(m: Meaning<real>, a: Seq<real>, n: nat, i: int, j: int) -> real {
    if 0 <= j <= i {
        lower(m, a, n, i, j)
    } else {
        0real
    }
}

spec fn row_product(m: Meaning<real>, a: Seq<real>, n: nat, i: int, j: int) -> spec_fn(int) -> real {
    |l: int| low(m, a, n, i, l) * low(m, a, n, j, l)
}

proof fn lemma_complement(m: Meaning<real>, a: Seq<real>, n: nat, i: int, j: int, k: int)
    requires
        exact(m),
        0 <= k <= j <= i,
    ensures
        complement(m, a, n, i, j, k) == a[at(n, i, j)] - sum(row_product(m, a, n, i, j), k),
    decreases k,
{
    if k > 0 {
        lemma_complement(m, a, n, i, j, k - 1);
    }
}

proof fn lemma_diagonal_positive(m: Meaning<real>, a: Seq<real>, n: nat, i: int)
    requires
        exact(m),
        exact_roots(m),
        positive(m, a, n, n as int),
        0 <= i < n,
    ensures
        lower(m, a, n, i, i) > 0real,
        lower(m, a, n, i, i) * lower(m, a, n, i, i) == complement(m, a, n, i, i, i),
{
    let v = complement(m, a, n, i, i, i);
    assert(!m.le(v, m.zero()));
    assert((m.root)(v) > 0real);
}

/// The factor times its transpose is the matrix.
proof fn lemma_factor(m: Meaning<real>, a: Seq<real>, n: nat, i: int, j: int)
    requires
        exact(m),
        exact_roots(m),
        positive(m, a, n, n as int),
        symmetric(a, n),
        0 <= i < n,
        0 <= j < n,
    ensures
        sum(row_product(m, a, n, i, j), n as int) == a[at(n, i, j)],
    decreases j,
{
    if j <= i {
        let f = row_product(m, a, n, i, j);
        lemma_complement(m, a, n, i, j, j);
        lemma_diagonal_positive(m, a, n, j);
        let d = lower(m, a, n, j, j);
        let c = complement(m, a, n, i, j, j);
        assert(f(j) == c) by {
            if j < i {
                assert((c / d) * d == c) by (nonlinear_arith)
                    requires
                        d != 0real,
                ;
            }
        }
        assert forall|l: int| j + 1 <= l < n implies #[trigger] f(l) == 0real by {
            let u = low(m, a, n, i, l);
            assert(u * 0real == 0real) by (nonlinear_arith);
        }
        lemma_sum_tail(f, j + 1, n as int);
        assert(sum(f, j + 1) == sum(f, j) + f(j));
    } else {
        lemma_factor(m, a, n, j, i);
        let f = row_product(m, a, n, i, j);
        let g = row_product(m, a, n, j, i);
        assert forall|l: int| 0 <= l < n implies #[trigger] f(l) == g(l) by {
            let u = low(m, a, n, i, l);
            let v = low(m, a, n, j, l);
            assert(u * v == v * u) by (nonlinear_arith);
        }
        lemma_sum_same(f, g, n as int);
        assert(a[at(n, i, j)] == a[at(n, j, i)]);
    }
}

spec fn forward_terms(
    m: Meaning<real>,
    a: Seq<real>,
    n: nat,
    i: int,
    y: spec_fn(int) -> real,
) -> spec_fn(int) -> real {
    |l: int| low(m, a, n, i, l) * y(l)
}

spec fn backward_terms(
    m: Meaning<real>,
    a: Seq<real>,
    n: nat,
    l: int,
    x: spec_fn(int) -> real,
) -> spec_fn(int) -> real {
    |j: int| low(m, a, n, j, l) * x(j)
}

/// A row of the factor, applied to what agrees with the halfway vector before
/// the diagonal.
proof fn lemma_forward(
    m: Meaning<real>,
    a: Seq<real>,
    b: Seq<real>,
    n: nat,
    i: int,
    y: spec_fn(int) -> real,
    k: int,
)
    requires
        exact(m),
        0 <= k <= i < n,
        forall|l: int| 0 <= l < i ==> #[trigger] y(l) == halfway(m, a, b, n, l),
    ensures
        sum(forward_terms(m, a, n, i, y), k) == b[i] - halfway_rest(m, a, b, n, i, k),
    decreases k,
{
    if k > 0 {
        lemma_forward(m, a, b, n, i, y, k - 1);
        assert(y(k - 1) == halfway(m, a, b, n, k - 1));
    }
}

proof fn lemma_forward_row(
    m: Meaning<real>,
    a: Seq<real>,
    b: Seq<real>,
    n: nat,
    i: int,
    y: spec_fn(int) -> real,
)
    requires
        exact(m),
        exact_roots(m),
        positive(m, a, n, n as int),
        0 <= i < n,
        forall|l: int| 0 <= l < i ==> #[trigger] y(l) == halfway(m, a, b, n, l),
    ensures
        sum(forward_terms(m, a, n, i, y), n as int) == b[i] <==> y(i) == halfway(m, a, b, n, i),
{
    let f = forward_terms(m, a, n, i, y);
    lemma_forward(m, a, b, n, i, y, i);
    assert forall|l: int| i + 1 <= l < n implies #[trigger] f(l) == 0real by {
        let u = y(l);
        assert(0real * u == 0real) by (nonlinear_arith);
    }
    lemma_sum_tail(f, i + 1, n as int);
    assert(sum(f, i + 1) == sum(f, i) + f(i));
    lemma_diagonal_positive(m, a, n, i);
    let d = lower(m, a, n, i, i);
    let r = halfway_rest(m, a, b, n, i, i);
    let v = y(i);
    assert(d * v == r <==> v == r / d) by (nonlinear_arith)
        requires
            d != 0real,
    ;
}

proof fn lemma_backward(
    m: Meaning<real>,
    a: Seq<real>,
    b: Seq<real>,
    n: nat,
    l: int,
    x: spec_fn(int) -> real,
    k: int,
)
    requires
        exact(m),
        0 <= l < n,
        0 <= k <= n,
        forall|j: int| l < j < n ==> #[trigger] x(j) == weight(m, a, b, n, j),
    ensures
        k <= l ==> sum(backward_terms(m, a, n, l, x), k) == 0real,
        k > l ==> sum(backward_terms(m, a, n, l, x), k) == lower(m, a, n, l, l) * x(l) + halfway(
            m,
            a,
            b,
            n,
            l,
        ) - weight_rest(m, a, b, n, l, k),
    decreases k,
{
    if k > 0 {
        lemma_backward(m, a, b, n, l, x, k - 1);
        let j = k - 1;
        if j < l {
            let u = x(j);
            assert(0real * u == 0real) by (nonlinear_arith);
        } else if j > l {
            assert(x(j) == weight(m, a, b, n, j));
        }
    }
}

proof fn lemma_backward_row(
    m: Meaning<real>,
    a: Seq<real>,
    b: Seq<real>,
    n: nat,
    l: int,
    x: spec_fn(int) -> real,
)
    requires
        exact(m),
        exact_roots(m),
        positive(m, a, n, n as int),
        0 <= l < n,
        forall|j: int| l < j < n ==> #[trigger] x(j) == weight(m, a, b, n, j),
    ensures
        sum(backward_terms(m, a, n, l, x), n as int) == halfway(m, a, b, n, l) <==> x(l) == weight(
            m,
            a,
            b,
            n,
            l,
        ),
{
    lemma_backward(m, a, b, n, l, x, n as int);
    lemma_diagonal_positive(m, a, n, l);
    let d = lower(m, a, n, l, l);
    let r = weight_rest(m, a, b, n, l, n as int);
    let v = x(l);
    assert(d * v == r <==> v == r / d) by (nonlinear_arith)
        requires
            d != 0real,
    ;
}

/// The matrix applied to `x` is the factor applied to its transpose applied to
/// `x`.
proof fn lemma_product(m: Meaning<real>, a: Seq<real>, n: nat, i: int, x: Seq<real>)
    requires
        exact(m),
        exact_roots(m),
        positive(m, a, n, n as int),
        symmetric(a, n),
        0 <= i < n,
    ensures
        ({
            let xf = |j: int| x[j];
            let y = |l: int| sum(backward_terms(m, a, n, l, xf), n as int);
            row_sum(a, n, i, x, n as int) == sum(forward_terms(m, a, n, i, y), n as int)
        }),
{
    let xf = |j: int| x[j];
    let y = |l: int| sum(backward_terms(m, a, n, l, xf), n as int);
    let f = |j: int, l: int| (low(m, a, n, i, l) * low(m, a, n, j, l)) * x[j];
    let nn = n as int;
    lemma_sum_swap(f, nn, nn);
    let terms = |j: int| a[at(n, i, j)] * x[j];
    assert forall|j: int| 0 <= j < n implies #[trigger] inner(f, nn)(j) == terms(j) by {
        let v = x[j];
        let h = |l: int| f(j, l);
        assert forall|l: int| 0 <= l < n implies #[trigger] h(l) == v * row_product(
            m,
            a,
            n,
            i,
            j,
        )(l) by {
            let p = low(m, a, n, i, l) * low(m, a, n, j, l);
            assert(p * v == v * p) by (nonlinear_arith);
        }
        lemma_sum_scale(v, row_product(m, a, n, i, j), h, nn);
        lemma_factor(m, a, n, i, j);
        let w = a[at(n, i, j)];
        assert(v * w == w * v) by (nonlinear_arith);
    }
    lemma_sum_same(inner(f, nn), terms, nn);
    lemma_row_sum_is(a, n, i, x, nn);
    assert forall|l: int| 0 <= l < n implies #[trigger] outer(f, nn)(l) == forward_terms(
        m,
        a,
        n,
        i,
        y,
    )(l) by {
        let c = low(m, a, n, i, l);
        let h = |j: int| f(j, l);
        assert forall|j: int| 0 <= j < n implies #[trigger] h(j) == c * backward_terms(
            m,
            a,
            n,
            l,
            xf,
        )(j) by {
            let u = low(m, a, n, j, l);
            let v = x[j];
            assert((c * u) * v == c * (u * v)) by (nonlinear_arith);
        }
        lemma_sum_scale(c, backward_terms(m, a, n, l, xf), h, nn);
    }
    lemma_sum_same(outer(f, nn), forward_terms(m, a, n, i, y), nn);
}

/// A row sum as a sum of terms.
pub proof fn lemma_row_sum_is(a: Seq<real>, n: nat, i: int, x: Seq<real>, k: int)
    requires
        0 <= k <= n,
    ensures
        row_sum(a, n, i, x, k) == sum(|j: int| a[at(n, i, j)] * x[j], k),
    decreases k,
{
    if k > 0 {
        lemma_row_sum_is(a, n, i, x, k - 1);
    }
}

proof fn lemma_forward_unique(
    m: Meaning<real>,
    a: Seq<real>,
    b: Seq<real>,
    n: nat,
    y: spec_fn(int) -> real,
    i: int,
)
    requires
        exact(m),
        exact_roots(m),
        positive(m, a, n, n as int),
        0 <= i <= n,
        forall|k: int| 0 <= k < n ==> sum(#[trigger] forward_terms(m, a, n, k, y), n as int) == b[k],
    ensures
        forall|l: int| 0 <= l < i ==> #[trigger] y(l) == halfway(m, a, b, n, l),
    decreases i,
{
    if i > 0 {
        lemma_forward_unique(m, a, b, n, y, i - 1);
        assert(sum(forward_terms(m, a, n, i - 1, y), n as int) == b[i - 1]);
        lemma_forward_row(m, a, b, n, i - 1, y);
    }
}

proof fn lemma_backward_unique(
    m: Meaning<real>,
    a: Seq<real>,
    b: Seq<real>,
    n: nat,
    x: spec_fn(int) -> real,
    l: int,
)
    requires
        exact(m),
        exact_roots(m),
        positive(m, a, n, n as int),
        0 <= l <= n,
        forall|k: int|
            0 <= k < n ==> sum(#[trigger] backward_terms(m, a, n, k, x), n as int) == halfway(
                m,
                a,
                b,
                n,
                k,
            ),
    ensures
        forall|j: int| l <= j < n ==> #[trigger] x(j) == weight(m, a, b, n, j),
    decreases n - l,
{
    if l < n {
        lemma_backward_unique(m, a, b, n, x, l + 1);
        assert(sum(backward_terms(m, a, n, l, x), n as int) == halfway(m, a, b, n, l));
        lemma_backward_row(m, a, b, n, l, x);
    }
}

/// Over the real numbers, with exact roots, what the solver for symmetric
/// matrices yields solves the system, and nothing else does.
pub proof fn law_sym_solution_solves(m: Meaning<real>, a: Seq<real>, b: Seq<real>, n: nat)
    requires
        exact(m),
        exact_roots(m),
        symmetric(a, n),
        b.len() == n,
    ensures
        sym_solution(m, a, b, n) matches Some(x) ==> {
            &&& solves(a, b, n, x)
            &&& forall|z: Seq<real>| #[trigger] solves(a, b, n, z) ==> z == x
        },
{
    if positive(m, a, n, n as int) {
        let nn = n as int;
        let x = Seq::new(n, |i: int| weight(m, a, b, n, i));
        let xf = |j: int| x[j];
        let y = |l: int| sum(backward_terms(m, a, n, l, xf), nn);
        assert forall|l: int| 0 <= l < n implies #[trigger] y(l) == halfway(m, a, b, n, l) by {
            lemma_backward_row(m, a, b, n, l, xf);
        }
        assert forall|i: int| 0 <= i < n implies #[trigger] row_sum(a, n, i, x, nn) == b[i] by {
            lemma_product(m, a, n, i, x);
            lemma_forward_row(m, a, b, n, i, y);
        }
        assert(solves(a, b, n, x));
        assert forall|z: Seq<real>| #[trigger] solves(a, b, n, z) implies z == x by {
            let zf = |j: int| z[j];
            let w = |l: int| sum(backward_terms(m, a, n, l, zf), nn);
            assert forall|k: int| 0 <= k < n implies sum(
                #[trigger] forward_terms(m, a, n, k, w),
                nn,
            ) == b[k] by {
                lemma_product(m, a, n, k, z);
                assert(row_sum(a, n, k, z, nn) == b[k]);
            }
            lemma_forward_unique(m, a, b, n, w, nn);
            assert forall|k: int| 0 <= k < n implies sum(
                #[trigger] backward_terms(m, a, n, k, zf),
                nn,
            ) == halfway(m, a, b, n, k) by {
                assert(w(k) == halfway(m, a, b, n, k));
            }
            lemma_backward_unique(m, a, b, n, zf, 0);
            assert forall|j: int| 0 <= j < n implies z[j] == x[j] by {
                assert(zf(j) == weight(m, a, b, n, j));
            }
            assert(z =~= x);
        }
    }
}

} // verus!
