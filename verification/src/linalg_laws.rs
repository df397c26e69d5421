//! Laws of the linear solvers, read over the real numbers.

use crate::arithmetic::{exact, Meaning};
use crate::linalg::{
    at, cleared, cleared_rhs, exchanged, factor, lemma_at, pivot_row, reduced, remainder, solution,
    switched, taken, unknown, unknowns, usable,
};
use vstd::prelude::*;

verus! {

/// The first `k` terms of row `i` of a matrix, applied to `x`.
pub open spec fn row_sum(a: Seq<real>, n: nat, i: int, x: Seq<real>, k: int) -> real
    decreases k,
{
    if k <= 0 {
        0real
    } else {
        row_sum(a, n, i, x, k - 1) + a[at(n, i, k - 1)] * x[k - 1]
    }
}

/// `x` solves the system with the matrix `a` and the right-hand side `b`.
pub open spec fn solves(a: Seq<real>, b: Seq<real>, n: nat, x: Seq<real>) -> bool {
    &&& x.len() == n
    &&& forall|i: int| 0 <= i < n ==> #[trigger] row_sum(a, n, i, x, n as int) == b[i]
}

/// The matrix takes some vector other than zero to zero.
pub open spec fn singular(a: Seq<real>, n: nat) -> bool {
    exists|x: Seq<real>| #[trigger] solves(a, zero_vector(n), n, x) && x != zero_vector(n)
}

/// The vector of zeros.
pub open spec fn zero_vector(n: nat) -> Seq<real> {
    Seq::new(n, |i: int| 0real)
}

/// Zero below the diagonal in the first `c` columns, which have no zero on it.
spec fn staircase(a: Seq<real>, n: nat, c: int) -> bool {
    &&& a.len() == n * n
    &&& forall|i: int, j: int| 0 <= j < c && j < i < n ==> #[trigger] a[at(n, i, j)] == 0real
    &&& forall|i: int| 0 <= i < c ==> a[#[trigger] at(n, i, i)] != 0real
}

proof fn lemma_row_sum_exchanged(
    a: Seq<real>,
    n: nat,
    c: int,
    p: int,
    i: int,
    x: Seq<real>,
    k: int,
)
    requires
        0 <= c < n,
        0 <= p < n,
        0 <= i < n,
        0 <= k <= n,
    ensures
        row_sum(exchanged(a, n, c, p), n, i, x, k) == row_sum(
            a,
            n,
            if i == c {
                p
            } else if i == p {
                c
            } else {
                i
            },
            x,
            k,
        ),
    decreases k,
{
    if k > 0 {
        lemma_row_sum_exchanged(a, n, c, p, i, x, k - 1);
        lemma_at(n, i, k - 1);
    }
}

proof fn lemma_solves_exchanged(
    a: Seq<real>,
    b: Seq<real>,
    n: nat,
    c: int,
    p: int,
    x: Seq<real>,
)
    requires
        0 <= c < n,
        0 <= p < n,
        b.len() == n,
    ensures
        solves(exchanged(a, n, c, p), switched(b, c, p), n, x) <==> solves(a, b, n, x),
{
    let f = exchanged(a, n, c, p);
    let g = switched(b, c, p);
    assert forall|i: int| 0 <= i < n implies #[trigger] row_sum(f, n, i, x, n as int) == row_sum(
        a,
        n,
        if i == c {
            p
        } else if i == p {
            c
        } else {
            i
        },
        x,
        n as int,
    ) by {
        lemma_row_sum_exchanged(a, n, c, p, i, x, n as int);
    }
    if solves(f, g, n, x) {
        assert forall|i: int| 0 <= i < n implies #[trigger] row_sum(a, n, i, x, n as int)
            == b[i] by {
            let j = if i == c {
                p
            } else if i == p {
                c
            } else {
                i
            };
            assert(row_sum(f, n, j, x, n as int) == g[j]);
        }
    }
    if solves(a, b, n, x) {
        assert forall|i: int| 0 <= i < n implies #[trigger] row_sum(f, n, i, x, n as int)
            == g[i] by {
            assert(row_sum(a, n, p, x, n as int) == b[p]);
            assert(row_sum(a, n, c, x, n as int) == b[c]);
            assert(row_sum(a, n, i, x, n as int) == b[i]);
        }
    }
}

proof fn lemma_row_sum_cleared(
    m: Meaning<real>,
    a: Seq<real>,
    n: nat,
    c: int,
    i: int,
    x: Seq<real>,
    k: int,
)
    requires
        exact(m),
        0 <= c < n,
        0 <= i < n,
        0 <= k <= n,
        a[at(n, c, c)] != 0real,
        forall|j: int| 0 <= j < c ==> a[#[trigger] at(n, c, j)] == 0real,
    ensures
        row_sum(cleared(m, a, n, c), n, i, x, k) == if i <= c {
            row_sum(a, n, i, x, k)
        } else {
            row_sum(a, n, i, x, k) - factor(m, a, n, c, i) * row_sum(a, n, c, x, k)
        },
    decreases k,
{
    if k > 0 {
        lemma_row_sum_cleared(m, a, n, c, i, x, k - 1);
        lemma_at(n, i, k - 1);
        let j = k - 1;
        let d = cleared(m, a, n, c);
        if i > c {
            let f = factor(m, a, n, c, i);
            let r = a[at(n, i, j)];
            let v = a[at(n, c, j)];
            assert(d[at(n, i, j)] == taken(m, a, n, c, i, j));
            assert(d[at(n, i, j)] == r - f * v) by {
                if j < c {
                    assert(v == 0real);
                    assert(f * v == 0real) by (nonlinear_arith)
                        requires
                            v == 0real,
                    ;
                } else if j == c {
                    assert(f * v == r) by (nonlinear_arith)
                        requires
                            f == r / v,
                            v != 0real,
                    ;
                }
            }
            let s = row_sum(a, n, i, x, k - 1);
            let t = row_sum(a, n, c, x, k - 1);
            let y = x[j];
            assert((s - f * t) + (r - f * v) * y == (s + r * y) - f * (t + v * y)) by (
            nonlinear_arith);
        }
    } else {
        let f = factor(m, a, n, c, i);
        assert(f * 0real == 0real) by (nonlinear_arith);
    }
}

proof fn lemma_solves_cleared(
    m: Meaning<real>,
    a: Seq<real>,
    b: Seq<real>,
    n: nat,
    c: int,
    x: Seq<real>,
)
    requires
        exact(m),
        0 <= c < n,
        b.len() == n,
        a[at(n, c, c)] != 0real,
        forall|j: int| 0 <= j < c ==> a[#[trigger] at(n, c, j)] == 0real,
    ensures
        solves(cleared(m, a, n, c), cleared_rhs(m, a, b, n, c), n, x) <==> solves(a, b, n, x),
{
    let d = cleared(m, a, n, c);
    let e = cleared_rhs(m, a, b, n, c);
    assert forall|i: int| 0 <= i < n implies #[trigger] row_sum(d, n, i, x, n as int) == if i <= c {
        row_sum(a, n, i, x, n as int)
    } else {
        row_sum(a, n, i, x, n as int) - factor(m, a, n, c, i) * row_sum(a, n, c, x, n as int)
    } by {
        lemma_row_sum_cleared(m, a, n, c, i, x, n as int);
    }
    if solves(d, e, n, x) {
        assert(row_sum(d, n, c, x, n as int) == e[c]);
        assert forall|i: int| 0 <= i < n implies #[trigger] row_sum(a, n, i, x, n as int)
            == b[i] by {
            assert(row_sum(d, n, i, x, n as int) == e[i]);
        }
    }
    if solves(a, b, n, x) {
        assert(row_sum(a, n, c, x, n as int) == b[c]);
        assert forall|i: int| 0 <= i < n implies #[trigger] row_sum(d, n, i, x, n as int)
            == e[i] by {
            assert(row_sum(a, n, i, x, n as int) == b[i]);
        }
    }
}

proof fn lemma_pivot_in_range(m: Meaning<real>, a: Seq<real>, n: nat, c: int, r: int)
    requires
        exact(m),
        c <= r,
    ensures
        c <= pivot_row(m, a, n, c, r) <= r,
        forall|i: int|
            c <= i <= r ==> m.abs(#[trigger] a[at(n, i, c)]) <= m.abs(
                a[at(n, pivot_row(m, a, n, c, r), c)],
            ),
    decreases r - c,
{
    if r > c {
        lemma_pivot_in_range(m, a, n, c, r - 1);
    }
}

/// A step of the elimination keeps the solutions and extends the staircase.
proof fn lemma_step(m: Meaning<real>, d: Seq<real>, e: Seq<real>, n: nat, c: int, x: Seq<real>)
    requires
        exact(m),
        0 <= c < n,
        e.len() == n,
        staircase(d, n, c),
        usable(m, d[at(n, pivot_row(m, d, n, c, n - 1), c)]),
    ensures
        ({
            let p = pivot_row(m, d, n, c, n - 1);
            let f = exchanged(d, n, c, p);
            let g = switched(e, c, p);
            &&& staircase(cleared(m, f, n, c), n, c + 1)
            &&& cleared_rhs(m, f, g, n, c).len() == n
            &&& solves(cleared(m, f, n, c), cleared_rhs(m, f, g, n, c), n, x) <==> solves(
                d,
                e,
                n,
                x,
            )
        }),
{
    let p = pivot_row(m, d, n, c, n - 1);
    lemma_pivot_in_range(m, d, n, c, n - 1);
    let f = exchanged(d, n, c, p);
    let g = switched(e, c, p);
    let h = cleared(m, f, n, c);
    assert forall|i: int, j: int| 0 <= i < n && 0 <= j < n implies #[trigger] f[at(n, i, j)] == d[at(
        n,
        if i == c {
            p
        } else if i == p {
            c
        } else {
            i
        },
        j,
    )] by {
        lemma_at(n, i, j);
    }
    assert(f[at(n, c, c)] == d[at(n, p, c)]);
    assert forall|j: int| 0 <= j < c implies f[#[trigger] at(n, c, j)] == 0real by {
        assert(d[at(n, p, j)] == 0real);
    }
    assert forall|i: int, j: int| 0 <= i < n && 0 <= j < n implies #[trigger] h[at(n, i, j)] == if i
        <= c {
        f[at(n, i, j)]
    } else {
        taken(m, f, n, c, i, j)
    } by {
        lemma_at(n, i, j);
    }
    assert forall|i: int, j: int| 0 <= j < c + 1 && j < i < n implies #[trigger] h[at(n, i, j)]
        == 0real by {
        if j < c {
            assert(d[at(n, i, j)] == 0real);
            assert(d[at(n, p, j)] == 0real);
            if c > j {
                assert(d[at(n, c, j)] == 0real);
            }
            assert(f[at(n, i, j)] == 0real);
        }
    }
    assert forall|i: int| 0 <= i < c + 1 implies h[#[trigger] at(n, i, i)] != 0real by {
        assert(h[at(n, i, i)] == f[at(n, i, i)]);
        if i < c {
            assert(d[at(n, i, i)] != 0real);
        }
    }
    lemma_solves_cleared(m, f, g, n, c, x);
    lemma_solves_exchanged(d, e, n, c, p, x);
}

/// The reduced system has the same solutions, and the staircase form.
proof fn lemma_reduced(m: Meaning<real>, a: Seq<real>, b: Seq<real>, n: nat, c: int, x: Seq<real>)
    requires
        exact(m),
        0 <= c <= n,
        a.len() == n * n,
        b.len() == n,
        reduced(m, a, b, n, c) is Some,
    ensures
        ({
            let (d, e) = reduced(m, a, b, n, c)->0;
            &&& staircase(d, n, c)
            &&& e.len() == n
            &&& solves(d, e, n, x) <==> solves(a, b, n, x)
        }),
    decreases c,
{
    if c > 0 {
        lemma_reduced(m, a, b, n, c - 1, x);
        let (d, e) = reduced(m, a, b, n, c - 1)->0;
        lemma_step(m, d, e, n, c - 1, x);
    }
}

// ----------------------------------------------------------------- substitution

/// The row of a triangular system, from the left.
proof fn lemma_triangular_row(
    m: Meaning<real>,
    d: Seq<real>,
    e: Seq<real>,
    n: nat,
    i: int,
    x: Seq<real>,
    k: int,
)
    requires
        exact(m),
        staircase(d, n, n as int),
        0 <= i < n,
        0 <= k <= n,
        x.len() == n,
        forall|j: int| i < j < n ==> #[trigger] x[j] == unknown(m, d, e, n, j),
    ensures
        k <= i ==> row_sum(d, n, i, x, k) == 0real,
        k > i ==> row_sum(d, n, i, x, k) == d[at(n, i, i)] * x[i] + e[i] - remainder(
            m,
            d,
            e,
            n,
            i,
            k,
        ),
    decreases k,
{
    if k > 0 {
        lemma_triangular_row(m, d, e, n, i, x, k - 1);
        let v = d[at(n, i, k - 1)];
        let y = x[k - 1];
        if k - 1 < i {
            assert(v == 0real);
            assert(v * y == 0real) by (nonlinear_arith)
                requires
                    v == 0real,
            ;
        } else if k - 1 > i {
            assert(x[k - 1] == unknown(m, d, e, n, k - 1));
        }
    }
}

proof fn lemma_unknowns_solve(m: Meaning<real>, d: Seq<real>, e: Seq<real>, n: nat)
    requires
        exact(m),
        staircase(d, n, n as int),
        e.len() == n,
    ensures
        solves(d, e, n, unknowns(m, d, e, n)),
{
    let x = unknowns(m, d, e, n);
    assert forall|i: int| 0 <= i < n implies #[trigger] row_sum(d, n, i, x, n as int) == e[i] by {
        lemma_triangular_row(m, d, e, n, i, x, n as int);
        assert(d[at(n, i, i)] != 0real);
        let v = d[at(n, i, i)];
        let r = remainder(m, d, e, n, i, n as int);
        assert(x[i] == r / v);
        assert(v * (r / v) == r) by (nonlinear_arith)
            requires
                v != 0real,
        ;
    }
}

proof fn lemma_solution_is_unknowns(
    m: Meaning<real>,
    d: Seq<real>,
    e: Seq<real>,
    n: nat,
    x: Seq<real>,
    i: int,
)
    requires
        exact(m),
        staircase(d, n, n as int),
        solves(d, e, n, x),
        0 <= i <= n,
    ensures
        forall|j: int| i <= j < n ==> #[trigger] x[j] == unknown(m, d, e, n, j),
    decreases n - i,
{
    if i < n {
        lemma_solution_is_unknowns(m, d, e, n, x, i + 1);
        lemma_triangular_row(m, d, e, n, i, x, n as int);
        assert(row_sum(d, n, i, x, n as int) == e[i]);
        assert(d[at(n, i, i)] != 0real);
        let v = d[at(n, i, i)];
        let r = remainder(m, d, e, n, i, n as int);
        let y = x[i];
        assert(y == r / v) by (nonlinear_arith)
            requires
                v * y == r,
                v != 0real,
        ;
    }
}

/// Over the real numbers, what elimination with pivoting yields solves the
/// system, and nothing else does.
pub proof fn law_solution_solves(m: Meaning<real>, a: Seq<real>, b: Seq<real>, n: nat)
    requires
        exact(m),
        a.len() == n * n,
        b.len() == n,
    ensures
        solution(m, a, b, n) matches Some(x) ==> {
            &&& solves(a, b, n, x)
            &&& forall|y: Seq<real>| #[trigger] solves(a, b, n, y) ==> y == x
        },
{
    if let Some((d, e)) = reduced(m, a, b, n, n as int) {
        let x = unknowns(m, d, e, n);
        lemma_reduced(m, a, b, n, n as int, x);
        lemma_unknowns_solve(m, d, e, n);
        assert forall|y: Seq<real>| #[trigger] solves(a, b, n, y) implies y == x by {
            lemma_reduced(m, a, b, n, n as int, y);
            lemma_solution_is_unknowns(m, d, e, n, y, 0);
            assert(y =~= x);
        }
    }
}

// -------------------------------------------------------------------- singularity

proof fn lemma_same_matrix(
    m: Meaning<real>,
    a: Seq<real>,
    b: Seq<real>,
    z: Seq<real>,
    n: nat,
    c: int,
)
    requires
        exact(m),
        0 <= c <= n,
        z == zero_vector(n),
    ensures
        reduced(m, a, b, n, c) is Some <==> reduced(m, a, z, n, c) is Some,
        reduced(m, a, b, n, c) matches Some((d, e)) ==> (reduced(m, a, z, n, c)->0).0 == d
            && (reduced(m, a, z, n, c)->0).1 == z,
    decreases c,
{
    if c > 0 {
        lemma_same_matrix(m, a, b, z, n, c - 1);
        if let Some((d, e)) = reduced(m, a, b, n, c - 1) {
            let p = pivot_row(m, d, n, c - 1, n - 1);
            lemma_pivot_in_range(m, d, n, c - 1, n - 1);
            let f = exchanged(d, n, c - 1, p);
            assert(switched(z, c - 1, p) =~= z);
            let w = cleared_rhs(m, f, z, n, c - 1);
            assert forall|i: int| 0 <= i < n implies #[trigger] w[i] == 0real by {
                let k = factor(m, f, n, c - 1, i);
                assert(k * 0real == 0real) by (nonlinear_arith);
            }
            assert(w =~= z);
        }
    }
}

/// A vector that the matrix, whose column `c` is zero from row `c` on, takes to
/// zero: one at `c`, zero behind it, and before it what makes the rows vanish.
spec fn null_entry(d: Seq<real>, n: nat, c: int, i: int) -> real
    decreases c - i, c + 2,
{
    if i > c {
        0real
    } else if i == c || i < 0 {
        1real
    } else {
        -null_sum(d, n, c, i, c + 1) / d[at(n, i, i)]
    }
}

/// The terms of row `i` behind the diagonal and before `k`.
spec fn null_sum(d: Seq<real>, n: nat, c: int, i: int, k: int) -> real
    decreases c - i, k,
{
    if i < 0 || k <= i + 1 || k > c + 1 {
        0real
    } else {
        null_sum(d, n, c, i, k - 1) + d[at(n, i, k - 1)] * null_entry(d, n, c, k - 1)
    }
}

proof fn lemma_null_row(d: Seq<real>, n: nat, c: int, i: int, x: Seq<real>, k: int)
    requires
        0 <= c < n,
        0 <= i < n,
        0 <= k <= n,
        staircase(d, n, c),
        x == Seq::new(n, |j: int| null_entry(d, n, c, j)),
        forall|r: int| c <= r < n ==> #[trigger] d[at(n, r, c)] == 0real,
    ensures
        i >= c ==> row_sum(d, n, i, x, k) == 0real,
        i < c ==> (k <= i ==> row_sum(d, n, i, x, k) == 0real) && (i < k <= c + 1 ==> row_sum(
            d,
            n,
            i,
            x,
            k,
        ) == d[at(n, i, i)] * x[i] + null_sum(d, n, c, i, k)) && (k > c + 1 ==> row_sum(
            d,
            n,
            i,
            x,
            k,
        ) == d[at(n, i, i)] * x[i] + null_sum(d, n, c, i, c + 1)),
    decreases k,
{
    if k > 0 {
        lemma_null_row(d, n, c, i, x, k - 1);
        let j = k - 1;
        let v = d[at(n, i, j)];
        let y = x[j];
        if j > c {
            assert(v * y == 0real) by (nonlinear_arith)
                requires
                    y == 0real,
            ;
        } else if i > j {
            assert(v == 0real) by {
                if j == c {
                    assert(d[at(n, i, c)] == 0real);
                }
            }
            assert(v * y == 0real) by (nonlinear_arith)
                requires
                    v == 0real,
            ;
        } else if i >= c {
            assert(d[at(n, i, c)] == 0real);
            assert(v * y == 0real) by (nonlinear_arith)
                requires
                    v == 0real,
            ;
        }
    }
}

/// Over the real numbers, elimination finds no solution exactly where the
/// matrix is singular.
pub proof fn law_no_solution_iff_singular(m: Meaning<real>, a: Seq<real>, b: Seq<real>, n: nat)
    requires
        exact(m),
        a.len() == n * n,
        b.len() == n,
    ensures
        solution(m, a, b, n) is None <==> singular(a, n),
{
    let z = zero_vector(n);
    lemma_same_matrix(m, a, b, z, n, n as int);
    if reduced(m, a, b, n, n as int) is Some {
        law_solution_solves(m, a, z, n);
        let x = solution(m, a, z, n)->0;
        assert(solves(a, z, n, z)) by {
            assert forall|i: int| 0 <= i < n implies #[trigger] row_sum(a, n, i, z, n as int)
                == z[i] by {
                lemma_row_sum_zero(a, n, i, n as int);
            }
        }
    } else {
        lemma_first_failure(m, a, b, n, n as int);
        let c = choose|c: int|
            0 <= c < n && #[trigger] reduced(m, a, b, n, c) is Some && reduced(
                m,
                a,
                b,
                n,
                c + 1,
            ) is None;
        let (d, e) = reduced(m, a, b, n, c)->0;
        lemma_same_matrix(m, a, b, z, n, c);
        let x = Seq::new(n, |j: int| null_entry(d, n, c, j));
        lemma_reduced(m, a, z, n, c, x);
        lemma_pivot_in_range(m, d, n, c, n - 1);
        let p = pivot_row(m, d, n, c, n - 1);
        assert(d[at(n, p, c)] == 0real);
        assert forall|r: int| c <= r < n implies #[trigger] d[at(n, r, c)] == 0real by {
            assert(m.abs(d[at(n, r, c)]) <= m.abs(d[at(n, p, c)]));
        }
        assert(solves(d, z, n, x)) by {
            assert forall|i: int| 0 <= i < n implies #[trigger] row_sum(d, n, i, x, n as int)
                == z[i] by {
                lemma_null_row(d, n, c, i, x, n as int);
                if i < c {
                    assert(d[at(n, i, i)] != 0real);
                    let v = d[at(n, i, i)];
                    let s = null_sum(d, n, c, i, c + 1);
                    assert(x[i] == -s / v);
                    assert(v * (-s / v) == -s) by (nonlinear_arith)
                        requires
                            v != 0real,
                    ;
                }
            }
        }
        assert(x[c] == 1real && z[c] == 0real);
        assert(solves(a, z, n, x) && x != z);
    }
}

proof fn lemma_row_sum_zero(a: Seq<real>, n: nat, i: int, k: int)
    requires
        0 <= k <= n,
    ensures
        row_sum(a, n, i, zero_vector(n), k) == 0real,
    decreases k,
{
    if k > 0 {
        lemma_row_sum_zero(a, n, i, k - 1);
        let v = a[at(n, i, k - 1)];
        assert(v * 0real == 0real) by (nonlinear_arith);
    }
}

proof fn lemma_first_failure(m: Meaning<real>, a: Seq<real>, b: Seq<real>, n: nat, k: int)
    requires
        0 <= k <= n,
        reduced(m, a, b, n, k) is None,
    ensures
        exists|c: int|
            0 <= c < k && #[trigger] reduced(m, a, b, n, c) is Some && reduced(
                m,
                a,
                b,
                n,
                c + 1,
            ) is None,
    decreases k,
{
    if reduced(m, a, b, n, k - 1) is None {
        lemma_first_failure(m, a, b, n, k - 1);
    } else {
        assert(reduced(m, a, b, n, k - 1) is Some && reduced(m, a, b, n, (k - 1) + 1) is None);
    }
}

} // verus!
