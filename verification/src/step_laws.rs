//! Laws of the damped step of a fit, read over the real numbers.

use crate::arithmetic::{exact, Meaning};
use crate::cholesky_laws::lemma_row_sum_is;
use crate::fit::{damped, descent, dot, gram, search, LAMBDA_MAX_BITS, LAMBDA_UP_BITS};
use crate::linalg::{at, lemma_at, solution};
use crate::linalg_laws::{
    law_no_solution_iff_singular, law_solution_solves, row_sum, singular, solves,
};
use crate::sums::{
    inner, lemma_sum_add, lemma_sum_nonnegative, lemma_sum_one, lemma_sum_same, lemma_sum_scale,
    lemma_sum_swap, outer, sum,
};
use vstd::prelude::*;

verus! {

/// Damping grows by a positive factor.
pub open spec fn exact_damping(m: Meaning<real>) -> bool {
    m.num(LAMBDA_UP_BITS) == 10real
}

/// A step that an iteration arrives at solves the damped normal equations, with
/// the damping that it arrives at, which is not below the one it began with.
pub proof fn law_step_solves_damped_system(
    m: Meaning<real>,
    a: Seq<real>,
    rhs: Seq<real>,
    n: nat,
    lambda: real,
    attempts: nat,
)
    requires
        exact(m),
        exact_damping(m),
        a.len() == n * n,
        rhs.len() == n,
        lambda >= 0real,
    ensures
        ({
            let (l, step) = search(m, a, rhs, n, lambda, attempts);
            &&& l >= lambda
            &&& step matches Some(s) ==> solves(damped(m, a, n, l), rhs, n, s)
        }),
    decreases attempts,
{
    if attempts > 0 {
        law_solution_solves(m, damped(m, a, n, lambda), rhs, n);
        if solution(m, damped(m, a, n, lambda), rhs, n) is None {
            let up = m.mul(lambda, m.num(LAMBDA_UP_BITS));
            assert(up >= lambda) by (nonlinear_arith)
                requires
                    up == lambda * 10real,
                    lambda >= 0real,
            ;
            law_step_solves_damped_system(m, a, rhs, n, up, (attempts - 1) as nat);
        }
    }
}

// ------------------------------------------------------------------- quadratic form

spec fn cell(cols: Seq<Seq<real>>, i: int, j: int) -> spec_fn(int) -> real {
    |l: int| cols[i][l] * cols[j][l]
}

/// The product of columns `i` and `j`.
spec fn product(cols: Seq<Seq<real>>, rows: int, i: int, j: int) -> real {
    sum(cell(cols, i, j), rows)
}

spec fn mixing(cols: Seq<Seq<real>>, s: Seq<real>, l: int) -> spec_fn(int) -> real {
    |j: int| s[j] * cols[j][l]
}

/// What a step changes at each point, to first order.
spec fn shift(cols: Seq<Seq<real>>, s: Seq<real>) -> spec_fn(int) -> real {
    |l: int| sum(mixing(cols, s, l), cols.len() as int)
}

spec fn row_terms(cols: Seq<Seq<real>>, rows: int, s: Seq<real>, i: int) -> spec_fn(int) -> real {
    |j: int| product(cols, rows, i, j) * s[j]
}

proof fn lemma_dot(m: Meaning<real>, x: Seq<real>, y: Seq<real>, k: int)
    requires
        exact(m),
    ensures
        dot(m, x, y, k) == sum(|l: int| x[l] * y[l], k),
    decreases k,
{
    if k > 0 {
        lemma_dot(m, x, y, k - 1);
    }
}

proof fn lemma_gram_entry(m: Meaning<real>, cols: Seq<Seq<real>>, rows: nat, i: int, j: int)
    requires
        exact(m),
        0 <= i < cols.len(),
        0 <= j < cols.len(),
    ensures
        gram(m, cols, rows)[at(cols.len(), i, j)] == product(cols, rows as int, i, j),
{
    lemma_at(cols.len(), i, j);
    let f = cell(cols, i, j);
    if j <= i {
        lemma_dot(m, cols[i], cols[j], rows as int);
        lemma_sum_same(|l: int| cols[i][l] * cols[j][l], f, rows as int);
    } else {
        lemma_dot(m, cols[j], cols[i], rows as int);
        let g = |l: int| cols[j][l] * cols[i][l];
        assert forall|l: int| 0 <= l < rows implies #[trigger] g(l) == f(l) by {
            let u = cols[j][l];
            let v = cols[i][l];
            assert(u * v == v * u) by (nonlinear_arith);
        }
        lemma_sum_same(g, f, rows as int);
    }
}

proof fn lemma_damped_row(
    m: Meaning<real>,
    cols: Seq<Seq<real>>,
    rows: nat,
    lambda: real,
    s: Seq<real>,
    i: int,
)
    requires
        exact(m),
        0 <= i < cols.len(),
    ensures
        row_sum(
            damped(m, gram(m, cols, rows), cols.len(), lambda),
            cols.len(),
            i,
            s,
            cols.len() as int,
        ) == sum(row_terms(cols, rows as int, s, i), cols.len() as int) + lambda * (product(
            cols,
            rows as int,
            i,
            i,
        ) * s[i]),
{
    let n = cols.len();
    let d = damped(m, gram(m, cols, rows), n, lambda);
    let p = lambda * (product(cols, rows as int, i, i) * s[i]);
    let f = row_terms(cols, rows as int, s, i);
    let e = |j: int|
        if j == i {
            p
        } else {
            0real
        };
    let h = |j: int| d[at(n, i, j)] * s[j];
    lemma_row_sum_is(d, n, i, s, n as int);
    assert forall|j: int| 0 <= j < n implies #[trigger] h(j) == f(j) + e(j) by {
        lemma_at(n, i, j);
        lemma_gram_entry(m, cols, rows, i, j);
        let g = product(cols, rows as int, i, j);
        let v = s[j];
        if j == i {
            let w = g * v;
            assert((g * (1real + lambda)) * v == (1real + lambda) * w) by (nonlinear_arith)
                requires
                    w == g * v,
            ;
            assert((1real + lambda) * w == w + lambda * w) by (nonlinear_arith);
        }
    }
    lemma_sum_add(f, e, h, n as int);
    lemma_sum_one(e, i, n as int);
}

proof fn lemma_row_is_shift(cols: Seq<Seq<real>>, rows: nat, s: Seq<real>, i: int)
    requires
        0 <= i < cols.len(),
    ensures
        sum(row_terms(cols, rows as int, s, i), cols.len() as int) == sum(
            |l: int| cols[i][l] * shift(cols, s)(l),
            rows as int,
        ),
{
    let n = cols.len() as int;
    let r = rows as int;
    let f = |j: int, l: int| cols[i][l] * (s[j] * cols[j][l]);
    lemma_sum_swap(f, n, r);
    assert forall|j: int| 0 <= j < n implies #[trigger] inner(f, r)(j) == row_terms(
        cols,
        r,
        s,
        i,
    )(j) by {
        let c = cell(cols, i, j);
        let h = |l: int| f(j, l);
        let v = s[j];
        assert forall|l: int| 0 <= l < r implies #[trigger] h(l) == v * c(l) by {
            let a = cols[i][l];
            let b = cols[j][l];
            assert(a * (v * b) == v * (a * b)) by (nonlinear_arith);
        }
        lemma_sum_scale(v, c, h, r);
        let g = sum(c, r);
        assert(v * g == g * v) by (nonlinear_arith);
    }
    lemma_sum_same(inner(f, r), row_terms(cols, r, s, i), n);
    let t = |l: int| cols[i][l] * shift(cols, s)(l);
    assert forall|l: int| 0 <= l < r implies #[trigger] outer(f, n)(l) == t(l) by {
        lemma_sum_scale(cols[i][l], mixing(cols, s, l), |j: int| f(j, l), n);
    }
    lemma_sum_same(outer(f, n), t, r);
}

/// The quadratic form of the products of columns is a sum of squares.
proof fn lemma_form_is_squares(cols: Seq<Seq<real>>, rows: nat, s: Seq<real>)
    ensures
        sum(
            |i: int| s[i] * sum(row_terms(cols, rows as int, s, i), cols.len() as int),
            cols.len() as int,
        ) == sum(|l: int| shift(cols, s)(l) * shift(cols, s)(l), rows as int),
{
    let n = cols.len() as int;
    let r = rows as int;
    let f = |i: int, l: int| s[i] * (cols[i][l] * shift(cols, s)(l));
    lemma_sum_swap(f, n, r);
    let a = |i: int| s[i] * sum(row_terms(cols, r, s, i), n);
    assert forall|i: int| 0 <= i < n implies #[trigger] inner(f, r)(i) == a(i) by {
        lemma_row_is_shift(cols, rows, s, i);
        lemma_sum_scale(
            s[i],
            |l: int| cols[i][l] * shift(cols, s)(l),
            |l: int| f(i, l),
            r,
        );
    }
    lemma_sum_same(inner(f, r), a, n);
    let q = |l: int| shift(cols, s)(l) * shift(cols, s)(l);
    assert forall|l: int| 0 <= l < r implies #[trigger] outer(f, n)(l) == q(l) by {
        let e = shift(cols, s)(l);
        let h = |i: int| f(i, l);
        let x = mixing(cols, s, l);
        assert forall|i: int| 0 <= i < n implies #[trigger] h(i) == e * x(i) by {
            let u = s[i];
            let v = cols[i][l];
            assert(u * (v * e) == e * (u * v)) by (nonlinear_arith);
        }
        lemma_sum_scale(e, x, h, n);
    }
    lemma_sum_same(outer(f, n), q, r);
}

proof fn lemma_square(e: real)
    ensures
        e * e >= 0real,
{
    assert(e * e >= 0real) by (nonlinear_arith);
}

proof fn lemma_product(a: real, b: real)
    requires
        a >= 0real,
        b >= 0real,
    ensures
        a * b >= 0real,
{
    assert(a * b >= 0real) by (nonlinear_arith)
        requires
            a >= 0real,
            b >= 0real,
    ;
}

proof fn lemma_row_times(t: real, l: real, p: real, v: real, g: real)
    requires
        t + l * (p * v) == -g,
    ensures
        v * t + l * ((v * v) * p) == -1real * (g * v),
{
    let u = p * v;
    let y = l * u;
    let w = v * v;
    assert(v * (t + y) == v * t + v * y) by (nonlinear_arith);
    assert(v * y == l * (v * u)) by (nonlinear_arith)
        requires
            y == l * u,
    ;
    assert(v * u == w * p) by (nonlinear_arith)
        requires
            u == p * v,
            w == v * v,
    ;
    let h = -g;
    assert(t + y == h);
    assert(v * h == -1real * (g * v)) by (nonlinear_arith)
        requires
            h == -g,
    ;
}

/// A step that an iteration arrives at never goes uphill: along it the sum of
/// squares does not rise, to first order.
pub proof fn law_step_is_no_ascent(
    m: Meaning<real>,
    cols: Seq<Seq<real>>,
    r: Seq<real>,
    lambda: real,
    attempts: nat,
)
    requires
        exact(m),
        exact_damping(m),
        lambda >= 0real,
    ensures
        search(
            m,
            gram(m, cols, r.len()),
            descent(m, cols, r),
            cols.len(),
            lambda,
            attempts,
        ).1 matches Some(s) ==> sum(
            |i: int| dot(m, cols[i], r, r.len() as int) * s[i],
            cols.len() as int,
        ) <= 0real,
{
    let n = cols.len();
    let nn = n as int;
    let rows = r.len();
    let a = gram(m, cols, rows);
    let rhs = descent(m, cols, r);
    let (l, step) = search(m, a, rhs, n, lambda, attempts);
    law_step_solves_damped_system(m, a, rhs, n, lambda, attempts);
    if let Some(s) = step {
        let d = damped(m, a, n, l);
        let up = |i: int| dot(m, cols[i], r, rows as int) * s[i];
        let form = |i: int| s[i] * sum(row_terms(cols, rows as int, s, i), nn);
        let extra = |i: int| l * ((s[i] * s[i]) * product(cols, rows as int, i, i));
        let both = |i: int| form(i) + extra(i);
        assert forall|i: int| 0 <= i < nn implies #[trigger] both(i) == -1real * up(i) by {
            lemma_damped_row(m, cols, rows, l, s, i);
            let g = dot(m, cols[i], r, rows as int);
            assert(row_sum(d, n, i, s, nn) == rhs[i]);
            let t = sum(row_terms(cols, rows as int, s, i), nn);
            let p = product(cols, rows as int, i, i);
            let v = s[i];
            lemma_row_times(t, l, p, v, g);
        }
        lemma_sum_scale(-1real, up, both, nn);
        lemma_sum_add(form, extra, both, nn);
        lemma_form_is_squares(cols, rows, s);
        let q = |k: int| shift(cols, s)(k) * shift(cols, s)(k);
        assert forall|k: int| 0 <= k < rows implies #[trigger] q(k) >= 0real by {
            lemma_square(shift(cols, s)(k));
        }
        lemma_sum_nonnegative(q, rows as int);
        assert forall|i: int| 0 <= i < nn implies #[trigger] extra(i) >= 0real by {
            let c = cell(cols, i, i);
            assert forall|k: int| 0 <= k < rows implies #[trigger] c(k) >= 0real by {
                lemma_square(cols[i][k]);
            }
            lemma_sum_nonnegative(c, rows as int);
            let p = product(cols, rows as int, i, i);
            let v = s[i];
            lemma_square(v);
            lemma_product(v * v, p);
            lemma_product(l, (v * v) * p);
        }
        lemma_sum_nonnegative(extra, nn);
    }
}

/// The equations of a step.  With the damping `l` that the iteration arrives at,
/// `J^T J` times the step, and `l` times the diagonal of `J^T J` times the step, add
/// up to minus `J^T r`.
pub proof fn law_step_equations(
    m: Meaning<real>,
    cols: Seq<Seq<real>>,
    r: Seq<real>,
    lambda: real,
    attempts: nat,
    i: int,
)
    requires
        exact(m),
        exact_damping(m),
        lambda >= 0real,
        0 <= i < cols.len(),
    ensures
        ({
            let (l, step) = search(
                m,
                gram(m, cols, r.len()),
                descent(m, cols, r),
                cols.len(),
                lambda,
                attempts,
            );
            let rows = r.len() as int;
            step matches Some(s) ==> sum(
                |j: int| sum(|k: int| cols[i][k] * cols[j][k], rows) * s[j],
                cols.len() as int,
            ) + l * (sum(|k: int| cols[i][k] * cols[i][k], rows) * s[i]) == -sum(
                |k: int| cols[i][k] * r[k],
                rows,
            )
        }),
{
    let n = cols.len();
    let nn = n as int;
    let rows = r.len();
    let rr = rows as int;
    let a = gram(m, cols, rows);
    let rhs = descent(m, cols, r);
    let (l, step) = search(m, a, rhs, n, lambda, attempts);
    law_step_solves_damped_system(m, a, rhs, n, lambda, attempts);
    if let Some(s) = step {
        lemma_damped_row(m, cols, rows, l, s, i);
        assert(row_sum(damped(m, a, n, l), n, i, s, nn) == rhs[i]);
        lemma_dot(m, cols[i], r, rr);
        let f = |j: int| sum(|k: int| cols[i][k] * cols[j][k], rr) * s[j];
        let g = row_terms(cols, rr, s, i);
        assert forall|j: int| 0 <= j < nn implies #[trigger] f(j) == g(j) by {
            lemma_sum_same(|k: int| cols[i][k] * cols[j][k], cell(cols, i, j), rr);
        }
        lemma_sum_same(f, g, nn);
        lemma_sum_same(|k: int| cols[i][k] * cols[i][k], cell(cols, i, i), rr);
    }
}

/// The damping `l`, raised `j` times.
pub open spec fn raised(l: real, j: nat) -> real
    decreases j,
{
    if j == 0 {
        l
    } else {
        raised(l * 10real, (j - 1) as nat)
    }
}

/// The damping is raised tenfold as long as the damped system is singular, and no
/// further.  There is no step if and only if it was raised as often as is allowed, or
/// above the limit.
pub proof fn law_damping_is_raised_while_singular(
    m: Meaning<real>,
    a: Seq<real>,
    rhs: Seq<real>,
    n: nat,
    lambda: real,
    attempts: nat,
) -> (j: nat)
    requires
        exact(m),
        exact_damping(m),
        a.len() == n * n,
        rhs.len() == n,
    ensures
        ({
            let (l, step) = search(m, a, rhs, n, lambda, attempts);
            &&& j <= attempts
            &&& l == raised(lambda, j)
            &&& forall|k: nat|
                k < j ==> singular(damped(m, a, n, #[trigger] raised(lambda, k)), n)
            &&& step is Some ==> j < attempts && !singular(damped(m, a, n, l), n)
            &&& step is None ==> j == attempts || m.num(LAMBDA_MAX_BITS) < l
        }),
    decreases attempts,
{
    if attempts == 0 {
        0
    } else {
        law_no_solution_iff_singular(m, damped(m, a, n, lambda), rhs, n);
        if solution(m, damped(m, a, n, lambda), rhs, n) is Some {
            0
        } else {
            let up = lambda * 10real;
            assert(raised(lambda, 0) == lambda);
            if m.num(LAMBDA_MAX_BITS) < up {
                assert(raised(lambda, 1) == raised(up, 0));
                1
            } else {
                let i = law_damping_is_raised_while_singular(
                    m,
                    a,
                    rhs,
                    n,
                    up,
                    (attempts - 1) as nat,
                );
                assert forall|k: nat| k < i + 1 implies singular(
                    damped(m, a, n, #[trigger] raised(lambda, k)),
                    n,
                ) by {
                    if k > 0 {
                        assert(raised(lambda, k) == raised(up, (k - 1) as nat));
                    }
                }
                i + 1
            }
        }
    }
}

} // verus!
