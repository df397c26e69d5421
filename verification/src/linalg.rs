//! Small dense linear algebra.  A matrix of `n` columns is kept row by row:
//! the entry in row `i` and column `j` stands at `i * n + j`.

use crate::arithmetic::{follows, Arithmetic, Meaning};
use crate::binary64::Binary64;
use vstd::arithmetic::div_mod::lemma_fundamental_div_mod_converse;
use vstd::prelude::*;

verus! {

/// The place of the entry in row `i` and column `j`.
pub open spec fn at(n: nat, i: int, j: int) -> int {
    i * n + j
}

/// Places lie within the matrix and tell rows and columns apart.
pub proof fn lemma_at(n: nat, i: int, j: int)
    requires
        0 <= i < n,
        0 <= j < n,
    ensures
        0 <= at(n, i, j) < n * n,
        at(n, i, j) / (n as int) == i,
        at(n, i, j) % (n as int) == j,
{
    lemma_fundamental_div_mod_converse(at(n, i, j), n as int, i, j);
    assert(0 <= i * n) by (nonlinear_arith)
        requires
            0 <= i,
            0 <= n,
    ;
    assert(i * n + n <= n * n) by (nonlinear_arith)
        requires
            i + 1 <= n,
            0 <= n,
    ;
}

/// Every place is that of an entry.
pub proof fn lemma_place(n: nat, q: int)
    requires
        0 <= q < n * n,
    ensures
        0 <= q / (n as int) < n,
        0 <= q % (n as int) < n,
        q == at(n, q / (n as int), q % (n as int)),
{
    assert(n > 0) by (nonlinear_arith)
        requires
            0 <= q < n * n,
            0 <= n,
    ;
    vstd::arithmetic::div_mod::lemma_fundamental_div_mod(q, n as int);
    assert(q / (n as int) >= 0 && q / (n as int) < n) by (nonlinear_arith)
        requires
            0 <= q < n * n,
            n > 0,
    ;
    assert(n * (q / (n as int)) == (q / (n as int)) * n) by (nonlinear_arith);
}

/// The place of an entry of a matrix.
fn cell(a: &Vec<Binary64>, n: usize, i: usize, j: usize) -> (q: usize)
    requires
        i < n,
        j < n,
        a@.len() == n * n,
    ensures
        q == at(n as nat, i as int, j as int),
        q < a@.len(),
{
    let len: usize = a.len();
    proof {
        lemma_at(n as nat, i as int, j as int);
        assert(i * n <= len);
    }
    i * n + j
}

// -------------------------------------------------- elimination with pivoting

/// Among the rows from `c` to `r`, the first whose entry in column `c` has the
/// largest magnitude.
pub open spec fn pivot_row<T>(m: Meaning<T>, a: Seq<T>, n: nat, c: int, r: int) -> int
    decreases r - c,
{
    if r <= c {
        c
    } else {
        let p = pivot_row(m, a, n, c, r - 1);
        if m.lt(m.abs(a[at(n, p, c)]), m.abs(a[at(n, r, c)])) {
            r
        } else {
            p
        }
    }
}

/// Neither zero nor infinite nor not a number.
pub open spec fn usable<T>(m: Meaning<T>, v: T) -> bool {
    !m.eq(v, m.zero()) && m.fin(v)
}

/// The matrix with two rows exchanged.
pub open spec fn exchanged<T>(a: Seq<T>, n: nat, c: int, p: int) -> Seq<T> {
    Seq::new(
        n * n,
        |q: int|
            {
                let i = q / (n as int);
                let j = q % (n as int);
                if i == c {
                    a[at(n, p, j)]
                } else if i == p {
                    a[at(n, c, j)]
                } else {
                    a[q]
                }
            },
    )
}

/// The vector with two elements exchanged.
pub open spec fn switched<T>(b: Seq<T>, c: int, p: int) -> Seq<T> {
    b.update(c, b[p]).update(p, b[c])
}

/// What row `c` is multiplied by before it is taken from row `i`.
pub open spec fn factor<T>(m: Meaning<T>, a: Seq<T>, n: nat, c: int, i: int) -> T {
    m.div(a[at(n, i, c)], a[at(n, c, c)])
}

/// The entry in row `i` below `c` and column `j`, once row `c` is taken from it.
pub open spec fn taken<T>(m: Meaning<T>, a: Seq<T>, n: nat, c: int, i: int, j: int) -> T {
    if j < c {
        a[at(n, i, j)]
    } else if j == c {
        m.zero()
    } else {
        m.sub(a[at(n, i, j)], m.mul(factor(m, a, n, c, i), a[at(n, c, j)]))
    }
}

/// The matrix with row `c` taken from every row below it, so that column `c`
/// is zero there.
pub open spec fn cleared<T>(m: Meaning<T>, a: Seq<T>, n: nat, c: int) -> Seq<T> {
    Seq::new(
        n * n,
        |q: int|
            {
                let i = q / (n as int);
                let j = q % (n as int);
                if i <= c {
                    a[q]
                } else {
                    taken(m, a, n, c, i, j)
                }
            },
    )
}

/// The right-hand side that goes with `cleared`.
pub open spec fn cleared_rhs<T>(m: Meaning<T>, a: Seq<T>, b: Seq<T>, n: nat, c: int) -> Seq<T> {
    Seq::new(
        n,
        |i: int|
            if i <= c {
                b[i]
            } else {
                m.sub(b[i], m.mul(factor(m, a, n, c, i), b[c]))
            },
    )
}

/// The system once the first `c` columns are cleared below the diagonal; none
/// where one of them has no usable pivot.
pub open spec fn reduced<T>(m: Meaning<T>, a: Seq<T>, b: Seq<T>, n: nat, c: int) -> Option<
    (Seq<T>, Seq<T>),
>
    decreases c,
{
    if c <= 0 {
        Some((a, b))
    } else {
        match reduced(m, a, b, n, c - 1) {
            None => None,
            Some((d, e)) => {
                let p = pivot_row(m, d, n, c - 1, n - 1);
                if usable(m, d[at(n, p, c - 1)]) {
                    let f = exchanged(d, n, c - 1, p);
                    let g = switched(e, c - 1, p);
                    Some((cleared(m, f, n, c - 1), cleared_rhs(m, f, g, n, c - 1)))
                } else {
                    None
                }
            },
        }
    }
}

/// The unknown `i` of a system that is zero below the diagonal.
pub open spec fn unknown<T>(m: Meaning<T>, a: Seq<T>, b: Seq<T>, n: nat, i: int) -> T
    decreases n - i, n + 1,
{
    m.div(remainder(m, a, b, n, i, n as int), a[at(n, i, i)])
}

/// The right-hand side of row `i` less the terms of the unknowns after `i`
/// and before `k`.
pub open spec fn remainder<T>(m: Meaning<T>, a: Seq<T>, b: Seq<T>, n: nat, i: int, k: int) -> T
    decreases n - i, k,
{
    if i < 0 || k <= i + 1 || k > n {
        b[i]
    } else {
        m.sub(
            remainder(m, a, b, n, i, k - 1),
            m.mul(a[at(n, i, k - 1)], unknown(m, a, b, n, k - 1)),
        )
    }
}

/// The unknowns of a system that is zero below the diagonal.
pub open spec fn unknowns<T>(m: Meaning<T>, a: Seq<T>, b: Seq<T>, n: nat) -> Seq<T> {
    Seq::new(n, |i: int| unknown(m, a, b, n, i))
}

/// The solution of a linear system by elimination with partial pivoting; none
/// where a column has no usable pivot.
pub open spec fn solution<T>(m: Meaning<T>, a: Seq<T>, b: Seq<T>, n: nat) -> Option<Seq<T>> {
    match reduced(m, a, b, n, n as int) {
        None => None,
        Some((d, e)) => Some(unknowns(m, d, e, n)),
    }
}

proof fn lemma_pivot_row<T>(m: Meaning<T>, a: Seq<T>, n: nat, c: int, r: int)
    requires
        c <= r,
    ensures
        c <= pivot_row(m, a, n, c, r) <= r,
    decreases r - c,
{
    if r > c {
        lemma_pivot_row(m, a, n, c, r - 1);
    }
}

/// The row of the pivot for column `c`.
fn find_pivot<A: Arithmetic>(a: &Vec<Binary64>, n: usize, c: usize) -> (p: usize)
    requires
        c < n,
        a@.len() == n * n,
    ensures
        c <= p < n,
        forall|m: Meaning<Binary64>| #[trigger]
            follows::<A>(m) ==> p == pivot_row(m, a@, n as nat, c as int, n - 1),
{
    let mut p: usize = c;
    for r in c + 1..n
        invariant
            c < n,
            c <= p < r,
            a@.len() == n * n,
            forall|m: Meaning<Binary64>| #[trigger]
                follows::<A>(m) ==> p == pivot_row(m, a@, n as nat, c as int, r - 1),
    {
        if a[cell(a, n, p, c)].abs().lt(&a[cell(a, n, r, c)].abs()) {
            p = r;
        }
    }
    p
}

/// Exchanges two rows of a matrix.
fn exchange(a: &mut Vec<Binary64>, n: usize, c: usize, p: usize)
    requires
        c < n,
        p < n,
        old(a)@.len() == n * n,
    ensures
        final(a)@ == exchanged(old(a)@, n as nat, c as int, p as int),
{
    let ghost a0 = a@;
    let ghost nn = n as nat;
    for k in 0..n
        invariant
            c < n,
            p < n,
            nn == n,
            a@.len() == n * n,
            a0.len() == n * n,
            forall|i: int, j: int|
                0 <= i < n && 0 <= j < n ==> #[trigger] a@[at(nn, i, j)] == (if j >= k {
                    a0[at(nn, i, j)]
                } else if i == c {
                    a0[at(nn, p as int, j)]
                } else if i == p {
                    a0[at(nn, c as int, j)]
                } else {
                    a0[at(nn, i, j)]
                }),
    {
        let s: usize = cell(a, n, c, k);
        let t: usize = cell(a, n, p, k);
        let ghost a1 = a@;
        let u: Binary64 = a[s];
        let v: Binary64 = a[t];
        a.set(s, v);
        a.set(t, u);
        assert forall|i: int, j: int| 0 <= i < n && 0 <= j < n implies #[trigger] a@[at(nn, i, j)]
            == (if j >= k + 1 {
            a0[at(nn, i, j)]
        } else if i == c {
            a0[at(nn, p as int, j)]
        } else if i == p {
            a0[at(nn, c as int, j)]
        } else {
            a0[at(nn, i, j)]
        }) by {
            lemma_at(nn, i, j);
            lemma_at(nn, c as int, k as int);
            lemma_at(nn, p as int, k as int);
            assert(a1[at(nn, i, j)] == a1[at(nn, i, j)]);
            assert(a1[at(nn, c as int, k as int)] == a0[at(nn, c as int, k as int)]);
            assert(a1[at(nn, p as int, k as int)] == a0[at(nn, p as int, k as int)]);
        }
    }
    proof {
        assert forall|q: int| 0 <= q < n * n implies a@[q] == exchanged(
            a0,
            nn,
            c as int,
            p as int,
        )[q] by {
            lemma_place(nn, q);
            assert(a@[at(nn, q / (n as int), q % (n as int))] == a@[q]);
        }
        assert(a@ =~= exchanged(a0, nn, c as int, p as int));
    }
}

/// Row `r`, before column `k`, has row `c` taken from it; the rest is as it was.
spec fn row_done(
    m: Meaning<Binary64>,
    a0: Seq<Binary64>,
    a: Seq<Binary64>,
    n: nat,
    c: int,
    r: int,
    k: int,
) -> bool {
    forall|i: int, j: int|
        0 <= i < n && 0 <= j < n ==> #[trigger] a[at(n, i, j)] == if i == r && j < k {
            taken(m, a0, n, c, i, j)
        } else {
            a0[at(n, i, j)]
        }
}

proof fn lemma_row_done(
    m: Meaning<Binary64>,
    a0: Seq<Binary64>,
    a: Seq<Binary64>,
    n: nat,
    c: int,
    r: int,
    k: int,
    v: Binary64,
)
    requires
        0 <= r < n,
        0 <= k < n,
        a.len() == n * n,
        row_done(m, a0, a, n, c, r, k),
        v == taken(m, a0, n, c, r, k),
    ensures
        row_done(m, a0, a.update(at(n, r, k), v), n, c, r, k + 1),
{
    let b = a.update(at(n, r, k), v);
    lemma_at(n, r, k);
    assert forall|i: int, j: int| 0 <= i < n && 0 <= j < n implies #[trigger] b[at(n, i, j)] == if i
        == r && j < k + 1 {
        taken(m, a0, n, c, i, j)
    } else {
        a0[at(n, i, j)]
    } by {
        lemma_at(n, i, j);
        assert(a[at(n, i, j)] == a[at(n, i, j)]);
    }
}

/// Takes row `c` from row `r`, so that column `c` is zero there, and returns
/// what row `c` was multiplied by.
fn take_row<A: Arithmetic>(a: &mut Vec<Binary64>, n: usize, c: usize, r: usize) -> (f: Binary64)
    requires
        c < r < n,
        old(a)@.len() == n * n,
    ensures
        final(a)@.len() == n * n,
        forall|m: Meaning<Binary64>| #[trigger]
            follows::<A>(m) ==> {
                &&& f == factor(m, old(a)@, n as nat, c as int, r as int)
                &&& row_done(m, old(a)@, final(a)@, n as nat, c as int, r as int, n as int)
            },
{
    let ghost a0 = a@;
    let ghost nn = n as nat;
    let f: Binary64 = A::over(a[cell(a, n, r, c)], a[cell(a, n, c, c)]);
    let q: usize = cell(a, n, r, c);
    a.set(q, Binary64 { bits: 0 });
    proof {
        assert forall|m: Meaning<Binary64>| #[trigger] follows::<A>(m) implies row_done(
            m,
            a0,
            a@,
            nn,
            c as int,
            r as int,
            c + 1,
        ) by {
            assert(row_done(m, a0, a0, nn, c as int, r as int, c as int));
            lemma_row_done(m, a0, a0, nn, c as int, r as int, c as int, Binary64 { bits: 0 });
        }
    }
    for k in c + 1..n
        invariant
            c < r < n,
            nn == n,
            a@.len() == n * n,
            forall|m: Meaning<Binary64>| #[trigger]
                follows::<A>(m) ==> {
                    &&& f == factor(m, a0, nn, c as int, r as int)
                    &&& row_done(m, a0, a@, nn, c as int, r as int, k as int)
                },
    {
        let t: usize = cell(a, n, r, k);
        let v: Binary64 = A::minus(a[t], A::times(f, a[cell(a, n, c, k)]));
        let ghost a1 = a@;
        a.set(t, v);
        proof {
            assert forall|m: Meaning<Binary64>| #[trigger] follows::<A>(m) implies row_done(
                m,
                a0,
                a@,
                nn,
                c as int,
                r as int,
                k + 1,
            ) by {
                assert(a1[at(nn, r as int, k as int)] == a0[at(nn, r as int, k as int)]);
                assert(a1[at(nn, c as int, k as int)] == a0[at(nn, c as int, k as int)]);
                lemma_row_done(m, a0, a1, nn, c as int, r as int, k as int, v);
            }
        }
    }
    f
}

/// The rows after `c` and before `r` have row `c` taken from them.
spec fn rows_done(
    m: Meaning<Binary64>,
    a0: Seq<Binary64>,
    b0: Seq<Binary64>,
    a: Seq<Binary64>,
    b: Seq<Binary64>,
    n: nat,
    c: int,
    r: int,
) -> bool {
    &&& forall|i: int, j: int|
        0 <= i < n && 0 <= j < n ==> #[trigger] a[at(n, i, j)] == if c < i < r {
            taken(m, a0, n, c, i, j)
        } else {
            a0[at(n, i, j)]
        }
    &&& forall|i: int|
        0 <= i < n ==> #[trigger] b[i] == if c < i < r {
            m.sub(b0[i], m.mul(factor(m, a0, n, c, i), b0[c]))
        } else {
            b0[i]
        }
}

/// Taking row `c` from a row `r` depends on these two rows alone.
proof fn lemma_rows_done(
    m: Meaning<Binary64>,
    a0: Seq<Binary64>,
    b0: Seq<Binary64>,
    a: Seq<Binary64>,
    b: Seq<Binary64>,
    a2: Seq<Binary64>,
    n: nat,
    c: int,
    r: int,
)
    requires
        0 <= c < r < n,
        b.len() == n,
        rows_done(m, a0, b0, a, b, n, c, r),
        row_done(m, a, a2, n, c, r, n as int),
    ensures
        factor(m, a, n, c, r) == factor(m, a0, n, c, r),
        rows_done(
            m,
            a0,
            b0,
            a2,
            b.update(r, m.sub(b[r], m.mul(factor(m, a, n, c, r), b[c]))),
            n,
            c,
            r + 1,
        ),
{
    assert(a[at(n, r, c)] == a0[at(n, r, c)]);
    assert(a[at(n, c, c)] == a0[at(n, c, c)]);
    assert forall|i: int, j: int| 0 <= i < n && 0 <= j < n implies #[trigger] a2[at(n, i, j)]
        == if c < i < r + 1 {
        taken(m, a0, n, c, i, j)
    } else {
        a0[at(n, i, j)]
    } by {
        assert(a[at(n, i, j)] == a[at(n, i, j)]);
        assert(a[at(n, c, j)] == a0[at(n, c, j)]);
    }
}

/// Clears column `c` below the diagonal.
fn clear<A: Arithmetic>(a: &mut Vec<Binary64>, b: &mut Vec<Binary64>, n: usize, c: usize)
    requires
        c < n,
        old(a)@.len() == n * n,
        old(b)@.len() == n,
    ensures
        final(a)@.len() == n * n,
        final(b)@.len() == n,
        forall|m: Meaning<Binary64>| #[trigger]
            follows::<A>(m) ==> {
                &&& final(a)@ == cleared(m, old(a)@, n as nat, c as int)
                &&& final(b)@ == cleared_rhs(m, old(a)@, old(b)@, n as nat, c as int)
            },
{
    let ghost a0 = a@;
    let ghost b0 = b@;
    let ghost nn = n as nat;
    for r in c + 1..n
        invariant
            c < n,
            nn == n,
            a@.len() == n * n,
            b@.len() == n,
            forall|m: Meaning<Binary64>| #[trigger]
                follows::<A>(m) ==> rows_done(m, a0, b0, a@, b@, nn, c as int, r as int),
    {
        let ghost a1 = a@;
        let f: Binary64 = take_row::<A>(a, n, c, r);
        let v: Binary64 = A::minus(b[r], A::times(f, b[c]));
        let ghost b1 = b@;
        b.set(r, v);
        proof {
            assert forall|m: Meaning<Binary64>| #[trigger] follows::<A>(m) implies rows_done(
                m,
                a0,
                b0,
                a@,
                b@,
                nn,
                c as int,
                r + 1,
            ) by {
                lemma_rows_done(m, a0, b0, a1, b1, a@, nn, c as int, r as int);
            }
        }
    }
    proof {
        assert forall|m: Meaning<Binary64>| #[trigger] follows::<A>(m) implies a@ == cleared(
            m,
            a0,
            nn,
            c as int,
        ) && b@ == cleared_rhs(m, a0, b0, nn, c as int) by {
            assert forall|q: int| 0 <= q < n * n implies a@[q] == cleared(m, a0, nn, c as int)[q] by {
                lemma_place(nn, q);
                assert(a@[at(nn, q / (n as int), q % (n as int))] == a@[q]);
            }
            assert(a@ =~= cleared(m, a0, nn, c as int));
            assert(b@ =~= cleared_rhs(m, a0, b0, nn, c as int));
        }
    }
}

/// Solves a system that is zero below the diagonal, in place of its
/// right-hand side.
fn substitute<A: Arithmetic>(a: &Vec<Binary64>, b: &mut Vec<Binary64>, n: usize)
    requires
        a@.len() == n * n,
        old(b)@.len() == n,
    ensures
        final(b)@.len() == n,
        forall|m: Meaning<Binary64>| #[trigger]
            follows::<A>(m) ==> final(b)@ == unknowns(m, a@, old(b)@, n as nat),
{
    let ghost b0 = b@;
    let ghost nn = n as nat;
    let mut i: usize = n;
    while i > 0
        invariant
            0 <= i <= n,
            nn == n,
            a@.len() == n * n,
            b@.len() == n,
            forall|l: int| 0 <= l < i ==> b@[l] == b0[l],
            forall|m: Meaning<Binary64>, l: int|
                #![trigger follows::<A>(m), b@[l]]
                follows::<A>(m) && i <= l < n ==> b@[l] == unknown(m, a@, b0, nn, l),
        decreases i,
    {
        i = i - 1;
        let mut s: Binary64 = b[i];
        for k in i + 1..n
            invariant
                0 <= i < n,
                nn == n,
                a@.len() == n * n,
                b@.len() == n,
                forall|m: Meaning<Binary64>, l: int|
                    #![trigger follows::<A>(m), b@[l]]
                    follows::<A>(m) && i < l < n ==> b@[l] == unknown(m, a@, b0, nn, l),
                forall|m: Meaning<Binary64>| #[trigger]
                    follows::<A>(m) ==> s == remainder(m, a@, b0, nn, i as int, k as int),
        {
            s = A::minus(s, A::times(a[cell(a, n, i, k)], b[k]));
        }
        let v: Binary64 = A::over(s, a[cell(a, n, i, i)]);
        b.set(i, v);
    }
    proof {
        assert forall|m: Meaning<Binary64>| #[trigger] follows::<A>(m) implies b@ == unknowns(
            m,
            a@,
            b0,
            nn,
        ) by {
            assert(b@ =~= unknowns(m, a@, b0, nn));
        }
    }
}

/// Solves a linear system by elimination with partial pivoting; the
/// right-hand side becomes the solution.  None where a column has no usable
/// pivot.
pub fn solve<A: Arithmetic>(a: &mut Vec<Binary64>, b: &mut Vec<Binary64>, n: usize) -> (r: Option<
    (),
>)
    requires
        old(a)@.len() == n * n,
        old(b)@.len() == n,
    ensures
        final(a)@.len() == n * n,
        final(b)@.len() == n,
        forall|m: Meaning<Binary64>| #[trigger]
            follows::<A>(m) ==> match r {
                Some(_) => {
                    &&& solution(m, old(a)@, old(b)@, n as nat) == Some(final(b)@)
                    &&& reduced(m, old(a)@, old(b)@, n as nat, n as int) matches Some(s)
                    &&& s.0 == final(a)@
                },
                None => solution(m, old(a)@, old(b)@, n as nat) is None,
            },
{
    let ghost a0 = a@;
    let ghost b0 = b@;
    let ghost nn = n as nat;
    for col in 0..n
        invariant
            nn == n,
            a0 == old(a)@,
            b0 == old(b)@,
            a@.len() == n * n,
            b@.len() == n,
            forall|m: Meaning<Binary64>| #[trigger]
                follows::<A>(m) ==> reduced(m, a0, b0, nn, col as int) == Some((a@, b@)),
    {
        let p: usize = find_pivot::<A>(a, n, col);
        let v: Binary64 = a[cell(a, n, p, col)];
        if v.is_zero() || !v.is_finite() {
            proof {
                assert forall|m: Meaning<Binary64>| #[trigger] follows::<A>(m) implies solution(
                    m,
                    a0,
                    b0,
                    nn,
                ) is None by {
                    assert(reduced(m, a0, b0, nn, col + 1) is None);
                    lemma_reduced_none(m, a0, b0, nn, col + 1, n as int);
                }
            }
            return None;
        }
        if p != col {
            exchange(a, n, col, p);
            let s: Binary64 = b[col];
            let t: Binary64 = b[p];
            b.set(col, t);
            b.set(p, s);
        } else {
            proof {
                assert forall|q: int| 0 <= q < n * n implies a@[q] == exchanged(
                    a@,
                    nn,
                    col as int,
                    p as int,
                )[q] by {
                    lemma_place(nn, q);
                }
                assert(a@ =~= exchanged(a@, nn, col as int, p as int));
                assert(b@ =~= switched(b@, col as int, p as int));
            }
        }
        clear::<A>(a, b, n, col);
    }
    substitute::<A>(a, b, n);
    Some(())
}

proof fn lemma_reduced_none<T>(m: Meaning<T>, a: Seq<T>, b: Seq<T>, n: nat, c: int, d: int)
    requires
        reduced(m, a, b, n, c) is None,
        c <= d,
    ensures
        reduced(m, a, b, n, d) is None,
    decreases d - c,
{
    if c < d {
        lemma_reduced_none(m, a, b, n, c, d - 1);
    }
}

// ------------------------------------------------------------------- Cholesky

/// The entry in row `i` and column `j`, at or below the diagonal, of the lower
/// triangular factor of a symmetric matrix.
pub open spec fn lower<T>(m: Meaning<T>, a: Seq<T>, n: nat, i: int, j: int) -> T
    decreases i, j, j + 1,
{
    if 0 <= j < i {
        m.div(complement(m, a, n, i, j, j), lower(m, a, n, j, j))
    } else if 0 <= j == i {
        m.sqrt(complement(m, a, n, i, j, j))
    } else {
        a[at(n, i, j)]
    }
}

/// The entry in row `i` and column `j`, less the products of the first `k`
/// entries of these rows of the factor.
pub open spec fn complement<T>(m: Meaning<T>, a: Seq<T>, n: nat, i: int, j: int, k: int) -> T
    decreases i, j, k,
{
    if 0 < k <= j <= i {
        m.sub(
            complement(m, a, n, i, j, k - 1),
            m.mul(lower(m, a, n, i, k - 1), lower(m, a, n, j, k - 1)),
        )
    } else {
        a[at(n, i, j)]
    }
}

/// The first `c` entries on the diagonal of the factor are roots of numbers
/// that are not zero or less.
pub open spec fn positive<T>(m: Meaning<T>, a: Seq<T>, n: nat, c: int) -> bool {
    forall|i: int| 0 <= i < c ==> !m.le(#[trigger] complement(m, a, n, i, i, i), m.zero())
}

/// The unknown `i` of the system with the factor.
pub open spec fn halfway<T>(m: Meaning<T>, a: Seq<T>, b: Seq<T>, n: nat, i: int) -> T
    decreases i, i + 1,
{
    if i < 0 {
        b[i]
    } else {
        m.div(halfway_rest(m, a, b, n, i, i), lower(m, a, n, i, i))
    }
}

/// The right-hand side of row `i` less the terms of the first `k` unknowns.
pub open spec fn halfway_rest<T>(m: Meaning<T>, a: Seq<T>, b: Seq<T>, n: nat, i: int, k: int) -> T
    decreases i, k,
{
    if 0 < k <= i {
        m.sub(
            halfway_rest(m, a, b, n, i, k - 1),
            m.mul(lower(m, a, n, i, k - 1), halfway(m, a, b, n, k - 1)),
        )
    } else {
        b[i]
    }
}

/// The unknown `i` of the system with the transpose of the factor.
pub open spec fn weight<T>(m: Meaning<T>, a: Seq<T>, b: Seq<T>, n: nat, i: int) -> T
    decreases n - i, n + 1,
{
    m.div(weight_rest(m, a, b, n, i, n as int), lower(m, a, n, i, i))
}

/// What stands halfway for row `i`, less the terms of the unknowns after `i`
/// and before `k`.
pub open spec fn weight_rest<T>(m: Meaning<T>, a: Seq<T>, b: Seq<T>, n: nat, i: int, k: int) -> T
    decreases n - i, k,
{
    if 0 <= i && i + 1 < k <= n {
        m.sub(
            weight_rest(m, a, b, n, i, k - 1),
            m.mul(lower(m, a, n, k - 1, i), weight(m, a, b, n, k - 1)),
        )
    } else {
        halfway(m, a, b, n, i)
    }
}

/// The solution of a system with a symmetric matrix, by its triangular factor;
/// none where the matrix is not positive definite.
pub open spec fn sym_solution<T>(m: Meaning<T>, a: Seq<T>, b: Seq<T>, n: nat) -> Option<Seq<T>> {
    if positive(m, a, n, n as int) {
        Some(Seq::new(n, |i: int| weight(m, a, b, n, i)))
    } else {
        None
    }
}

/// A vector of zeros.
pub fn zeros(len: usize) -> (v: Vec<Binary64>)
    ensures
        v@.len() == len,
        forall|i: int| 0 <= i < len ==> #[trigger] v@[i] == (Binary64 { bits: 0 }),
{
    let mut v: Vec<Binary64> = Vec::new();
    for i in 0..len
        invariant
            v@.len() == i,
            forall|k: int| 0 <= k < i ==> #[trigger] v@[k] == (Binary64 { bits: 0 }),
    {
        v.push(Binary64 { bits: 0 });
    }
    v
}

/// The rows of the factor before `i`, and row `i` before column `j`.
spec fn factored(
    m: Meaning<Binary64>,
    a: Seq<Binary64>,
    l: Seq<Binary64>,
    n: nat,
    i: int,
    j: int,
) -> bool {
    forall|r: int, c: int|
        0 <= c <= r < n && (r < i || (r == i && c < j)) ==> #[trigger] l[at(n, r, c)] == lower(
            m,
            a,
            n,
            r,
            c,
        )
}

proof fn lemma_factored(
    m: Meaning<Binary64>,
    a: Seq<Binary64>,
    l: Seq<Binary64>,
    n: nat,
    i: int,
    j: int,
    v: Binary64,
)
    requires
        0 <= j <= i < n,
        l.len() == n * n,
        factored(m, a, l, n, i, j),
        v == lower(m, a, n, i, j),
    ensures
        factored(m, a, l.update(at(n, i, j), v), n, i, j + 1),
{
    let k = l.update(at(n, i, j), v);
    lemma_at(n, i, j);
    assert forall|r: int, c: int|
        0 <= c <= r < n && (r < i || (r == i && c < j + 1)) implies #[trigger] k[at(n, r, c)]
        == lower(m, a, n, r, c) by {
        lemma_at(n, r, c);
        assert(l[at(n, r, c)] == l[at(n, r, c)]);
    }
}

/// The triangular factor of a symmetric matrix; none where the matrix is not
/// positive definite.
fn cholesky<A: Arithmetic>(a: &Vec<Binary64>, n: usize) -> (r: Option<Vec<Binary64>>)
    requires
        a@.len() == n * n,
    ensures
        r matches Some(l) ==> l@.len() == n * n,
        forall|m: Meaning<Binary64>| #[trigger]
            follows::<A>(m) ==> match r {
                Some(l) => positive(m, a@, n as nat, n as int) && factored(
                    m,
                    a@,
                    l@,
                    n as nat,
                    n as int,
                    0,
                ),
                None => !positive(m, a@, n as nat, n as int),
            },
{
    let ghost nn = n as nat;
    let mut l: Vec<Binary64> = zeros(a.len());
    for i in 0..n
        invariant
            nn == n,
            a@.len() == n * n,
            l@.len() == n * n,
            forall|m: Meaning<Binary64>| #[trigger]
                follows::<A>(m) ==> positive(m, a@, nn, i as int) && factored(
                    m,
                    a@,
                    l@,
                    nn,
                    i as int,
                    0,
                ),
    {
        for j in 0..i + 1
            invariant
                nn == n,
                i < n,
                a@.len() == n * n,
                l@.len() == n * n,
                forall|m: Meaning<Binary64>| #[trigger]
                    follows::<A>(m) ==> positive(
                        m,
                        a@,
                        nn,
                        if j <= i {
                            i as int
                        } else {
                            i + 1
                        },
                    ) && factored(m, a@, l@, nn, i as int, j as int),
        {
            let mut s: Binary64 = a[cell(a, n, i, j)];
            for k in 0..j
                invariant
                    nn == n,
                    j <= i < n,
                    a@.len() == n * n,
                    l@.len() == n * n,
                    forall|m: Meaning<Binary64>| #[trigger]
                        follows::<A>(m) ==> factored(m, a@, l@, nn, i as int, j as int) && s
                            == complement(m, a@, nn, i as int, j as int, k as int),
            {
                let u: Binary64 = l[cell(&l, n, i, k)];
                let v: Binary64 = l[cell(&l, n, j, k)];
                proof {
                    assert forall|m: Meaning<Binary64>| #[trigger] follows::<A>(m) implies u
                        == lower(m, a@, nn, i as int, k as int) && v == lower(
                        m,
                        a@,
                        nn,
                        j as int,
                        k as int,
                    ) by {
                        assert(l@[at(nn, i as int, k as int)] == u);
                        assert(l@[at(nn, j as int, k as int)] == v);
                    }
                }
                s = A::minus(s, A::times(u, v));
            }
            let v: Binary64;
            if i == j {
                let zero: Binary64 = Binary64 { bits: 0 };
                if s.le(&zero) {
                    proof {
                        assert forall|m: Meaning<Binary64>| #[trigger]
                            follows::<A>(m) implies !positive(m, a@, nn, n as int) by {
                            assert(m.le(
                                complement(m, a@, nn, i as int, i as int, i as int),
                                m.zero(),
                            ));
                        }
                    }
                    return None;
                }
                v = A::root(s);
            } else {
                let d: Binary64 = l[cell(&l, n, j, j)];
                proof {
                    assert forall|m: Meaning<Binary64>| #[trigger] follows::<A>(m) implies d
                        == lower(m, a@, nn, j as int, j as int) by {
                        assert(l@[at(nn, j as int, j as int)] == d);
                    }
                }
                v = A::over(s, d);
            }
            let q: usize = cell(&l, n, i, j);
            let ghost l1 = l@;
            l.set(q, v);
            proof {
                assert forall|m: Meaning<Binary64>| #[trigger] follows::<A>(m) implies positive(
                    m,
                    a@,
                    nn,
                    if j + 1 <= i {
                        i as int
                    } else {
                        i + 1
                    },
                ) && factored(m, a@, l@, nn, i as int, j + 1) by {
                    lemma_factored(m, a@, l1, nn, i as int, j as int, v);
                }
            }
        }
    }
    Some(l)
}

/// Solves a system with a symmetric positive definite matrix by its triangular
/// factor; none where the matrix is not positive definite.
pub fn solve_sym_pos<A: Arithmetic>(a: &Vec<Binary64>, b: &Vec<Binary64>, n: usize) -> (r: Option<
    Vec<Binary64>,
>)
    requires
        a@.len() == n * n,
        b@.len() == n,
    ensures
        r matches Some(x) ==> x@.len() == n,
        forall|m: Meaning<Binary64>| #[trigger]
            follows::<A>(m) ==> match r {
                Some(x) => sym_solution(m, a@, b@, n as nat) == Some(x@),
                None => sym_solution(m, a@, b@, n as nat) is None,
            },
{
    let ghost nn = n as nat;
    let l: Vec<Binary64> = match cholesky::<A>(a, n) {
        Some(l) => l,
        None => {
            return None;
        },
    };
    let mut y: Vec<Binary64> = Vec::new();
    for i in 0..n
        invariant
            nn == n,
            a@.len() == n * n,
            l@.len() == n * n,
            b@.len() == n,
            y@.len() == i,
            forall|m: Meaning<Binary64>| #[trigger]
                follows::<A>(m) ==> factored(m, a@, l@, nn, n as int, 0),
            forall|m: Meaning<Binary64>, k: int|
                #![trigger follows::<A>(m), y@[k]]
                follows::<A>(m) && 0 <= k < i ==> y@[k] == halfway(m, a@, b@, nn, k),
    {
        let mut s: Binary64 = b[i];
        for k in 0..i
            invariant
                nn == n,
                i < n,
                l@.len() == n * n,
                y@.len() == i,
                forall|m: Meaning<Binary64>| #[trigger]
                    follows::<A>(m) ==> factored(m, a@, l@, nn, n as int, 0) && s == halfway_rest(
                        m,
                        a@,
                        b@,
                        nn,
                        i as int,
                        k as int,
                    ),
                forall|m: Meaning<Binary64>, k: int|
                    #![trigger follows::<A>(m), y@[k]]
                    follows::<A>(m) && 0 <= k < i ==> y@[k] == halfway(m, a@, b@, nn, k),
        {
            let u: Binary64 = l[cell(&l, n, i, k)];
            assert(l@[at(nn, i as int, k as int)] == u);
            s = A::minus(s, A::times(u, y[k]));
        }
        let d: Binary64 = l[cell(&l, n, i, i)];
        assert(l@[at(nn, i as int, i as int)] == d);
        y.push(A::over(s, d));
    }
    let ghost half = y@;
    let mut i: usize = n;
    while i > 0
        invariant
            nn == n,
            i <= n,
            l@.len() == n * n,
            half.len() == n,
            y@.len() == n,
            forall|k: int| 0 <= k < i ==> y@[k] == half[k],
            forall|m: Meaning<Binary64>| #[trigger]
                follows::<A>(m) ==> factored(m, a@, l@, nn, n as int, 0),
            forall|m: Meaning<Binary64>, k: int|
                #![trigger follows::<A>(m), half[k]]
                follows::<A>(m) && 0 <= k < n ==> half[k] == halfway(m, a@, b@, nn, k),
            forall|m: Meaning<Binary64>, k: int|
                #![trigger follows::<A>(m), y@[k]]
                follows::<A>(m) && i <= k < n ==> y@[k] == weight(m, a@, b@, nn, k),
        decreases i,
    {
        i = i - 1;
        let mut s: Binary64 = y[i];
        assert(half[i as int] == s);
        for k in i + 1..n
            invariant
                nn == n,
                i < n,
                l@.len() == n * n,
                y@.len() == n,
                forall|m: Meaning<Binary64>| #[trigger]
                    follows::<A>(m) ==> factored(m, a@, l@, nn, n as int, 0) && s == weight_rest(
                        m,
                        a@,
                        b@,
                        nn,
                        i as int,
                        k as int,
                    ),
                forall|m: Meaning<Binary64>, k: int|
                    #![trigger follows::<A>(m), y@[k]]
                    follows::<A>(m) && i < k < n ==> y@[k] == weight(m, a@, b@, nn, k),
        {
            let u: Binary64 = l[cell(&l, n, k, i)];
            assert(l@[at(nn, k as int, i as int)] == u);
            s = A::minus(s, A::times(u, y[k]));
        }
        let d: Binary64 = l[cell(&l, n, i, i)];
        assert(l@[at(nn, i as int, i as int)] == d);
        let v: Binary64 = A::over(s, d);
        y.set(i, v);
    }
    proof {
        assert forall|m: Meaning<Binary64>| #[trigger] follows::<A>(m) implies sym_solution(
            m,
            a@,
            b@,
            nn,
        ) == Some(y@) by {
            assert(y@ =~= Seq::new(nn, |i: int| weight(m, a@, b@, nn, i)));
        }
    }
    Some(y)
}

// ---------------------------------------------------- polynomial least squares

/// The sum of `w * t^i * t^j` over the points.
pub open spec fn moment<T>(m: Meaning<T>, t: Seq<T>, w: Seq<T>, i: nat, j: nat, k: int) -> T
    decreases k,
{
    if k <= 0 {
        m.zero()
    } else {
        m.add(
            moment(m, t, w, i, j, k - 1),
            m.mul(m.mul(w[k - 1], m.pow(t[k - 1], i)), m.pow(t[k - 1], j)),
        )
    }
}

/// The sum of `w * t^i * y` over the points.
pub open spec fn mixed_moment<T>(
    m: Meaning<T>,
    t: Seq<T>,
    y: Seq<T>,
    w: Seq<T>,
    i: nat,
    k: int,
) -> T
    decreases k,
{
    if k <= 0 {
        m.zero()
    } else {
        m.add(
            mixed_moment(m, t, y, w, i, k - 1),
            m.mul(m.mul(w[k - 1], m.pow(t[k - 1], i)), y[k - 1]),
        )
    }
}

/// The matrix of the normal equations of a polynomial fit with `n`
/// coefficients.
pub open spec fn moments<T>(m: Meaning<T>, t: Seq<T>, w: Seq<T>, n: nat) -> Seq<T> {
    Seq::new(
        n * n,
        |q: int|
            {
                let i = q / (n as int);
                let j = q % (n as int);
                if j <= i {
                    moment(m, t, w, i as nat, j as nat, t.len() as int)
                } else {
                    moment(m, t, w, j as nat, i as nat, t.len() as int)
                }
            },
    )
}

/// The right-hand side of the normal equations.
pub open spec fn mixed_moments<T>(m: Meaning<T>, t: Seq<T>, y: Seq<T>, w: Seq<T>, n: nat) -> Seq<
    T,
> {
    Seq::new(n, |i: int| mixed_moment(m, t, y, w, i as nat, t.len() as int))
}

/// The coefficients, lowest power first, of the polynomial of the given degree
/// that fits the weighted points best; none where the normal equations are not
/// positive definite.
pub open spec fn polyfit<T>(
    m: Meaning<T>,
    t: Seq<T>,
    y: Seq<T>,
    w: Seq<T>,
    degree: nat,
) -> Option<Seq<T>> {
    sym_solution(
        m,
        moments(m, t, w, degree + 1),
        mixed_moments(m, t, y, w, degree + 1),
        degree + 1,
    )
}

fn sum_moment<A: Arithmetic>(t: &Vec<Binary64>, w: &Vec<Binary64>, i: usize, j: usize) -> (s:
    Binary64)
    requires
        w@.len() == t@.len(),
    ensures
        forall|m: Meaning<Binary64>| #[trigger]
            follows::<A>(m) ==> s == moment(m, t@, w@, i as nat, j as nat, t@.len() as int),
{
    let mut s: Binary64 = Binary64 { bits: 0 };
    for k in 0..t.len()
        invariant
            w@.len() == t@.len(),
            forall|m: Meaning<Binary64>| #[trigger]
                follows::<A>(m) ==> s == moment(m, t@, w@, i as nat, j as nat, k as int),
    {
        s = A::plus(s, A::times(A::times(w[k], A::power(t[k], i)), A::power(t[k], j)));
    }
    s
}

fn sum_mixed<A: Arithmetic>(
    t: &Vec<Binary64>,
    y: &Vec<Binary64>,
    w: &Vec<Binary64>,
    i: usize,
) -> (s: Binary64)
    requires
        w@.len() == t@.len(),
        y@.len() == t@.len(),
    ensures
        forall|m: Meaning<Binary64>| #[trigger]
            follows::<A>(m) ==> s == mixed_moment(m, t@, y@, w@, i as nat, t@.len() as int),
{
    let mut s: Binary64 = Binary64 { bits: 0 };
    for k in 0..t.len()
        invariant
            w@.len() == t@.len(),
            y@.len() == t@.len(),
            forall|m: Meaning<Binary64>| #[trigger]
                follows::<A>(m) ==> s == mixed_moment(m, t@, y@, w@, i as nat, k as int),
    {
        s = A::plus(s, A::times(A::times(w[k], A::power(t[k], i)), y[k]));
    }
    s
}

/// Fits a polynomial to weighted points by least squares.
///
/// Yields the coefficients, lowest power first; none where the normal
/// equations are not positive definite.
pub fn polyfit_norm<A: Arithmetic>(
    t: &Vec<Binary64>,
    y: &Vec<Binary64>,
    w: &Vec<Binary64>,
    degree: usize,
) -> (r: Option<Vec<Binary64>>)
    requires
        y@.len() == t@.len(),
        w@.len() == t@.len(),
        (degree + 1) * (degree + 1) <= usize::MAX,
    ensures
        r matches Some(c) ==> c@.len() == degree + 1,
        forall|m: Meaning<Binary64>| #[trigger]
            follows::<A>(m) ==> match r {
                Some(c) => polyfit(m, t@, y@, w@, degree as nat) == Some(c@),
                None => polyfit(m, t@, y@, w@, degree as nat) is None,
            },
{
    proof {
        assert(degree + 1 <= (degree + 1) * (degree + 1)) by (nonlinear_arith)
            requires
                degree >= 0,
        ;
        assert(0 * (degree + 1) == 0) by (nonlinear_arith);
    }
    let n: usize = degree + 1;
    let ghost nn = n as nat;
    let mut a: Vec<Binary64> = Vec::new();
    let mut b: Vec<Binary64> = Vec::new();
    for i in 0..n
        invariant
            n == degree + 1,
            nn == n,
            w@.len() == t@.len(),
            y@.len() == t@.len(),
            n * n <= usize::MAX,
            a@.len() == i * n,
            b@.len() == i,
            forall|m: Meaning<Binary64>, k: int|
                #![trigger follows::<A>(m), a@[k]]
                follows::<A>(m) && 0 <= k < i * n ==> a@[k] == moments(m, t@, w@, nn)[k],
            forall|m: Meaning<Binary64>, k: int|
                #![trigger follows::<A>(m), b@[k]]
                follows::<A>(m) && 0 <= k < i ==> b@[k] == mixed_moments(m, t@, y@, w@, nn)[k],
    {
        for j in 0..n
            invariant
                n == degree + 1,
                nn == n,
                i < n,
                w@.len() == t@.len(),
                n * n <= usize::MAX,
                a@.len() == i * n + j,
                forall|m: Meaning<Binary64>, k: int|
                    #![trigger follows::<A>(m), a@[k]]
                    follows::<A>(m) && 0 <= k < i * n + j ==> a@[k] == moments(m, t@, w@, nn)[k],
        {
            let v: Binary64 = if j <= i {
                sum_moment::<A>(t, w, i, j)
            } else {
                sum_moment::<A>(t, w, j, i)
            };
            a.push(v);
            proof {
                lemma_at(nn, i as int, j as int);
            }
        }
        b.push(sum_mixed::<A>(t, y, w, i));
        proof {
            assert((i + 1) * n == i * n + n) by (nonlinear_arith);
        }
    }
    let r: Option<Vec<Binary64>> = solve_sym_pos::<A>(&a, &b, n);
    proof {
        assert forall|m: Meaning<Binary64>| #[trigger] follows::<A>(m) implies a@ == moments(
            m,
            t@,
            w@,
            nn,
        ) && b@ == mixed_moments(m, t@, y@, w@, nn) by {
            assert(a@ =~= moments(m, t@, w@, nn));
            assert(b@ =~= mixed_moments(m, t@, y@, w@, nn));
        }
    }
    r
}

} // verus!
