//! Gauss-Hermite quadrature by the eigenvalues of a tridiagonal matrix.

use crate::arithmetic::{follows, Arithmetic, Meaning};
use crate::binary64::{Binary64, ONE_BITS};
use crate::linalg::{at, lemma_at, lemma_place, zeros};
use vstd::prelude::*;

verus! {

/// The number two.
pub const TWO_BITS: u64 = 0x4000_0000_0000_0000;

/// The number 1e-15.
pub const SMALL_BITS: u64 = 0x3cd2_03af_9ee7_5616;

/// The square root of two.
pub const SQRT_2_BITS: u64 = 0x3ff6_a09e_667f_3bcd;

/// The number pi.
pub const PI_BITS: u64 = 0x4009_21fb_5444_2d18;

/// The sweeps after which a diagonal entry that has not settled is given up.
pub const MAX_SWEEPS: u32 = 300;

/// A symmetric tridiagonal matrix under rotation: its diagonal `d`, its
/// off-diagonal `e` (`e[i]` couples rows `i - 1` and `i`) and the rotations
/// `z` so far, with the numbers that pass from one rotation to the next.
pub struct Sweep<T> {
    pub d: Seq<T>,
    pub e: Seq<T>,
    pub z: Seq<T>,
    pub g: T,
    pub s: T,
    pub c: T,
    pub p: T,
}

/// Columns `i - 1` and `i` of `z`, turned by the angle with sine `s` and
/// cosine `c`.
pub open spec fn turned<T>(m: Meaning<T>, z: Seq<T>, n: nat, i: int, s: T, c: T) -> Seq<T> {
    Seq::new(
        n * n,
        |q: int|
            {
                let k = q / (n as int);
                let j = q % (n as int);
                let u = z[at(n, k, i - 1)];
                let v = z[at(n, k, i)];
                if j == i {
                    m.add(m.mul(s, u), m.mul(c, v))
                } else if j == i - 1 {
                    m.sub(m.mul(c, u), m.mul(s, v))
                } else {
                    z[q]
                }
            },
    )
}

/// One rotation in the plane of rows `i - 1` and `i`.
pub open spec fn rotated<T>(m: Meaning<T>, w: Sweep<T>, n: nat, i: int) -> Sweep<T> {
    let f = m.mul(w.s, w.e[i]);
    let b = m.mul(w.c, w.e[i]);
    let r = m.legs(f, w.g);
    let s = m.div(f, r);
    let c = m.div(w.g, r);
    let g = m.sub(w.d[i], w.p);
    let t = m.add(m.mul(m.sub(w.d[i - 1], g), s), m.mul(m.mul(m.num(TWO_BITS), c), b));
    let p = m.mul(s, t);
    Sweep {
        d: w.d.update(i, m.add(g, p)),
        e: w.e.update(i + 1, r),
        z: turned(m, w.z, n, i, s, c),
        g: m.sub(m.mul(c, t), b),
        s,
        c,
        p,
    }
}

/// The rotations in the planes from `top` downward, `count` of them.
pub open spec fn rotations<T>(m: Meaning<T>, w: Sweep<T>, n: nat, top: int, count: nat) -> Sweep<T>
    decreases count,
{
    if count == 0 {
        w
    } else {
        let v = rotations(m, w, n, top, (count - 1) as nat);
        rotated(m, v, n, top - (count - 1))
    }
}

/// The numbers with which a sweep over the rows `l` to `t` begins: the shift
/// that the corner at `l` implies.
pub open spec fn opened<T>(m: Meaning<T>, d: Seq<T>, e: Seq<T>, z: Seq<T>, l: int, t: int) -> Sweep<
    T,
> {
    let g = m.div(m.sub(d[l + 1], d[l]), m.mul(m.num(TWO_BITS), e[l + 1]));
    let r = m.legs(g, m.one());
    Sweep {
        d,
        e,
        z,
        g: m.add(m.sub(d[t], d[l]), m.div(e[l + 1], m.add(g, m.sign(r, g)))),
        s: m.one(),
        c: m.one(),
        p: m.zero(),
    }
}

/// One implicit-shift sweep over the rows `l` to `t`: the new diagonal,
/// off-diagonal and rotations.
pub open spec fn swept<T>(
    m: Meaning<T>,
    d: Seq<T>,
    e: Seq<T>,
    z: Seq<T>,
    n: nat,
    l: int,
    t: int,
) -> (Seq<T>, Seq<T>, Seq<T>) {
    let w = rotations(m, opened(m, d, e, z, l, t), n, t, (t - l) as nat);
    (
        w.d.update(l, m.sub(w.d[l], w.p)),
        w.e.update(l + 1, w.g).update(t + 1, m.zero()),
        w.z,
    )
}

/// The coupling of rows `i` and `i + 1` is negligible.
pub open spec fn negligible<T>(m: Meaning<T>, d: Seq<T>, e: Seq<T>, i: int) -> bool {
    m.le(m.abs(e[i + 1]), m.mul(m.num(SMALL_BITS), m.add(m.abs(d[i]), m.abs(d[i + 1]))))
}

/// The first row from `i` on whose coupling to the next is negligible, or the
/// last row.
pub open spec fn block_end<T>(m: Meaning<T>, d: Seq<T>, e: Seq<T>, n: nat, i: int) -> int
    decreases n - i,
{
    if i + 1 >= n || negligible(m, d, e, i) {
        i
    } else {
        block_end(m, d, e, n, i + 1)
    }
}

/// The matrix once row `l` is coupled to no other, after at most the allowed
/// sweeps; none where that takes more.
pub open spec fn settled<T>(
    m: Meaning<T>,
    d: Seq<T>,
    e: Seq<T>,
    z: Seq<T>,
    n: nat,
    l: int,
    sweeps: nat,
) -> Option<(Seq<T>, Seq<T>, Seq<T>)>
    decreases MAX_SWEEPS - sweeps,
{
    let t = block_end(m, d, e, n, l);
    if t == l {
        Some((d, e, z))
    } else if sweeps + 1 >= MAX_SWEEPS {
        None
    } else {
        let w = swept(m, d, e, z, n, l, t);
        settled(m, w.0, w.1, w.2, n, l, sweeps + 1)
    }
}

/// The matrix once the first `l` rows are settled, one after the other.
pub open spec fn diagonal<T>(m: Meaning<T>, d: Seq<T>, e: Seq<T>, z: Seq<T>, n: nat, l: int) -> Option<
    (Seq<T>, Seq<T>, Seq<T>),
>
    decreases l,
{
    if l <= 0 {
        Some((d, e, z))
    } else {
        match diagonal(m, d, e, z, n, l - 1) {
            None => None,
            Some(w) => settled(m, w.0, w.1, w.2, n, l - 1, 0),
        }
    }
}

/// Rows of `z` before `k` are turned; the others are as they were.
spec fn rows_turned(
    m: Meaning<Binary64>,
    z0: Seq<Binary64>,
    z: Seq<Binary64>,
    n: nat,
    i: int,
    s: Binary64,
    c: Binary64,
    k: int,
) -> bool {
    forall|r: int, j: int|
        0 <= r < n && 0 <= j < n ==> #[trigger] z[at(n, r, j)] == if r < k {
            turned(m, z0, n, i, s, c)[at(n, r, j)]
        } else {
            z0[at(n, r, j)]
        }
}

/// Turns columns `i - 1` and `i`.
fn turn<A: Arithmetic>(z: &mut Vec<Binary64>, n: usize, i: usize, s: Binary64, c: Binary64)
    requires
        0 < i < n,
        old(z)@.len() == n * n,
    ensures
        final(z)@.len() == n * n,
        forall|m: Meaning<Binary64>| #[trigger]
            follows::<A>(m) ==> final(z)@ == turned(m, old(z)@, n as nat, i as int, s, c),
{
    let ghost z0 = z@;
    let ghost nn = n as nat;
    for k in 0..n
        invariant
            0 < i < n,
            nn == n,
            z0.len() == n * n,
            z@.len() == n * n,
            forall|m: Meaning<Binary64>| #[trigger]
                follows::<A>(m) ==> rows_turned(m, z0, z@, nn, i as int, s, c, k as int),
            forall|r: int, j: int|
                k <= r < n && 0 <= j < n ==> #[trigger] z@[at(nn, r, j)] == z0[at(nn, r, j)],
    {
        proof {
            lemma_at(nn, k as int, i as int);
            lemma_at(nn, k as int, i - 1);
            assert(k * n <= z.len());
        }
        let q: usize = k * n + i;
        let ghost z1 = z@;
        let u: Binary64 = z[q - 1];
        let v: Binary64 = z[q];
        let x: Binary64 = A::plus(A::times(s, u), A::times(c, v));
        let y: Binary64 = A::minus(A::times(c, u), A::times(s, v));
        z.set(q, x);
        z.set(q - 1, y);
        proof {
            assert(z1[at(nn, k as int, i as int)] == z0[at(nn, k as int, i as int)]);
            assert(z1[at(nn, k as int, i - 1)] == z0[at(nn, k as int, i - 1)]);
            assert forall|r: int, j: int| k + 1 <= r < n && 0 <= j < n implies #[trigger] z@[at(
                nn,
                r,
                j,
            )] == z0[at(nn, r, j)] by {
                lemma_at(nn, r, j);
                assert(z1[at(nn, r, j)] == z0[at(nn, r, j)]);
            }
            assert forall|m: Meaning<Binary64>| #[trigger] follows::<A>(m) implies rows_turned(
                m,
                z0,
                z@,
                nn,
                i as int,
                s,
                c,
                k + 1,
            ) by {
                assert forall|r: int, j: int| 0 <= r < n && 0 <= j < n implies #[trigger] z@[at(
                    nn,
                    r,
                    j,
                )] == if r < k + 1 {
                    turned(m, z0, nn, i as int, s, c)[at(nn, r, j)]
                } else {
                    z0[at(nn, r, j)]
                } by {
                    lemma_at(nn, r, j);
                    assert(z1[at(nn, r, j)] == z1[at(nn, r, j)]);
                }
            }
        }
    }
    proof {
        assert forall|m: Meaning<Binary64>| #[trigger] follows::<A>(m) implies z@ == turned(
            m,
            z0,
            nn,
            i as int,
            s,
            c,
        ) by {
            assert forall|q: int| 0 <= q < n * n implies z@[q] == turned(
                m,
                z0,
                nn,
                i as int,
                s,
                c,
            )[q] by {
                lemma_place(nn, q);
                assert(z@[at(nn, q / (n as int), q % (n as int))] == z@[q]);
            }
            assert(z@ =~= turned(m, z0, nn, i as int, s, c));
        }
    }
}

/// The last row of the block that begins with row `l`.
fn find_block_end<A: Arithmetic>(d: &Vec<Binary64>, e: &Vec<Binary64>, n: usize, l: usize) -> (t:
    usize)
    requires
        l < n,
        d@.len() == n,
        e@.len() == n + 1,
    ensures
        l <= t < n,
        forall|m: Meaning<Binary64>| #[trigger]
            follows::<A>(m) ==> t == block_end(m, d@, e@, n as nat, l as int),
{
    let mut t: usize = l;
    while t + 1 < n
        invariant
            l <= t < n,
            d@.len() == n,
            e@.len() == n + 1,
            forall|m: Meaning<Binary64>| #[trigger]
                follows::<A>(m) ==> block_end(m, d@, e@, n as nat, l as int) == block_end(
                    m,
                    d@,
                    e@,
                    n as nat,
                    t as int,
                ),
        decreases n - t,
    {
        let scale: Binary64 = A::plus(d[t].abs(), d[t + 1].abs());
        let bound: Binary64 = A::times(Binary64 { bits: SMALL_BITS }, scale);
        if e[t + 1].abs().le(&bound) {
            return t;
        }
        t = t + 1;
    }
    t
}

/// One implicit-shift sweep over the rows `l` to `t`.
fn sweep<A: Arithmetic>(
    d: &mut Vec<Binary64>,
    e: &mut Vec<Binary64>,
    z: &mut Vec<Binary64>,
    n: usize,
    l: usize,
    t: usize,
)
    requires
        l < t < n,
        old(d)@.len() == n,
        old(e)@.len() == n + 1,
        old(z)@.len() == n * n,
    ensures
        final(d)@.len() == n,
        final(e)@.len() == n + 1,
        final(z)@.len() == n * n,
        forall|m: Meaning<Binary64>| #[trigger]
            follows::<A>(m) ==> (final(d)@, final(e)@, final(z)@) == swept(
                m,
                old(d)@,
                old(e)@,
                old(z)@,
                n as nat,
                l as int,
                t as int,
            ),
{
    let ghost d0 = d@;
    let ghost e0 = e@;
    let ghost z0 = z@;
    let ghost nn = n as nat;
    let one: Binary64 = Binary64 { bits: ONE_BITS };
    let two: Binary64 = Binary64 { bits: TWO_BITS };
    let g0: Binary64 = A::over(A::minus(d[l + 1], d[l]), A::times(two, e[l + 1]));
    let r0: Binary64 = A::hypot(g0, one);
    let mut g: Binary64 = A::plus(
        A::minus(d[t], d[l]),
        A::over(e[l + 1], A::plus(g0, r0.copysign(g0))),
    );
    let mut s: Binary64 = one;
    let mut c: Binary64 = one;
    let mut p: Binary64 = Binary64 { bits: 0 };
    let mut i: usize = t;
    while i > l
        invariant
            l <= i <= t < n,
            nn == n,
            two == (Binary64 { bits: TWO_BITS }),
            d@.len() == n,
            e@.len() == n + 1,
            z@.len() == n * n,
            forall|m: Meaning<Binary64>| #[trigger]
                follows::<A>(m) ==> (Sweep { d: d@, e: e@, z: z@, g, s, c, p }) == rotations(
                    m,
                    opened(m, d0, e0, z0, l as int, t as int),
                    nn,
                    t as int,
                    (t - i) as nat,
                ),
        decreases i,
    {
        let f: Binary64 = A::times(s, e[i]);
        let b: Binary64 = A::times(c, e[i]);
        let r: Binary64 = A::hypot(f, g);
        e.set(i + 1, r);
        s = A::over(f, r);
        c = A::over(g, r);
        g = A::minus(d[i], p);
        let u: Binary64 = A::plus(
            A::times(A::minus(d[i - 1], g), s),
            A::times(A::times(two, c), b),
        );
        p = A::times(s, u);
        let v: Binary64 = A::plus(g, p);
        d.set(i, v);
        g = A::minus(A::times(c, u), b);
        turn::<A>(z, n, i, s, c);
        i = i - 1;
    }
    let x: Binary64 = A::minus(d[l], p);
    d.set(l, x);
    e.set(l + 1, g);
    e.set(t + 1, Binary64 { bits: 0 });
}

/// Brings a symmetric tridiagonal matrix to diagonal form by implicit-shift
/// sweeps and gathers the rotations in `z`.  Returns whether every row settled
/// within the allowed sweeps.
fn tqli<A: Arithmetic>(
    n: usize,
    d: &mut Vec<Binary64>,
    e: &mut Vec<Binary64>,
    z: &mut Vec<Binary64>,
) -> (ok: bool)
    requires
        old(d)@.len() == n,
        old(e)@.len() == n + 1,
        old(z)@.len() == n * n,
    ensures
        final(d)@.len() == n,
        final(z)@.len() == n * n,
        forall|m: Meaning<Binary64>| #[trigger]
            follows::<A>(m) ==> match diagonal(
                m,
                old(d)@,
                old(e)@,
                old(z)@,
                n as nat,
                n as int,
            ) {
                Some(w) => ok && w == (final(d)@, final(e)@, final(z)@),
                None => !ok,
            },
{
    let ghost d0 = d@;
    let ghost e0 = e@;
    let ghost z0 = z@;
    let ghost nn = n as nat;
    for l in 0..n
        invariant
            nn == n,
            d0 == old(d)@,
            e0 == old(e)@,
            z0 == old(z)@,
            d@.len() == n,
            e@.len() == n + 1,
            z@.len() == n * n,
            forall|m: Meaning<Binary64>| #[trigger]
                follows::<A>(m) ==> diagonal(m, d0, e0, z0, nn, l as int) == Some((d@, e@, z@)),
    {
        let mut sweeps: u32 = 0;
        let mut t: usize = find_block_end::<A>(d, e, n, l);
        while t != l
            invariant
                nn == n,
                l < n,
                l <= t < n,
                d0 == old(d)@,
                e0 == old(e)@,
                z0 == old(z)@,
                sweeps < MAX_SWEEPS,
                d@.len() == n,
                e@.len() == n + 1,
                z@.len() == n * n,
                forall|m: Meaning<Binary64>| #[trigger]
                    follows::<A>(m) ==> {
                        &&& t == block_end(m, d@, e@, nn, l as int)
                        &&& diagonal(m, d0, e0, z0, nn, l + 1) == settled(
                            m,
                            d@,
                            e@,
                            z@,
                            nn,
                            l as int,
                            sweeps as nat,
                        )
                    },
            decreases MAX_SWEEPS - sweeps,
        {
            sweeps = sweeps + 1;
            if sweeps >= MAX_SWEEPS {
                proof {
                    assert forall|m: Meaning<Binary64>| #[trigger] follows::<A>(m) implies diagonal(
                        m,
                        d0,
                        e0,
                        z0,
                        nn,
                        n as int,
                    ) is None by {
                        lemma_diagonal_none(m, d0, e0, z0, nn, l + 1, n as int);
                    }
                }
                return false;
            }
            sweep::<A>(d, e, z, n, l, t);
            t = find_block_end::<A>(d, e, n, l);
        }
    }
    true
}

proof fn lemma_diagonal_none<T>(
    m: Meaning<T>,
    d: Seq<T>,
    e: Seq<T>,
    z: Seq<T>,
    n: nat,
    l: int,
    k: int,
)
    requires
        diagonal(m, d, e, z, n, l) is None,
        l <= k,
    ensures
        diagonal(m, d, e, z, n, k) is None,
    decreases k - l,
{
    if l < k {
        lemma_diagonal_none(m, d, e, z, n, l, k - 1);
    }
}

// ------------------------------------------------------------ nodes and weights

/// The off-diagonal of the Jacobi matrix of the Hermite polynomials.
pub open spec fn hermite_couplings<T>(m: Meaning<T>, n: nat) -> Seq<T> {
    Seq::new(
        n + 1,
        |i: int|
            if 1 <= i < n {
                m.div(m.sqrt(m.count(i as nat)), m.num(SQRT_2_BITS))
            } else {
                m.zero()
            },
    )
}

/// The unit matrix.
pub open spec fn unit<T>(m: Meaning<T>, n: nat) -> Seq<T> {
    Seq::new(
        n * n,
        |q: int|
            if q / (n as int) == q % (n as int) {
                m.one()
            } else {
                m.zero()
            },
    )
}

/// The weight of a node by the first component `v` of its eigenvector.
pub open spec fn node_weight<T>(m: Meaning<T>, v: T) -> T {
    m.mul(m.sqrt(m.num(PI_BITS)), m.pow(v, 2))
}

/// A node put among nodes in ascending order, after those that are not above
/// it.
pub open spec fn with_node<T>(m: Meaning<T>, s: Seq<(T, T)>, e: (T, T)) -> Seq<(T, T)>
    decreases s.len(),
{
    if s.len() > 0 && m.lt(e.0, s.last().0) {
        with_node(m, s.drop_last(), e).push(s.last())
    } else {
        s.push(e)
    }
}

/// Nodes in ascending order; equal ones keep theirs.
pub open spec fn in_order<T>(m: Meaning<T>, s: Seq<(T, T)>) -> Seq<(T, T)>
    decreases s.len(),
{
    if s.len() == 0 {
        s
    } else {
        with_node(m, in_order(m, s.drop_last()), s.last())
    }
}

/// The nodes and weights of the Gauss-Hermite quadrature with `n` nodes; none
/// where the eigenvalues are not found.
pub open spec fn hermite<T>(m: Meaning<T>, n: nat) -> Option<Seq<(T, T)>> {
    let d = Seq::new(n, |i: int| m.zero());
    match diagonal(m, d, hermite_couplings(m, n), unit(m, n), n, n as int) {
        None => None,
        Some(w) => if forall|i: int| 0 <= i < n ==> m.eq(#[trigger] w.0[i], w.0[i]) {
            Some(in_order(m, Seq::new(n, |i: int| (w.0[i], node_weight(m, w.2[i])))))
        } else {
            None
        },
    }
}

proof fn lemma_with_node<T>(m: Meaning<T>, s: Seq<(T, T)>, e: (T, T), k: int)
    requires
        0 <= k <= s.len(),
        forall|j: int| k <= j < s.len() ==> m.lt(e.0, #[trigger] s[j].0),
        k > 0 ==> !m.lt(e.0, s[k - 1].0),
    ensures
        with_node(m, s, e) == s.insert(k, e),
    decreases s.len(),
{
    if s.len() > k {
        assert(m.lt(e.0, s[s.len() - 1].0));
        let t = s.drop_last();
        assert forall|j: int| k <= j < t.len() implies m.lt(e.0, #[trigger] t[j].0) by {
            assert(t[j] == s[j]);
        }
        lemma_with_node(m, t, e, k);
        assert(t.insert(k, e).push(s.last()) =~= s.insert(k, e));
    } else {
        assert(s.insert(k, e) =~= s.push(e));
    }
}

/// Puts a node among nodes in ascending order.
fn add_node<A: Arithmetic>(v: &mut Vec<(Binary64, Binary64)>, e: (Binary64, Binary64))
    ensures
        forall|m: Meaning<Binary64>| #[trigger]
            follows::<A>(m) ==> final(v)@ == with_node(m, old(v)@, e),
{
    let mut k: usize = v.len();
    while k > 0 && e.0.lt(&v[k - 1].0)
        invariant
            k <= v@.len(),
            v@ == old(v)@,
            forall|j: int| k <= j < v@.len() ==> e.0.below(#[trigger] v@[j].0),
        decreases k,
    {
        k = k - 1;
    }
    proof {
        assert forall|m: Meaning<Binary64>| #[trigger] follows::<A>(m) implies with_node(
            m,
            v@,
            e,
        ) == v@.insert(k as int, e) by {
            lemma_with_node(m, v@, e, k as int);
        }
    }
    v.insert(k, e);
}

/// The unit matrix.
fn identity(n: usize) -> (z: Vec<Binary64>)
    requires
        n * n <= usize::MAX,
    ensures
        z@.len() == n * n,
        forall|q: int|
            0 <= q < n * n ==> #[trigger] z@[q] == (Binary64 {
                bits: if q / (n as int) == q % (n as int) {
                    ONE_BITS
                } else {
                    0
                },
            }),
{
    let mut z: Vec<Binary64> = Vec::new();
    let len: usize = n * n;
    for q in 0..len
        invariant
            len == n * n,
            z@.len() == q,
            forall|k: int|
                0 <= k < q ==> #[trigger] z@[k] == (Binary64 {
                    bits: if k / (n as int) == k % (n as int) {
                        ONE_BITS
                    } else {
                        0
                    },
                }),
    {
        proof {
            lemma_place(n as nat, q as int);
        }
        if q / n == q % n {
            z.push(Binary64 { bits: ONE_BITS });
        } else {
            z.push(Binary64 { bits: 0 });
        }
    }
    z
}

/// The nodes and weights of the Gauss-Hermite quadrature, for the weight
/// function `exp(-x^2)`, with the nodes in ascending order; none where the
/// eigenvalues of the Jacobi matrix are not found.
pub fn gauss_hermite<A: Arithmetic>(n: usize) -> (r: Option<Vec<(Binary64, Binary64)>>)
    requires
        n < usize::MAX,
        n * n <= usize::MAX,
    ensures
        forall|m: Meaning<Binary64>| #[trigger]
            follows::<A>(m) ==> match r {
                Some(v) => hermite(m, n as nat) == Some(v@),
                None => hermite(m, n as nat) is None,
            },
{
    let ghost nn = n as nat;
    let mut d: Vec<Binary64> = zeros(n);
    let mut e: Vec<Binary64> = Vec::new();
    let sqrt2: Binary64 = Binary64 { bits: SQRT_2_BITS };
    for i in 0..n + 1
        invariant
            n < usize::MAX,
            nn == n,
            sqrt2 == (Binary64 { bits: SQRT_2_BITS }),
            e@.len() == i,
            forall|m: Meaning<Binary64>, k: int|
                #![trigger follows::<A>(m), e@[k]]
                follows::<A>(m) && 0 <= k < i ==> e@[k] == hermite_couplings(m, nn)[k],
    {
        if 1 <= i && i < n {
            e.push(A::over(A::root(A::of_count(i)), sqrt2));
        } else {
            e.push(Binary64 { bits: 0 });
        }
    }
    let mut z: Vec<Binary64> = identity(n);
    proof {
        assert forall|m: Meaning<Binary64>| #[trigger] follows::<A>(m) implies d@ == Seq::new(
            nn,
            |i: int| m.zero(),
        ) && e@ == hermite_couplings(m, nn) && z@ == unit(m, nn) by {
            assert(d@ =~= Seq::new(nn, |i: int| m.zero()));
            assert(e@ =~= hermite_couplings(m, nn));
            assert(z@ =~= unit(m, nn));
        }
    }
    if !tqli::<A>(n, &mut d, &mut e, &mut z) {
        return None;
    }
    let spi: Binary64 = A::root(Binary64 { bits: PI_BITS });
    let mut out: Vec<(Binary64, Binary64)> = Vec::new();
    for i in 0..n
        invariant
            nn == n,
            d@.len() == n,
            z@.len() == n * n,
            forall|m: Meaning<Binary64>| #[trigger]
                follows::<A>(m) ==> {
                    &&& diagonal(
                        m,
                        Seq::new(nn, |i: int| m.zero()),
                        hermite_couplings(m, nn),
                        unit(m, nn),
                        nn,
                        n as int,
                    ) matches Some(w)
                    &&& w.0 == d@
                    &&& w.2 == z@
                    &&& spi == m.sqrt(m.num(PI_BITS))
                    &&& out@ == in_order(
                        m,
                        Seq::new(nn, |i: int| (d@[i], node_weight(m, z@[i]))).take(i as int),
                    )
                },
            forall|k: int| 0 <= k < i ==> !(#[trigger] d@[k]).nan(),
    {
        if d[i].is_nan() {
            proof {
                assert forall|m: Meaning<Binary64>| #[trigger] follows::<A>(m) implies hermite(
                    m,
                    nn,
                ) is None by {
                    assert(!m.eq(d@[i as int], d@[i as int]));
                }
            }
            return None;
        }
        proof {
            lemma_at(nn, 0, i as int);
        }
        let w: Binary64 = A::times(spi, A::power(z[i], 2));
        proof {
            assert forall|m: Meaning<Binary64>| #[trigger] follows::<A>(m) implies in_order(
                m,
                Seq::new(nn, |i: int| (d@[i], node_weight(m, z@[i]))).take(i + 1),
            ) == with_node(m, out@, (d@[i as int], w)) by {
                let all = Seq::new(nn, |i: int| (d@[i], node_weight(m, z@[i])));
                assert(all.take(i + 1).drop_last() =~= all.take(i as int));
            }
        }
        add_node::<A>(&mut out, (d[i], w));
    }
    proof {
        assert forall|m: Meaning<Binary64>| #[trigger] follows::<A>(m) implies hermite(m, nn)
            == Some(out@) by {
            let all = Seq::new(nn, |i: int| (d@[i], node_weight(m, z@[i])));
            assert(all.take(n as int) =~= all);
            assert(forall|i: int| 0 <= i < n ==> m.eq(#[trigger] d@[i], d@[i]));
        }
    }
    Some(out)
}

/// The number of nodes of the quadrature behind the Voigt profile.
pub const VOIGT_NODES: usize = 64;

/// The nodes and weights of the quadrature behind the Voigt profile: those of
/// the Gauss-Hermite quadrature with 64 nodes.
pub fn voigt_nodes<A: Arithmetic>() -> (r: Option<Vec<(Binary64, Binary64)>>)
    ensures
        forall|m: Meaning<Binary64>| #[trigger]
            follows::<A>(m) ==> match r {
                Some(v) => hermite(m, 64) == Some(v@),
                None => hermite(m, 64) is None,
            },
{
    gauss_hermite::<A>(VOIGT_NODES)
}

} // verus!
