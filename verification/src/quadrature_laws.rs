//! Laws of the Gauss-Hermite quadrature, read over the real numbers.

use crate::arithmetic::{exact, Meaning};
use crate::linalg::{at, lemma_at};
use crate::quadrature::{
    block_end, diagonal, hermite, hermite_couplings, in_order, node_weight, opened, rotations,
    settled, swept, turned, unit, with_node, Sweep, MAX_SWEEPS, PI_BITS,
};
use crate::sums::{lemma_sum_same, lemma_sum_scale, sum};
use vstd::prelude::*;

verus! {

/// Two legs over their hypotenuse are a sine and a cosine, and the second
/// power is the square.
pub open spec fn exact_turns(m: Meaning<real>) -> bool {
    &&& forall|a: real, b: real|
        {
            let s = (m.over)(a, #[trigger] (m.hypot)(a, b));
            let c = (m.over)(b, (m.hypot)(a, b));
            s * s + c * c == 1real
        }
    &&& forall|a: real| #[trigger] (m.power)(a, 2) == a * a
}

/// The squares of row `k` of a matrix.
pub open spec fn row_squares(z: Seq<real>, n: nat, k: int) -> spec_fn(int) -> real {
    |j: int| z[at(n, k, j)] * z[at(n, k, j)]
}

/// Terms that differ in two neighbours alone, whose sum is the same.
proof fn lemma_sum_pair(f: spec_fn(int) -> real, g: spec_fn(int) -> real, i: int, k: int)
    requires
        0 < i < k,
        forall|j: int| 0 <= j < k && j != i && j != i - 1 ==> #[trigger] f(j) == g(j),
        f(i - 1) + f(i) == g(i - 1) + g(i),
    ensures
        sum(f, k) == sum(g, k),
    decreases k,
{
    if k == i + 1 {
        lemma_sum_same(f, g, i - 1);
        assert(sum(f, k) == sum(f, i - 1) + f(i - 1) + f(i)) by {
            reveal_with_fuel(sum, 3);
        }
        assert(sum(g, k) == sum(g, i - 1) + g(i - 1) + g(i)) by {
            reveal_with_fuel(sum, 3);
        }
    } else {
        lemma_sum_pair(f, g, i, k - 1);
        assert(f(k - 1) == g(k - 1));
    }
}

proof fn lemma_turn_keeps_squares(s: real, c: real, u: real, v: real)
    requires
        s * s + c * c == 1real,
    ensures
        (s * u + c * v) * (s * u + c * v) + (c * u - s * v) * (c * u - s * v) == u * u + v * v,
{
    let a = s * u;
    let b = c * v;
    let d = c * u;
    let e = s * v;
    assert((a + b) * (a + b) == a * a + 2real * (a * b) + b * b) by (nonlinear_arith);
    assert((d - e) * (d - e) == d * d - 2real * (d * e) + e * e) by (nonlinear_arith);
    assert(a * b == d * e) by (nonlinear_arith)
        requires
            a == s * u,
            b == c * v,
            d == c * u,
            e == s * v,
    ;
    let ss = s * s;
    let cc = c * c;
    let uu = u * u;
    let vv = v * v;
    assert(a * a == ss * uu) by (nonlinear_arith)
        requires
            a == s * u,
            ss == s * s,
            uu == u * u,
    ;
    assert(d * d == cc * uu) by (nonlinear_arith)
        requires
            d == c * u,
            cc == c * c,
            uu == u * u,
    ;
    assert(b * b == cc * vv) by (nonlinear_arith)
        requires
            b == c * v,
            cc == c * c,
            vv == v * v,
    ;
    assert(e * e == ss * vv) by (nonlinear_arith)
        requires
            e == s * v,
            ss == s * s,
            vv == v * v,
    ;
    assert(ss * uu + cc * uu == uu) by (nonlinear_arith)
        requires
            ss + cc == 1real,
    ;
    assert(ss * vv + cc * vv == vv) by (nonlinear_arith)
        requires
            ss + cc == 1real,
    ;
}

proof fn lemma_turned_row(m: Meaning<real>, z: Seq<real>, n: nat, i: int, s: real, c: real, k: int)
    requires
        exact(m),
        s * s + c * c == 1real,
        0 < i < n,
        0 <= k < n,
    ensures
        sum(row_squares(turned(m, z, n, i, s, c), n, k), n as int) == sum(
            row_squares(z, n, k),
            n as int,
        ),
{
    let w = turned(m, z, n, i, s, c);
    let f = row_squares(w, n, k);
    let g = row_squares(z, n, k);
    assert forall|j: int| 0 <= j < n && j != i && j != i - 1 implies #[trigger] f(j) == g(j) by {
        lemma_at(n, k, j);
    }
    lemma_at(n, k, i);
    lemma_at(n, k, i - 1);
    let u = z[at(n, k, i - 1)];
    let v = z[at(n, k, i)];
    assert(w[at(n, k, i)] == s * u + c * v);
    assert(w[at(n, k, i - 1)] == c * u - s * v);
    lemma_turn_keeps_squares(s, c, u, v);
    lemma_sum_pair(f, g, i, n as int);
}

proof fn lemma_rotations_row(
    m: Meaning<real>,
    w: Sweep<real>,
    n: nat,
    top: int,
    count: nat,
    k: int,
)
    requires
        exact(m),
        exact_turns(m),
        count <= top < n,
        0 <= k < n,
    ensures
        sum(row_squares(rotations(m, w, n, top, count).z, n, k), n as int) == sum(
            row_squares(w.z, n, k),
            n as int,
        ),
    decreases count,
{
    if count > 0 {
        let v = rotations(m, w, n, top, (count - 1) as nat);
        lemma_rotations_row(m, w, n, top, (count - 1) as nat, k);
        let i = top - (count - 1);
        let f = m.mul(v.s, v.e[i]);
        let r = m.legs(f, v.g);
        let s = m.div(f, r);
        let c = m.div(v.g, r);
        assert(s * s + c * c == 1real);
        lemma_turned_row(m, v.z, n, i, s, c, k);
        assert(rotations(m, w, n, top, count).z == turned(m, v.z, n, i, s, c));
    }
}

proof fn lemma_block_end(m: Meaning<real>, d: Seq<real>, e: Seq<real>, n: nat, i: int)
    requires
        0 <= i < n,
    ensures
        i <= block_end(m, d, e, n, i) < n,
    decreases n - i,
{
    if i + 1 < n {
        lemma_block_end(m, d, e, n, i + 1);
    }
}

proof fn lemma_settled_row(
    m: Meaning<real>,
    d: Seq<real>,
    e: Seq<real>,
    z: Seq<real>,
    n: nat,
    l: int,
    sweeps: nat,
    k: int,
)
    requires
        exact(m),
        exact_turns(m),
        0 <= l < n,
        0 <= k < n,
    ensures
        settled(m, d, e, z, n, l, sweeps) matches Some(w) ==> sum(
            row_squares(w.2, n, k),
            n as int,
        ) == sum(row_squares(z, n, k), n as int),
    decreases MAX_SWEEPS - sweeps,
{
    let t = block_end(m, d, e, n, l);
    lemma_block_end(m, d, e, n, l);
    if t != l && sweeps + 1 < MAX_SWEEPS {
        let w = swept(m, d, e, z, n, l, t);
        lemma_rotations_row(m, opened(m, d, e, z, l, t), n, t, (t - l) as nat, k);
        lemma_settled_row(m, w.0, w.1, w.2, n, l, sweeps + 1, k);
    }
}

proof fn lemma_diagonal_row(
    m: Meaning<real>,
    d: Seq<real>,
    e: Seq<real>,
    z: Seq<real>,
    n: nat,
    l: int,
    k: int,
)
    requires
        exact(m),
        exact_turns(m),
        l <= n,
        0 <= k < n,
    ensures
        diagonal(m, d, e, z, n, l) matches Some(w) ==> sum(row_squares(w.2, n, k), n as int) == sum(
            row_squares(z, n, k),
            n as int,
        ),
    decreases l,
{
    if l > 0 {
        lemma_diagonal_row(m, d, e, z, n, l - 1, k);
        if let Some(w) = diagonal(m, d, e, z, n, l - 1) {
            lemma_settled_row(m, w.0, w.1, w.2, n, l - 1, 0, k);
        }
    }
}

proof fn lemma_unit_row(m: Meaning<real>, n: nat, c: int)
    requires
        exact(m),
        0 <= c <= n,
        n > 0,
    ensures
        sum(row_squares(unit(m, n), n, 0), c) == (if c == 0 {
            0real
        } else {
            1real
        }),
    decreases c,
{
    if c > 0 {
        lemma_unit_row(m, n, c - 1);
        lemma_at(n, 0, c - 1);
        assert(unit(m, n)[at(n, 0, c - 1)] == (if c == 1 {
            1real
        } else {
            0real
        }));
        assert(1real * 1real == 1real && 0real * 0real == 0real) by (nonlinear_arith);
    }
}

// ----------------------------------------------------------------- nodes and weights

/// The sum of the weights.
pub open spec fn total_weight(v: Seq<(real, real)>) -> real
    decreases v.len(),
{
    if v.len() == 0 {
        0real
    } else {
        total_weight(v.drop_last()) + v.last().1
    }
}

/// Nodes in ascending order.
pub open spec fn ascending(v: Seq<(real, real)>) -> bool {
    forall|i: int, j: int| 0 <= i < j < v.len() ==> (#[trigger] v[i]).0 <= (#[trigger] v[j]).0
}

proof fn lemma_with_node(m: Meaning<real>, s: Seq<(real, real)>, e: (real, real))
    requires
        exact(m),
        ascending(s),
    ensures
        total_weight(with_node(m, s, e)) == total_weight(s) + e.1,
        with_node(m, s, e).len() == s.len() + 1,
        ascending(with_node(m, s, e)),
        forall|i: int|
            0 <= i <= s.len() ==> (#[trigger] with_node(m, s, e)[i]).0 <= e.0 || (s.len() > 0
                && with_node(m, s, e)[i].0 <= s.last().0),
    decreases s.len(),
{
    if s.len() > 0 && m.lt(e.0, s.last().0) {
        let p = s.drop_last();
        assert(ascending(p));
        lemma_with_node(m, p, e);
        let w = with_node(m, p, e);
        let r = w.push(s.last());
        assert(r.drop_last() =~= w);
        assert forall|i: int| 0 <= i < w.len() implies (#[trigger] w[i]).0 <= s.last().0 by {
            if p.len() > 0 {
                assert(s[p.len() - 1].0 <= s[p.len() as int].0);
            }
        }
    } else {
        let r = s.push(e);
        assert(r.drop_last() =~= s);
        assert forall|i: int| 0 <= i < s.len() implies (#[trigger] s[i]).0 <= e.0 by {
            if i < s.len() - 1 {
                assert(s[i].0 <= s[s.len() - 1].0);
            }
        }
    }
}

proof fn lemma_in_order(m: Meaning<real>, s: Seq<(real, real)>)
    requires
        exact(m),
    ensures
        total_weight(in_order(m, s)) == total_weight(s),
        in_order(m, s).len() == s.len(),
        ascending(in_order(m, s)),
    decreases s.len(),
{
    if s.len() > 0 {
        lemma_in_order(m, s.drop_last());
        lemma_with_node(m, in_order(m, s.drop_last()), s.last());
    }
}

proof fn lemma_total_is_sum(v: Seq<(real, real)>, f: spec_fn(int) -> real, k: int)
    requires
        0 <= k <= v.len(),
        forall|i: int| 0 <= i < v.len() ==> (#[trigger] v[i]).1 == f(i),
    ensures
        total_weight(v.take(k)) == sum(f, k),
    decreases k,
{
    if k > 0 {
        lemma_total_is_sum(v, f, k - 1);
        assert(v.take(k).drop_last() =~= v.take(k - 1));
        assert(v[k - 1].1 == f(k - 1));
    }
}

/// Over the real numbers, the quadrature has as many nodes as it was asked for,
/// in ascending order, and its weights add up to the root of pi: it integrates
/// the bare weight function exactly.
pub proof fn law_hermite_weights(m: Meaning<real>, n: nat)
    requires
        exact(m),
        exact_turns(m),
        n > 0,
    ensures
        hermite(m, n) matches Some(v) ==> {
            &&& v.len() == n
            &&& ascending(v)
            &&& total_weight(v) == m.sqrt(m.num(PI_BITS))
        },
{
    let d = Seq::new(n, |i: int| m.zero());
    let e = hermite_couplings(m, n);
    let z = unit(m, n);
    if hermite(m, n) is Some {
        let w = diagonal(m, d, e, z, n, n as int)->0;
        let raw = Seq::new(n, |i: int| (w.0[i], node_weight(m, w.2[i])));
        lemma_in_order(m, raw);
        lemma_diagonal_row(m, d, e, z, n, n as int, 0);
        lemma_unit_row(m, n, n as int);
        let q = row_squares(w.2, n, 0);
        let p = m.sqrt(m.num(PI_BITS));
        let f = |i: int| node_weight(m, w.2[i]);
        assert forall|i: int| 0 <= i < n implies #[trigger] f(i) == p * q(i) by {
            assert(at(n, 0, i) == i) by {
                assert(0 * n == 0) by (nonlinear_arith);
            }
            assert((m.power)(w.2[i], 2) == w.2[i] * w.2[i]);
        }
        lemma_sum_scale(p, q, f, n as int);
        assert(p * 1real == p) by (nonlinear_arith);
        assert(raw.take(n as int) =~= raw);
        lemma_total_is_sum(raw, f, n as int);
    }
}

} // verus!
