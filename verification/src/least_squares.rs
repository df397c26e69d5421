//! Laws of the polynomial fit and of the baseline.

use crate::arithmetic::{exact, Meaning};

use crate::cholesky_laws::{exact_roots, law_sym_solution_solves, lemma_row_sum_is, symmetric};
use crate::data::lemma_places;
use crate::linalg::{at, lemma_at, mixed_moment, mixed_moments, moment, moments, polyfit};
use crate::linalg_laws::{row_sum, solves};
use crate::model::{
    anchor_middle, anchor_scale, anchors, baseline, in_window, poly_power, poly_value,
};
use crate::sums::{
    inner, lemma_expand, lemma_regroup, lemma_sum_add, lemma_sum_nonnegative, lemma_sum_same,
    lemma_sum_scale, lemma_sum_swap, lemma_sum_tail, lemma_weighted_square, outer, sum,
};
use vstd::prelude::*;

verus! {

/// A power of a real number.
pub open spec fn real_power(t: real, n: nat) -> real
    decreases n,
{
    if n == 0 {
        1real
    } else {
        real_power(t, (n - 1) as nat) * t
    }
}

/// Powers are read as powers.
pub open spec fn exact_powers(m: Meaning<real>) -> bool {
    forall|t: real, n: nat| #[trigger] (m.power)(t, n) == real_power(t, n)
}

/// The polynomial with the coefficients `c`, lowest power first, at `t`.
pub open spec fn polynomial(c: Seq<real>, t: real) -> real {
    sum(|j: int| c[j] * real_power(t, j as nat), c.len() as int)
}

/// The sum of the weighted squares by which a polynomial misses the points.
pub open spec fn misfit(t: Seq<real>, y: Seq<real>, w: Seq<real>, c: Seq<real>) -> real {
    sum(
        |l: int| w[l] * ((y[l] - polynomial(c, t[l])) * (y[l] - polynomial(c, t[l]))),
        t.len() as int,
    )
}

proof fn lemma_poly_power(m: Meaning<real>, t: real, k: int)
    requires
        exact(m),
        0 <= k,
    ensures
        poly_power(m, t, k) == real_power(t, k as nat),
    decreases k,
{
    if k > 0 {
        lemma_poly_power(m, t, k - 1);
    }
}

/// The polynomial as it is evaluated.
pub proof fn lemma_poly_value(m: Meaning<real>, c: Seq<real>, t: real, k: int)
    requires
        exact(m),
        0 <= k <= c.len(),
    ensures
        poly_value(m, c, t, k) == sum(|j: int| c[j] * real_power(t, j as nat), k),
    decreases k,
{
    if k > 0 {
        lemma_poly_value(m, c, t, k - 1);
        lemma_poly_power(m, t, k - 1);
    }
}

/// The weights with which the equation for coefficient `i` counts the points.
spec fn loads(t: Seq<real>, w: Seq<real>, i: int) -> spec_fn(int) -> real {
    |l: int| w[l] * real_power(t[l], i as nat)
}

proof fn lemma_moment(m: Meaning<real>, t: Seq<real>, w: Seq<real>, i: int, j: int, k: int)
    requires
        exact(m),
        exact_powers(m),
        0 <= i,
        0 <= j,
        0 <= k,
    ensures
        moment(m, t, w, i as nat, j as nat, k) == sum(
            |l: int| loads(t, w, i)(l) * real_power(t[l], j as nat),
            k,
        ),
    decreases k,
{
    if k > 0 {
        lemma_moment(m, t, w, i, j, k - 1);
    }
}

proof fn lemma_mixed_moment(
    m: Meaning<real>,
    t: Seq<real>,
    y: Seq<real>,
    w: Seq<real>,
    i: int,
    k: int,
)
    requires
        exact(m),
        exact_powers(m),
        0 <= i,
        0 <= k,
    ensures
        mixed_moment(m, t, y, w, i as nat, k) == sum(|l: int| loads(t, w, i)(l) * y[l], k),
    decreases k,
{
    if k > 0 {
        lemma_mixed_moment(m, t, y, w, i, k - 1);
    }
}

/// An entry of the normal matrix, whichever way round it was added up.
proof fn lemma_entry(m: Meaning<real>, t: Seq<real>, w: Seq<real>, n: nat, i: int, j: int)
    requires
        exact(m),
        exact_powers(m),
        0 <= i < n,
        0 <= j < n,
    ensures
        moments(m, t, w, n)[at(n, i, j)] == sum(
            |l: int| loads(t, w, i)(l) * real_power(t[l], j as nat),
            t.len() as int,
        ),
{
    lemma_at(n, i, j);
    let len = t.len() as int;
    if j <= i {
        lemma_moment(m, t, w, i, j, len);
    } else {
        lemma_moment(m, t, w, j, i, len);
        let f = |l: int| loads(t, w, j)(l) * real_power(t[l], i as nat);
        let g = |l: int| loads(t, w, i)(l) * real_power(t[l], j as nat);
        assert forall|l: int| 0 <= l < len implies #[trigger] f(l) == g(l) by {
            let a = w[l];
            let p = real_power(t[l], i as nat);
            let q = real_power(t[l], j as nat);
            assert((a * q) * p == (a * p) * q) by (nonlinear_arith);
        }
        lemma_sum_same(f, g, len);
    }
}

proof fn lemma_moments_symmetric(m: Meaning<real>, t: Seq<real>, w: Seq<real>, n: nat)
    ensures
        symmetric(moments(m, t, w, n), n),
{
    let a = moments(m, t, w, n);
    assert forall|i: int, j: int| 0 <= i < n && 0 <= j < n implies #[trigger] a[at(n, i, j)]
        == a[at(n, j, i)] by {
        lemma_at(n, i, j);
        lemma_at(n, j, i);
    }
}

/// The normal matrix applied to coefficients: the weighted values of their
/// polynomial.
proof fn lemma_normal_row(
    m: Meaning<real>,
    t: Seq<real>,
    w: Seq<real>,
    n: nat,
    c: Seq<real>,
    i: int,
)
    requires
        exact(m),
        exact_powers(m),
        0 <= i < n,
        c.len() == n,
    ensures
        row_sum(moments(m, t, w, n), n, i, c, n as int) == sum(
            |l: int| loads(t, w, i)(l) * polynomial(c, t[l]),
            t.len() as int,
        ),
{
    let a = moments(m, t, w, n);
    let nn = n as int;
    let len = t.len() as int;
    let f = |j: int, l: int| (loads(t, w, i)(l) * real_power(t[l], j as nat)) * c[j];
    lemma_sum_swap(f, nn, len);
    lemma_row_sum_is(a, n, i, c, nn);
    let terms = |j: int| a[at(n, i, j)] * c[j];
    assert forall|j: int| 0 <= j < n implies #[trigger] inner(f, len)(j) == terms(j) by {
        let base = |l: int| loads(t, w, i)(l) * real_power(t[l], j as nat);
        let h = |l: int| f(j, l);
        let v = c[j];
        assert forall|l: int| 0 <= l < len implies #[trigger] h(l) == v * base(l) by {
            let p = base(l);
            assert(p * v == v * p) by (nonlinear_arith);
        }
        lemma_sum_scale(v, base, h, len);
        lemma_entry(m, t, w, n, i, j);
        let e = a[at(n, i, j)];
        assert(v * e == e * v) by (nonlinear_arith);
    }
    lemma_sum_same(inner(f, len), terms, nn);
    let goal = |l: int| loads(t, w, i)(l) * polynomial(c, t[l]);
    assert forall|l: int| 0 <= l < len implies #[trigger] outer(f, nn)(l) == goal(l) by {
        let s = loads(t, w, i)(l);
        let base = |j: int| c[j] * real_power(t[l], j as nat);
        let h = |j: int| f(j, l);
        assert forall|j: int| 0 <= j < nn implies #[trigger] h(j) == s * base(j) by {
            let p = real_power(t[l], j as nat);
            let v = c[j];
            assert((s * p) * v == s * (v * p)) by (nonlinear_arith);
        }
        lemma_sum_scale(s, base, h, nn);
    }
    lemma_sum_same(outer(f, nn), goal, len);
}

/// Over the real numbers, the polynomial fit reproduces a polynomial: points
/// that lie on one of the given degree yield its coefficients.
pub proof fn law_polyfit_reproduces(
    m: Meaning<real>,
    t: Seq<real>,
    y: Seq<real>,
    w: Seq<real>,
    degree: nat,
    g: Seq<real>,
)
    requires
        exact(m),
        exact_roots(m),
        exact_powers(m),
        g.len() == degree + 1,
        forall|l: int| 0 <= l < t.len() ==> #[trigger] y[l] == polynomial(g, t[l]),
    ensures
        polyfit(m, t, y, w, degree) matches Some(c) ==> c == g,
{
    let n = degree + 1;
    let a = moments(m, t, w, n);
    let b = mixed_moments(m, t, y, w, n);
    let len = t.len() as int;
    lemma_moments_symmetric(m, t, w, n);
    law_sym_solution_solves(m, a, b, n);
    assert forall|i: int| 0 <= i < n implies #[trigger] row_sum(a, n, i, g, n as int) == b[i] by {
        lemma_normal_row(m, t, w, n, g, i);
        lemma_mixed_moment(m, t, y, w, i, len);
        let p = |l: int| loads(t, w, i)(l) * polynomial(g, t[l]);
        let q = |l: int| loads(t, w, i)(l) * y[l];
        assert forall|l: int| 0 <= l < len implies #[trigger] p(l) == q(l) by {
            assert(y[l] == polynomial(g, t[l]));
        }
        lemma_sum_same(p, q, len);
    }
    assert(solves(a, b, n, g));
}

/// The misses of the fitted polynomial, weighted, are orthogonal to every power
/// up to the degree.
proof fn lemma_orthogonal(
    m: Meaning<real>,
    t: Seq<real>,
    y: Seq<real>,
    w: Seq<real>,
    n: nat,
    c: Seq<real>,
    i: int,
)
    requires
        exact(m),
        exact_powers(m),
        0 <= i < n,
        solves(moments(m, t, w, n), mixed_moments(m, t, y, w, n), n, c),
    ensures
        sum(|l: int| loads(t, w, i)(l) * (y[l] - polynomial(c, t[l])), t.len() as int) == 0real,
{
    let len = t.len() as int;
    let a = moments(m, t, w, n);
    let b = mixed_moments(m, t, y, w, n);
    assert(row_sum(a, n, i, c, n as int) == b[i]);
    lemma_normal_row(m, t, w, n, c, i);
    lemma_mixed_moment(m, t, y, w, i, len);
    let p = |l: int| loads(t, w, i)(l) * polynomial(c, t[l]);
    let q = |l: int| loads(t, w, i)(l) * y[l];
    let r = |l: int| loads(t, w, i)(l) * (y[l] - polynomial(c, t[l]));
    assert forall|l: int| 0 <= l < len implies #[trigger] q(l) == p(l) + r(l) by {
        let s = loads(t, w, i)(l);
        let u = y[l];
        let v = polynomial(c, t[l]);
        assert(s * u == s * v + s * (u - v)) by (nonlinear_arith);
    }
    lemma_sum_add(p, r, q, len);
}

/// What one polynomial misses at point `l`.
pub open spec fn miss(t: Seq<real>, y: Seq<real>, c: Seq<real>, l: int) -> real {
    y[l] - polynomial(c, t[l])
}

proof fn lemma_polynomial_difference(c: Seq<real>, g: Seq<real>, h: Seq<real>, t: real)
    requires
        c.len() == g.len() == h.len(),
        forall|j: int| 0 <= j < c.len() ==> #[trigger] h[j] == c[j] - g[j],
    ensures
        polynomial(h, t) == polynomial(c, t) - polynomial(g, t),
{
    let pc = |j: int| c[j] * real_power(t, j as nat);
    let pg = |j: int| g[j] * real_power(t, j as nat);
    let ph = |j: int| h[j] * real_power(t, j as nat);
    assert forall|j: int| 0 <= j < c.len() implies #[trigger] pc(j) == ph(j) + pg(j) by {
        let u = c[j];
        let v = g[j];
        let p = real_power(t, j as nat);
        assert(h[j] == u - v);
        assert(u * p == (u - v) * p + v * p) by (nonlinear_arith);
    }
    lemma_sum_add(ph, pg, pc, c.len() as int);
}

/// The misses of the fitted polynomial, weighted, are orthogonal to every
/// polynomial of the degree.
proof fn lemma_mixed_vanishes(
    m: Meaning<real>,
    t: Seq<real>,
    y: Seq<real>,
    w: Seq<real>,
    n: nat,
    c: Seq<real>,
    h: Seq<real>,
)
    requires
        exact(m),
        exact_powers(m),
        h.len() == n,
        solves(moments(m, t, w, n), mixed_moments(m, t, y, w, n), n, c),
    ensures
        sum(|l: int| w[l] * (miss(t, y, c, l) * polynomial(h, t[l])), t.len() as int) == 0real,
{
    let len = t.len() as int;
    let nn = n as int;
    let mixed = |l: int| w[l] * (miss(t, y, c, l) * polynomial(h, t[l]));
    let f = |j: int, l: int| h[j] * (loads(t, w, j)(l) * miss(t, y, c, l));
    lemma_sum_swap(f, nn, len);
    assert forall|l: int| 0 <= l < len implies #[trigger] outer(f, nn)(l) == mixed(l) by {
        let base = |j: int| h[j] * real_power(t[l], j as nat);
        let v = w[l];
        let q = miss(t, y, c, l);
        let k = v * q;
        let col = |j: int| f(j, l);
        assert forall|j: int| 0 <= j < nn implies #[trigger] col(j) == k * base(j) by {
            lemma_regroup(h[j], v, real_power(t[l], j as nat), q);
        }
        lemma_sum_scale(k, base, col, nn);
        let e = polynomial(h, t[l]);
        assert((v * q) * e == v * (q * e)) by (nonlinear_arith);
    }
    lemma_sum_same(outer(f, nn), mixed, len);
    assert forall|j: int| 0 <= j < n implies #[trigger] inner(f, len)(j) == 0real by {
        lemma_orthogonal(m, t, y, w, n, c, j);
        let base = |l: int| loads(t, w, j)(l) * (y[l] - polynomial(c, t[l]));
        let row = |l: int| f(j, l);
        let u = h[j];
        assert forall|l: int| 0 <= l < len implies #[trigger] row(l) == u * base(l) by {}
        lemma_sum_scale(u, base, row, len);
        assert(u * 0real == 0real) by (nonlinear_arith);
    }
    lemma_sum_tail(inner(f, len), 0, nn);
}

/// Over the real numbers, no polynomial of the given degree misses points with
/// non-negative weights by less than the fitted one.
pub proof fn law_polyfit_is_best(
    m: Meaning<real>,
    t: Seq<real>,
    y: Seq<real>,
    w: Seq<real>,
    degree: nat,
    g: Seq<real>,
)
    requires
        exact(m),
        exact_roots(m),
        exact_powers(m),
        g.len() == degree + 1,
        forall|l: int| 0 <= l < t.len() ==> #[trigger] w[l] >= 0real,
    ensures
        polyfit(m, t, y, w, degree) matches Some(c) ==> misfit(t, y, w, c) <= misfit(t, y, w, g),
{
    let n = degree + 1;
    let a = moments(m, t, w, n);
    let b = mixed_moments(m, t, y, w, n);
    lemma_moments_symmetric(m, t, w, n);
    law_sym_solution_solves(m, a, b, n);
    if let Some(c) = polyfit(m, t, y, w, degree) {
        assert(solves(a, b, n, c));
        let h = Seq::new(n, |j: int| c[j] - g[j]);
        lemma_mixed_vanishes(m, t, y, w, n, c, h);
        lemma_compare(t, y, w, c, g, h);
    }
}

/// Where the mixed terms vanish, the misfit of the other polynomial is larger by
/// the weighted squares of the difference.
proof fn lemma_compare(
    t: Seq<real>,
    y: Seq<real>,
    w: Seq<real>,
    c: Seq<real>,
    g: Seq<real>,
    h: Seq<real>,
)
    requires
        c.len() == g.len() == h.len(),
        forall|j: int| 0 <= j < c.len() ==> #[trigger] h[j] == c[j] - g[j],
        forall|l: int| 0 <= l < t.len() ==> #[trigger] w[l] >= 0real,
        sum(|l: int| w[l] * (miss(t, y, c, l) * polynomial(h, t[l])), t.len() as int) == 0real,
    ensures
        misfit(t, y, w, c) <= misfit(t, y, w, g),
{
    let len = t.len() as int;
    let own = |l: int| w[l] * (miss(t, y, c, l) * miss(t, y, c, l));
    let other = |l: int| w[l] * (miss(t, y, g, l) * miss(t, y, g, l));
    let mixed = |l: int| w[l] * (miss(t, y, c, l) * polynomial(h, t[l]));
    let twice = |l: int| mixed(l) + mixed(l);
    let part = |l: int| own(l) + twice(l);
    let square = |l: int| w[l] * (polynomial(h, t[l]) * polynomial(h, t[l]));
    assert forall|l: int| 0 <= l < len implies #[trigger] other(l) == part(l) + square(l) by {
        lemma_polynomial_difference(c, g, h, t[l]);
        lemma_expand(w[l], miss(t, y, c, l), polynomial(h, t[l]));
        assert(miss(t, y, g, l) == miss(t, y, c, l) + polynomial(h, t[l]));
    }
    lemma_sum_add(part, square, other, len);
    lemma_sum_add(own, twice, part, len);
    lemma_sum_add(mixed, mixed, twice, len);
    assert forall|l: int| 0 <= l < len implies #[trigger] square(l) >= 0real by {
        assert(w[l] >= 0real);
        lemma_weighted_square(w[l], polynomial(h, t[l]));
    }
    lemma_sum_nonnegative(square, len);
    lemma_sum_same(
        own,
        |l: int| w[l] * ((y[l] - polynomial(c, t[l])) * (y[l] - polynomial(c, t[l]))),
        len,
    );
    lemma_sum_same(
        other,
        |l: int| w[l] * ((y[l] - polynomial(g, t[l])) * (y[l] - polynomial(g, t[l]))),
        len,
    );
}

// --------------------------------------------------------------------- baselines

/// Values that no anchor has do not matter to a baseline.
pub proof fn law_baseline_sees_anchors_only<T>(
    m: Meaning<T>,
    xs: Seq<T>,
    ys: Seq<T>,
    zs: Seq<T>,
    mask: Seq<bool>,
    windows: Seq<(T, T)>,
    degree: nat,
)
    requires
        forall|i: int|
            0 <= i < xs.len() && !mask[i] && in_window(m, windows, xs[i]) ==> #[trigger] ys[i]
                == zs[i],
    ensures
        baseline(m, xs, ys, mask, windows, degree) == baseline(m, xs, zs, mask, windows, degree),
{
    let sel = anchors(m, xs, mask, windows);
    lemma_places(xs.len(), |i: int| !mask[i] && in_window(m, windows, xs[i]));
    assert forall|k: int| 0 <= k < sel.len() implies ys[#[trigger] sel[k]] == zs[sel[k]] by {}
    assert(sel.map_values(|i: int| ys[i]) =~= sel.map_values(|i: int| zs[i]));
}

/// Over the real numbers, a polynomial background is removed entirely: where
/// the anchors lie on a polynomial of the given degree in the scaled
/// coordinate, the baseline is that polynomial at every point.
pub proof fn law_baseline_reproduces(
    m: Meaning<real>,
    xs: Seq<real>,
    ys: Seq<real>,
    mask: Seq<bool>,
    windows: Seq<(real, real)>,
    degree: nat,
    g: Seq<real>,
)
    requires
        exact(m),
        exact_roots(m),
        exact_powers(m),
        g.len() == degree + 1,
        ({
            let sel = anchors(m, xs, mask, windows);
            forall|k: int|
                0 <= k < sel.len() ==> ys[#[trigger] sel[k]] == polynomial(
                    g,
                    m.div(m.sub(xs[sel[k]], anchor_middle(xs, sel)), anchor_scale(m, xs, sel)),
                )
        }),
    ensures
        baseline(m, xs, ys, mask, windows, degree) matches Ok(v) ==> {
            let sel = anchors(m, xs, mask, windows);
            &&& v.len() == xs.len()
            &&& forall|i: int|
                0 <= i < xs.len() ==> #[trigger] v[i] == polynomial(
                    g,
                    m.div(m.sub(xs[i], anchor_middle(xs, sel)), anchor_scale(m, xs, sel)),
                )
        },
{
    let sel = anchors(m, xs, mask, windows);
    let mid = anchor_middle(xs, sel);
    let scale = anchor_scale(m, xs, sel);
    let t = sel.map_values(|i: int| m.div(m.sub(xs[i], mid), scale));
    let y = sel.map_values(|i: int| ys[i]);
    let w = sel.map_values(|i: int| m.one());
    assert forall|l: int| 0 <= l < t.len() implies #[trigger] y[l] == polynomial(g, t[l]) by {
        assert(ys[sel[l]] == polynomial(g, m.div(m.sub(xs[sel[l]], mid), scale)));
    }
    law_polyfit_reproduces(m, t, y, w, degree, g);
    if let Ok(v) = baseline(m, xs, ys, mask, windows, degree) {
        assert forall|i: int| 0 <= i < xs.len() implies #[trigger] v[i] == polynomial(
            g,
            m.div(m.sub(xs[i], mid), scale),
        ) by {
            lemma_poly_value(m, g, m.div(m.sub(xs[i], mid), scale), g.len() as int);
        }
    }
}

} // verus!
