//! Laws of the Faddeeva function and of the Voigt profile.

use crate::arithmetic::{exact, Meaning};
use crate::cholesky_laws::exact_roots;
use crate::model::{
    faddeeva_im, faddeeva_re, faddeeva_value, voigt_value, MINUS_HALF_BITS, VOIGT_FLOOR_BITS,
};
use crate::products::{
    lemma_both_positive, lemma_common, lemma_cross, lemma_group, lemma_one, lemma_prod, lemma_quot,
    lemma_quot_positive, lemma_share, lemma_square_not_negative, lemma_swap, lemma_undo, prod,
    quot,
};
use crate::quadrature::{PI_BITS, SQRT_2_BITS, TWO_BITS};
use crate::sums::{lemma_sum_same, lemma_sum_scale, sum};
use vstd::prelude::*;

verus! {

// -------------------------------------------------------------- the quadrature sums

/// The denominator of a term.
spec fn distance(re: real, im: real, t: real) -> real {
    prod(re - t, re - t) + prod(im, im)
}

/// A term of the real part.
spec fn real_term(nodes: Seq<(real, real)>, re: real, im: real, k: int) -> real {
    quot(prod(nodes[k].1, im), distance(re, im, nodes[k].0))
}

/// A term of the imaginary part.
spec fn imaginary_term(nodes: Seq<(real, real)>, re: real, im: real, k: int) -> real {
    quot(prod(nodes[k].1, re - nodes[k].0), distance(re, im, nodes[k].0))
}

proof fn lemma_distance(re: real, im: real, t: real)
    requires
        im > 0real,
    ensures
        distance(re, im, t) > 0real,
        distance(re, im, t) == (re - t) * (re - t) + im * im,
{
    lemma_square_not_negative(re - t);
    lemma_both_positive(im, im);
    lemma_prod(re - t, re - t);
    lemma_prod(im, im);
}

proof fn lemma_term_is(w: real, v: real, den: real)
    ensures
        quot(prod(w, v), den) == w * v / den,
{
    lemma_prod(w, v);
    lemma_quot(prod(w, v), den);
}

proof fn lemma_faddeeva_step(
    m: Meaning<real>,
    nodes: Seq<(real, real)>,
    re: real,
    im: real,
    k: int,
)
    requires
        exact(m),
        im > 0real,
        k > 0,
    ensures
        faddeeva_re(m, nodes, re, im, k) == faddeeva_re(m, nodes, re, im, k - 1) + real_term(
            nodes,
            re,
            im,
            k - 1,
        ),
        faddeeva_im(m, nodes, re, im, k) == faddeeva_im(m, nodes, re, im, k - 1) + imaginary_term(
            nodes,
            re,
            im,
            k - 1,
        ),
{
    let (t, w) = nodes[k - 1];
    lemma_distance(re, im, t);
    let den = distance(re, im, t);
    lemma_term_is(w, im, den);
    lemma_term_is(w, re - t, den);
}

proof fn lemma_faddeeva(m: Meaning<real>, nodes: Seq<(real, real)>, re: real, im: real, k: int)
    requires
        exact(m),
        im > 0real,
    ensures
        faddeeva_re(m, nodes, re, im, k) == sum(|j: int| real_term(nodes, re, im, j), k),
        faddeeva_im(m, nodes, re, im, k) == sum(|j: int| imaginary_term(nodes, re, im, j), k),
    decreases k,
{
    if k > 0 {
        lemma_faddeeva(m, nodes, re, im, k - 1);
        lemma_faddeeva_step(m, nodes, re, im, k);
    }
}

/// A multiplication by a reciprocal, undone.
proof fn lemma_undone(a: real, b: real)
    requires
        b != 0real,
    ensures
        prod(prod(a, quot(1real, b)), b) == a,
{
    lemma_undo(1real, b);
    lemma_group(a, quot(1real, b), b);
    lemma_one(a);
}

proof fn lemma_faddeeva_value(
    m: Meaning<real>,
    nodes: Seq<(real, real)>,
    re: real,
    im: real,
    pi: real,
)
    requires
        exact(m),
        m.num(PI_BITS) == pi,
        pi > 0real,
    ensures
        ({
            let n = nodes.len() as int;
            let v = faddeeva_value(m, nodes, re, im);
            &&& v.0 == prod(faddeeva_re(m, nodes, re, im, n), quot(1real, pi))
            &&& v.1 == prod(faddeeva_im(m, nodes, re, im, n), quot(1real, pi))
        }),
{
    let n = nodes.len() as int;
    lemma_quot(1real, pi);
    lemma_prod(faddeeva_re(m, nodes, re, im, n), quot(1real, pi));
    lemma_prod(faddeeva_im(m, nodes, re, im, n), quot(1real, pi));
}

/// The Faddeeva function by quadrature: `pi` times its real part is the sum over
/// the nodes `t` of `w im / ((re-t)^2 + im^2)`, and `pi` times its imaginary part
/// that of `w (re-t) / ((re-t)^2 + im^2)`.
pub proof fn law_faddeeva_is_quadrature(
    m: Meaning<real>,
    nodes: Seq<(real, real)>,
    re: real,
    im: real,
    pi: real,
)
    requires
        exact(m),
        im > 0real,
        m.num(PI_BITS) == pi,
        pi > 0real,
    ensures
        faddeeva_value(m, nodes, re, im).0 * pi == sum(
            |k: int|
                nodes[k].1 * im / ((re - nodes[k].0) * (re - nodes[k].0) + im * im),
            nodes.len() as int,
        ),
        faddeeva_value(m, nodes, re, im).1 * pi == sum(
            |k: int|
                nodes[k].1 * (re - nodes[k].0) / ((re - nodes[k].0) * (re - nodes[k].0) + im * im),
            nodes.len() as int,
        ),
{
    let n = nodes.len() as int;
    lemma_faddeeva(m, nodes, re, im, n);
    lemma_faddeeva_value(m, nodes, re, im, pi);
    let v = faddeeva_value(m, nodes, re, im);
    lemma_undone(faddeeva_re(m, nodes, re, im, n), pi);
    lemma_undone(faddeeva_im(m, nodes, re, im, n), pi);
    lemma_prod(v.0, pi);
    lemma_prod(v.1, pi);
    let f = |j: int| real_term(nodes, re, im, j);
    let g = |k: int| nodes[k].1 * im / ((re - nodes[k].0) * (re - nodes[k].0) + im * im);
    assert forall|k: int| 0 <= k < n implies #[trigger] f(k) == g(k) by {
        lemma_distance(re, im, nodes[k].0);
        lemma_term_is(nodes[k].1, im, distance(re, im, nodes[k].0));
    }
    lemma_sum_same(f, g, n);
    let p = |j: int| imaginary_term(nodes, re, im, j);
    let q = |k: int|
        nodes[k].1 * (re - nodes[k].0) / ((re - nodes[k].0) * (re - nodes[k].0) + im * im);
    assert forall|k: int| 0 <= k < n implies #[trigger] p(k) == q(k) by {
        lemma_distance(re, im, nodes[k].0);
        lemma_term_is(nodes[k].1, re - nodes[k].0, distance(re, im, nodes[k].0));
    }
    lemma_sum_same(p, q, n);
}

// --------------------------------------------------------------------- the profile

/// One term of the quadrature, brought to the scale of the coordinate.
proof fn lemma_scaled_term(w: real, d: real, g: real, t: real, s: real)
    requires
        s > 0real,
        g > 0real,
    ensures
        ({
            let e = d - prod(s, t);
            let a = quot(prod(w, quot(g, s)), distance(quot(d, s), quot(g, s), t));
            prod(a, prod(e, e) + prod(g, g)) == prod(prod(w, g), s)
        }),
{
    let f = quot(d, s);
    let i = quot(g, s);
    let a = f - t;
    let e = d - prod(s, t);
    let ss = prod(s, s);
    let den = distance(f, i, t);
    let r = quot(prod(w, i), den);
    lemma_undo(d, s);
    lemma_undo(g, s);
    lemma_quot_positive(g, s);
    lemma_distance(f, i, t);
    // prod(a, s) == e
    lemma_share(f, t, s);
    lemma_swap(t, s);
    assert(prod(a, s) == e);
    // prod(den, ss) is what the term is multiplied by
    lemma_share(prod(a, a), prod(i, i), ss);
    lemma_cross(a, a, s, s);
    lemma_cross(i, i, s, s);
    assert(prod(den, ss) == prod(e, e) + prod(g, g));
    lemma_undo(prod(w, i), den);
    lemma_group(r, den, ss);
    lemma_group(w, i, ss);
    lemma_group(i, s, s);
    lemma_group(w, g, s);
}

/// Two roots in one.
proof fn lemma_root_product(a: real, b: real, c: real, p: real)
    requires
        a > 0real,
        b > 0real,
        c > 0real,
        prod(a, a) == 2real,
        prod(b, b) == p,
        prod(c, c) == 2real * p,
    ensures
        c == prod(a, b),
{
    let d = prod(a, b);
    lemma_both_positive(a, b);
    lemma_cross(a, b, a, b);
    lemma_prod(2real, p);
    // (c - d) (c + d) == 0
    lemma_share(c, d, c + d);
    lemma_swap(c, c + d);
    lemma_swap(d, c + d);
    lemma_share(c, d, c);
    lemma_share(c, d, d);
    lemma_swap(c, d);
    lemma_one(c + d);
    lemma_common(c - d, 0real, c + d);
}

/// What both sides are once the denominators are multiplied out.
proof fn lemma_mixture_term(
    w: real,
    g: real,
    a: real,
    big: real,
    pi: real,
    q: real,
    s: real,
    norm: real,
)
    requires
        prod(a, big) == prod(prod(w, g), s),
        big > 0real,
        pi > 0real,
        q > 0real,
        prod(norm, prod(q, s)) == 1real,
    ensures
        prod(prod(a, quot(1real, pi)), norm) == prod(quot(w, q), quot(g, prod(pi, big))),
{
    let ai = prod(a, quot(1real, pi));
    let b = prod(ai, norm);
    let pb = prod(pi, big);
    lemma_both_positive(pi, big);
    let u = quot(w, q);
    let v = quot(g, pb);
    lemma_undo(w, q);
    lemma_undo(g, pb);
    let t = prod(u, v);
    let k = prod(q, pb);
    lemma_both_positive(q, pb);
    lemma_cross(u, v, q, pb);
    assert(prod(t, k) == prod(w, g));
    lemma_undone(a, pi);
    lemma_swap(q, pb);
    lemma_cross(ai, norm, pb, q);
    lemma_group(ai, pi, big);
    assert(prod(ai, pb) == prod(a, big));
    let nq = prod(norm, q);
    let wg = prod(w, g);
    lemma_group(wg, s, nq);
    lemma_swap(s, nq);
    lemma_group(norm, q, s);
    lemma_one(wg);
    assert(prod(b, k) == wg);
    lemma_common(b, t, k);
}

/// The constants of the Voigt profile are what they should be.
pub open spec fn exact_profile(m: Meaning<real>, pi: real) -> bool {
    &&& m.num(TWO_BITS) == 2real
    &&& m.num(MINUS_HALF_BITS) == -1real / 2real
    &&& m.num(PI_BITS) == pi
    &&& pi > 0real
    &&& m.num(SQRT_2_BITS) > 0real
    &&& m.num(SQRT_2_BITS) * m.num(SQRT_2_BITS) == 2real
}

/// A profile with a Lorentzian part, as it is computed.
proof fn lemma_voigt_unfolds(
    m: Meaning<real>,
    nodes: Seq<(real, real)>,
    x: real,
    c: real,
    sigma: real,
    gamma: real,
    root: real,
    r2: real,
)
    requires
        exact(m),
        m.num(SQRT_2_BITS) == r2,
        m.sqrt(m.mul(m.num(TWO_BITS), m.num(PI_BITS))) == root,
        gamma > 0real,
        gamma >= sigma * m.num(VOIGT_FLOOR_BITS),
        prod(sigma, r2) != 0real,
        prod(sigma, root) != 0real,
    ensures
        voigt_value(m, nodes, x, c, sigma, gamma) == prod(
            faddeeva_value(
                m,
                nodes,
                quot(x - c, prod(sigma, r2)),
                quot(gamma, prod(sigma, r2)),
            ).0,
            quot(1real, prod(sigma, root)),
        ),
{
    let s = prod(sigma, r2);
    let span = prod(sigma, root);
    lemma_prod(sigma, r2);
    lemma_prod(sigma, root);
    lemma_quot(x - c, s);
    lemma_quot(gamma, s);
    lemma_quot(1real, span);
    let w = faddeeva_value(m, nodes, quot(x - c, s), quot(gamma, s)).0;
    lemma_prod(w, quot(1real, span));
}

/// The roots that a profile is made of.
proof fn lemma_roots(m: Meaning<real>, pi: real)
    requires
        exact(m),
        exact_roots(m),
        exact_profile(m, pi),
    ensures
        ({
            let q = m.sqrt(pi);
            let r2 = m.num(SQRT_2_BITS);
            let root = m.sqrt(m.mul(m.num(TWO_BITS), m.num(PI_BITS)));
            &&& q > 0real
            &&& r2 > 0real
            &&& root > 0real
            &&& root == m.sqrt(2real * pi)
            &&& root == prod(r2, q)
        }),
{
    let q = m.sqrt(pi);
    let r2 = m.num(SQRT_2_BITS);
    let root = m.sqrt(2real * pi);
    assert(m.mul(m.num(TWO_BITS), m.num(PI_BITS)) == 2real * pi);
    assert(q > 0real && q * q == pi);
    assert(root > 0real && root * root == 2real * pi);
    lemma_prod(q, q);
    lemma_prod(r2, r2);
    lemma_prod(root, root);
    lemma_root_product(r2, q, root, pi);
}

/// A Lorentzian of the mixture, as the law writes it.
proof fn lemma_written(w: real, q: real, g: real, pi: real, e: real)
    ensures
        prod(quot(w, q), quot(g, prod(pi, prod(e, e) + prod(g, g)))) == (w / q) * (g / (pi * (e
            * e + g * g))),
{
    lemma_prod(e, e);
    lemma_prod(g, g);
    let big = prod(e, e) + prod(g, g);
    lemma_prod(pi, big);
    lemma_quot(g, prod(pi, big));
    lemma_quot(w, q);
    lemma_prod(quot(w, q), quot(g, prod(pi, big)));
}

/// Where the Lorentzian half-width `gamma` is not negligible, a Voigt profile is
/// a mixture of Lorentzians of unit area with that half-width: the quadrature, by
/// nodes `t` and weights `w/sqrt(pi)`, of the Lorentzian at `x` that is shifted by
/// `sqrt(2) sigma t`.  So `sigma` is the standard deviation of the Gaussian that
/// mixes them.
pub proof fn law_voigt_is_a_mixture(
    m: Meaning<real>,
    nodes: Seq<(real, real)>,
    x: real,
    c: real,
    sigma: real,
    gamma: real,
    pi: real,
)
    requires
        exact(m),
        exact_roots(m),
        exact_profile(m, pi),
        sigma > 0real,
        gamma > 0real,
        gamma >= sigma * m.num(VOIGT_FLOOR_BITS),
    ensures
        voigt_value(m, nodes, x, c, sigma, gamma) == sum(
            |k: int|
                {
                    let d = x - c - m.num(SQRT_2_BITS) * sigma * nodes[k].0;
                    (nodes[k].1 / m.sqrt(pi)) * (gamma / (pi * (d * d + gamma * gamma)))
                },
            nodes.len() as int,
        ),
{
    let r2 = m.num(SQRT_2_BITS);
    let q = m.sqrt(pi);
    let v = voigt_value(m, nodes, x, c, sigma, gamma);
    lemma_mixture(m, nodes, x, c, sigma, gamma, pi);
    let n = nodes.len() as int;
    let p = |k: int| mixed(nodes, x - c, prod(sigma, r2), gamma, pi, q, k);
    let goal = |k: int|
        {
            let d = x - c - r2 * sigma * nodes[k].0;
            (nodes[k].1 / q) * (gamma / (pi * (d * d + gamma * gamma)))
        };
    assert forall|k: int| 0 <= k < n implies #[trigger] p(k) == goal(k) by {
        let (t, w) = nodes[k];
        let s = prod(sigma, r2);
        lemma_prod(s, t);
        lemma_swap(sigma, r2);
        lemma_prod(r2, sigma);
        lemma_written(w, q, gamma, pi, x - c - prod(s, t));
    }
    lemma_sum_same(p, goal, n);
}

/// A Lorentzian of the mixture.
spec fn mixed(
    nodes: Seq<(real, real)>,
    d: real,
    s: real,
    g: real,
    pi: real,
    q: real,
    k: int,
) -> real {
    let e = d - prod(s, nodes[k].0);
    prod(quot(nodes[k].1, q), quot(g, prod(pi, prod(e, e) + prod(g, g))))
}

proof fn lemma_mixture(
    m: Meaning<real>,
    nodes: Seq<(real, real)>,
    x: real,
    c: real,
    sigma: real,
    gamma: real,
    pi: real,
)
    requires
        exact(m),
        exact_roots(m),
        exact_profile(m, pi),
        sigma > 0real,
        gamma > 0real,
        gamma >= sigma * m.num(VOIGT_FLOOR_BITS),
    ensures
        voigt_value(m, nodes, x, c, sigma, gamma) == sum(
            |k: int| mixed(nodes, x - c, prod(sigma, m.num(SQRT_2_BITS)), gamma, pi, m.sqrt(pi), k),
            nodes.len() as int,
        ),
{
    let r2 = m.num(SQRT_2_BITS);
    let q = m.sqrt(pi);
    let root = m.sqrt(m.mul(m.num(TWO_BITS), m.num(PI_BITS)));
    lemma_roots(m, pi);
    let s = prod(sigma, r2);
    let span = prod(sigma, root);
    lemma_both_positive(sigma, r2);
    lemma_both_positive(sigma, root);
    lemma_voigt_unfolds(m, nodes, x, c, sigma, gamma, root, r2);
    let d = x - c;
    let re = quot(d, s);
    let im = quot(gamma, s);
    lemma_quot_positive(gamma, s);
    let n = nodes.len() as int;
    lemma_faddeeva(m, nodes, re, im, n);
    lemma_faddeeva_value(m, nodes, re, im, pi);
    let norm = quot(1real, span);
    lemma_undo(1real, span);
    lemma_group(sigma, r2, q);
    lemma_swap(s, q);
    let f = |j: int| real_term(nodes, re, im, j);
    let goal = |k: int| mixed(nodes, d, s, gamma, pi, q, k);
    lemma_terms(nodes, d, s, gamma, pi, q, norm, n);
    let total = sum(f, n);
    let ip = quot(1real, pi);
    lemma_group(total, ip, norm);
    lemma_swap(total, prod(ip, norm));
}

proof fn lemma_terms(
    nodes: Seq<(real, real)>,
    d: real,
    s: real,
    g: real,
    pi: real,
    q: real,
    norm: real,
    n: int,
)
    requires
        s > 0real,
        g > 0real,
        pi > 0real,
        q > 0real,
        prod(norm, prod(q, s)) == 1real,
    ensures
        sum(|k: int| mixed(nodes, d, s, g, pi, q, k), n) == prod(
            prod(quot(1real, pi), norm),
            sum(|j: int| real_term(nodes, quot(d, s), quot(g, s), j), n),
        ),
{
    let f = |j: int| real_term(nodes, quot(d, s), quot(g, s), j);
    let goal = |k: int| mixed(nodes, d, s, g, pi, q, k);
    let factor = prod(quot(1real, pi), norm);
    assert forall|k: int| 0 <= k < n implies #[trigger] goal(k) == factor * f(k) by {
        let (t, w) = nodes[k];
        let e = d - prod(s, t);
        let big = prod(e, e) + prod(g, g);
        let a = f(k);
        lemma_scaled_term(w, d, g, t, s);
        lemma_square_not_negative(e);
        lemma_both_positive(g, g);
        lemma_mixture_term(w, g, a, big, pi, q, s, norm);
        lemma_group(a, quot(1real, pi), norm);
        lemma_swap(a, factor);
        lemma_prod(factor, a);
    }
    lemma_sum_scale(factor, f, goal, n);
    lemma_prod(factor, sum(f, n));
}

proof fn lemma_half(a: real)
    ensures
        prod(-1real / 2real, a) == -a / 2real,
{
    lemma_prod(-1real / 2real, a);
    assert((-1real / 2real) * a == -a / 2real) by (nonlinear_arith);
}

/// Where the Lorentzian half-width is negligible, a Voigt profile is the Gaussian
/// of unit area with the standard deviation `sigma`, in closed form.
pub proof fn law_voigt_without_lorentz_part(
    m: Meaning<real>,
    nodes: Seq<(real, real)>,
    x: real,
    c: real,
    sigma: real,
    gamma: real,
    pi: real,
)
    requires
        exact(m),
        exact_roots(m),
        exact_profile(m, pi),
        sigma > 0real,
        gamma <= 0real || gamma < sigma * m.num(VOIGT_FLOOR_BITS),
    ensures
        voigt_value(m, nodes, x, c, sigma, gamma) * (sigma * m.sqrt(2real * pi)) == m.e(
            -(((x - c) / sigma) * ((x - c) / sigma)) / 2real,
        ),
{
    let root = m.sqrt(m.mul(m.num(TWO_BITS), m.num(PI_BITS)));
    lemma_roots(m, pi);
    let span = prod(sigma, root);
    lemma_both_positive(sigma, root);
    lemma_prod(sigma, root);
    let v = voigt_value(m, nodes, x, c, sigma, gamma);
    let u = quot(x - c, sigma);
    lemma_quot(x - c, sigma);
    let h = -1real / 2real;
    lemma_prod(h, u);
    lemma_prod(prod(h, u), u);
    lemma_group(h, u, u);
    lemma_prod(h, prod(u, u));
    lemma_prod(u, u);
    let e = m.e(-prod(u, u) / 2real);
    lemma_quot(1real, span);
    lemma_prod(quot(1real, span), e);
    lemma_half(prod(u, u));
    let y = m.mul(m.mul(m.num(MINUS_HALF_BITS), u), u);
    assert(y == prod(h, prod(u, u)));
    assert(y == -prod(u, u) / 2real);
    assert(m.sub(x, c) == x - c && m.div(x - c, sigma) == u);
    assert(v == m.mul(m.div(m.one(), m.mul(sigma, root)), m.e(y)));
    assert(v == prod(quot(1real, span), e));
    lemma_swap(quot(1real, span), e);
    lemma_undone(e, span);
    lemma_prod(v, span);
}

} // verus!
