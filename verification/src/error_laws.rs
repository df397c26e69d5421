//! Laws of the quality measures and of the uncertainties that a fit reports.

use crate::arithmetic::{exact, Meaning};
use crate::binary64::Binary64;
use crate::cholesky_laws::{exact_roots, lemma_row_sum_is};
use crate::fit::{Ending, Task, FD_EPS_BITS};
use crate::linalg::{at, lemma_at};
use crate::linalg_laws::{row_sum, singular, solves, zero_vector};
use crate::model::{area, offset, voigt_value, PeakKind, LN_2_BITS, NAN_BITS, WIDTH_FLOOR_BITS};
use crate::products::{
    lemma_both_positive, lemma_cross, lemma_group, lemma_prod, lemma_quot, lemma_square_not_negative,
    lemma_undo, prod, quot,
};
use crate::quadrature::TWO_BITS;
use crate::report::{
    aic, area_error, area_gradient, bic, correlation, covariance, freedom, quadratic, rmse, variance,
    voigt_width, FitReport, T95_BITS, WIDTH_A_BITS, WIDTH_B_BITS,
};
use crate::report_laws::{column_of, law_covariance_is_scaled_inverse};
use crate::sums::{
    inner, lemma_sum_add, lemma_sum_one, lemma_sum_same, lemma_sum_scale, lemma_sum_swap, outer, sum,
};
use vstd::prelude::*;

verus! {

// ------------------------------------------------------------- areas by the delta method

/// A term of `g^T cov g`.
spec fn cell(g: Seq<real>, cov: Seq<real>, n: nat, a: int, b: int) -> real {
    g[a] * g[b] * cov[at(n, a, b)]
}

proof fn lemma_quadratic_step(m: Meaning<real>, g: Seq<real>, cov: Seq<real>, n: nat, a: int, b: int)
    requires
        exact(m),
        0 <= a < n,
        0 <= b < n,
    ensures
        quadratic(m, g, cov, n, at(n, a, b) + 1) == quadratic(m, g, cov, n, at(n, a, b)) + cell(
            g,
            cov,
            n,
            a,
            b,
        ),
{
    lemma_at(n, a, b);
}

/// The part of a row of terms that is added to the rows before it.
proof fn lemma_quadratic_row(m: Meaning<real>, g: Seq<real>, cov: Seq<real>, n: nat, a: int, b: int)
    requires
        exact(m),
        0 <= a < n,
        0 <= b <= n,
    ensures
        quadratic(m, g, cov, n, at(n, a, 0) + b) == quadratic(m, g, cov, n, at(n, a, 0)) + sum(
            |j: int| cell(g, cov, n, a, j),
            b,
        ),
    decreases b,
{
    if b > 0 {
        lemma_quadratic_row(m, g, cov, n, a, b - 1);
        lemma_quadratic_step(m, g, cov, n, a, b - 1);
        assert(at(n, a, b - 1) == at(n, a, 0) + b - 1);
    }
}

proof fn lemma_quadratic_rows(m: Meaning<real>, g: Seq<real>, cov: Seq<real>, n: nat, a: int)
    requires
        exact(m),
        0 <= a <= n,
    ensures
        quadratic(m, g, cov, n, a * n) == sum(
            |i: int| sum(|j: int| cell(g, cov, n, i, j), n as int),
            a,
        ),
    decreases a,
{
    if a > 0 {
        lemma_quadratic_rows(m, g, cov, n, a - 1);
        lemma_quadratic_row(m, g, cov, n, a - 1, n as int);
        assert((a - 1) * n + n == a * n) by (nonlinear_arith);
    } else {
        assert(a * n == 0) by (nonlinear_arith)
            requires
                a == 0,
        ;
    }
}

/// The variance of an area is the whole double sum over `a` and `b` of
/// `g[a] g[b] cov[a, b]`, and the standard error is its root.
pub proof fn law_area_variance_is_the_double_sum(
    m: Meaning<real>,
    t: Task<real>,
    q: Seq<real>,
    cov: Seq<real>,
    k: int,
)
    requires
        exact(m),
        exact_roots(m),
    ensures
        ({
            let n = t.plan.free();
            let g = area_gradient(m, t, q, k);
            let v = sum(
                |a: int| sum(|b: int| g[a] * g[b] * cov[a * n + b], n as int),
                n as int,
            );
            let se = area_error(m, t, q, cov, k);
            &&& v > 0real ==> se > 0real && se * se == v
            &&& v <= 0real ==> se == m.sqrt(0real)
        }),
{
    let n = t.plan.free();
    let g = area_gradient(m, t, q, k);
    let nn = n as int;
    lemma_quadratic_rows(m, g, cov, n, nn);
    let f = |a: int| sum(|b: int| g[a] * g[b] * cov[a * n + b], nn);
    let h = |i: int| sum(|j: int| cell(g, cov, n, i, j), nn);
    assert forall|a: int| 0 <= a < nn implies #[trigger] f(a) == h(a) by {
        let u = |b: int| g[a] * g[b] * cov[a * n + b];
        let v = |j: int| cell(g, cov, n, a, j);
        assert forall|b: int| 0 <= b < nn implies #[trigger] u(b) == v(b) by {}
        lemma_sum_same(u, v, nn);
    }
    lemma_sum_same(f, h, nn);
    assert((n * n) as int == nn * nn);
    let v = sum(f, nn);
    assert(quadratic(m, g, cov, n, nn * nn) == v);
    let se = area_error(m, t, q, cov, k);
    assert(se == m.sqrt(if v < 0real {
        0real
    } else {
        v
    }));
}

/// The covariance times a gradient `g`.
spec fn image(cov: Seq<real>, n: nat, g: Seq<real>) -> Seq<real> {
    Seq::new(n, |i: int| sum(|j: int| cov[at(n, i, j)] * g[j], n as int))
}

/// The normal matrix takes the covariance times `g` to `s2` times `g`.
proof fn lemma_image(m: Meaning<real>, jtj: Seq<real>, n: nat, s2: real, g: Seq<real>, i: int)
    requires
        exact(m),
        jtj.len() == n * n,
        !singular(jtj, n),
        0 <= i < n,
    ensures
        row_sum(jtj, n, i, image(covariance(m, jtj, n, s2), n, g), n as int) == s2 * g[i],
{
    let nn = n as int;
    let cov = covariance(m, jtj, n, s2);
    let y = image(cov, n, g);
    let f = |k: int, j: int| jtj[at(n, i, k)] * (cov[at(n, k, j)] * g[j]);
    lemma_row_sum_is(jtj, n, i, y, nn);
    let rows = |k: int| jtj[at(n, i, k)] * y[k];
    assert forall|k: int| 0 <= k < nn implies #[trigger] inner(f, nn)(k) == rows(k) by {
        let t = |j: int| cov[at(n, k, j)] * g[j];
        let u = |j: int| f(k, j);
        lemma_sum_scale(jtj[at(n, i, k)], t, u, nn);
    }
    lemma_sum_same(inner(f, nn), rows, nn);
    lemma_sum_swap(f, nn, nn);
    let e = |j: int|
        if j == i {
            s2 * g[i]
        } else {
            0real
        };
    assert forall|j: int| 0 <= j < nn implies #[trigger] outer(f, nn)(j) == e(j) by {
        let c = column_of(cov, n, j);
        law_covariance_is_scaled_inverse(m, jtj, n, s2, i, j);
        lemma_row_sum_is(jtj, n, i, c, nn);
        let t = |k: int| jtj[at(n, i, k)] * c[k];
        let u = |k: int| f(k, j);
        assert forall|k: int| 0 <= k < nn implies #[trigger] u(k) == g[j] * t(k) by {
            lemma_move(jtj[at(n, i, k)], cov[at(n, k, j)], g[j]);
        }
        lemma_sum_scale(g[j], t, u, nn);
        lemma_times(g[j], s2);
    }
    lemma_sum_same(outer(f, nn), e, nn);
    lemma_sum_one(e, i, nn);
}

proof fn lemma_move(a: real, c: real, g: real)
    ensures
        a * (c * g) == g * (a * c),
{
    assert(a * (c * g) == g * (a * c)) by (nonlinear_arith);
}

proof fn lemma_times(g: real, s: real)
    ensures
        g * s == s * g,
        g * 0real == 0real,
{
    assert(g * s == s * g) by (nonlinear_arith);
    assert(g * 0real == 0real) by (nonlinear_arith);
}

proof fn lemma_difference(a: real, y: real, s: real, z: real)
    ensures
        a * (y - s * z) == a * y + -s * (a * z),
{
    let u = s * z;
    assert(a * (y - u) == a * y - a * u) by (nonlinear_arith);
    assert(a * u == s * (a * z)) by (nonlinear_arith)
        requires
            u == s * z,
    ;
    let v = a * z;
    assert(-s * v == -(s * v)) by (nonlinear_arith);
}

/// The covariance times `g` is `s2` times the vector that the normal matrix takes
/// to `g`.
proof fn lemma_image_is(
    m: Meaning<real>,
    jtj: Seq<real>,
    n: nat,
    s2: real,
    g: Seq<real>,
    z: Seq<real>,
)
    requires
        exact(m),
        jtj.len() == n * n,
        !singular(jtj, n),
        z.len() == n,
        forall|a: int| 0 <= a < n ==> #[trigger] g[a] == row_sum(jtj, n, a, z, n as int),
    ensures
        forall|i: int|
            0 <= i < n ==> #[trigger] image(covariance(m, jtj, n, s2), n, g)[i] == s2 * z[i],
{
    let nn = n as int;
    let y = image(covariance(m, jtj, n, s2), n, g);
    let w = Seq::new(n, |i: int| y[i] - s2 * z[i]);
    assert forall|i: int| 0 <= i < n implies #[trigger] row_sum(jtj, n, i, w, nn) == zero_vector(
        n,
    )[i] by {
        lemma_image(m, jtj, n, s2, g, i);
        lemma_row_sum_is(jtj, n, i, w, nn);
        lemma_row_sum_is(jtj, n, i, y, nn);
        lemma_row_sum_is(jtj, n, i, z, nn);
        let fy = |j: int| jtj[at(n, i, j)] * y[j];
        let fz = |j: int| jtj[at(n, i, j)] * z[j];
        let fs = |j: int| -s2 * fz(j);
        let fw = |j: int| jtj[at(n, i, j)] * w[j];
        assert forall|j: int| 0 <= j < nn implies #[trigger] fw(j) == fy(j) + fs(j) by {
            lemma_difference(jtj[at(n, i, j)], y[j], s2, z[j]);
        }
        lemma_sum_add(fy, fs, fw, nn);
        lemma_sum_scale(-s2, fz, fs, nn);
        let t = g[i];
        assert(s2 * t + -s2 * t == 0real) by (nonlinear_arith);
    }
    assert(solves(jtj, zero_vector(n), n, w));
    assert(w == zero_vector(n));
    assert forall|i: int| 0 <= i < n implies #[trigger] y[i] == s2 * z[i] by {
        assert(w[i] == zero_vector(n)[i]);
    }
}

/// With the covariance of the fit the variance of an area is `s2` times
/// `g^T (J^T J)^-1 g`: where the gradient `g` is `J^T J` times `z`, it is `s2` times
/// the sum of `g[a] z[a]`.
pub proof fn law_area_variance_by_the_inverse(
    m: Meaning<real>,
    jtj: Seq<real>,
    n: nat,
    s2: real,
    g: Seq<real>,
    z: Seq<real>,
)
    requires
        exact(m),
        jtj.len() == n * n,
        !singular(jtj, n),
        z.len() == n,
        forall|a: int| 0 <= a < n ==> #[trigger] g[a] == row_sum(jtj, n, a, z, n as int),
    ensures
        quadratic(m, g, covariance(m, jtj, n, s2), n, (n * n) as int) == s2 * sum(
            |a: int| g[a] * z[a],
            n as int,
        ),
{
    let nn = n as int;
    let cov = covariance(m, jtj, n, s2);
    let y = image(cov, n, g);
    lemma_quadratic_rows(m, g, cov, n, nn);
    lemma_image_is(m, jtj, n, s2, g, z);
    let h = |i: int| sum(|j: int| cell(g, cov, n, i, j), nn);
    let t = |a: int| g[a] * z[a];
    assert forall|i: int| 0 <= i < nn implies #[trigger] h(i) == s2 * t(i) by {
        let u = |j: int| cov[at(n, i, j)] * g[j];
        let v = |j: int| cell(g, cov, n, i, j);
        assert forall|j: int| 0 <= j < nn implies #[trigger] v(j) == g[i] * u(j) by {
            lemma_turn(g[i], g[j], cov[at(n, i, j)]);
        }
        lemma_sum_scale(g[i], u, v, nn);
        assert(y[i] == s2 * z[i]);
        lemma_swap_first(g[i], s2, z[i]);
    }
    lemma_sum_scale(s2, t, h, nn);
    assert((n * n) as int == nn * nn);
}

proof fn lemma_turn(a: real, b: real, c: real)
    ensures
        a * b * c == a * (c * b),
{
    assert(a * b * c == a * (c * b)) by (nonlinear_arith);
}

proof fn lemma_swap_first(a: real, b: real, c: real)
    ensures
        a * (b * c) == b * (a * c),
{
    assert(a * (b * c) == b * (a * c)) by (nonlinear_arith);
}

/// The gradient of an area is taken by central differences: times twice the step
/// it is the rise of the area from a step below to a step above, where the step is
/// the part `eps` of the free parameter, and of one at least.
pub proof fn law_area_gradient_is_central(
    m: Meaning<real>,
    t: Task<real>,
    q: Seq<real>,
    k: int,
    f: int,
    eps: real,
)
    requires
        exact(m),
        m.num(FD_EPS_BITS) == eps,
        m.num(TWO_BITS) == 2real,
        eps > 0real,
        0 <= f < t.plan.free(),
    ensures
        ({
            let size = if q[f] > 1real {
                q[f]
            } else if q[f] < -1real {
                -q[f]
            } else {
                1real
            };
            let h = eps * size;
            let kind = t.plan.kinds[k];
            let off = offset(t.plan.kinds, k) as int;
            area_gradient(m, t, q, k)[f] * (2real * h) == area(
                m,
                kind,
                t.plan.full(m, q.update(f, q[f] + h)),
                off,
            ) - area(m, kind, t.plan.full(m, q.update(f, q[f] - h)), off)
        }),
{
    let size = if q[f] > 1real {
        q[f]
    } else if q[f] < -1real {
        -q[f]
    } else {
        1real
    };
    lemma_both_positive(eps, size);
    lemma_prod(eps, size);
    let h = eps * size;
    assert(m.max(m.one(), m.abs(q[f])) == size);
    assert(crate::fit::reach(m, q[f]) == h);
    let kind = t.plan.kinds[k];
    let off = offset(t.plan.kinds, k) as int;
    let hi = area(m, kind, t.plan.full(m, q.update(f, q[f] + h)), off);
    let lo = area(m, kind, t.plan.full(m, q.update(f, q[f] - h)), off);
    assert(q[f] + -h == q[f] - h);
    lemma_slope(hi, lo, h);
}

/// A difference quotient times its denominator.
proof fn lemma_slope(hi: real, lo: real, h: real)
    requires
        h > 0real,
    ensures
        ((hi - lo) / (2real * h)) * (2real * h) == hi - lo,
{
    let d = 2real * h;
    lemma_undo(hi - lo, d);
    lemma_quot(hi - lo, d);
    lemma_prod(quot(hi - lo, d), d);
}

// ------------------------------------------------------------------ quality measures

/// The root of the mean square: its square times the number of points is
/// chi-square.
pub proof fn law_rmse(m: Meaning<real>, chi: real, n: nat)
    requires
        exact(m),
        exact_roots(m),
        n > 0,
        chi > 0real,
    ensures
        rmse(m, chi, n) > 0real,
        rmse(m, chi, n) * rmse(m, chi, n) * (n as real) == chi,
{
    let c = n as real;
    lemma_quot(chi, c);
    crate::products::lemma_quot_positive(chi, c);
    lemma_undo(chi, c);
    let q = quot(chi, c);
    lemma_prod(q, c);
    let r = rmse(m, chi, n);
    assert(r == m.sqrt(q));
    assert(r * r == q);
}

/// The information criteria: `n ln(chi/n) + 2k`, and `n ln(chi/n) + k ln n`.
/// Without points, or without misfit, there are none.
pub proof fn law_information_criteria(m: Meaning<real>, chi: real, n: nat, k: nat)
    requires
        exact(m),
        m.num(TWO_BITS) == 2real,
    ensures
        n > 0 && chi > 0real ==> {
            let spread = n as real * m.log(chi / (n as real));
            &&& aic(m, chi, n, k) == spread + 2real * (k as real)
            &&& bic(m, chi, n, k) == spread + k as real * m.log(n as real)
        },
        n == 0 || chi <= 0real ==> aic(m, chi, n, k) == m.num(NAN_BITS) && bic(m, chi, n, k)
            == m.num(NAN_BITS),
{
}

/// The degrees of freedom are the points less the free parameters, and the variance
/// of one observation is chi-square over them.
pub proof fn law_variance_of_an_observation(m: Meaning<real>, chi: real, n: nat, k: nat)
    requires
        exact(m),
    ensures
        n >= k ==> freedom(n, k) + k == n,
        n < k ==> freedom(n, k) == 0,
        n > k ==> variance(m, chi, freedom(n, k)) * (n - k) as real == chi,
{
    if n > k {
        let c = (n - k) as real;
        lemma_quot(chi, c);
        lemma_undo(chi, c);
        lemma_prod(quot(chi, c), c);
    }
}

/// A correlation is the covariance over both deviations: times the roots of the two
/// variances it is the covariance.
pub proof fn law_correlation_is_scaled_covariance(
    m: Meaning<real>,
    cov: Seq<real>,
    n: nat,
    a: int,
    b: int,
)
    requires
        exact(m),
        exact_roots(m),
        0 <= a < n,
        0 <= b < n,
        cov.len() == n * n,
        cov[a * n + a] > 0real,
        cov[b * n + b] > 0real,
    ensures
        correlation(m, cov, n)[a * n + b] * (m.sqrt(cov[a * n + a]) * m.sqrt(cov[b * n + b]))
            == cov[a * n + b],
{
    lemma_at(n, a, b);
    lemma_at(n, a, a);
    lemma_at(n, b, b);
    let da = m.sqrt(cov[a * n + a]);
    let db = m.sqrt(cov[b * n + b]);
    assert(da > 0real && db > 0real);
    lemma_both_positive(da, db);
    lemma_prod(da, db);
    let v = cov[a * n + b];
    lemma_quot(v, prod(da, db));
    lemma_undo(v, prod(da, db));
    lemma_prod(quot(v, prod(da, db)), prod(da, db));
}

// ---------------------------------------------------------------------- single peaks

/// The full width of a Voigt profile: beyond the part `a` of the Lorentzian full
/// width `2 gamma` it is the root of the part `b` of the square of that width and
/// of the square of the Gaussian full width, which is `8 ln2 sigma^2`.
pub proof fn law_voigt_width(
    m: Meaning<real>,
    sigma: real,
    gamma: real,
    a: real,
    b: real,
    ln2: real,
)
    requires
        exact(m),
        exact_roots(m),
        m.num(TWO_BITS) == 2real,
        m.num(LN_2_BITS) == ln2,
        m.num(WIDTH_A_BITS) == a,
        m.num(WIDTH_B_BITS) == b,
        ln2 > 0real,
        sigma > 0real,
        b >= 0real,
    ensures
        ({
            let rest = voigt_width(m, sigma, gamma) - a * (2real * gamma);
            &&& rest > 0real
            &&& rest * rest == b * ((2real * gamma) * (2real * gamma)) + 8real * ln2 * (sigma
                * sigma)
        }),
{
    let l = 2real * gamma;
    let r = m.sqrt(2real * ln2);
    assert(r > 0real && r * r == 2real * ln2);
    let g = prod(2real * r, sigma);
    lemma_prod(2real * r, sigma);
    lemma_gauss_width(r, sigma, ln2);
    let ll = prod(l, l);
    lemma_square_not_negative(l);
    lemma_prod(l, l);
    lemma_prod(b, l);
    lemma_prod(prod(b, l), l);
    lemma_group(b, l, l);
    lemma_prod(b, ll);
    lemma_not_negative(b, ll);
    let gg = prod(g, g);
    lemma_prod(g, g);
    lemma_both_positive(sigma, sigma);
    lemma_prod(sigma, sigma);
    let inner = prod(b, ll) + gg;
    assert(inner == m.add(m.mul(m.mul(m.num(WIDTH_B_BITS), l), l), m.mul(g, g)));
    assert(m.sqrt(inner) > 0real && m.sqrt(inner) * m.sqrt(inner) == inner);
    assert(voigt_width(m, sigma, gamma) == a * l + m.sqrt(inner));
}

proof fn lemma_not_negative(a: real, b: real)
    requires
        a >= 0real,
        b >= 0real,
    ensures
        prod(a, b) >= 0real,
{
    lemma_prod(a, b);
    assert(a * b >= 0real) by (nonlinear_arith)
        requires
            a >= 0real,
            b >= 0real,
    ;
}

/// The square of the Gaussian full width.
proof fn lemma_gauss_width(r: real, sigma: real, ln2: real)
    requires
        r * r == 2real * ln2,
        ln2 > 0real,
        sigma > 0real,
    ensures
        prod(prod(2real * r, sigma), prod(2real * r, sigma)) == 8real * ln2 * (sigma * sigma),
        prod(prod(2real * r, sigma), prod(2real * r, sigma)) > 0real,
{
    let e = 2real * r;
    lemma_cross(e, sigma, e, sigma);
    lemma_prod(e, e);
    assert((2real * r) * (2real * r) == 4real * (r * r)) by (nonlinear_arith);
    assert(prod(e, e) == 8real * ln2);
    lemma_prod(sigma, sigma);
    lemma_prod(8real * ln2, prod(sigma, sigma));
    lemma_both_positive(sigma, sigma);
    lemma_both_positive(8real * ln2, prod(sigma, sigma));
}

/// What is reported of a peak.  Centre, width and height of a Gaussian or a
/// Lorentzian are its parameters, and so are centre, the two widths and the area of
/// a Voigt profile, whose height is its area times the profile at its centre.  The
/// interval reaches equally far to both sides of the area, by the factor of a 95%
/// interval times the standard error.
pub proof fn law_reported_peak(
    m: Meaning<Binary64>,
    t: Task<Binary64>,
    e: Ending<Binary64>,
    rep: FitReport,
    k: int,
)
    requires
        rep.tells(m, t, e),
        0 <= k < t.plan.kinds.len(),
    ensures
        ({
            let r = rep.peaks@[k];
            let p = rep.params@;
            let off = offset(rep.kinds@, k) as int;
            let reach = m.mul(m.num(T95_BITS), r.area_se);
            &&& rep.peaks@.len() == rep.kinds@.len()
            &&& r.kind == rep.kinds@[k]
            &&& r.center == p[off]
            &&& r.area == area(m, r.kind, p, off)
            &&& r.area_ci95 == (m.sub(r.area, reach), m.add(r.area, reach))
            &&& r.kind is Voigt ==> {
                &&& r.sigma == Some(p[off + 1])
                &&& r.gamma == Some(p[off + 2])
                &&& r.area == p[off + 3]
                &&& r.width == voigt_width(m, p[off + 1], p[off + 2])
                &&& r.height == m.mul(
                    r.area,
                    voigt_value(
                        m,
                        t.nodes,
                        r.center,
                        r.center,
                        m.max(p[off + 1], m.num(WIDTH_FLOOR_BITS)),
                        p[off + 2],
                    ),
                )
            }
            &&& !(r.kind is Voigt) ==> {
                &&& r.sigma is None
                &&& r.gamma is None
                &&& r.width == p[off + 1]
                &&& r.height == p[off + 2]
            }
        }),
{
    let kind = t.plan.kinds[k];
    assert(rep.peaks@[k].kind == kind);
    assert(kind is Voigt || kind is Gauss || kind is Lorentz);
    assert(PeakKind::Voigt is Voigt);
}

} // verus!
