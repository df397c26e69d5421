//! Laws of line shapes and of smoothing.

use crate::arithmetic::{exact, Meaning};
use crate::binary64::Binary64;
use crate::cholesky_laws::exact_roots;
use crate::model::{
    area, gauss_value, kernel, kernel_spread, lorentz_value, model_value, offset, peaks_value,
    seeds, smooth_value, value_sum, voigt_seeds, voigt_value, weight_sum, PeakKind, PeakSpec,
    AMPLITUDE_FLOOR_BITS, FOUR_BITS, LN_2_BITS, MINUS_FOUR_BITS, WIDTH_FLOOR_BITS,
};
use crate::products::{
    lemma_cross, lemma_group, lemma_one, lemma_prod, lemma_quot, lemma_share,
    lemma_square_not_negative, lemma_swap, lemma_undo, prod, quot,
};
use crate::quadrature::{PI_BITS, TWO_BITS};
use vstd::prelude::*;

verus! {

// ------------------------------------------------------------------- line shapes

/// The constants of the line shapes, and of the exponential function that it
/// is one at zero and that `ln 2` halves.
pub open spec fn exact_shapes(m: Meaning<real>) -> bool {
    &&& m.num(FOUR_BITS) == 4real
    &&& m.num(MINUS_FOUR_BITS) == -4real
    &&& m.e(0real) == 1real
    &&& m.e(-m.num(LN_2_BITS)) == 1real / 2real
}

/// The square of `(x-c)/w` where `x` is half a width from `c`.
proof fn lemma_half_width(t: real, w: real, d: real)
    requires
        w != 0real,
        t == d / w,
        2real * d == w || 2real * d == -w,
    ensures
        t * t == 1real / 4real,
{
    let a = 2real * t;
    assert(t * w == d) by (nonlinear_arith)
        requires
            w != 0real,
            t == d / w,
    ;
    if 2real * d == w {
        assert(t == 1real / 2real) by (nonlinear_arith)
            requires
                w != 0real,
                2real * (t * w) == w,
        ;
    } else {
        assert(t == -1real / 2real) by (nonlinear_arith)
            requires
                w != 0real,
                2real * (t * w) == -w,
        ;
    }
    assert(t * t == 1real / 4real) by (nonlinear_arith)
        requires
            t == 1real / 2real || t == -1real / 2real,
    ;
}

/// A Gaussian has the height `h` at its centre, and half of it half a width
/// away on either side: `w` is its full width at half maximum.
pub proof fn law_gauss_height_and_width(m: Meaning<real>, x: real, c: real, w: real, h: real)
    requires
        exact(m),
        exact_shapes(m),
        w != 0real,
    ensures
        gauss_value(m, c, c, w, h) == h,
        2real * (x - c) == w || 2real * (x - c) == -w ==> gauss_value(m, x, c, w, h) == h / 2real,
{
    let l = m.num(LN_2_BITS);
    let k = -4real * l;
    assert(0real / w == 0real) by (nonlinear_arith)
        requires
            w != 0real,
    ;
    assert((k * 0real) * 0real == 0real) by (nonlinear_arith);
    assert(c - c == 0real);
    assert(gauss_value(m, c, c, w, h) == h * m.e((k * (0real / w)) * (0real / w)));
    assert(h * 1real == h) by (nonlinear_arith);
    if 2real * (x - c) == w || 2real * (x - c) == -w {
        let t = (x - c) / w;
        lemma_half_width(t, w, x - c);
        assert((k * t) * t == k * (t * t)) by (nonlinear_arith);
        let f = t * t;
        assert(k * f == -l) by (nonlinear_arith)
            requires
                f == 1real / 4real,
                k == -4real * l,
        ;
        assert(gauss_value(m, x, c, w, h) == h * m.e((k * t) * t));
        assert(h * (1real / 2real) == h / 2real) by (nonlinear_arith);
    }
}

/// A Lorentzian has the height `h` at its centre, and half of it half a width
/// away on either side: `w` is its full width at half maximum.
pub proof fn law_lorentz_height_and_width(m: Meaning<real>, x: real, c: real, w: real, h: real)
    requires
        exact(m),
        exact_shapes(m),
        w != 0real,
    ensures
        lorentz_value(m, c, c, w, h) == h,
        2real * (x - c) == w || 2real * (x - c) == -w ==> lorentz_value(m, x, c, w, h) == h / 2real,
{
    assert(0real / w == 0real) by (nonlinear_arith)
        requires
            w != 0real,
    ;
    assert((4real * 0real) * 0real == 0real) by (nonlinear_arith);
    assert(c - c == 0real);
    let z = 0real / w;
    assert(lorentz_value(m, c, c, w, h) == h / (1real + (4real * z) * z));
    assert(h / 1real == h) by (nonlinear_arith);
    if 2real * (x - c) == w || 2real * (x - c) == -w {
        let t = (x - c) / w;
        lemma_half_width(t, w, x - c);
        assert((4real * t) * t == 4real * (t * t)) by (nonlinear_arith);
        assert(1real + (4real * t) * t == 2real);
        assert(lorentz_value(m, x, c, w, h) == h / (1real + (4real * t) * t));
    }
}

/// A Gaussian is `h exp(-4 ln2 ((x-c)/w)^2)`.
pub proof fn law_gauss_formula(m: Meaning<real>, x: real, c: real, w: real, h: real, ln2: real)
    requires
        exact(m),
        m.num(MINUS_FOUR_BITS) == -4real,
        m.num(LN_2_BITS) == ln2,
        w != 0real,
    ensures
        gauss_value(m, x, c, w, h) == h * m.e(-4real * ln2 * (((x - c) / w) * ((x - c) / w))),
{
    let t = (x - c) / w;
    let k = -4real * ln2;
    assert((k * t) * t == k * (t * t)) by (nonlinear_arith);
}

/// A Lorentzian is `h / (1 + 4 ((x-c)/w)^2)`: times `w^2 + 4 (x-c)^2` it is
/// `h w^2`.
pub proof fn law_lorentz_formula(m: Meaning<real>, x: real, c: real, w: real, h: real)
    requires
        exact(m),
        m.num(FOUR_BITS) == 4real,
        w != 0real,
    ensures
        lorentz_value(m, x, c, w, h) * (w * w + 4real * ((x - c) * (x - c))) == h * (w * w),
{
    lemma_lorentz_unfolds(m, x, c, w, h);
    let d = x - c;
    let v = lorentz_value(m, x, c, w, h);
    lemma_lorentz_product(d, w, h, v);
    lemma_prod(w, w);
    lemma_prod(d, d);
    lemma_prod(v, w * w + 4real * (d * d));
    lemma_prod(h, w * w);
}

proof fn lemma_lorentz_unfolds(m: Meaning<real>, x: real, c: real, w: real, h: real)
    requires
        exact(m),
        m.num(FOUR_BITS) == 4real,
        w != 0real,
    ensures
        lorentz_value(m, x, c, w, h) == quot(
            h,
            1real + 4real * prod(quot(x - c, w), quot(x - c, w)),
        ),
{
    let t = quot(x - c, w);
    lemma_quot(x - c, w);
    lemma_square_not_negative(t);
    lemma_prod(4real, t);
    lemma_prod(prod(4real, t), t);
    lemma_group(4real, t, t);
    lemma_prod(4real, prod(t, t));
    lemma_quot(h, 1real + 4real * prod(t, t));
}

proof fn lemma_lorentz_product(d: real, w: real, h: real, v: real)
    requires
        w != 0real,
        v == quot(h, 1real + 4real * prod(quot(d, w), quot(d, w))),
    ensures
        prod(v, prod(w, w) + 4real * prod(d, d)) == prod(h, prod(w, w)),
{
    let t = quot(d, w);
    let q = prod(t, t);
    let den = 1real + 4real * q;
    let s = prod(w, w);
    lemma_undo(d, w);
    lemma_cross(t, t, w, w);
    lemma_square_not_negative(t);
    lemma_share(1real, 4real * q, s);
    lemma_one(s);
    lemma_prod(4real, q);
    lemma_group(4real, q, s);
    lemma_prod(4real, prod(q, s));
    lemma_undo(h, den);
    lemma_group(v, den, s);
}

/// The areas of peaks: `h w sqrt(pi/(4 ln2))` of a Gaussian, `h w pi/2` of a
/// Lorentzian, and the last parameter of a Voigt profile.
pub proof fn law_areas(m: Meaning<real>, p: Seq<real>, off: int, pi: real, ln2: real)
    requires
        exact(m),
        m.num(FOUR_BITS) == 4real,
        m.num(TWO_BITS) == 2real,
        m.num(PI_BITS) == pi,
        m.num(LN_2_BITS) == ln2,
        ln2 > 0real,
    ensures
        area(m, PeakKind::Gauss, p, off) == p[off + 1] * p[off + 2] * m.sqrt(pi / (4real * ln2)),
        2real * area(m, PeakKind::Lorentz, p, off) == p[off + 1] * p[off + 2] * pi,
        area(m, PeakKind::Voigt, p, off) == p[off + 3],
{
    let w = p[off + 1];
    let h = p[off + 2];
    lemma_prod(w, h);
    lemma_prod(h, w);
    lemma_swap(w, h);
    lemma_prod(prod(w, h), pi);
    lemma_undo(prod(prod(w, h), pi), 2real);
    lemma_quot(prod(prod(w, h), pi), 2real);
}

/// The widths that a Voigt profile starts with: its Gaussian and its Lorentzian
/// part have the same full width `w` at half maximum each, which is
/// `2 sqrt(2 ln2) sigma` of the one and `2 gamma` of the other.
pub proof fn law_voigt_seeds(m: Meaning<real>, w: real, ln2: real)
    requires
        exact(m),
        exact_roots(m),
        m.num(TWO_BITS) == 2real,
        m.num(LN_2_BITS) == ln2,
        ln2 > 0real,
    ensures
        voigt_seeds(m, w).0 * (2real * m.sqrt(2real * ln2)) == w,
        2real * voigt_seeds(m, w).1 == w,
{
    let r = m.sqrt(2real * ln2);
    assert(r > 0real);
    lemma_undo(w, 2real * r);
    lemma_quot(w, 2real * r);
    lemma_prod(quot(w, 2real * r), 2real * r);
    lemma_undo(w, 2real);
    lemma_quot(w, 2real);
}

/// What a candidate starts with: its centre as it is given, its width and the area
/// of a Voigt profile as they are given but for a floor, and the height of another
/// peak as it is given.
pub proof fn law_candidate_starts_where_it_is_put(m: Meaning<Binary64>, s: PeakSpec)
    ensures
        ({
            let p = seeds(m, s);
            let w = s.width0.larger(Binary64 { bits: WIDTH_FLOOR_BITS });
            &&& p[0] == s.center0
            &&& s.kind is Voigt ==> {
                &&& p.len() == 4
                &&& (p[1], p[2]) == voigt_seeds(m, w)
                &&& p[3] == s.amp0.larger(Binary64 { bits: AMPLITUDE_FLOOR_BITS })
            }
            &&& !(s.kind is Voigt) ==> {
                &&& p.len() == 3
                &&& p[1] == w
                &&& p[2] == s.amp0
            }
        }),
{
}

// ------------------------------------------------------------------ sums of peaks

/// The model is the sum of its peaks, each with its own parameters: centre, width
/// and height of a Gaussian or a Lorentzian, and centre, the two widths and the
/// area of a Voigt profile, which scales the profile of unit area.  The parameters
/// of a peak stand behind those of the peaks before it.
pub proof fn law_last_peak_is_added(
    m: Meaning<real>,
    nodes: Seq<(real, real)>,
    x: real,
    kinds: Seq<PeakKind>,
    p: Seq<real>,
)
    requires
        exact(m),
        kinds.len() > 0,
        p.len() == 3 * kinds.len() + kinds.filter(|k: PeakKind| k is Voigt).len(),
    ensures
        ({
            let e = p.len() as int;
            let n = if kinds.last() is Voigt {
                4int
            } else {
                3int
            };
            let less = model_value(m, nodes, x, kinds.drop_last(), p.take(e - n));
            model_value(m, nodes, x, kinds, p) == less + match kinds.last() {
                PeakKind::Gauss => gauss_value(m, x, p[e - 3], p[e - 2], p[e - 1]),
                PeakKind::Lorentz => lorentz_value(m, x, p[e - 3], p[e - 2], p[e - 1]),
                PeakKind::Voigt => p[e - 1] * voigt_value(
                    m,
                    nodes,
                    x,
                    p[e - 4],
                    m.max(p[e - 3], m.num(WIDTH_FLOOR_BITS)),
                    m.max(p[e - 2], 0real),
                ),
            }
        }),
        model_value(m, nodes, x, Seq::empty(), p) == 0real,
{
    let n = kinds.len() as int;
    lemma_offset_counts(kinds, n);
    assert(kinds.take(n) =~= kinds);
    let e = p.len() as int;
    let off = offset(kinds, n - 1) as int;
    let less = kinds.drop_last();
    lemma_peaks_before(m, nodes, x, kinds, less, p, p.take(off), n - 1);
}

proof fn lemma_offset_counts(kinds: Seq<PeakKind>, k: int)
    requires
        0 <= k <= kinds.len(),
    ensures
        offset(kinds, k) == 3 * k + kinds.take(k).filter(|k: PeakKind| k is Voigt).len(),
    decreases k,
{
    reveal(Seq::filter);
    if k > 0 {
        lemma_offset_counts(kinds, k - 1);
        assert(kinds.take(k).drop_last() =~= kinds.take(k - 1));
    }
}

proof fn lemma_peaks_before(
    m: Meaning<real>,
    nodes: Seq<(real, real)>,
    x: real,
    kinds: Seq<PeakKind>,
    less: Seq<PeakKind>,
    p: Seq<real>,
    q: Seq<real>,
    k: int,
)
    requires
        0 <= k <= less.len() <= kinds.len(),
        forall|i: int| 0 <= i < less.len() ==> #[trigger] less[i] == kinds[i],
        offset(kinds, k) <= q.len() <= p.len(),
        forall|i: int| 0 <= i < q.len() ==> #[trigger] q[i] == p[i],
    ensures
        offset(less, k) == offset(kinds, k),
        peaks_value(m, nodes, x, less, q, k) == peaks_value(m, nodes, x, kinds, p, k),
    decreases k,
{
    if k > 0 {
        lemma_peaks_before(m, nodes, x, kinds, less, p, q, k - 1);
        let off = offset(kinds, k - 1) as int;
        assert(less[k - 1] == kinds[k - 1]);
        assert(q[off] == p[off] && q[off + 1] == p[off + 1] && q[off + 2] == p[off + 2]);
        if kinds[k - 1] is Voigt {
            assert(q[off + 3] == p[off + 3]);
        }
    }
}

// --------------------------------------------------------------------- smoothing

/// Smoothing does not use the values of excluded points.
pub proof fn law_smoothing_ignores_excluded_points<T>(
    m: Meaning<T>,
    xs: Seq<T>,
    ys: Seq<T>,
    zs: Seq<T>,
    mask: Seq<bool>,
    sigma: T,
    i: int,
)
    requires
        forall|k: int| 0 <= k < xs.len() && !mask[k] ==> #[trigger] ys[k] == #[trigger] zs[k],
    ensures
        smooth_value(m, xs, ys, mask, sigma, i) == smooth_value(m, xs, zs, mask, sigma, i),
{
    lemma_same_value_sum(m, xs, ys, zs, mask, kernel_spread(m, sigma), i, xs.len() as int);
}

proof fn lemma_same_value_sum<T>(
    m: Meaning<T>,
    xs: Seq<T>,
    ys: Seq<T>,
    zs: Seq<T>,
    mask: Seq<bool>,
    spread: T,
    i: int,
    k: int,
)
    requires
        0 <= k <= xs.len(),
        forall|l: int| 0 <= l < xs.len() && !mask[l] ==> #[trigger] ys[l] == #[trigger] zs[l],
    ensures
        value_sum(m, xs, ys, mask, spread, i, k) == value_sum(m, xs, zs, mask, spread, i, k),
    decreases k,
{
    if k > 0 {
        lemma_same_value_sum(m, xs, ys, zs, mask, spread, i, k - 1);
        if !mask[k - 1] {
            assert(ys[k - 1] == zs[k - 1]);
        }
    }
}

/// The exponential function has no zero and no negative value.
pub open spec fn positive_exp(m: Meaning<real>) -> bool {
    forall|a: real| #[trigger] (m.exp)(a) > 0real
}

proof fn lemma_weighted_between(
    m: Meaning<real>,
    xs: Seq<real>,
    ys: Seq<real>,
    mask: Seq<bool>,
    spread: real,
    i: int,
    lo: real,
    hi: real,
    k: int,
)
    requires
        exact(m),
        positive_exp(m),
        0 <= k <= xs.len(),
        forall|l: int| 0 <= l < xs.len() && !mask[l] ==> lo <= #[trigger] ys[l] <= hi,
    ensures
        ({
            let w = weight_sum(m, xs, mask, spread, i, k);
            let v = value_sum(m, xs, ys, mask, spread, i, k);
            &&& w >= 0real
            &&& (exists|l: int| 0 <= l < k && !#[trigger] mask[l]) ==> w > 0real
            &&& lo * w <= v <= hi * w
        }),
    decreases k,
{
    if k > 0 {
        lemma_weighted_between(m, xs, ys, mask, spread, i, lo, hi, k - 1);
        let w = weight_sum(m, xs, mask, spread, i, k - 1);
        let v = value_sum(m, xs, ys, mask, spread, i, k - 1);
        if !mask[k - 1] {
            let e = kernel(m, m.sub(xs[k - 1], xs[i]), spread);
            let y = ys[k - 1];
            assert(e > 0real);
            assert(lo * (w + e) <= v + e * y) by (nonlinear_arith)
                requires
                    lo * w <= v,
                    lo <= y,
                    e > 0real,
            ;
            assert(v + e * y <= hi * (w + e)) by (nonlinear_arith)
                requires
                    v <= hi * w,
                    y <= hi,
                    e > 0real,
            ;
        } else {
            assert((exists|l: int| 0 <= l < k && !#[trigger] mask[l]) ==> exists|l: int|
                0 <= l < k - 1 && !#[trigger] mask[l]);
        }
    } else {
        assert(lo * 0real == 0real && hi * 0real == 0real) by (nonlinear_arith);
    }
}

/// Over the real numbers, a smoothed value lies between any two bounds that the
/// values of the points that are not excluded lie between; a constant curve is
/// smoothed to itself.
pub proof fn law_smoothing_stays_in_bounds(
    m: Meaning<real>,
    xs: Seq<real>,
    ys: Seq<real>,
    mask: Seq<bool>,
    sigma: real,
    i: int,
    lo: real,
    hi: real,
)
    requires
        exact(m),
        positive_exp(m),
        0 <= i < xs.len(),
        !mask[i],
        forall|l: int| 0 <= l < xs.len() && !mask[l] ==> lo <= #[trigger] ys[l] <= hi,
    ensures
        lo <= smooth_value(m, xs, ys, mask, sigma, i) <= hi,
{
    let spread = kernel_spread(m, sigma);
    let n = xs.len() as int;
    lemma_weighted_between(m, xs, ys, mask, spread, i, lo, hi, n);
    let w = weight_sum(m, xs, mask, spread, i, n);
    let v = value_sum(m, xs, ys, mask, spread, i, n);
    assert(w > 0real);
    assert(lo <= v / w <= hi) by (nonlinear_arith)
        requires
            w > 0real,
            lo * w <= v <= hi * w,
    ;
}

} // verus!
