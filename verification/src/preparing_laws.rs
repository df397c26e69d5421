//! Laws of what happens to points before and around a fit: exclusion, baseline and
//! smoothing.

use crate::arithmetic::{exact, Meaning};
use crate::binary64::Binary64;
use crate::cholesky_laws::exact_roots;
use crate::data::{lemma_places, places};
use crate::iteration_laws::law_reported_curve;
use crate::least_squares::{
    exact_powers, law_polyfit_is_best, lemma_poly_value, misfit, polynomial,
};
use crate::linalg::polyfit;
use crate::model::{
    anchor_middle, anchor_scale, anchors, baseline, in_window, kernel, kernel_spread, smooth_value,
    value_sum, weight_sum, KERNEL_FLOOR_BITS, NAN_BITS,
};
use crate::model_laws::positive_exp;
use crate::products::{lemma_prod, lemma_quot, lemma_undo, quot};
use crate::quadrature::TWO_BITS;
use crate::report::task_of;
use crate::scheme::{
    evaluation_yields, exclusions, matched, PreparedFit, SchemeSpec, EXCLUSION_TOL_BITS,
};
use crate::sums::{lemma_sum_same, sum};
use vstd::prelude::*;

verus! {

// ------------------------------------------------------------------------ exclusion

/// `x` is as near to `e` as the part `tol` of `e`, and of one at least.
pub open spec fn hit(x: real, e: real, tol: real) -> bool {
    let size = if e > 1real {
        e
    } else if e < -1real {
        -e
    } else {
        1real
    };
    -(tol * size) <= x - e <= tol * size
}

/// A point is excluded if and only if some excluded coordinate is within the
/// tolerance, which is relative to that coordinate, bounds included.
pub proof fn law_excluded_points(
    m: Meaning<real>,
    xs: Seq<real>,
    ex: Seq<real>,
    i: int,
    tol: real,
)
    requires
        exact(m),
        m.num(EXCLUSION_TOL_BITS) == tol,
        0 <= i < xs.len(),
    ensures
        exclusions(m, xs, ex).len() == xs.len(),
        exclusions(m, xs, ex)[i] <==> exists|k: int|
            0 <= k < ex.len() && hit(xs[i], #[trigger] ex[k], tol),
{
    assert forall|k: int| 0 <= k < ex.len() implies (matched(m, xs[i], #[trigger] ex[k]) <==> hit(
        xs[i],
        ex[k],
        tol,
    )) by {
        let e = ex[k];
        let size = if e > 1real {
            e
        } else if e < -1real {
            -e
        } else {
            1real
        };
        assert(m.max(m.abs(e), m.one()) == size);
    }
    if exclusions(m, xs, ex)[i] {
        let k = choose|k: int| 0 <= k < ex.len() && matched(m, xs[i], #[trigger] ex[k]);
        assert(hit(xs[i], ex[k], tol));
    } else {
        assert forall|k: int| 0 <= k < ex.len() implies !hit(xs[i], #[trigger] ex[k], tol) by {
            assert(!matched(m, xs[i], ex[k]));
        }
    }
}

// ------------------------------------------------------------------------- baseline

/// `x` lies in the window, bounds included.
pub open spec fn spans(w: (real, real), x: real) -> bool {
    w.0 <= x <= w.1
}

/// A point is an anchor of the baseline if and only if it is not excluded and lies
/// in one of the windows, bounds included; anchors are in the order of the points.
pub proof fn law_anchors(
    m: Meaning<real>,
    xs: Seq<real>,
    mask: Seq<bool>,
    windows: Seq<(real, real)>,
)
    requires
        exact(m),
    ensures
        forall|i: int|
            0 <= i < xs.len() ==> (#[trigger] anchors(m, xs, mask, windows).contains(i)
                <==> !mask[i] && exists|w: int|
                0 <= w < windows.len() && spans(#[trigger] windows[w], xs[i])),
        forall|k: int|
            0 <= k < anchors(m, xs, mask, windows).len() ==> 0 <= #[trigger] anchors(
                m,
                xs,
                mask,
                windows,
            )[k] < xs.len(),
        forall|j: int, k: int|
            0 <= j < k < anchors(m, xs, mask, windows).len() ==> #[trigger] anchors(
                m,
                xs,
                mask,
                windows,
            )[j] < #[trigger] anchors(m, xs, mask, windows)[k],
{
    let p = |i: int| !mask[i] && in_window(m, windows, xs[i]);
    lemma_places(xs.len(), p);
    let sel = places(xs.len(), p);
    assert forall|i: int| 0 <= i < xs.len() implies (#[trigger] anchors(
        m,
        xs,
        mask,
        windows,
    ).contains(i) <==> !mask[i] && exists|w: int|
        0 <= w < windows.len() && spans(#[trigger] windows[w], xs[i])) by {
        if sel.contains(i) {
            let k = choose|k: int| 0 <= k < sel.len() && sel[k] == i;
            assert(p(sel[k]));
            let w = choose|w: int|
                0 <= w < windows.len() && m.le((#[trigger] windows[w]).0, xs[i]) && m.le(
                    xs[i],
                    windows[w].1,
                );
            assert(spans(windows[w], xs[i]));
        } else {
            assert(!p(i));
            if !mask[i] {
                assert forall|w: int| 0 <= w < windows.len() implies !spans(
                    #[trigger] windows[w],
                    xs[i],
                ) by {
                    assert(!(m.le(windows[w].0, xs[i]) && m.le(xs[i], windows[w].1)));
                }
            }
        }
    }
}

/// A baseline of a degree above six is refused, and so is one with fewer anchors
/// than the degree and two; a baseline has a value at every point.
pub proof fn law_baseline_needs_anchors<T>(
    m: Meaning<T>,
    xs: Seq<T>,
    ys: Seq<T>,
    mask: Seq<bool>,
    windows: Seq<(T, T)>,
    degree: nat,
)
    ensures
        degree > 6 || anchors(m, xs, mask, windows).len() < degree + 2 ==> baseline(
            m,
            xs,
            ys,
            mask,
            windows,
            degree,
        ) is Err,
        degree > 6 ==> baseline(m, xs, ys, mask, windows, degree) == Err::<Seq<T>, Seq<char>>(
            "baseline degree must be 0..=6"@,
        ),
        baseline(m, xs, ys, mask, windows, degree) matches Ok(v) ==> v.len() == xs.len(),
{
}

/// No polynomial of the degree comes nearer to the anchors than the baseline: the sum
/// of the squares of what the baseline misses at them is the least.
pub proof fn law_baseline_is_best(
    m: Meaning<real>,
    xs: Seq<real>,
    ys: Seq<real>,
    mask: Seq<bool>,
    windows: Seq<(real, real)>,
    degree: nat,
    g: Seq<real>,
)
    requires
        exact(m),
        exact_roots(m),
        exact_powers(m),
        g.len() == degree + 1,
    ensures
        baseline(m, xs, ys, mask, windows, degree) matches Ok(v) ==> {
            let sel = anchors(m, xs, mask, windows);
            let mid = anchor_middle(xs, sel);
            let scale = anchor_scale(m, xs, sel);
            sum(|l: int| (ys[sel[l]] - v[sel[l]]) * (ys[sel[l]] - v[sel[l]]), sel.len() as int)
                <= sum(
                |l: int|
                    {
                        let u = ys[sel[l]] - polynomial(g, m.div(m.sub(xs[sel[l]], mid), scale));
                        u * u
                    },
                sel.len() as int,
            )
        },
{
    let sel = anchors(m, xs, mask, windows);
    let mid = anchor_middle(xs, sel);
    let scale = anchor_scale(m, xs, sel);
    let t = sel.map_values(|i: int| m.div(m.sub(xs[i], mid), scale));
    let y = sel.map_values(|i: int| ys[i]);
    let w = sel.map_values(|i: int| m.one());
    let len = sel.len() as int;
    law_polyfit_is_best(m, t, y, w, degree, g);
    if let Ok(v) = baseline(m, xs, ys, mask, windows, degree) {
        let c = polyfit(m, t, y, w, degree)->Some_0;
        lemma_places(xs.len(), |i: int| !mask[i] && in_window(m, windows, xs[i]));
        let mine = |l: int| (ys[sel[l]] - v[sel[l]]) * (ys[sel[l]] - v[sel[l]]);
        let mine2 = |l: int| w[l] * ((y[l] - polynomial(c, t[l])) * (y[l] - polynomial(c, t[l])));
        let other = |l: int|
            {
                let u = ys[sel[l]] - polynomial(g, m.div(m.sub(xs[sel[l]], mid), scale));
                u * u
            };
        let other2 = |l: int| w[l] * ((y[l] - polynomial(g, t[l])) * (y[l] - polynomial(g, t[l])));
        assert forall|l: int| 0 <= l < len implies #[trigger] mine(l) == mine2(l) by {
            let i = sel[l];
            assert(0 <= i < xs.len());
            lemma_poly_value(m, c, m.div(m.sub(xs[i], mid), scale), c.len() as int);
            assert(v[i] == polynomial(c, t[l]));
            lemma_unit((y[l] - polynomial(c, t[l])) * (y[l] - polynomial(c, t[l])));
        }
        assert forall|l: int| 0 <= l < len implies #[trigger] other(l) == other2(l) by {
            lemma_unit((y[l] - polynomial(g, t[l])) * (y[l] - polynomial(g, t[l])));
        }
        lemma_sum_same(mine, mine2, len);
        lemma_sum_same(other, other2, len);
        assert(misfit(t, y, w, c) == sum(mine2, len));
        assert(misfit(t, y, w, g) == sum(other2, len));
    }
}

proof fn lemma_unit(a: real)
    ensures
        1real * a == a,
{
    assert(1real * a == a) by (nonlinear_arith);
}

// ------------------------------------------------------------------------ smoothing

/// The weight of point `k` at point `i`: none where it is excluded, and else the
/// Gaussian of their distance in units of twice the width.
pub open spec fn weight_of(
    m: Meaning<real>,
    xs: Seq<real>,
    mask: Seq<bool>,
    sigma: real,
    floor: real,
    i: int,
    k: int,
) -> real {
    let square = (2real * sigma) * (2real * sigma);
    let spread = if square < floor {
        floor
    } else {
        square
    };
    let d = xs[k] - xs[i];
    if mask[k] {
        0real
    } else {
        m.e((-d * d) / spread)
    }
}

proof fn lemma_weights(
    m: Meaning<real>,
    xs: Seq<real>,
    ys: Seq<real>,
    mask: Seq<bool>,
    sigma: real,
    floor: real,
    i: int,
    k: int,
)
    requires
        exact(m),
        positive_exp(m),
        m.num(TWO_BITS) == 2real,
        m.num(KERNEL_FLOOR_BITS) == floor,
        floor > 0real,
    ensures
        ({
            let spread = kernel_spread(m, sigma);
            let w = |l: int| weight_of(m, xs, mask, sigma, floor, i, l);
            &&& weight_sum(m, xs, mask, spread, i, k) == sum(w, k)
            &&& value_sum(m, xs, ys, mask, spread, i, k) == sum(|l: int| w(l) * ys[l], k)
            &&& sum(w, k) >= 0real
            &&& 0 <= i < k && !mask[i] ==> sum(w, k) > 0real
        }),
    decreases k,
{
    if k > 0 {
        lemma_weights(m, xs, ys, mask, sigma, floor, i, k - 1);
        let w = |l: int| weight_of(m, xs, mask, sigma, floor, i, l);
        let wy = |l: int| w(l) * ys[l];
        lemma_weight(m, xs, mask, sigma, floor, i, k - 1);
        assert(sum(w, k) == sum(w, k - 1) + w(k - 1));
        assert(sum(wy, k) == sum(wy, k - 1) + wy(k - 1));
        if mask[k - 1] {
            lemma_nothing(ys[k - 1]);
        }
    }
}

proof fn lemma_nothing(a: real)
    ensures
        0real * a == 0real,
{
    assert(0real * a == 0real) by (nonlinear_arith);
}

proof fn lemma_weight(
    m: Meaning<real>,
    xs: Seq<real>,
    mask: Seq<bool>,
    sigma: real,
    floor: real,
    i: int,
    k: int,
)
    requires
        exact(m),
        positive_exp(m),
        m.num(TWO_BITS) == 2real,
        m.num(KERNEL_FLOOR_BITS) == floor,
        floor > 0real,
    ensures
        mask[k] ==> weight_of(m, xs, mask, sigma, floor, i, k) == 0real,
        !mask[k] ==> weight_of(m, xs, mask, sigma, floor, i, k) == kernel(
            m,
            m.sub(xs[k], xs[i]),
            kernel_spread(m, sigma),
        ),
        !mask[k] ==> weight_of(m, xs, mask, sigma, floor, i, k) > 0real,
{
}

/// A smoothed value is the mean of the values of the points that are not excluded,
/// weighted by the Gaussian of their distance: times the sum of the weights it is the
/// sum of the weighted values.  Where the point itself is excluded it is not a
/// number.
pub proof fn law_smoothing_is_a_weighted_mean(
    m: Meaning<real>,
    xs: Seq<real>,
    ys: Seq<real>,
    mask: Seq<bool>,
    sigma: real,
    floor: real,
    i: int,
)
    requires
        exact(m),
        positive_exp(m),
        m.num(TWO_BITS) == 2real,
        m.num(KERNEL_FLOOR_BITS) == floor,
        floor > 0real,
        0 <= i < xs.len(),
    ensures
        ({
            let n = xs.len() as int;
            let w = |k: int| weight_of(m, xs, mask, sigma, floor, i, k);
            &&& mask[i] ==> smooth_value(m, xs, ys, mask, sigma, i) == m.num(NAN_BITS)
            &&& !mask[i] ==> smooth_value(m, xs, ys, mask, sigma, i) * sum(w, n) == sum(
                |k: int| w(k) * ys[k],
                n,
            )
        }),
{
    let n = xs.len() as int;
    lemma_weights(m, xs, ys, mask, sigma, floor, i, n);
    let w = |k: int| weight_of(m, xs, mask, sigma, floor, i, k);
    if !mask[i] {
        let v = sum(|k: int| w(k) * ys[k], n);
        lemma_undo(v, sum(w, n));
        lemma_quot(v, sum(w, n));
        lemma_prod(quot(v, sum(w, n)), sum(w, n));
    }
}

// ------------------------------------------------------------------- the evaluation

/// An evaluation takes the baseline off every value, smooths what is left if and only
/// if a width for that is given, and fits what is left and was not smoothed: the
/// residual of the fit is the fitted curve less the values without the baseline.
pub proof fn law_fit_is_of_corrected_values(
    m: Meaning<Binary64>,
    nodes: Seq<(Binary64, Binary64)>,
    xs: Seq<Binary64>,
    ys: Seq<Binary64>,
    spec: SchemeSpec,
    pf: PreparedFit,
    i: int,
)
    requires
        evaluation_yields(m, nodes, xs, ys, spec, Ok(pf)),
        0 <= i < xs.len(),
    ensures
        pf.corrected@.len() == xs.len(),
        pf.corrected@[i] == m.sub(ys[i], pf.baseline@[i]),
        pf.smoothed is Some <==> m.lt(m.zero(), spec.smooth_sigma),
        pf.report.residual@.len() == xs.len(),
        pf.mask@[i] ==> pf.report.residual@[i] == m.num(NAN_BITS),
        !pf.mask@[i] ==> pf.report.residual@[i] == m.sub(
            pf.report.fitted@[i],
            pf.corrected@[i],
        ),
{
    let t = task_of(m, nodes, xs, pf.corrected@, pf.mask@, spec.peaks@);
    law_baseline_needs_anchors(
        m,
        xs,
        ys,
        pf.mask@,
        spec.baseline.windows@,
        spec.baseline.degree as nat,
    );
    assert(t.xs == xs && t.mask == pf.mask@ && t.ys == pf.corrected@);
    law_reported_curve(m, t, pf.report, i);
}

} // verus!
