//! Laws of the reported covariance, of what a fit looks at, and of whole
//! reports.

use crate::arithmetic::{exact, Meaning};
use crate::binary64::Binary64;
use crate::cholesky_laws::{exact_roots, lemma_row_sum_is, symmetric};
use crate::data::{lemma_places, places};
use crate::fit::{entries, gram, kept, stepped, Entry, Stand, Task, MAX_ITER};
use crate::layout::owns;
use crate::linalg::{at, lemma_at, solution};
use crate::linalg_laws::{
    law_no_solution_iff_singular, law_solution_solves, row_sum, singular, solves,
};
use crate::model::{lemma_offset, PeakKind, PeakSpec};
use crate::report::{
    area_error, area_gradient, basis, correlation, covariance, deviation, freedom, task_of, variance,
    FitReport,
};
use crate::scheme::{evaluation_yields, PreparedFit, SchemeSpec};
use crate::sums::{inner, lemma_sum_one, lemma_sum_same, lemma_sum_scale, lemma_sum_swap, outer};
use vstd::prelude::*;

verus! {

/// Column `j` of a matrix.
pub open spec fn column_of(a: Seq<real>, n: nat, j: int) -> Seq<real> {
    Seq::new(n, |i: int| a[at(n, i, j)])
}

proof fn lemma_row_sum_scaled(
    a: Seq<real>,
    n: nat,
    i: int,
    x: Seq<real>,
    y: Seq<real>,
    c: real,
    k: int,
)
    requires
        0 <= k <= n,
        forall|l: int| 0 <= l < n ==> #[trigger] y[l] == x[l] * c,
    ensures
        row_sum(a, n, i, y, k) == row_sum(a, n, i, x, k) * c,
    decreases k,
{
    if k > 0 {
        lemma_row_sum_scaled(a, n, i, x, y, c, k - 1);
        let v = a[at(n, i, k - 1)];
        let u = x[k - 1];
        let r = row_sum(a, n, i, x, k - 1);
        assert(y[k - 1] == u * c);
        assert(r * c + v * (u * c) == (r + v * u) * c) by (nonlinear_arith);
    } else {
        assert(0real * c == 0real) by (nonlinear_arith);
    }
}

/// Over the real numbers, the covariance of the free parameters is the inverse
/// of `J^T J` times the variance of one observation, wherever there is an
/// inverse: the product of `J^T J` with it has the variance on the diagonal and
/// zero elsewhere.
pub proof fn law_covariance_is_scaled_inverse(
    m: Meaning<real>,
    jtj: Seq<real>,
    n: nat,
    s2: real,
    i: int,
    j: int,
)
    requires
        exact(m),
        jtj.len() == n * n,
        !singular(jtj, n),
        0 <= i < n,
        0 <= j < n,
    ensures
        row_sum(jtj, n, i, column_of(covariance(m, jtj, n, s2), n, j), n as int) == (if i == j {
            s2
        } else {
            0real
        }),
{
    let b = basis(m, n, j);
    law_no_solution_iff_singular(m, jtj, b, n);
    law_solution_solves(m, jtj, b, n);
    let x = solution(m, jtj, b, n)->0;
    let cov = covariance(m, jtj, n, s2);
    let y = column_of(cov, n, j);
    assert forall|l: int| 0 <= l < n implies #[trigger] y[l] == x[l] * s2 by {
        lemma_at(n, l, j);
        assert(m.fin(s2));
        assert(cov[at(n, l, j)] == m.mul(x[l], s2));
    }
    lemma_row_sum_scaled(jtj, n, i, x, y, s2, n as int);
    assert(row_sum(jtj, n, i, x, n as int) == b[i]);
    assert(1real * s2 == s2) by (nonlinear_arith);
    assert(0real * s2 == 0real) by (nonlinear_arith);
}

/// Solutions for unit vectors, of a symmetric matrix.
proof fn lemma_inverse_symmetric(
    a: Seq<real>,
    n: nat,
    bi: Seq<real>,
    bj: Seq<real>,
    xi: Seq<real>,
    xj: Seq<real>,
    i: int,
    j: int,
)
    requires
        symmetric(a, n),
        0 <= i < n,
        0 <= j < n,
        solves(a, bi, n, xi),
        solves(a, bj, n, xj),
        forall|k: int| 0 <= k < n ==> #[trigger] bi[k] == (if k == i {
            1real
        } else {
            0real
        }),
        forall|k: int| 0 <= k < n ==> #[trigger] bj[k] == (if k == j {
            1real
        } else {
            0real
        }),
    ensures
        xj[i] == xi[j],
{
    let nn = n as int;
    let f = |k: int, l: int| (a[at(n, k, l)] * xi[l]) * xj[k];
    lemma_sum_swap(f, nn, nn);
    let p = |k: int| bi[k] * xj[k];
    let q = |l: int| bj[l] * xi[l];
    assert forall|k: int| 0 <= k < n implies #[trigger] inner(f, nn)(k) == p(k) by {
        let t = |l: int| a[at(n, k, l)] * xi[l];
        let h = |l: int| f(k, l);
        let v = xj[k];
        assert forall|l: int| 0 <= l < n implies #[trigger] h(l) == v * t(l) by {
            let u = t(l);
            assert(u * v == v * u) by (nonlinear_arith);
        }
        lemma_sum_scale(v, t, h, nn);
        lemma_row_sum_is(a, n, k, xi, nn);
        assert(row_sum(a, n, k, xi, nn) == bi[k]);
        let w = bi[k];
        assert(v * w == w * v) by (nonlinear_arith);
    }
    lemma_sum_same(inner(f, nn), p, nn);
    assert forall|l: int| 0 <= l < n implies #[trigger] outer(f, nn)(l) == q(l) by {
        let t = |k: int| a[at(n, l, k)] * xj[k];
        let h = |k: int| f(k, l);
        let v = xi[l];
        assert forall|k: int| 0 <= k < n implies #[trigger] h(k) == v * t(k) by {
            assert(a[at(n, k, l)] == a[at(n, l, k)]);
            let u = a[at(n, l, k)];
            let w = xj[k];
            assert((u * v) * w == v * (u * w)) by (nonlinear_arith);
        }
        lemma_sum_scale(v, t, h, nn);
        lemma_row_sum_is(a, n, l, xj, nn);
        assert(row_sum(a, n, l, xj, nn) == bj[l]);
        let w = bj[l];
        assert(v * w == w * v) by (nonlinear_arith);
    }
    lemma_sum_same(outer(f, nn), q, nn);
    assert forall|k: int| 0 <= k < n && k != i implies #[trigger] p(k) == 0real by {
        let v = xj[k];
        assert(0real * v == 0real) by (nonlinear_arith);
    }
    assert forall|l: int| 0 <= l < n && l != j implies #[trigger] q(l) == 0real by {
        let v = xi[l];
        assert(0real * v == 0real) by (nonlinear_arith);
    }
    lemma_sum_one(p, i, nn);
    lemma_sum_one(q, j, nn);
    let v = xj[i];
    let w = xi[j];
    assert(1real * v == v && 1real * w == w) by (nonlinear_arith);
}

/// Over the real numbers, the covariance of two parameters does not depend on
/// their order.
pub proof fn law_covariance_is_symmetric(
    m: Meaning<real>,
    jtj: Seq<real>,
    n: nat,
    s2: real,
    i: int,
    j: int,
)
    requires
        exact(m),
        jtj.len() == n * n,
        symmetric(jtj, n),
        !singular(jtj, n),
        0 <= i < n,
        0 <= j < n,
    ensures
        covariance(m, jtj, n, s2)[at(n, i, j)] == covariance(m, jtj, n, s2)[at(n, j, i)],
{
    let bi = basis(m, n, i);
    let bj = basis(m, n, j);
    law_no_solution_iff_singular(m, jtj, bi, n);
    law_no_solution_iff_singular(m, jtj, bj, n);
    law_solution_solves(m, jtj, bi, n);
    law_solution_solves(m, jtj, bj, n);
    let xi = solution(m, jtj, bi, n)->0;
    let xj = solution(m, jtj, bj, n)->0;
    lemma_inverse_symmetric(jtj, n, bi, bj, xi, xj, i, j);
    lemma_at(n, i, j);
    lemma_at(n, j, i);
    assert(m.fin(s2));
}

/// The matrix `J^T J` is its own transpose.
pub proof fn law_normal_matrix_is_symmetric(m: Meaning<real>, cols: Seq<Seq<real>>, rows: nat)
    ensures
        symmetric(gram(m, cols, rows), cols.len()),
{
    let n = cols.len();
    let a = gram(m, cols, rows);
    assert forall|i: int, j: int| 0 <= i < n && 0 <= j < n implies #[trigger] a[at(n, i, j)]
        == a[at(n, j, i)] by {
        lemma_at(n, i, j);
        lemma_at(n, j, i);
    }
}

/// Over the real numbers, a parameter with a positive variance correlates fully
/// with itself.
pub proof fn law_correlation_with_itself(m: Meaning<real>, cov: Seq<real>, n: nat, a: int)
    requires
        exact(m),
        exact_roots(m),
        0 <= a < n,
        cov.len() == n * n,
        cov[at(n, a, a)] > 0real,
    ensures
        correlation(m, cov, n)[at(n, a, a)] == 1real,
{
    lemma_at(n, a, a);
    let v = cov[at(n, a, a)];
    let d = deviation(m, cov, n, a);
    assert(d == (m.root)(v));
    assert(d > 0real && d * d == v);
    let e = d * d;
    assert(e / e == 1real) by (nonlinear_arith)
        requires
            e > 0real,
    ;
}

// --------------------------------------------------------------- excluded points

/// The tasks agree in all but the coordinates and values of excluded points.
pub open spec fn alike_where_kept<T>(t: Task<T>, u: Task<T>) -> bool {
    &&& t.nodes == u.nodes
    &&& t.mask == u.mask
    &&& t.plan == u.plan
    &&& forall|i: int|
        0 <= i < t.mask.len() && !(#[trigger] t.mask[i]) ==> t.xs[i] == u.xs[i] && t.ys[i]
            == u.ys[i]
}

proof fn lemma_same_residual<T>(m: Meaning<T>, t: Task<T>, u: Task<T>, p: Seq<T>)
    requires
        alike_where_kept(t, u),
    ensures
        t.residual(m, p) == u.residual(m, p),
{
    let mask = t.mask;
    let open = |i: int| !mask[i];
    let rows = kept(mask);
    lemma_places(mask.len(), open);
    assert(rows == places(mask.len(), open));
    assert forall|k: int| 0 <= k < rows.len() implies #[trigger] t.residual(m, p)[k] == u.residual(
        m,
        p,
    )[k] by {
        let i = rows[k];
        assert(open(i) && !t.mask[i]);
        assert(t.xs[i] == u.xs[i] && t.ys[i] == u.ys[i]);
    }
    assert(t.residual(m, p) =~= u.residual(m, p));
}

proof fn lemma_same_columns<T>(m: Meaning<T>, t: Task<T>, u: Task<T>, q: Seq<T>)
    requires
        alike_where_kept(t, u),
    ensures
        t.columns(m, q) == u.columns(m, q),
{
    let mask = t.mask;
    let open = |i: int| !mask[i];
    let rows = kept(mask);
    lemma_places(mask.len(), open);
    assert(rows == places(mask.len(), open));
    assert forall|f: int| 0 <= f < t.plan.free() implies #[trigger] t.column(m, q, f) == u.column(
        m,
        q,
        f,
    ) by {
        assert forall|k: int| 0 <= k < rows.len() implies #[trigger] t.column(m, q, f)[k]
            == u.column(m, q, f)[k] by {
            let i = rows[k];
            assert(open(i) && !t.mask[i]);
            assert(t.xs[i] == u.xs[i] && t.ys[i] == u.ys[i]);
        }
        assert(t.column(m, q, f) =~= u.column(m, q, f));
    }
    assert(t.columns(m, q) =~= u.columns(m, q));
}

proof fn lemma_same_run<T>(
    m: Meaning<T>,
    t: Task<T>,
    u: Task<T>,
    s: Stand<T>,
    trace: Seq<Entry<T>>,
    it: nat,
)
    requires
        alike_where_kept(t, u),
    ensures
        t.run(m, s, trace, it) == u.run(m, s, trace, it),
    decreases MAX_ITER + 1 - it,
{
    if it <= MAX_ITER {
        lemma_same_columns(m, t, u, s.q);
        let (lambda, step) = t.proposed(m, s);
        let q = stepped(m, s.q, step->0);
        lemma_same_residual(m, t, u, t.plan.full(m, q));
        let (next, entry, end) = t.iterated(m, s, it);
        assert(t.iterated(m, s, it) == u.iterated(m, s, it));
        lemma_same_run(m, t, u, next, trace.push(entry), it + 1);
    }
}

/// A fit does not look at excluded points: whatever their coordinates and
/// values are, it ends in the same way, with the same record.
pub proof fn law_fit_ignores_excluded_points<T>(m: Meaning<T>, t: Task<T>, u: Task<T>)
    requires
        alike_where_kept(t, u),
    ensures
        t.ending(m) == u.ending(m),
{
    let s = t.start(m);
    lemma_same_residual(m, t, u, t.plan.full(m, t.plan.freed(m, t.plan.p0)));
    assert(s == u.start(m));
    lemma_same_run(m, t, u, s, seq![t.opening(s)], 1);
}

// ------------------------------------------------------------------ whole reports

/// The reports say the same, in every field.
pub open spec fn same_report(a: FitReport, b: FitReport) -> bool {
    &&& a.converged == b.converged
    &&& a.status@ == b.status@
    &&& a.iterations == b.iterations
    &&& a.chi2 == b.chi2
    &&& a.dof == b.dof
    &&& a.rmse == b.rmse
    &&& a.aic == b.aic
    &&& a.bic == b.bic
    &&& a.rss == b.rss
    &&& a.kinds@ == b.kinds@
    &&& a.params@ == b.params@
    &&& a.covariance@ == b.covariance@
    &&& a.correlation@ == b.correlation@
    &&& a.free_map@ == b.free_map@
    &&& a.peaks@ == b.peaks@
    &&& a.fitted@ == b.fitted@
    &&& a.residual@ == b.residual@
    &&& entries(a.trace@) == entries(b.trace@)
}

proof fn lemma_owner_unique(kinds: Seq<PeakKind>, i: int, a: (usize, usize), b: (usize, usize))
    requires
        owns(kinds, i, a),
        owns(kinds, i, b),
    ensures
        a == b,
{
    if a.0 < b.0 {
        lemma_offset(kinds, a.0 + 1, b.0 as int);
    } else if b.0 < a.0 {
        lemma_offset(kinds, b.0 + 1, a.0 as int);
    }
}

proof fn lemma_same_area_error(
    m: Meaning<Binary64>,
    t: Task<Binary64>,
    u: Task<Binary64>,
    q: Seq<Binary64>,
    cov: Seq<Binary64>,
    k: int,
)
    requires
        t.nodes == u.nodes,
        t.plan == u.plan,
    ensures
        area_error(m, t, q, cov, k) == area_error(m, u, q, cov, k),
{
    assert(area_gradient(m, t, q, k) =~= area_gradient(m, u, q, k));
}

/// A fit reports one thing, whatever the values at the excluded points are, and
/// whether they are numbers or not: the reports are the same in every field.
pub proof fn law_report_ignores_excluded_values(
    m: Meaning<Binary64>,
    nodes: Seq<(Binary64, Binary64)>,
    xs: Seq<Binary64>,
    ys: Seq<Binary64>,
    zs: Seq<Binary64>,
    mask: Seq<bool>,
    specs: Seq<PeakSpec>,
    a: FitReport,
    b: FitReport,
)
    requires
        forall|i: int| 0 <= i < mask.len() && !(#[trigger] mask[i]) ==> ys[i] == zs[i],
        ({
            let t = task_of(m, nodes, xs, ys, mask, specs);
            a.tells(m, t, t.ending(m))
        }),
        ({
            let u = task_of(m, nodes, xs, zs, mask, specs);
            b.tells(m, u, u.ending(m))
        }),
    ensures
        same_report(a, b),
{
    let t = task_of(m, nodes, xs, ys, mask, specs);
    let u = task_of(m, nodes, xs, zs, mask, specs);
    law_fit_ignores_excluded_points(m, t, u);
    let e = t.ending(m);
    let s = e.stand;
    let q = t.plan.freed(m, s.p);
    lemma_same_columns(m, t, u, q);
    let nf = t.plan.free();
    let n = s.r.len();
    let cov = covariance(
        m,
        gram(m, t.columns(m, q), n),
        nf,
        variance(m, s.chi, freedom(n, nf)),
    );
    assert forall|f: int| 0 <= f < nf implies #[trigger] a.free_map@[f] == b.free_map@[f] by {
        lemma_owner_unique(t.plan.kinds, t.plan.map[f], a.free_map@[f], b.free_map@[f]);
    }
    assert(a.free_map@ =~= b.free_map@);
    assert forall|k: int| 0 <= k < t.plan.kinds.len() implies #[trigger] a.peaks@[k]
        == b.peaks@[k] by {
        lemma_same_area_error(m, t, u, q, cov, k);
        assert(a.peaks@[k].tells(m, t, s.p, q, cov, k));
        assert(b.peaks@[k].tells(m, u, s.p, q, cov, k));
    }
    assert(a.peaks@ =~= b.peaks@);
    assert forall|i: int| 0 <= i < xs.len() implies #[trigger] a.fitted@[i] == b.fitted@[i] by {
        assert(t.model(m, s.p, i) == u.model(m, s.p, i));
    }
    assert(a.fitted@ =~= b.fitted@);
}

/// Only the smoothed curve depends on the smoothing: with another smoothing
/// width the evaluation succeeds again, with the same marks, baseline,
/// corrected values and report.  There is a smoothed curve exactly where the
/// width is positive, and the corrected values are the values less the
/// baseline.
pub proof fn law_smoothing_is_for_display(
    m: Meaning<Binary64>,
    nodes: Seq<(Binary64, Binary64)>,
    xs: Seq<Binary64>,
    ys: Seq<Binary64>,
    v: SchemeSpec,
    w: SchemeSpec,
    a: PreparedFit,
    r: Result<PreparedFit, String>,
)
    requires
        v.baseline.degree == w.baseline.degree,
        v.baseline.windows@ == w.baseline.windows@,
        v.excluded_x@ == w.excluded_x@,
        v.peaks@ == w.peaks@,
        evaluation_yields(m, nodes, xs, ys, v, Ok(a)),
        evaluation_yields(m, nodes, xs, ys, w, r),
    ensures
        r matches Ok(b) && {
            &&& b.mask@ == a.mask@
            &&& b.baseline@ == a.baseline@
            &&& b.corrected@ == a.corrected@
            &&& same_report(a.report, b.report)
            &&& b.smoothed is Some <==> m.lt(m.zero(), w.smooth_sigma)
            &&& b.corrected@.len() == b.baseline@.len()
            &&& forall|i: int|
                0 <= i < b.corrected@.len() ==> #[trigger] b.corrected@[i] == m.sub(
                    ys[i],
                    b.baseline@[i],
                )
        },
{
    let b = r->Ok_0;
    assert(r is Ok);
    assert(a.baseline@ == b.baseline@);
    law_report_ignores_excluded_values(
        m,
        nodes,
        xs,
        a.corrected@,
        b.corrected@,
        a.mask@,
        v.peaks@,
        a.report,
        b.report,
    );
}

} // verus!
