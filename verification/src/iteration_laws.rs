//! Laws of the iterations of a fit, and of what its report says of the points.

use crate::arithmetic::{exact, Meaning};
use crate::binary64::Binary64;
use crate::data::{lemma_places, places};
use crate::fit::{
    change, gram, kept, step_size, stepped, sum_squares, Ending, Entry, Stand, Status, Task,
    CHI_FLOOR_BITS, FD_EPS_BITS, LAMBDA0_BITS, LAMBDA_DOWN_BITS, LAMBDA_MAX_BITS, LAMBDA_UP_BITS,
    MAX_ITER, TOLERANCE_BITS,
};
use crate::model::{model_value, NAN_BITS};
use crate::products::{lemma_both_positive, lemma_prod, lemma_quot, lemma_undo, quot};
use crate::quadrature::TWO_BITS;
use crate::report::{aic, bic, correlation, covariance, rank, rmse, FitReport};
use crate::sums::sum;
use vstd::prelude::*;

verus! {

// ----------------------------------------------------------------- points and slopes

/// Points that are not excluded are kept, each once and in order, and no others.
pub proof fn law_kept_points(mask: Seq<bool>)
    ensures
        forall|k: int| 0 <= k < kept(mask).len() ==> 0 <= #[trigger] kept(mask)[k] < mask.len(),
        forall|k: int| 0 <= k < kept(mask).len() ==> !mask[#[trigger] kept(mask)[k]],
        forall|j: int, k: int|
            0 <= j < k < kept(mask).len() ==> #[trigger] kept(mask)[j] < #[trigger] kept(mask)[k],
        forall|i: int| 0 <= i < mask.len() && !(#[trigger] mask[i]) ==> kept(mask).contains(i),
{
    let p = |i: int| !mask[i];
    lemma_places(mask.len(), p);
    assert forall|k: int| 0 <= k < kept(mask).len() implies !mask[#[trigger] kept(mask)[k]] by {
        assert(p(places(mask.len(), p)[k]));
    }
    assert forall|i: int| 0 <= i < mask.len() && !(#[trigger] mask[i]) implies kept(
        mask,
    ).contains(i) by {
        assert(p(i));
    }
}

proof fn lemma_sum_squares(m: Meaning<real>, r: Seq<real>, k: int)
    requires
        exact(m),
    ensures
        sum_squares(m, r, k) == sum(|j: int| r[j] * r[j], k),
    decreases k,
{
    if k > 0 {
        lemma_sum_squares(m, r, k - 1);
    }
}

/// Where a fit stands: a residual is the model less the datum, at every point that
/// is kept, and chi-square is the sum of their squares.
pub proof fn law_chi_square(t: Task<real>, m: Meaning<real>, q: Seq<real>, lambda: real)
    requires
        exact(m),
    ensures
        ({
            let s = t.stand(m, q, lambda);
            let p = t.plan.full(m, q);
            let ks = kept(t.mask);
            &&& s.q == q
            &&& s.p == p
            &&& s.lambda == lambda
            &&& s.r.len() == ks.len()
            &&& forall|j: int|
                0 <= j < ks.len() ==> #[trigger] s.r[j] == model_value(
                    m,
                    t.nodes,
                    t.xs[ks[j]],
                    t.plan.kinds,
                    p,
                ) - t.ys[ks[j]]
            &&& s.chi == sum(|j: int| s.r[j] * s.r[j], ks.len() as int)
        }),
{
    let s = t.stand(m, q, lambda);
    lemma_sum_squares(m, s.r, s.r.len() as int);
}

/// A difference quotient times its denominator.
proof fn lemma_slope(hi: real, lo: real, h: real)
    requires
        h > 0real,
    ensures
        ((hi - lo) / (2real * h)) * (2real * h) == hi - lo,
{
    let d = 2real * h;
    lemma_undo(hi - lo, d);
    lemma_quot(hi - lo, d);
    lemma_prod(quot(hi - lo, d), d);
}

/// The derivatives of the model are central differences: times twice the step they
/// are the rise of the model from a step below to a step above, at the points that
/// are kept.  The step is the part `eps` of the free parameter, and of one at least.
pub proof fn law_derivatives_are_central(
    t: Task<real>,
    m: Meaning<real>,
    q: Seq<real>,
    f: int,
    j: int,
    eps: real,
)
    requires
        exact(m),
        m.num(FD_EPS_BITS) == eps,
        m.num(TWO_BITS) == 2real,
        eps > 0real,
        0 <= f < t.plan.free(),
        0 <= j < kept(t.mask).len(),
    ensures
        ({
            let size = if q[f] > 1real {
                q[f]
            } else if q[f] < -1real {
                -q[f]
            } else {
                1real
            };
            let h = eps * size;
            let x = t.xs[kept(t.mask)[j]];
            let hi = t.plan.full(m, q.update(f, q[f] + h));
            let lo = t.plan.full(m, q.update(f, q[f] - h));
            t.columns(m, q)[f][j] * (2real * h) == model_value(m, t.nodes, x, t.plan.kinds, hi)
                - model_value(m, t.nodes, x, t.plan.kinds, lo)
        }),
{
    let size = if q[f] > 1real {
        q[f]
    } else if q[f] < -1real {
        -q[f]
    } else {
        1real
    };
    lemma_both_positive(eps, size);
    lemma_prod(eps, size);
    let h = eps * size;
    assert(m.max(m.one(), m.abs(q[f])) == size);
    assert(crate::fit::reach(m, q[f]) == h);
    let x = t.xs[kept(t.mask)[j]];
    let hi = model_value(m, t.nodes, x, t.plan.kinds, t.plan.full(m, q.update(f, q[f] + h)));
    let lo = model_value(m, t.nodes, x, t.plan.kinds, t.plan.full(m, q.update(f, q[f] - h)));
    lemma_slope(hi, lo, h);
}

// ------------------------------------------------------------------------ iterations

proof fn lemma_step_size(m: Meaning<real>, q: Seq<real>, s: Seq<real>, k: int, tol: real)
    requires
        exact(m),
        tol > 0real,
    ensures
        step_size(m, q, s, k) < tol <==> forall|i: int|
            0 <= i < k ==> -tol < #[trigger] s[i] - q[i] < tol,
    decreases k,
{
    if k > 0 {
        lemma_step_size(m, q, s, k - 1, tol);
        let d = q[k - 1] - s[k - 1];
        let w = step_size(m, q, s, k - 1);
        if step_size(m, q, s, k) < tol {
            assert forall|i: int| 0 <= i < k implies -tol < #[trigger] s[i] - q[i] < tol by {
                if i == k - 1 {
                    assert(m.abs(d) < tol);
                }
            }
        } else if w < tol {
            assert(!(m.abs(d) < tol));
            assert(!(-tol < s[k - 1] - q[k - 1] < tol));
        }
    }
}

/// One iteration.  The tried free vector is the old one plus the step.  It is
/// accepted if and only if there is a step and chi-square falls; the damping is then
/// multiplied by `down`, and the fit has converged if and only if the part of
/// chi-square, and of `floor` at least, by which it fell is below the tolerance, or
/// every element of the step is.  What is not accepted leaves the fit where it is, with ten times the damping,
/// and the fit is given up if and only if there was no step or the damping is then
/// too large.
pub proof fn law_iteration(
    t: Task<real>,
    m: Meaning<real>,
    s: Stand<real>,
    it: nat,
    tol: real,
    down: real,
    floor: real,
)
    requires
        exact(m),
        m.num(LAMBDA_UP_BITS) == 10real,
        m.num(LAMBDA_DOWN_BITS) == down,
        m.num(TOLERANCE_BITS) == tol,
        m.num(CHI_FLOOR_BITS) == floor,
        0real < tol,
        0real < floor,
    ensures
        ({
            let (l, step) = t.proposed(m, s);
            let (next, entry, end) = t.iterated(m, s, it);
            let tried = t.stand(m, Seq::new(s.q.len(), |i: int| s.q[i] + step->0[i]), l);
            &&& entry.accepted <==> step is Some && tried.chi < s.chi
            &&& entry.iter == it
            &&& entry.lambda == next.lambda
            &&& entry.accepted ==> {
                &&& next.q == tried.q
                &&& next.p == tried.p
                &&& next.r == tried.r
                &&& next.chi == tried.chi
                &&& next.lambda == l * down
                &&& entry.chi2 == tried.chi
                &&& entry.params == tried.p
                &&& end == Some(Status::Converged) || end is None
                &&& 0real < s.chi ==> (end == Some(Status::Converged) <==> s.chi - tried.chi < tol
                    * (if s.chi < floor {
                    floor
                } else {
                    s.chi
                }) || forall|i: int|
                    0 <= i < s.q.len() ==> -tol < #[trigger] tried.q[i] - s.q[i] < tol)
            }
            &&& !entry.accepted ==> {
                &&& next.q == s.q
                &&& next.p == s.p
                &&& next.r == s.r
                &&& next.chi == s.chi
                &&& next.lambda == l * 10real
                &&& step is Some ==> entry.chi2 == tried.chi && entry.params == tried.p
                &&& step is None ==> entry.chi2 == s.chi && entry.params == s.p
                &&& end == Some(Status::NoFiniteStep) || end is None
                &&& end == Some(Status::NoFiniteStep) <==> step is None || m.num(LAMBDA_MAX_BITS)
                    < l * 10real
            }
        }),
{
    let (l, step) = t.proposed(m, s);
    let (next, entry, end) = t.iterated(m, s, it);
    let q = Seq::new(s.q.len(), |i: int| s.q[i] + step->0[i]);
    assert(stepped(m, s.q, step->0) =~= q);
    let tried = t.stand(m, q, l);
    lemma_step_size(m, s.q, q, s.q.len() as int, tol);
    if step is Some && tried.chi < s.chi && 0real < s.chi {
        let d = s.chi - tried.chi;
        let c = if s.chi < floor {
            floor
        } else {
            s.chi
        };
        assert(change(m, s.chi, tried.chi) == d / c);
        lemma_part(d, c, tol);
    }
}

/// A part is below a bound if the whole of the bound is larger.
proof fn lemma_part(d: real, c: real, tol: real)
    requires
        c > 0real,
    ensures
        d / c < tol <==> d < tol * c,
{
    let r = d / c;
    assert(r * c == d) by (nonlinear_arith)
        requires
            r == d / c,
            c > 0real,
    ;
    assert(r < tol <==> r * c < tol * c) by (nonlinear_arith)
        requires
            c > 0real,
    ;
}

/// A fit begins at the initial parameters with the initial damping; where there are
/// no more points than free parameters it ends there.
pub proof fn law_fit_begins_at_the_initial_parameters<T>(t: Task<T>, m: Meaning<T>)
    ensures
        t.start(m) == t.stand(m, t.plan.freed(m, t.plan.p0), m.num(LAMBDA0_BITS)),
        kept(t.mask).len() <= t.plan.free() ==> t.ending(m).stand == t.start(m) && t.ending(
            m,
        ).status is Underdetermined,
        t.ending(m).trace[0].params == t.plan.full(m, t.plan.freed(m, t.plan.p0)),
        t.ending(m).trace[0].iter == 0,
        t.ending(m).trace[0].accepted,
{
    let s = t.start(m);
    let trace = seq![t.opening(s)];
    assert(trace[0] == t.opening(s));
    if kept(t.mask).len() > t.plan.free() {
        lemma_run_keeps(t, m, s, trace, 1);
    }
}

/// The record only grows.
proof fn lemma_run_keeps<T>(t: Task<T>, m: Meaning<T>, s: Stand<T>, trace: Seq<Entry<T>>, it: nat)
    requires
        trace.len() >= 1,
        it <= MAX_ITER + 1,
    ensures
        t.run(m, s, trace, it).trace.len() >= 1,
        t.run(m, s, trace, it).trace[0] == trace[0],
    decreases MAX_ITER + 1 - it,
{
    if it <= MAX_ITER {
        let (next, entry, end) = t.iterated(m, s, it);
        assert(trace.push(entry)[0] == trace[0]);
        if end is None {
            lemma_run_keeps(t, m, next, trace.push(entry), it + 1);
        }
    }
}

// ------------------------------------------------------------------------- the course

/// Line `k` of the record, and where the fit stands with it, are what the iteration
/// makes of where the fit stood before.
pub open spec fn link<T>(
    t: Task<T>,
    m: Meaning<T>,
    ss: Seq<Stand<T>>,
    trace: Seq<Entry<T>>,
    k: int,
) -> bool {
    let (next, entry, end) = t.iterated(m, ss[k - 1], k as nat);
    ss[k] == next && trace[k] == entry
}

/// How iteration `k` ends the fit, if it does.
pub open spec fn end_of<T>(t: Task<T>, m: Meaning<T>, ss: Seq<Stand<T>>, k: int) -> Option<Status> {
    t.iterated(m, ss[k - 1], k as nat).2
}

/// A course of iterations, none of which but the last may end the fit.
pub open spec fn course<T>(
    t: Task<T>,
    m: Meaning<T>,
    ss: Seq<Stand<T>>,
    trace: Seq<Entry<T>>,
) -> bool {
    &&& ss.len() == trace.len()
    &&& ss.len() >= 1
    &&& ss[0] == t.start(m)
    &&& trace[0] == t.opening(t.start(m))
    &&& forall|k: int| 0 < k < ss.len() ==> #[trigger] link(t, m, ss, trace, k)
    &&& forall|k: int| 0 < k < ss.len() - 1 ==> (#[trigger] end_of(t, m, ss, k)) is None
}

proof fn lemma_run_course<T>(
    t: Task<T>,
    m: Meaning<T>,
    ss: Seq<Stand<T>>,
    trace: Seq<Entry<T>>,
    it: nat,
) -> (all: Seq<Stand<T>>)
    requires
        course(t, m, ss, trace),
        forall|k: int| 0 < k < ss.len() ==> (#[trigger] end_of(t, m, ss, k)) is None,
        ss.len() == it,
        it <= MAX_ITER + 1,
    ensures
        ({
            let e = t.run(m, ss.last(), trace, it);
            &&& course(t, m, all, e.trace)
            &&& all.last() == e.stand
            &&& e.status is MaxIterations ==> all.len() == MAX_ITER + 1
            &&& all.len() > 1 && !(e.status is MaxIterations) ==> end_of(
                t,
                m,
                all,
                all.len() - 1,
            ) == Some(e.status)
            &&& !(e.status is MaxIterations) ==> all.len() > 1 && e.iterations == all.len() - 1
        }),
    decreases MAX_ITER + 1 - it,
{
    if it > MAX_ITER {
        ss
    } else {
        let (next, entry, end) = t.iterated(m, ss.last(), it);
        let more = ss.push(next);
        let lines = trace.push(entry);
        assert(more[0] == ss[0] && lines[0] == trace[0]);
        assert forall|k: int| 0 < k < more.len() implies #[trigger] link(t, m, more, lines, k) by {
            if k < ss.len() {
                assert(link(t, m, ss, trace, k));
            }
        }
        assert forall|k: int| 0 < k < more.len() - 1 implies (#[trigger] end_of(
            t,
            m,
            more,
            k,
        )) is None by {
            assert(end_of(t, m, ss, k) is None);
        }
        assert(end_of(t, m, more, it as int) == end);
        assert(course(t, m, more, lines));
        match end {
            Some(_) => more,
            None => {
                assert forall|k: int| 0 < k < more.len() implies (#[trigger] end_of(
                    t,
                    m,
                    more,
                    k,
                )) is None by {
                    if k < ss.len() {
                        assert(end_of(t, m, ss, k) is None);
                    }
                }
                assert(more.last() == next);
                lemma_run_course(t, m, more, lines, it + 1)
            },
        }
    }
}

/// A fit with more points than free parameters is a course of iterations from the
/// initial parameters, each from where the one before it left the fit, up to the
/// first that ends it, or as many as are allowed.  It ends where the last one left
/// it, with the status of that one, or for want of more iterations.
pub proof fn law_fit_is_a_course_of_iterations<T>(t: Task<T>, m: Meaning<T>) -> (all: Seq<Stand<T>>)
    requires
        kept(t.mask).len() > t.plan.free(),
    ensures
        ({
            let e = t.ending(m);
            &&& course(t, m, all, e.trace)
            &&& all.last() == e.stand
            &&& e.status is MaxIterations ==> all.len() == MAX_ITER + 1
            &&& !(e.status is MaxIterations) ==> all.len() > 1 && e.iterations == all.len() - 1
                && end_of(t, m, all, all.len() - 1) == Some(e.status)
        }),
{
    let s = t.start(m);
    let ss = seq![s];
    let trace = seq![t.opening(s)];
    assert(course(t, m, ss, trace));
    assert(ss.last() == s);
    lemma_run_course(t, m, ss, trace, 1)
}

// -------------------------------------------------------------------- what is reported

/// Everything that a fit stands with belongs to its free vector.
spec fn consistent<T>(t: Task<T>, m: Meaning<T>, s: Stand<T>) -> bool {
    &&& s.p == t.plan.full(m, s.q)
    &&& s.r == t.residual(m, s.p)
    &&& s.chi == sum_squares(m, s.r, s.r.len() as int)
}

proof fn lemma_run_consistent<T>(
    t: Task<T>,
    m: Meaning<T>,
    s: Stand<T>,
    trace: Seq<Entry<T>>,
    it: nat,
)
    requires
        consistent(t, m, s),
        it <= MAX_ITER + 1,
    ensures
        consistent(t, m, t.run(m, s, trace, it).stand),
    decreases MAX_ITER + 1 - it,
{
    if it <= MAX_ITER {
        let (next, entry, end) = t.iterated(m, s, it);
        assert(consistent(t, m, next));
        if end is None {
            lemma_run_consistent(t, m, next, trace.push(entry), it + 1);
        }
    }
}

/// A point that is not excluded is kept at its rank.
proof fn lemma_rank_place(mask: Seq<bool>, i: int, n: nat)
    requires
        0 <= i < n,
        !mask[i],
    ensures
        rank(mask, i) < places(n, |j: int| !mask[j]).len(),
        places(n, |j: int| !mask[j])[rank(mask, i) as int] == i,
    decreases n,
{
    if i < n - 1 {
        lemma_rank_place(mask, i, (n - 1) as nat);
    }
}

/// What a report says of the points.  The fitted curve is the model with the
/// reported parameters, at every point.  The residual is the fitted curve less the
/// data, and not a number where a point is excluded.  Chi-square, and the residual
/// sum of squares, is the sum of the squares of the residual over the points that
/// are kept.
pub proof fn law_reported_curve(
    m: Meaning<Binary64>,
    t: Task<Binary64>,
    rep: FitReport,
    i: int,
)
    requires
        rep.tells(m, t, t.ending(m)),
        t.mask.len() == t.xs.len(),
        0 <= i < t.xs.len(),
    ensures
        rep.fitted@.len() == t.xs.len(),
        rep.residual@.len() == t.xs.len(),
        rep.fitted@[i] == model_value(m, t.nodes, t.xs[i], rep.kinds@, rep.params@),
        t.mask[i] ==> rep.residual@[i] == m.num(NAN_BITS),
        !t.mask[i] ==> rep.residual@[i] == m.sub(rep.fitted@[i], t.ys[i]),
        rep.chi2 == rep.rss,
        rep.chi2 == sum_squares(
            m,
            kept(t.mask).map_values(|k: int| rep.residual@[k]),
            kept(t.mask).len() as int,
        ),
{
    let e = t.ending(m);
    let s = t.start(m);
    assert(consistent(t, m, s));
    if kept(t.mask).len() > t.plan.free() {
        lemma_run_consistent(t, m, s, seq![t.opening(s)], 1);
    }
    let r = e.stand.r;
    let ks = kept(t.mask);
    assert(rep.fitted@[i] == t.model(m, e.stand.p, i));
    if !t.mask[i] {
        lemma_rank_place(t.mask, i, t.mask.len());
        assert(r[rank(t.mask, i) as int] == m.sub(t.model(m, e.stand.p, i), t.ys[i]));
    }
    let shown = ks.map_values(|k: int| rep.residual@[k]);
    law_kept_points(t.mask);
    assert forall|j: int| 0 <= j < ks.len() implies #[trigger] shown[j] == r[j] by {
        let k = ks[j];
        assert(!t.mask[k]);
        lemma_rank_place(t.mask, k, t.mask.len());
        let o = rank(t.mask, k) as int;
        assert(ks[o] == k);
        if o < j {
            assert(ks[o] < ks[j]);
        } else if j < o {
            assert(ks[j] < ks[o]);
        }
    }
    assert(shown =~= r);
}

/// The measures that are reported are those of the reported chi-square, of the points
/// that are kept and of the free parameters; the covariance is that of the normal
/// matrix at the reported parameters, with chi-square over the degrees of freedom.
pub proof fn law_reported_measures(m: Meaning<Binary64>, t: Task<Binary64>, rep: FitReport)
    requires
        rep.tells(m, t, t.ending(m)),
    ensures
        ({
            let n = kept(t.mask).len();
            let k = t.plan.free();
            let q = t.plan.freed(m, rep.params@);
            &&& n > k ==> rep.dof + k == n
            &&& n <= k ==> rep.dof == 0
            &&& rep.rmse == rmse(m, rep.chi2, n)
            &&& rep.aic == aic(m, rep.chi2, n, k)
            &&& rep.bic == bic(m, rep.chi2, n, k)
            &&& n > k ==> rep.covariance@ == covariance(
                m,
                gram(m, t.columns(m, q), n),
                k,
                m.div(rep.chi2, m.count(rep.dof as nat)),
            )
            &&& rep.correlation@ == correlation(m, rep.covariance@, k)
        }),
{
    let s = t.start(m);
    assert(consistent(t, m, s));
    if kept(t.mask).len() > t.plan.free() {
        lemma_run_consistent(t, m, s, seq![t.opening(s)], 1);
    }
    assert(t.ending(m).stand.r.len() == kept(t.mask).len());
}

/// A report says that a fit converged if and only if its status does.
pub proof fn law_reported_status(
    m: Meaning<Binary64>,
    t: Task<Binary64>,
    e: Ending<Binary64>,
    rep: FitReport,
)
    requires
        rep.tells(m, t, e),
    ensures
        rep.converged <==> rep.status@ == "converged"@,
        rep.converged <==> e.status is Converged,
        rep.status@ == "underdetermined"@ <==> e.status is Underdetermined,
        rep.status@ == "no_finite_step"@ <==> e.status is NoFiniteStep,
        rep.status@ == "max_iterations"@ <==> e.status is MaxIterations,
{
    reveal_strlit("converged");
    reveal_strlit("underdetermined");
    reveal_strlit("no_finite_step");
    reveal_strlit("max_iterations");
    assert("converged"@.len() == 9);
    assert("underdetermined"@.len() == 15);
    assert("no_finite_step"@.len() == 14 && "no_finite_step"@[0] == 'n');
    assert("max_iterations"@.len() == 14 && "max_iterations"@[0] == 'm');
}

} // verus!
