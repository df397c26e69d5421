//! Laws of the fit.

use crate::arithmetic::{exact, native, Meaning};
use crate::binary64::Binary64;
use crate::fit::{kept, stepped, Ending, Entry, Stand, Status, Task, MAX_ITER};
use crate::layout::Plan;
use crate::model::AMPLITUDE_FLOOR_BITS;
use vstd::prelude::*;

verus! {

/// What is below something is below all that the latter is below.
pub open spec fn ordered<T>(m: Meaning<T>) -> bool {
    forall|a: T, b: T, c: T| #[trigger] m.lt(a, b) && #[trigger] m.lt(b, c) ==> m.lt(a, c)
}

/// The order of numbers of the format binary64 is one.
pub proof fn law_native_order_is_transitive(m: Meaning<Binary64>)
    requires
        native(m),
    ensures
        ordered(m),
{
}

/// Where the fit stands is what the last accepted line of the record says, and
/// chi-square falls from each accepted line to the next.
pub open spec fn recorded<T>(m: Meaning<T>, s: Stand<T>, trace: Seq<Entry<T>>) -> bool {
    &&& trace.len() > 0
    &&& trace[0].accepted
    &&& forall|k: int| 0 <= k < trace.len() ==> (#[trigger] trace[k]).iter == k
    &&& exists|a: int| #[trigger] last_accepted(trace, a) && trace[a].chi2 == s.chi && trace[a].params
        == s.p
    &&& forall|i: int, j: int|
        0 <= i < j < trace.len() && (#[trigger] trace[i]).accepted && (#[trigger] trace[j]).accepted
            ==> m.lt(trace[j].chi2, trace[i].chi2)
    &&& forall|k: int| 0 < k < trace.len() && (#[trigger] trace[k]).accepted ==> m.fin(trace[k].chi2)
}

/// The line `a` is the last one that was accepted.
pub open spec fn last_accepted<T>(trace: Seq<Entry<T>>, a: int) -> bool {
    &&& 0 <= a < trace.len()
    &&& trace[a].accepted
    &&& forall|k: int| a < k < trace.len() ==> !(#[trigger] trace[k]).accepted
}

proof fn lemma_iterated<T>(t: Task<T>, m: Meaning<T>, s: Stand<T>, trace: Seq<Entry<T>>, it: nat)
    requires
        ordered(m),
        recorded(m, s, trace),
        trace.len() == it,
    ensures
        ({
            let (next, entry, end) = t.iterated(m, s, it);
            &&& recorded(m, next, trace.push(entry))
            &&& end == Some(Status::Converged) ==> entry.accepted
            &&& end == Some(Status::NoFiniteStep) ==> !entry.accepted
            &&& end matches Some(e) ==> e is Converged || e is NoFiniteStep
        }),
{
    let (next, entry, end) = t.iterated(m, s, it);
    let more = trace.push(entry);
    let a = choose|a: int| #[trigger]
        last_accepted(trace, a) && trace[a].chi2 == s.chi && trace[a].params == s.p;
    if entry.accepted {
        assert(last_accepted(more, it as int));
        assert forall|i: int, j: int|
            0 <= i < j < more.len() && (#[trigger] more[i]).accepted && (
            #[trigger] more[j]).accepted implies m.lt(more[j].chi2, more[i].chi2) by {
            if j == it {
                assert(more[i] == trace[i]);
                if i < a {
                    assert(m.lt(trace[a].chi2, trace[i].chi2));
                    assert(m.lt(entry.chi2, trace[a].chi2));
                } else if i > a {
                    assert(!trace[i].accepted);
                }
            } else {
                assert(more[i] == trace[i] && more[j] == trace[j]);
            }
        }
    } else {
        assert(last_accepted(more, a));
        assert forall|i: int, j: int|
            0 <= i < j < more.len() && (#[trigger] more[i]).accepted && (
            #[trigger] more[j]).accepted implies m.lt(more[j].chi2, more[i].chi2) by {
            assert(more[i] == trace[i] && more[j] == trace[j]);
        }
    }
}

/// What is said of the end of a fit.
pub open spec fn well_ended<T>(m: Meaning<T>, e: Ending<T>) -> bool {
    &&& recorded(m, e.stand, e.trace)
    &&& 1 <= e.iterations <= MAX_ITER
    &&& e.trace.len() == (if e.status is Underdetermined {
        1
    } else {
        e.iterations + 1
    })
    &&& e.status is Converged ==> e.trace.last().accepted
    &&& e.status is NoFiniteStep ==> !e.trace.last().accepted
    &&& e.status is MaxIterations ==> e.iterations == MAX_ITER
}

proof fn lemma_run<T>(t: Task<T>, m: Meaning<T>, s: Stand<T>, trace: Seq<Entry<T>>, it: nat)
    requires
        ordered(m),
        recorded(m, s, trace),
        trace.len() == it,
        1 <= it <= MAX_ITER + 1,
    ensures
        well_ended(m, t.run(m, s, trace, it)),
        !(t.run(m, s, trace, it).status is Underdetermined),
    decreases MAX_ITER + 1 - it,
{
    if it <= MAX_ITER {
        lemma_iterated(t, m, s, trace, it);
        let (next, entry, end) = t.iterated(m, s, it);
        if end is None {
            lemma_run(t, m, next, trace.push(entry), it + 1);
        }
    }
}

/// Every fit keeps a full record.  The record has a line for the start and one
/// for each iteration, in order.  The fit ends where its last accepted line
/// stands; accepted values of chi-square are finite and fall from line to line,
/// so a fit never ends worse than it began.  A fit that converged ended with an
/// accepted line, one without a finite step with a rejected one, and the fit
/// ends within the allowed iterations.
pub proof fn law_record<T>(t: Task<T>, m: Meaning<T>)
    requires
        ordered(m),
    ensures
        well_ended(m, t.ending(m)),
        t.ending(m).status is Underdetermined <==> kept(t.mask).len() <= t.plan.free(),
{
    let s = t.start(m);
    let trace = seq![t.opening(s)];
    assert(last_accepted(trace, 0));
    assert(recorded(m, s, trace));
    if kept(t.mask).len() > t.plan.free() {
        lemma_run(t, m, s, trace, 1);
    }
}

// -------------------------------------------------------------------- parameters

/// Every line of the record holds the parameters that some free vector stands
/// for.
spec fn drawn<T>(t: Task<T>, m: Meaning<T>, trace: Seq<Entry<T>>) -> bool {
    forall|k: int|
        0 <= k < trace.len() ==> exists|q: Seq<T>| (#[trigger] trace[k]).params
            == #[trigger] t.plan.full(m, q)
}

proof fn lemma_run_full<T>(t: Task<T>, m: Meaning<T>, s: Stand<T>, trace: Seq<Entry<T>>, it: nat)
    requires
        s.p == t.plan.full(m, s.q),
        drawn(t, m, trace),
        it <= MAX_ITER + 1,
    ensures
        ({
            let e = t.run(m, s, trace, it);
            &&& e.stand.p == t.plan.full(m, e.stand.q)
            &&& drawn(t, m, e.trace)
        }),
    decreases MAX_ITER + 1 - it,
{
    if it <= MAX_ITER {
        let (next, entry, end) = t.iterated(m, s, it);
        let (lambda, step) = t.proposed(m, s);
        let tried = t.stand(m, stepped(m, s.q, step->0), lambda);
        assert(entry.params == s.p || entry.params == t.plan.full(m, tried.q));
        let more = trace.push(entry);
        assert forall|k: int| 0 <= k < more.len() implies exists|q: Seq<T>|
            (#[trigger] more[k]).params == #[trigger] t.plan.full(m, q) by {
            if k < trace.len() {
                assert(more[k] == trace[k]);
            }
        }
        assert(drawn(t, m, more));
        if end is None {
            lemma_run_full(t, m, next, more, it + 1);
        }
    }
}

proof fn lemma_ending_full<T>(t: Task<T>, m: Meaning<T>)
    ensures
        ({
            let e = t.ending(m);
            &&& e.stand.p == t.plan.full(m, e.stand.q)
            &&& drawn(t, m, e.trace)
        }),
{
    let s = t.start(m);
    let trace = seq![t.opening(s)];
    assert(trace[0].params == t.plan.full(m, s.q));
    assert(drawn(t, m, trace));
    if kept(t.mask).len() > t.plan.free() {
        lemma_run_full(t, m, s, trace, 1);
    }
}

/// A parameter that is not free keeps its initial value throughout the fit: in
/// every line of the record, and at the end.
pub proof fn law_fixed_parameters_stay<T>(t: Task<T>, m: Meaning<T>, i: int)
    requires
        t.plan.sound(),
        0 <= i < t.plan.p0.len(),
        forall|f: int| 0 <= f < t.plan.free() ==> t.plan.map[f] != i,
    ensures
        t.ending(m).stand.p[i] == t.plan.p0[i],
        forall|k: int|
            0 <= k < t.ending(m).trace.len() ==> (#[trigger] t.ending(m).trace[k]).params[i]
                == t.plan.p0[i],
{
    let e = t.ending(m);
    lemma_ending_full(t, m);
    assert forall|q: Seq<T>| (#[trigger] t.plan.full(m, q))[i] == t.plan.p0[i] by {
        t.plan.lemma_filled(m, q, t.plan.free() as int);
        assert(t.plan.filled(m, q, t.plan.free() as int)[i] == t.plan.p0[i]);
    }
    assert forall|k: int| 0 <= k < e.trace.len() implies (#[trigger] e.trace[k]).params[i]
        == t.plan.p0[i] by {
        let q = choose|q: Seq<T>| e.trace[k].params == #[trigger] t.plan.full(m, q);
        assert(t.plan.full(m, q)[i] == t.plan.p0[i]);
    }
}

/// A parameter that is fitted by its logarithm is positive throughout a fit,
/// over the real numbers, where exponentials are.
pub proof fn law_log_parameters_positive(t: Task<real>, m: Meaning<real>, f: int)
    requires
        t.plan.sound(),
        0 <= f < t.plan.free(),
        t.plan.log[t.plan.map[f]],
        forall|x: real| #[trigger] (m.exp)(x) > 0real,
    ensures
        t.ending(m).stand.p[t.plan.map[f]] > 0real,
        forall|k: int|
            0 <= k < t.ending(m).trace.len() ==> (#[trigger] t.ending(
                m,
            ).trace[k]).params[t.plan.map[f]] > 0real,
{
    let e = t.ending(m);
    let i = t.plan.map[f];
    lemma_ending_full(t, m);
    assert forall|q: Seq<real>| (#[trigger] t.plan.full(m, q))[i] > 0real by {
        t.plan.lemma_filled(m, q, t.plan.free() as int);
        assert(t.plan.filled(m, q, t.plan.free() as int)[t.plan.map[f]] == t.plan.outward(
            m,
            q[f],
            t.plan.map[f],
        ));
    }
    assert forall|k: int| 0 <= k < e.trace.len() implies (#[trigger] e.trace[k]).params[i]
        > 0real by {
        let q = choose|q: Seq<real>| e.trace[k].params == #[trigger] t.plan.full(m, q);
        assert(t.plan.full(m, q)[i] > 0real);
    }
}

/// Exponential and logarithm undo each other.
pub open spec fn inverse_logs<T>(m: Meaning<T>, least: T) -> bool {
    &&& forall|x: T| !m.lt(x, least) ==> m.e(#[trigger] m.log(x)) == x
    &&& forall|x: T| m.log(#[trigger] m.e(x)) == x
}

/// Over the real numbers, parameters come back from the free vector, where
/// those that are not free have their initial values and those fitted by their
/// logarithm are not below the least amplitude.
pub proof fn law_parameters_round_trip(plan: Plan<real>, m: Meaning<real>, p: Seq<real>)
    requires
        plan.sound(),
        exact(m),
        inverse_logs(m, m.num(AMPLITUDE_FLOOR_BITS)),
        p.len() == plan.p0.len(),
        forall|i: int|
            0 <= i < p.len() && (forall|f: int| 0 <= f < plan.free() ==> plan.map[f] != i)
                ==> #[trigger] p[i] == plan.p0[i],
        forall|i: int|
            0 <= i < p.len() && plan.log[i] ==> #[trigger] p[i] >= m.num(AMPLITUDE_FLOOR_BITS),
    ensures
        plan.full(m, plan.freed(m, p)) == p,
{
    let q = plan.freed(m, p);
    let n = plan.free() as int;
    plan.lemma_filled(m, q, n);
    let r = plan.filled(m, q, n);
    assert forall|i: int| 0 <= i < p.len() implies #[trigger] r[i] == p[i] by {
        if exists|f: int| 0 <= f < plan.free() && plan.map[f] == i {
            let f = choose|f: int| 0 <= f < plan.free() && plan.map[f] == i;
            assert(r[plan.map[f]] == plan.outward(m, q[f], plan.map[f]));
            assert(p[i] == p[i]);
        } else {
            assert(r[i] == plan.p0[i]);
            assert(p[i] == plan.p0[i]);
        }
    }
    assert(r =~= p);
}

} // verus!
