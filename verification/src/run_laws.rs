//! Laws of requests for a fit, from the first look into the store to the answer.

use crate::api::{text_hash, Reply};
use crate::arithmetic::{follows, Arithmetic, Meaning};
use crate::binary64::Binary64;
use crate::data::{law_text_is_read_in_one_way, parses_as, Spectrum};
use crate::db::{committed, effects, Change, NewFit, Tables};
use crate::db_laws::{goes_through, law_publication_is_atomic, law_published_fit_is_found, one_job_each};
use crate::json::{json_text, optional_text, reprinted};
use crate::notation::{writes, Notation, Script};
use crate::payload::report_model;
use crate::provenance::{law_same_scheme_same_fingerprint, same_scheme};
use crate::run::{
    evaluation_of, fresh_model, goes_on, outcome_of, replay_model, replays, sends, Course,
    Evaluation, FitRequest, News, Order, Outcome,
};
use crate::scheme::{fingerprint_of, PreparedFit};
use vstd::prelude::*;

verus! {

// ------------------------------------------------------------- the course of a request

/// The text of a stored data set.
pub open spec fn text_in(t: Tables, dataset: i64) -> Option<Seq<char>> {
    if t.datasets.contains_key(dataset) {
        Some(t.datasets[dataset].raw_csv@)
    } else {
        None
    }
}

/// What the store is once an order is carried out, where new rows get the
/// numbers `ids`.
pub open spec fn carried_out(t: Tables, order: Order, ids: Seq<i64>) -> Tables {
    match order {
        Order::AddScheme(n) => committed(t, seq![Change::AddScheme(n)], ids),
        Order::ClaimJob(f, dataset, scheme) => committed(
            t,
            seq![Change::AddJob(f, dataset, scheme)],
            ids,
        ),
        Order::Commit(cs) => committed(t, cs@, ids),
        _ => t,
    }
}

/// What is found out by carrying out an order.
pub open spec fn found_out(t: Tables, order: Order, ids: Seq<i64>, news: News) -> bool {
    let u = carried_out(t, order, ids);
    match order {
        Order::FindFit(f) => news matches News::Fit(o) && optional_text(o) == t.report_for(f@),
        Order::AddScheme(_) => news matches News::Scheme(r) && (r matches Ok(k) ==> k == ids[0]),
        Order::ClaimJob(f, _, _) => news matches News::Job(r) && (r matches Ok(h) ==> {
            &&& u.jobs.contains_key(h.id)
            &&& u.jobs[h.id].fingerprint == f@
            &&& u.jobs[h.id].status == h.status@
        }),
        Order::Commit(cs) => news matches News::Committed(r) && (r is Ok <==> goes_through(
            t,
            cs@,
            ids,
        )),
        _ => false,
    }
}

/// A request at one point of its course: the store, where the request stands,
/// what was found out, where it stands next, and what is done then.
pub struct Moment {
    pub tables: Tables,
    pub course: Course,
    pub news: News,
    pub next: Option<Course>,
    pub order: Order,
    pub ids: Seq<i64>,
}

impl Moment {
    /// The store once the order is carried out.
    pub open spec fn after(self) -> Tables {
        carried_out(self.tables, self.order, self.ids)
    }
}

/// At its point `i` a request goes on as it must, to its next point or to its
/// end.
pub open spec fn passes<A: Arithmetic, N: Notation>(
    nodes: Seq<(Binary64, Binary64)>,
    req: FitRequest,
    ms: Seq<Moment>,
    i: int,
) -> bool {
    let a = ms[i];
    &&& goes_on::<A, N>(nodes, req, a.course, a.news, a.next, a.order)
    &&& if i + 1 < ms.len() {
        &&& a.next == Some(ms[i + 1].course)
        &&& ms[i + 1].tables == a.after()
        &&& found_out(a.tables, a.order, a.ids, ms[i + 1].news)
    } else {
        a.next is None
    }
}

/// These are the points of a request that begins with the store `t` and is
/// carried out to its end.
pub open spec fn runs<A: Arithmetic, N: Notation>(
    nodes: Seq<(Binary64, Binary64)>,
    req: FitRequest,
    t: Tables,
    ms: Seq<Moment>,
) -> bool {
    &&& ms.len() > 0
    &&& ms[0].tables == t
    &&& ms[0].course == Course::Begun
    &&& ms[0].news matches News::Dataset(o)
    &&& optional_text(o) == text_in(t, req.dataset_id)
    &&& forall|i: int| 0 <= i < ms.len() ==> #[trigger] passes::<A, N>(nodes, req, ms, i)
}

/// The answer `p` gives the report with the text `report` for the fingerprint
/// `f`, from the store or from a fresh fit.
pub open spec fn gives(
    s: Script,
    p: Reply,
    f: Seq<char>,
    auto_candidate: bool,
    report: Seq<char>,
) -> bool {
    ||| reprinted(report) is Some && p.says(replay_model(f, reprinted(report)->0))
    ||| exists|k: i64, pf: PreparedFit| #[trigger]
        p.says(fresh_model(s, f, k, auto_candidate, pf)) && report == json_text(
            report_model(s, pf.report),
        )
}

// -------------------------------------------------------------------------- laws

proof fn lemma_row_added(t: Tables, c: Change, ids: Seq<i64>)
    requires
        one_job_each(t),
        c is AddScheme || c is AddJob,
    ensures
        ({
            let u = committed(t, seq![c], ids);
            &&& one_job_each(u)
            &&& u.datasets == t.datasets
        }),
{
    reveal_with_fuel(effects, 2);
    let cs = seq![c];
    assert(cs[0] == c);
    let u = committed(t, cs, ids);
    if let Change::AddJob(f, _, _) = c {
        assert forall|i: i64, j: i64|
            #![trigger u.jobs.contains_key(i), u.jobs.contains_key(j)]
            u.jobs.contains_key(i) && u.jobs.contains_key(j) && u.jobs[i].fingerprint
                == u.jobs[j].fingerprint implies i == j by {
            if t.has_job_for(f@) {
                assert(t.jobs.contains_key(i) && t.jobs.contains_key(j));
            } else {
                if i != ids[0] {
                    assert(t.jobs.contains_key(i));
                }
                if j != ids[0] {
                    assert(t.jobs.contains_key(j));
                }
            }
        }
    }
}

/// A fit that was made and published is answered and found.
proof fn lemma_sent<A: Arithmetic, N: Notation>(
    m: Meaning<Binary64>,
    s: Script,
    nodes: Seq<(Binary64, Binary64)>,
    req: FitRequest,
    ms: Seq<Moment>,
    i: int,
    e: Evaluation,
    k: i64,
    o: Outcome,
    job: i64,
    p: Reply,
)
    requires
        follows::<A>(m),
        writes::<N>(s),
        outcome_of::<A, N>(nodes, req, e, Ok(o)),
        0 <= i < ms.len(),
        forall|j: int| 0 <= j < ms.len() ==> #[trigger] passes::<A, N>(nodes, req, ms, j),
        one_job_each(ms[i].tables),
        ms[i].tables.jobs.contains_key(job),
        ms[i].tables.jobs[job].fingerprint == e.fingerprint@,
        sends(ms[i].next, ms[i].order, e, k, o, job),
        ms.last().order == Order::Answer(p),
        p.code == 200,
    ensures
        ({
            let u = ms.last().after();
            &&& u.report_for(e.fingerprint@) == Some(o.report_json@)
            &&& gives(s, p, e.fingerprint@, req.auto_candidate, o.report_json@)
            &&& u.datasets == ms[i].tables.datasets
        }),
{
    assert(passes::<A, N>(nodes, req, ms, i));
    assert(passes::<A, N>(nodes, req, ms, i + 1));
    let t = ms[i].tables;
    let ids = ms[i].ids;
    let fit = NewFit {
        job,
        report_json: o.report_json,
        baseline_json: o.baseline_json,
        converged: o.prepared.report.converged,
    };
    assert(ms[i + 1].next is None);
    assert(i + 2 == ms.len());
    assert(ms[i + 1].order == Order::Answer(p));
    law_published_fit_is_found(t, fit, o.artifacts@, ids);
    law_publication_is_atomic(t, fit, o.artifacts@, ids);
    assert(o.records(s, req.spec, e));
    assert(p.says(fresh_model(s, e.fingerprint@, k, req.auto_candidate, o.prepared)));
}

/// A request that is met leaves the report that it is answered with in the
/// store, under the fingerprint of the data and the scheme, and the data sets
/// as they were.
pub proof fn law_answered_fit_is_stored<A: Arithmetic, N: Notation>(
    m: Meaning<Binary64>,
    s: Script,
    nodes: Seq<(Binary64, Binary64)>,
    req: FitRequest,
    t: Tables,
    ms: Seq<Moment>,
    p: Reply,
)
    requires
        follows::<A>(m),
        writes::<N>(s),
        one_job_each(t),
        runs::<A, N>(nodes, req, t, ms),
        ms.last().order == Order::Answer(p),
        p.code == 200,
    ensures
        ({
            let u = ms.last().after();
            &&& text_in(t, req.dataset_id) matches Some(c)
            &&& u.report_for(fingerprint_of(s, text_hash(c), req.spec)) matches Some(r)
            &&& gives(
                s,
                p,
                fingerprint_of(s, text_hash(c), req.spec),
                req.auto_candidate,
                r,
            )
            &&& u.datasets == t.datasets
            &&& exists|e: Evaluation| #[trigger] evaluation_of::<N>(req, Some(c), Ok(e))
        }),
{
    assert(passes::<A, N>(nodes, req, ms, 0));
    let csv = text_in(t, req.dataset_id);
    let x = choose|x: Result<Evaluation, Reply>| #[trigger]
        evaluation_of::<N>(req, csv, x) && match x {
            Ok(e) => ms[0].next == Some(Course::Looked(e)) && (ms[0].order matches Order::FindFit(
                f,
            ) && f@ == e.fingerprint@),
            Err(p) => ms[0].next is None && ms[0].order == Order::Answer(p),
        };
    assert(x is Ok);
    let e = x->Ok_0;
    let f = e.fingerprint@;
    assert(f == fingerprint_of(s, text_hash(csv->0), req.spec));
    assert(passes::<A, N>(nodes, req, ms, 1));
    assert(ms[1].course == Course::Looked(e));
    assert(ms[1].tables == t);
    let first = ms[1].news->Fit_0;
    if first is Some {
        assert(ms[1].next is None);
    } else {
        assert(ms[1].next == Some(Course::Added(e)));
        assert(passes::<A, N>(nodes, req, ms, 2));
        lemma_row_added(t, Change::AddScheme(ms[1].order->AddScheme_0), ms[1].ids);
        assert(ms[2].news is Scheme);
        assert(ms[2].news->Scheme_0 is Ok);
        let k = ms[2].news->Scheme_0->Ok_0;
        let y = choose|y: Result<Outcome, Reply>| #[trigger]
            outcome_of::<A, N>(nodes, req, e, y) && match y {
                Ok(o) => ms[2].next == Some(Course::Claimed(e, k, o)) && (ms[2].order matches
                    Order::ClaimJob(g, ds, sc) && g@ == e.fingerprint@ && ds == req.dataset_id
                    && sc == k),
                Err(p) => ms[2].next is None && ms[2].order == Order::Answer(p),
            };
        assert(y is Ok);
        let o = y->Ok_0;
        assert(passes::<A, N>(nodes, req, ms, 3));
        let g = ms[2].order->ClaimJob_0;
        lemma_row_added(
            ms[2].tables,
            Change::AddJob(g, ms[2].order->ClaimJob_1, ms[2].order->ClaimJob_2),
            ms[2].ids,
        );
        assert(ms[3].news is Job);
        assert(ms[3].news->Job_0 is Ok);
        let h = ms[3].news->Job_0->Ok_0;
        if h.status@ == "done"@ {
            assert(ms[3].next == Some(Course::Raced(e, k, o, h.id)));
            assert(passes::<A, N>(nodes, req, ms, 4));
            assert(ms[4].tables == ms[3].tables);
            if ms[4].news->Fit_0 is Some {
                assert(ms[4].next is None);
            } else {
                lemma_sent::<A, N>(m, s, nodes, req, ms, 4, e, k, o, h.id, p);
            }
        } else {
            lemma_sent::<A, N>(m, s, nodes, req, ms, 3, e, k, o, h.id, p);
        }
    }
}

/// A request for which a fit is stored is met by replaying it: the store is
/// asked for the report with the fingerprint, and the request ends with that
/// report.  Nothing is computed, and nothing is added or changed.
pub proof fn law_stored_fit_is_replayed<A: Arithmetic, N: Notation>(
    s: Script,
    nodes: Seq<(Binary64, Binary64)>,
    earlier: FitRequest,
    e: Evaluation,
    req: FitRequest,
    t: Tables,
    ms: Seq<Moment>,
    csv: Seq<char>,
    report: Seq<char>,
)
    requires
        writes::<N>(s),
        evaluation_of::<N>(earlier, Some(csv), Ok(e)),
        runs::<A, N>(nodes, req, t, ms),
        text_in(t, req.dataset_id) == Some(csv),
        t.report_for(fingerprint_of(s, text_hash(csv), req.spec)) == Some(report),
    ensures
        ms.len() == 2,
        replays(
            ms[1].next,
            ms[1].order,
            fingerprint_of(s, text_hash(csv), req.spec),
            report,
        ),
        ms[0].after() == t,
        ms[1].after() == t,
{
    assert(passes::<A, N>(nodes, req, ms, 0));
    let x = choose|x: Result<Evaluation, Reply>| #[trigger]
        evaluation_of::<N>(req, Some(csv), x) && match x {
            Ok(e) => ms[0].next == Some(Course::Looked(e)) && (ms[0].order matches Order::FindFit(
                f,
            ) && f@ == e.fingerprint@),
            Err(p) => ms[0].next is None && ms[0].order == Order::Answer(p),
        };
    if x is Err {
        let sp = choose|sp: Spectrum| #[trigger]
            parses_as::<N>(csv, Ok(sp)) && sp.diagnostics.too_few_rows;
        assert(parses_as::<N>(csv, Ok(sp)));
        assert(parses_as::<N>(csv, Ok(e.spectrum)));
        law_text_is_read_in_one_way::<N>(s, csv, sp, e.spectrum);
    }
    assert(passes::<A, N>(nodes, req, ms, 1));
    assert(ms[1].next is None);
}

/// A request that is repeated is replayed: the same data set and the same
/// scheme, right after a request that was met, are answered with the stored
/// report of the first answer under the same fingerprint, and no data set,
/// scheme, job, fit or curve is added or changed.
pub proof fn law_repeated_request_is_replayed<A: Arithmetic, N: Notation>(
    m: Meaning<Binary64>,
    s: Script,
    nodes: Seq<(Binary64, Binary64)>,
    first: FitRequest,
    second: FitRequest,
    t: Tables,
    ms: Seq<Moment>,
    ns: Seq<Moment>,
    p: Reply,
)
    requires
        follows::<A>(m),
        writes::<N>(s),
        one_job_each(t),
        first.dataset_id == second.dataset_id,
        same_scheme(first.spec, second.spec),
        runs::<A, N>(nodes, first, t, ms),
        ms.last().order == Order::Answer(p),
        p.code == 200,
        runs::<A, N>(nodes, second, ms.last().after(), ns),
    ensures
        ({
            let u = ms.last().after();
            &&& text_in(t, first.dataset_id) matches Some(c)
            &&& u.report_for(fingerprint_of(s, text_hash(c), first.spec)) matches Some(r)
            &&& gives(
                s,
                p,
                fingerprint_of(s, text_hash(c), first.spec),
                first.auto_candidate,
                r,
            )
            &&& replays(
                ns.last().next,
                ns.last().order,
                fingerprint_of(s, text_hash(c), first.spec),
                r,
            )
            &&& forall|i: int| 0 <= i < ns.len() ==> (#[trigger] ns[i]).after() == u
        }),
{
    let c = text_in(t, first.dataset_id)->0;
    law_answered_fit_is_stored::<A, N>(m, s, nodes, first, t, ms, p);
    let u = ms.last().after();
    let r = u.report_for(fingerprint_of(s, text_hash(c), first.spec))->0;
    let e = choose|e: Evaluation| #[trigger] evaluation_of::<N>(first, Some(c), Ok(e));
    law_same_scheme_same_fingerprint(s, text_hash(c), first.spec, second.spec);
    law_stored_fit_is_replayed::<A, N>(s, nodes, first, e, second, u, ns, c, r);
}

} // verus!
