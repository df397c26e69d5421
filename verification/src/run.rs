//! Running a fit on request.
//!
//! The course of a request alternates with the store: the data set is read,
//! a stored fit with the same fingerprint is looked for and replayed, the
//! scheme is stored, the fit is made, a job is claimed, and the fit is
//! published with its curves, unless an identical job published first.

use crate::api::{json_err, json_ok, text_hash, Reply};
use crate::arithmetic::{follows, Arithmetic, Meaning};
use crate::binary64::Binary64;
use crate::data::{parse_csv, parses_as, table_fault, Spectrum};
use crate::db::{publication, publish_fit, Artifact, Change, JobHit, NewFit, NewScheme};
use crate::hash::{sha256, sha256_hex};
use crate::json::{
    canonical, canonical_json, json_text, member_models, optional_text, reprinted, signed_json,
    signed_model, stored, to_text, Json, JsonModel,
};
use crate::model::{baseline, MODEL_VERSION};
use crate::notation::{numbers_json, numbers_model, writes, Notation, Script};
use crate::numeral::hex;
use crate::payload::{marks_json, marks_model, report_json, report_model};
use crate::scheme::{
    artifact_body, artifact_hash, baseline_json, baseline_model, exclusions, fingerprint,
    fingerprint_of, run_pipeline, scheme_json, scheme_model, PreparedFit, SchemeSpec,
};
use crate::text::{chars_of, same};
use vstd::prelude::*;
use vstd::utf8::encode_utf8;

verus! {

/// A request for a fit.
pub struct FitRequest {
    pub dataset_id: i64,
    pub spec: SchemeSpec,
    pub auto_candidate: bool,
}

/// What is to be fitted.
pub struct Evaluation {
    pub input_hash: String,
    pub spectrum: Spectrum,
    pub fingerprint: String,
}

/// What a request comes to with the text of the data set, where there is one:
/// an evaluation, or a refusal of an unknown data set, of a text that is no
/// table, or of a table with too few finite rows.
pub open spec fn evaluation_of<N: Notation>(
    req: FitRequest,
    csv: Option<Seq<char>>,
    r: Result<Evaluation, Reply>,
) -> bool {
    match csv {
        None => r matches Err(e) && e.refuses(404, "unknown dataset"@),
        Some(c) => match table_fault(c) {
            Some(m) => r matches Err(e) && e.refuses(400, m),
            None => exists|sp: Spectrum| #[trigger]
                parses_as::<N>(c, Ok(sp)) && if sp.diagnostics.too_few_rows {
                    r matches Err(e) && e.refuses(400, "too few finite rows for fitting"@)
                } else {
                    r matches Ok(ev) && ev.spectrum == sp && ev.input_hash@ == text_hash(c)
                        && forall|s: Script| #[trigger]
                        writes::<N>(s) ==> ev.fingerprint@ == fingerprint_of(
                            s,
                            text_hash(c),
                            req.spec,
                        )
                },
        },
    }
}

/// What is to be fitted, given the text of the data set, where there is one.
pub fn on_dataset<N: Notation>(req: &FitRequest, csv: Option<String>) -> (r: Result<
    Evaluation,
    Reply,
>)
    ensures
        evaluation_of::<N>(*req, optional_text(csv), r),
        r matches Ok(ev) ==> ev.spectrum.x@.len() == ev.spectrum.y@.len(),
{
    let c: String = match csv {
        Some(c) => c,
        None => {
            return Err(json_err(404, "unknown dataset"));
        },
    };
    let input_hash: String = sha256_hex(c.as_str().as_bytes());
    let spectrum: Spectrum = match parse_csv::<N>(c.as_str()) {
        Ok(s) => s,
        Err(e) => {
            return Err(json_err(400, e.as_str()));
        },
    };
    assert(parses_as::<N>(c@, Ok(spectrum)));
    if spectrum.diagnostics.too_few_rows {
        return Err(json_err(400, "too few finite rows for fitting"));
    }
    let fp: String = fingerprint::<N>(input_hash.as_str(), &req.spec);
    Ok(Evaluation { input_hash, spectrum, fingerprint: fp })
}

/// What a replayed fit is answered, in JSON.
pub open spec fn replay_model(fingerprint: Seq<char>, report: Seq<char>) -> JsonModel {
    JsonModel::Object(
        seq![
            ("fingerprint"@, JsonModel::Str(fingerprint)),
            ("replayed"@, JsonModel::Bool(true)),
            ("report"@, JsonModel::Raw(report)),
        ],
    )
}

/// The answer that replays a stored report; none where it is no JSON text.
pub fn replay_reply(fingerprint: &str, report: &str) -> (r: Option<Reply>)
    ensures
        match reprinted(report@) {
            Some(t) => r matches Some(p) && p.says(replay_model(fingerprint@, t)),
            None => r is None,
        },
{
    let value: Json = match stored(report) {
        Some(j) => j,
        None => {
            return None;
        },
    };
    let mut o: Vec<(String, Json)> = Vec::new();
    o.push(("fingerprint".to_owned(), Json::Str(fingerprint.to_owned())));
    o.push(("replayed".to_owned(), Json::Bool(true)));
    o.push(("report".to_owned(), value));
    let ghost all = o@;
    let j: Json = Json::Object(o);
    proof {
        assert(member_models(all) =~= replay_model(fingerprint@, reprinted(report@)->0)->Object_0);
    }
    Some(json_ok(&j))
}

/// This is the scheme to be stored for a fit.  It has no parent, and an
/// automatic candidate is marked as such.
pub open spec fn scheme_for<N: Notation>(req: FitRequest, e: Evaluation, n: NewScheme) -> bool {
    &&& n.dataset == req.dataset_id
    &&& n.parent is None
    &&& n.fingerprint@ == e.fingerprint@
    &&& n.origin@ == (if req.auto_candidate {
        "auto_candidate"@
    } else {
        "manual"@
    })
    &&& forall|s: Script| #[trigger]
        writes::<N>(s) ==> n.spec_json@ == json_text(canonical(scheme_model(s, req.spec)))
}

/// The scheme to be stored for a fit.
pub fn scheme_of<N: Notation>(req: &FitRequest, e: &Evaluation) -> (n: NewScheme)
    ensures
        scheme_for::<N>(*req, *e, n),
{
    let j: Json = scheme_json::<N>(&req.spec);
    let origin: String = if req.auto_candidate {
        "auto_candidate".to_owned()
    } else {
        "manual".to_owned()
    };
    NewScheme {
        dataset: req.dataset_id,
        parent: None,
        spec_json: canonical_json(&j),
        fingerprint: e.fingerprint.clone(),
        origin,
    }
}

// ------------------------------------------------------------------------ curves

/// The parameters of a smoothed curve.
pub open spec fn smoothing_text(s: Script, sigma: Binary64) -> Seq<char> {
    "{\"smooth_sigma\":"@ + (s.shortest)(sigma) + "}"@
}

impl Artifact {
    /// This is the curve of the given kind with the points `xs`, `ys`, derived
    /// from an input and, where there is one, from another curve.
    pub open spec fn records(
        self,
        s: Script,
        kind: Seq<char>,
        params: Seq<char>,
        input_hash: Seq<char>,
        upstream: Option<Seq<char>>,
        xs: Seq<Binary64>,
        ys: Seq<Binary64>,
    ) -> bool {
        &&& self.kind@ == kind
        &&& self.method_version@ == MODEL_VERSION@
        &&& self.params_json@ == params
        &&& self.input_hash@ == input_hash
        &&& optional_text(self.upstream_hash) == upstream
        &&& self.artifact_hash@ == hex(
            sha256(
                encode_utf8(
                    artifact_body(s, input_hash, upstream, MODEL_VERSION@, params, xs, ys),
                ),
            ),
        )
        &&& self.x_json@ == json_text(numbers_model(s, xs))
        &&& self.y_json@ == json_text(numbers_model(s, ys))
    }
}

/// The curves of an evaluation: the baseline and, where there is one, the
/// smoothed curve derived from it.
pub open spec fn curves_record(
    s: Script,
    arts: Seq<Artifact>,
    spec: SchemeSpec,
    input_hash: Seq<char>,
    xs: Seq<Binary64>,
    pf: PreparedFit,
) -> bool {
    let params = json_text(canonical(baseline_model(s, spec.baseline)));
    &&& arts.len() == (if pf.smoothed is Some {
        2nat
    } else {
        1nat
    })
    &&& arts[0].records(s, "baseline"@, params, input_hash, None, xs, pf.baseline@)
    &&& pf.smoothed matches Some(v) ==> arts[1].records(
        s,
        "smoothed"@,
        smoothing_text(s, spec.smooth_sigma),
        input_hash,
        Some(arts[0].artifact_hash@),
        xs,
        v@,
    )
}

/// A curve to be stored.
fn curve<N: Notation>(
    kind: &str,
    params: String,
    input_hash: &str,
    upstream: Option<String>,
    xs: &Vec<Binary64>,
    ys: &Vec<Binary64>,
) -> (a: Artifact)
    ensures
        forall|s: Script| #[trigger]
            writes::<N>(s) ==> a.records(
                s,
                kind@,
                params@,
                input_hash@,
                optional_text(upstream),
                xs@,
                ys@,
            ),
{
    let hash: String = match &upstream {
        Some(h) => artifact_hash::<N>(
            input_hash,
            Some(h.as_str()),
            MODEL_VERSION,
            params.as_str(),
            xs,
            ys,
        ),
        None => artifact_hash::<N>(input_hash, None, MODEL_VERSION, params.as_str(), xs, ys),
    };
    let x: Json = numbers_json::<N>(xs);
    let y: Json = numbers_json::<N>(ys);
    Artifact {
        kind: kind.to_owned(),
        method_version: MODEL_VERSION.to_owned(),
        params_json: params,
        input_hash: input_hash.to_owned(),
        upstream_hash: upstream,
        artifact_hash: hash,
        x_json: to_text(&x),
        y_json: to_text(&y),
    }
}

/// The curves of an evaluation.
pub fn curves<N: Notation>(
    spec: &SchemeSpec,
    input_hash: &str,
    xs: &Vec<Binary64>,
    pf: &PreparedFit,
) -> (r: Vec<Artifact>)
    ensures
        forall|s: Script| #[trigger]
            writes::<N>(s) ==> curves_record(s, r@, *spec, input_hash@, xs@, *pf),
{
    let params: Json = baseline_json::<N>(&spec.baseline);
    let base: Artifact = curve::<N>(
        "baseline",
        canonical_json(&params),
        input_hash,
        None,
        xs,
        &pf.baseline,
    );
    let upstream: String = base.artifact_hash.clone();
    let mut r: Vec<Artifact> = Vec::new();
    r.push(base);
    if let Some(v) = &pf.smoothed {
        let mut text: String = "{\"smooth_sigma\":".to_owned();
        let sigma: String = N::shortest(spec.smooth_sigma);
        text.append(sigma.as_str());
        text.append("}");
        r.push(curve::<N>("smoothed", text, input_hash, Some(upstream), xs, v));
    }
    r
}

// ----------------------------------------------------------------------- the fit

/// A finished fit with what is to be stored of it.
pub struct Outcome {
    pub prepared: PreparedFit,
    pub report_json: String,
    pub baseline_json: String,
    pub artifacts: Vec<Artifact>,
}

impl Outcome {
    /// The texts and curves are those of the finished fit.
    pub open spec fn records(self, s: Script, spec: SchemeSpec, e: Evaluation) -> bool {
        &&& self.report_json@ == json_text(report_model(s, self.prepared.report))
        &&& self.baseline_json@ == json_text(canonical(baseline_model(s, spec.baseline)))
        &&& curves_record(
            s,
            self.artifacts@,
            spec,
            e.input_hash@,
            e.spectrum.x@,
            self.prepared,
        )
    }
}

/// What the fit comes to: an outcome, or a refusal where the baseline cannot be
/// fitted, with the reason.
pub open spec fn outcome_of<A: Arithmetic, N: Notation>(
    nodes: Seq<(Binary64, Binary64)>,
    req: FitRequest,
    e: Evaluation,
    r: Result<Outcome, Reply>,
) -> bool {
    forall|m: Meaning<Binary64>, s: Script|
        #![trigger follows::<A>(m), writes::<N>(s)]
        follows::<A>(m) && writes::<N>(s) ==> match baseline(
            m,
            e.spectrum.x@,
            e.spectrum.y@,
            exclusions(m, e.spectrum.x@, req.spec.excluded_x@),
            req.spec.baseline.windows@,
            req.spec.baseline.degree as nat,
        ) {
            Err(t) => r matches Err(p) && p.refuses(400, t),
            Ok(_) => r matches Ok(o) && o.records(s, req.spec, e) && o.prepared.evaluates(
                m,
                nodes,
                e.spectrum.x@,
                e.spectrum.y@,
                req.spec,
            ),
        }
}

/// The fit itself.
pub fn compute<A: Arithmetic, N: Notation>(
    nodes: &Vec<(Binary64, Binary64)>,
    req: &FitRequest,
    e: &Evaluation,
) -> (r: Result<Outcome, Reply>)
    requires
        e.spectrum.x@.len() <= e.spectrum.y@.len(),
        (4 * req.spec.peaks@.len()) * (4 * req.spec.peaks@.len()) <= usize::MAX,
    ensures
        outcome_of::<A, N>(nodes@, *req, *e, r),
{
    let prepared: PreparedFit = match run_pipeline::<A>(
        nodes,
        &e.spectrum.x,
        &e.spectrum.y,
        &req.spec,
    ) {
        Ok(p) => p,
        Err(t) => {
            return Err(json_err(400, t.as_str()));
        },
    };
    let report: Json = report_json::<N>(&prepared.report);
    let base: Json = baseline_json::<N>(&req.spec.baseline);
    let artifacts: Vec<Artifact> = curves::<N>(
        &req.spec,
        e.input_hash.as_str(),
        &e.spectrum.x,
        &prepared,
    );
    Ok(
        Outcome {
            prepared,
            report_json: to_text(&report),
            baseline_json: canonical_json(&base),
            artifacts,
        },
    )
}

/// Whether a job that was claimed has been published before, so that its stored
/// fit is to be replayed where it is found.
pub fn published_before(job: &JobHit) -> (r: bool)
    ensures
        r == (job.status@ == "done"@),
{
    let cs: Vec<char> = chars_of(job.status.as_str());
    same(cs.as_slice(), "done")
}

impl Outcome {
    /// The changes that publish this for a job.
    pub open spec fn published(self, job: i64) -> Seq<Change> {
        publication(
            NewFit {
                job,
                report_json: self.report_json,
                baseline_json: self.baseline_json,
                converged: self.prepared.report.converged,
            },
            self.artifacts@,
        )
    }
}

/// The transaction that publishes a finished fit for a job.
pub fn publish(o: Outcome, job: i64) -> (r: (PreparedFit, Vec<Change>))
    ensures
        r.0 == o.prepared,
        r.1@ == o.published(job),
{
    let Outcome { prepared, report_json, baseline_json, artifacts } = o;
    let fit: NewFit = NewFit {
        job,
        report_json,
        baseline_json,
        converged: prepared.report.converged,
    };
    (prepared, publish_fit(fit, artifacts))
}

/// A curve in JSON, or null.
pub open spec fn optional_numbers(s: Script, o: Option<Vec<Binary64>>) -> JsonModel {
    match o {
        Some(v) => numbers_model(s, v@),
        None => JsonModel::Null,
    }
}

/// What a fresh fit is answered, in JSON.  It is never accepted.
pub open spec fn fresh_model(
    s: Script,
    fingerprint: Seq<char>,
    scheme: i64,
    auto_candidate: bool,
    pf: PreparedFit,
) -> JsonModel {
    JsonModel::Object(
        seq![
            ("fingerprint"@, JsonModel::Str(fingerprint)),
            ("scheme_id"@, signed_model(scheme as int)),
            ("replayed"@, JsonModel::Bool(false)),
            ("accepted"@, JsonModel::Bool(false)),
            ("converged"@, JsonModel::Bool(pf.report.converged)),
            ("auto_candidate"@, JsonModel::Bool(auto_candidate)),
            ("report"@, report_model(s, pf.report)),
            ("baseline"@, numbers_model(s, pf.baseline@)),
            ("smoothed"@, optional_numbers(s, pf.smoothed)),
            ("mask"@, marks_model(pf.mask@)),
            ("corrected"@, numbers_model(s, pf.corrected@)),
        ],
    )
}

/// The answer to a fresh fit that was published.
pub fn fresh_reply<N: Notation>(
    fingerprint: &str,
    scheme: i64,
    auto_candidate: bool,
    pf: &PreparedFit,
) -> (r: Reply)
    ensures
        forall|s: Script| #[trigger]
            writes::<N>(s) ==> r.says(
                fresh_model(s, fingerprint@, scheme, auto_candidate, *pf),
            ),
{
    let smoothed: Json = match &pf.smoothed {
        Some(v) => numbers_json::<N>(v),
        None => Json::Null,
    };
    let mut o: Vec<(String, Json)> = Vec::new();
    o.push(("fingerprint".to_owned(), Json::Str(fingerprint.to_owned())));
    o.push(("scheme_id".to_owned(), signed_json(scheme)));
    o.push(("replayed".to_owned(), Json::Bool(false)));
    o.push(("accepted".to_owned(), Json::Bool(false)));
    o.push(("converged".to_owned(), Json::Bool(pf.report.converged)));
    o.push(("auto_candidate".to_owned(), Json::Bool(auto_candidate)));
    o.push(("report".to_owned(), report_json::<N>(&pf.report)));
    o.push(("baseline".to_owned(), numbers_json::<N>(&pf.baseline)));
    o.push(("smoothed".to_owned(), smoothed));
    o.push(("mask".to_owned(), marks_json(&pf.mask)));
    o.push(("corrected".to_owned(), numbers_json::<N>(&pf.corrected)));
    let ghost all = o@;
    let j: Json = Json::Object(o);
    proof {
        assert forall|s: Script| #[trigger] writes::<N>(s) implies j@ == fresh_model(
            s,
            fingerprint@,
            scheme,
            auto_candidate,
            *pf,
        ) by {
            assert(member_models(all) =~= fresh_model(
                s,
                fingerprint@,
                scheme,
                auto_candidate,
                *pf,
            )->Object_0);
        }
    }
    json_ok(&j)
}

// -------------------------------------------------------------------- the course

/// Where a request for a fit stands, and what it waits for.
pub enum Course {
    /// The text of the data set.
    Begun,
    /// A stored fit with the same fingerprint.
    Looked(Evaluation),
    /// The number of the stored scheme.
    Added(Evaluation),
    /// The job, once the fit is made for the scheme with the number given.
    Claimed(Evaluation, i64, Outcome),
    /// The stored fit of a job that was published before.
    Raced(Evaluation, i64, Outcome, i64),
    /// The publication.
    Sent(Evaluation, i64, PreparedFit),
}

/// What is to be done for a request.
pub enum Order {
    /// Find the stored report for a fingerprint.
    FindFit(String),
    /// Store a scheme.
    AddScheme(NewScheme),
    /// Find or make the job for a fingerprint, a data set and a scheme.
    ClaimJob(String, i64, i64),
    /// Make changes in one transaction.
    Commit(Vec<Change>),
    /// Answer; the request is done.
    Answer(Reply),
    /// Give up: a stored report is no JSON text, or what was found out is not
    /// what the request waits for.
    GiveUp,
}

/// What was found out for a request.
pub enum News {
    Dataset(Option<String>),
    Fit(Option<String>),
    Scheme(Result<i64, String>),
    Job(Result<JobHit, String>),
    Committed(Result<(), String>),
}

impl Course {
    /// How far the request has come.
    pub open spec fn rank(self) -> nat {
        match self {
            Course::Begun => 0,
            Course::Looked(_) => 1,
            Course::Added(_) => 2,
            Course::Claimed(_, _, _) => 3,
            Course::Raced(_, _, _, _) => 4,
            Course::Sent(_, _, _) => 5,
        }
    }

    /// An evaluation has one value for every coordinate.
    pub open spec fn sound(self) -> bool {
        match self {
            Course::Begun => true,
            Course::Looked(e) => e.spectrum.x@.len() == e.spectrum.y@.len(),
            Course::Added(e) => e.spectrum.x@.len() == e.spectrum.y@.len(),
            Course::Claimed(e, _, _) => e.spectrum.x@.len() == e.spectrum.y@.len(),
            Course::Raced(e, _, _, _) => e.spectrum.x@.len() == e.spectrum.y@.len(),
            Course::Sent(e, _, _) => e.spectrum.x@.len() == e.spectrum.y@.len(),
        }
    }
}

/// The request ends with the replay of a stored report.
pub open spec fn replays(next: Option<Course>, order: Order, fp: Seq<char>, report: Seq<char>) -> bool {
    &&& next is None
    &&& match reprinted(report) {
        Some(t) => order matches Order::Answer(r) && r.says(replay_model(fp, t)),
        None => order is GiveUp,
    }
}

/// The request ends with a refusal.
pub open spec fn fails(next: Option<Course>, order: Order, code: u16, reason: Seq<char>) -> bool {
    next is None && (order matches Order::Answer(r) && r.refuses(code, reason))
}

/// The finished fit is published for a job.
pub open spec fn sends(
    next: Option<Course>,
    order: Order,
    e: Evaluation,
    scheme: i64,
    o: Outcome,
    job: i64,
) -> bool {
    &&& next == Some(Course::Sent(e, scheme, o.prepared))
    &&& order matches Order::Commit(c)
    &&& c@ == o.published(job)
}

/// How a request goes on from where it stands once something was found out.
pub open spec fn goes_on<A: Arithmetic, N: Notation>(
    nodes: Seq<(Binary64, Binary64)>,
    req: FitRequest,
    course: Course,
    news: News,
    next: Option<Course>,
    order: Order,
) -> bool {
    match (course, news) {
        (Course::Begun, News::Dataset(csv)) => exists|x: Result<Evaluation, Reply>| #[trigger]
            evaluation_of::<N>(req, optional_text(csv), x) && match x {
                Ok(e) => next == Some(Course::Looked(e)) && (order matches Order::FindFit(f) && f@
                    == e.fingerprint@),
                Err(p) => next is None && order == Order::Answer(p),
            },
        (Course::Looked(e), News::Fit(Some(t))) => replays(next, order, e.fingerprint@, t@),
        (Course::Looked(e), News::Fit(None)) => next == Some(Course::Added(e)) && (order matches
            Order::AddScheme(n) && scheme_for::<N>(req, e, n)),
        (Course::Added(e), News::Scheme(Err(m))) => fails(next, order, 500, m@),
        (Course::Added(e), News::Scheme(Ok(k))) => exists|x: Result<Outcome, Reply>| #[trigger]
            outcome_of::<A, N>(nodes, req, e, x) && match x {
                Ok(o) => next == Some(Course::Claimed(e, k, o)) && (order matches Order::ClaimJob(
                    f,
                    ds,
                    sc,
                ) && f@ == e.fingerprint@ && ds == req.dataset_id && sc == k),
                Err(p) => next is None && order == Order::Answer(p),
            },
        (Course::Claimed(e, k, o), News::Job(Err(m))) => fails(next, order, 500, m@),
        (Course::Claimed(e, k, o), News::Job(Ok(h))) => if h.status@ == "done"@ {
            next == Some(Course::Raced(e, k, o, h.id)) && (order matches Order::FindFit(f) && f@
                == e.fingerprint@)
        } else {
            sends(next, order, e, k, o, h.id)
        },
        (Course::Raced(e, k, o, j), News::Fit(Some(t))) => replays(
            next,
            order,
            e.fingerprint@,
            t@,
        ),
        (Course::Raced(e, k, o, j), News::Fit(None)) => sends(next, order, e, k, o, j),
        (Course::Sent(e, k, pf), News::Committed(Err(m))) => fails(next, order, 500, m@),
        (Course::Sent(e, k, pf), News::Committed(Ok(_))) => next is None && (order matches
            Order::Answer(r) && forall|s: Script| #[trigger]
            writes::<N>(s) ==> r.says(
                fresh_model(s, e.fingerprint@, k, req.auto_candidate, pf),
            )),
        _ => next is None && order is GiveUp,
    }
}

fn replay(fingerprint: &str, report: &str) -> (r: (Option<Course>, Order))
    ensures
        replays(r.0, r.1, fingerprint@, report@),
{
    match replay_reply(fingerprint, report) {
        Some(p) => (None, Order::Answer(p)),
        None => (None, Order::GiveUp),
    }
}

fn send(e: Evaluation, scheme: i64, o: Outcome, job: i64) -> (r: (Option<Course>, Order))
    ensures
        sends(r.0, r.1, e, scheme, o, job),
{
    let (pf, changes) = publish(o, job);
    (Some(Course::Sent(e, scheme, pf)), Order::Commit(changes))
}

/// How a request for a fit goes on: where it stands next, and what is to be
/// done; the first thing to be done is to read the text of the data set.  A
/// request makes progress with everything that is found out, so it ends.
pub fn run_fit<A: Arithmetic, N: Notation>(
    nodes: &Vec<(Binary64, Binary64)>,
    req: &FitRequest,
    course: Course,
    news: News,
) -> (r: (Option<Course>, Order))
    requires
        course.sound(),
        (4 * req.spec.peaks@.len()) * (4 * req.spec.peaks@.len()) <= usize::MAX,
    ensures
        goes_on::<A, N>(nodes@, *req, course, news, r.0, r.1),
        r.0 matches Some(c) ==> c.sound() && c.rank() > course.rank(),
{
    match (course, news) {
        (Course::Begun, News::Dataset(csv)) => {
            let ghost text = optional_text(csv);
            let x: Result<Evaluation, Reply> = on_dataset::<N>(req, csv);
            assert(evaluation_of::<N>(*req, text, x));
            match x {
                Ok(e) => {
                    let f: String = e.fingerprint.clone();
                    (Some(Course::Looked(e)), Order::FindFit(f))
                },
                Err(p) => (None, Order::Answer(p)),
            }
        },
        (Course::Looked(e), News::Fit(Some(t))) => replay(e.fingerprint.as_str(), t.as_str()),
        (Course::Looked(e), News::Fit(None)) => {
            let n: NewScheme = scheme_of::<N>(req, &e);
            (Some(Course::Added(e)), Order::AddScheme(n))
        },
        (Course::Added(_), News::Scheme(Err(m))) => {
            (None, Order::Answer(json_err(500, m.as_str())))
        },
        (Course::Added(e), News::Scheme(Ok(k))) => {
            let x: Result<Outcome, Reply> = compute::<A, N>(nodes, req, &e);
            assert(outcome_of::<A, N>(nodes@, *req, e, x));
            match x {
                Ok(o) => {
                    let f: String = e.fingerprint.clone();
                    (Some(Course::Claimed(e, k, o)), Order::ClaimJob(f, req.dataset_id, k))
                },
                Err(p) => (None, Order::Answer(p)),
            }
        },
        (Course::Claimed(_, _, _), News::Job(Err(m))) => {
            (None, Order::Answer(json_err(500, m.as_str())))
        },
        (Course::Claimed(e, k, o), News::Job(Ok(h))) => {
            if published_before(&h) {
                let f: String = e.fingerprint.clone();
                (Some(Course::Raced(e, k, o, h.id)), Order::FindFit(f))
            } else {
                send(e, k, o, h.id)
            }
        },
        (Course::Raced(e, _, _, _), News::Fit(Some(t))) => {
            replay(e.fingerprint.as_str(), t.as_str())
        },
        (Course::Raced(e, k, o, j), News::Fit(None)) => send(e, k, o, j),
        (Course::Sent(_, _, _), News::Committed(Err(m))) => {
            (None, Order::Answer(json_err(500, m.as_str())))
        },
        (Course::Sent(e, k, pf), News::Committed(Ok(_))) => {
            let p: Reply = fresh_reply::<N>(e.fingerprint.as_str(), k, req.auto_candidate, &pf);
            (None, Order::Answer(p))
        },
        _ => (None, Order::GiveUp),
    }
}

} // verus!
