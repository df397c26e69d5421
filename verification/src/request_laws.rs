//! Laws of a request for a fit: what it comes to, and what is stored of it.

use crate::api::{text_hash, Reply};
use crate::binary64::Binary64;
use crate::data::{parses_as, table_fault};
use crate::db::{Artifact, Change, NewScheme};
use crate::json::{canonical, json_text, optional_text};
use crate::model::MODEL_VERSION;
use crate::notation::{numbers_model, writes, Notation, Script};
use crate::payload::report_model;
use crate::run::{curves_record, evaluation_of, scheme_for, Evaluation, FitRequest, Outcome};
use crate::scheme::{fingerprint_of, scheme_model, PreparedFit, SchemeSpec};
use crate::table_laws::law_what_is_told_of_a_curve;
use vstd::prelude::*;

verus! {

/// What is evaluated is the curve in the text of the data set, which has eight points
/// or more, and it goes by the hash of that text.
pub proof fn law_what_is_evaluated<N: Notation>(
    s: Script,
    req: FitRequest,
    csv: Option<Seq<char>>,
    e: Evaluation,
)
    requires
        writes::<N>(s),
        evaluation_of::<N>(req, csv, Ok(e)),
    ensures
        csv is Some,
        parses_as::<N>(csv->0, Ok(e.spectrum)),
        e.spectrum.x@.len() >= 8,
        e.spectrum.y@.len() == e.spectrum.x@.len(),
        e.input_hash@ == text_hash(csv->0),
        e.fingerprint@ == fingerprint_of(s, text_hash(csv->0), req.spec),
{
    law_what_is_told_of_a_curve::<N>(csv->0, e.spectrum);
}

/// What is refused.  A data set that is not there is unknown; a text that is no table
/// is refused with the reason, and a curve with fewer than eight points as too short.
pub proof fn law_what_is_not_evaluated<N: Notation>(
    req: FitRequest,
    csv: Option<Seq<char>>,
    p: Reply,
)
    requires
        evaluation_of::<N>(req, csv, Err(p)),
    ensures
        csv is None ==> p.refuses(404, "unknown dataset"@),
        csv matches Some(c) ==> {
            ||| table_fault(c) matches Some(t) && p.refuses(400, t)
            ||| table_fault(c) is None && p.refuses(400, "too few finite rows for fitting"@)
        },
{
}

/// The scheme that is stored for a fit belongs to the data set of the request, has no
/// parent, and is marked as an automatic candidate if and only if the request says
/// so.
pub proof fn law_stored_scheme<N: Notation>(
    s: Script,
    req: FitRequest,
    e: Evaluation,
    n: NewScheme,
)
    requires
        writes::<N>(s),
        scheme_for::<N>(req, e, n),
    ensures
        n.dataset == req.dataset_id,
        n.parent is None,
        n.fingerprint@ == e.fingerprint@,
        n.spec_json@ == json_text(canonical(scheme_model(s, req.spec))),
        n.origin@ == "auto_candidate"@ <==> req.auto_candidate,
        n.origin@ == "manual"@ <==> !req.auto_candidate,
{
    reveal_strlit("auto_candidate");
    reveal_strlit("manual");
    assert("auto_candidate"@.len() == 14 && "manual"@.len() == 6);
}

/// The curves that are stored: the baseline, which comes from the input alone, and,
/// where there is one, the smoothed curve, which comes from the baseline too.  Both
/// are stored with the coordinates of the input.
pub proof fn law_stored_curves(
    s: Script,
    arts: Seq<Artifact>,
    spec: SchemeSpec,
    input_hash: Seq<char>,
    xs: Seq<Binary64>,
    pf: PreparedFit,
)
    requires
        curves_record(s, arts, spec, input_hash, xs, pf),
    ensures
        arts.len() >= 1,
        arts.len() == 2 <==> pf.smoothed is Some,
        arts.len() == 1 <==> pf.smoothed is None,
        forall|i: int|
            0 <= i < arts.len() ==> (#[trigger] arts[i]).input_hash@ == input_hash
                && arts[i].method_version@ == MODEL_VERSION@ && arts[i].x_json@ == json_text(
                numbers_model(s, xs),
            ),
        arts[0].kind@ == "baseline"@,
        arts[0].upstream_hash is None,
        arts[0].y_json@ == json_text(numbers_model(s, pf.baseline@)),
        pf.smoothed matches Some(v) ==> {
            &&& arts[1].kind@ == "smoothed"@
            &&& optional_text(arts[1].upstream_hash) == Some(arts[0].artifact_hash@)
            &&& arts[1].y_json@ == json_text(numbers_model(s, v@))
        },
{
    assert(arts.len() == 1 || arts.len() == 2);
    assert(optional_text(arts[0].upstream_hash) is None);
}

/// What is published for a job: the job is finished, the fit is added with its report
/// and whether it converged, the job is linked to it, and every curve is added.
pub proof fn law_what_is_published(
    s: Script,
    spec: SchemeSpec,
    e: Evaluation,
    o: Outcome,
    job: i64,
)
    requires
        o.records(s, spec, e),
    ensures
        ({
            let c = o.published(job);
            &&& c.len() == 3 + o.artifacts@.len()
            &&& c[0] == Change::FinishJob(job)
            &&& c[1] matches Change::AddFit(f) && f.job == job && f.converged
                == o.prepared.report.converged && f.report_json@ == json_text(
                report_model(s, o.prepared.report),
            )
            &&& c[2] == Change::LinkFit(job)
            &&& forall|i: int|
                0 <= i < o.artifacts@.len() ==> c[3 + i] == Change::AddArtifact(
                    job,
                    #[trigger] o.artifacts@[i],
                )
        }),
{
}

} // verus!
