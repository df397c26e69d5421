//! Laws of the answers: which value stands under which key.

use crate::acceptance::{accepted_model, Wish};
use crate::api::{
    created_model, dataset_model, optional_model, optional_signed_model, scheme_line_model,
    upload_model, versions_model, DatasetLine, SchemeLine, Upload,
};
use crate::binary64::Binary64;
use crate::data::Diagnostics;
use crate::fit::IterTrace;
use crate::json::{signed_model, whole_model, Json, JsonModel};
use crate::model::PeakSpec;
use crate::notation::{number_model, numbers_model, Script};
use crate::payload::{
    breaks_model, counts_model, diagnostics_model, faults_model, kinds_model, marks_model,
    optional_str_model, owners_model, peak_result_model, peak_results_model, report_model,
    trace_model, traces_model,
};
use crate::report::{FitReport, PeakResult};
use crate::run::{fresh_model, optional_numbers, replay_model};
use crate::scheme::{baseline_model, peak_model, scheme_model, PreparedFit, SchemeSpec};
use vstd::prelude::*;

verus! {

/// The object `m` holds the value `v` under the key `k`.
pub open spec fn holds(m: JsonModel, k: Seq<char>, v: JsonModel) -> bool {
    m matches JsonModel::Object(e) && exists|i: int|
        0 <= i < e.len() && (#[trigger] e[i]).0 == k && e[i].1 == v
}

/// Numbers stand in their order; one that is not written as a numeral is null.
pub proof fn law_numbers_in_order(s: Script, v: Seq<Binary64>, i: int)
    requires
        0 <= i < v.len(),
    ensures
        numbers_model(s, v) is Array,
        numbers_model(s, v)->Array_0.len() == v.len(),
        (s.numeral)(v[i]) matches Some(t) ==> numbers_model(s, v)->Array_0[i] == JsonModel::Number(
            t,
        ),
        (s.numeral)(v[i]) is None ==> numbers_model(s, v)->Array_0[i] is Null,
{
}

/// The members of a fitted peak.  The two widths of a Voigt profile are there where
/// the peak has them.
pub proof fn law_peak_members(s: Script, d: PeakResult)
    ensures
        holds(peak_result_model(s, d), "kind"@, JsonModel::Str(d.kind.name())),
        holds(peak_result_model(s, d), "center"@, number_model(s, d.center)),
        holds(peak_result_model(s, d), "width"@, number_model(s, d.width)),
        holds(peak_result_model(s, d), "height"@, number_model(s, d.height)),
        d.sigma matches Some(x) ==> holds(
            peak_result_model(s, d),
            "sigma"@,
            number_model(s, x),
        ),
        d.gamma matches Some(x) ==> holds(
            peak_result_model(s, d),
            "gamma"@,
            number_model(s, x),
        ),
        holds(peak_result_model(s, d), "area"@, number_model(s, d.area)),
        holds(
            peak_result_model(s, d),
            "area_ci95"@,
            JsonModel::Array(seq![number_model(s, d.area_ci95.0), number_model(s, d.area_ci95.1)]),
        ),
        holds(peak_result_model(s, d), "area_se"@, number_model(s, d.area_se)),
{
    let e = peak_result_model(s, d)->Object_0;
    let a = if d.sigma is Some {
        1int
    } else {
        0int
    };
    let b = if d.gamma is Some {
        1int
    } else {
        0int
    };
    assert(e[0].0 == "kind"@ && e[1].0 == "center"@ && e[2].0 == "width"@ && e[3].0 == "height"@);
    if d.sigma is Some {
        assert(e[4].0 == "sigma"@);
    }
    if d.gamma is Some {
        assert(e[4 + a].0 == "gamma"@);
    }
    assert(e[4 + a + b].0 == "area"@);
    assert(e[5 + a + b].0 == "area_ci95"@);
    assert(e[6 + a + b].0 == "area_se"@);
}

/// The members of the report of a fit.
pub proof fn law_report_members(s: Script, d: FitReport)
    ensures
        holds(report_model(s, d), "converged"@, JsonModel::Bool(d.converged)),
        holds(report_model(s, d), "status"@, JsonModel::Str(d.status@)),
        holds(report_model(s, d), "iterations"@, whole_model(d.iterations as nat)),
        holds(report_model(s, d), "chi2"@, number_model(s, d.chi2)),
        holds(report_model(s, d), "dof"@, whole_model(d.dof as nat)),
        holds(report_model(s, d), "rmse"@, number_model(s, d.rmse)),
        holds(report_model(s, d), "aic"@, number_model(s, d.aic)),
        holds(report_model(s, d), "bic"@, number_model(s, d.bic)),
        holds(report_model(s, d), "rss"@, number_model(s, d.rss)),
        holds(report_model(s, d), "kinds"@, kinds_model(d.kinds@)),
        holds(report_model(s, d), "params"@, numbers_model(s, d.params@)),
        holds(report_model(s, d), "covariance"@, numbers_model(s, d.covariance@)),
        holds(report_model(s, d), "correlation"@, numbers_model(s, d.correlation@)),
        holds(report_model(s, d), "free_map"@, owners_model(d.free_map@)),
        holds(report_model(s, d), "peaks"@, peak_results_model(s, d.peaks@)),
        holds(report_model(s, d), "fitted"@, numbers_model(s, d.fitted@)),
        holds(report_model(s, d), "residual"@, numbers_model(s, d.residual@)),
        holds(report_model(s, d), "trace"@, traces_model(s, d.trace@)),
{
    let e = report_model(s, d)->Object_0;
    assert(e[0].0 == "converged"@);
    assert(e[1].0 == "status"@);
    assert(e[2].0 == "iterations"@);
    assert(e[3].0 == "chi2"@);
    assert(e[4].0 == "dof"@);
    assert(e[5].0 == "rmse"@);
    assert(e[6].0 == "aic"@);
    assert(e[7].0 == "bic"@);
    assert(e[8].0 == "rss"@);
    assert(e[9].0 == "kinds"@);
    assert(e[10].0 == "params"@);
    assert(e[11].0 == "covariance"@);
    assert(e[12].0 == "correlation"@);
    assert(e[13].0 == "free_map"@);
    assert(e[14].0 == "peaks"@);
    assert(e[15].0 == "fitted"@);
    assert(e[16].0 == "residual"@);
    assert(e[17].0 == "trace"@);
}

/// The members of a line of the record of a fit.
pub proof fn law_trace_members(s: Script, d: IterTrace)
    ensures
        holds(trace_model(s, d), "iter"@, whole_model(d.iter as nat)),
        holds(trace_model(s, d), "chi2"@, number_model(s, d.chi2)),
        holds(trace_model(s, d), "lambda"@, number_model(s, d.lambda)),
        holds(trace_model(s, d), "accepted"@, JsonModel::Bool(d.accepted)),
        holds(trace_model(s, d), "params"@, numbers_model(s, d.params@)),
{
    let e = trace_model(s, d)->Object_0;
    assert(e[0].0 == "iter"@);
    assert(e[1].0 == "chi2"@);
    assert(e[2].0 == "lambda"@);
    assert(e[3].0 == "accepted"@);
    assert(e[4].0 == "params"@);
}

/// The members of the findings on a table.
pub proof fn law_diagnostics_members(s: Script, d: Diagnostics)
    ensures
        holds(diagnostics_model(s, d), "rows_read"@, whole_model(d.rows_read as nat)),
        holds(diagnostics_model(s, d), "rows_kept"@, whole_model(d.rows_kept as nat)),
        holds(diagnostics_model(s, d), "parse_errors"@, faults_model(d.parse_errors@)),
        holds(diagnostics_model(s, d), "nonfinite_rows"@, counts_model(d.nonfinite_rows@)),
        holds(diagnostics_model(s, d), "duplicate_x"@, numbers_model(s, d.duplicate_x@)),
        holds(
            diagnostics_model(s, d),
            "nonmonotonic_pairs"@,
            breaks_model(s, d.nonmonotonic_pairs@),
        ),
        holds(diagnostics_model(s, d), "monotonic"@, optional_str_model(match d.monotonic {
                    Some(t) => Some(t@),
                    None => None,
                })),
        holds(diagnostics_model(s, d), "too_few_rows"@, JsonModel::Bool(d.too_few_rows)),
{
    let e = diagnostics_model(s, d)->Object_0;
    assert(e[0].0 == "rows_read"@);
    assert(e[1].0 == "rows_kept"@);
    assert(e[2].0 == "parse_errors"@);
    assert(e[3].0 == "nonfinite_rows"@);
    assert(e[4].0 == "duplicate_x"@);
    assert(e[5].0 == "nonmonotonic_pairs"@);
    assert(e[6].0 == "monotonic"@);
    assert(e[7].0 == "too_few_rows"@);
}

/// The members of the answer to an upload.
pub proof fn law_upload_members(s: Script, u: Upload, truth: Option<Json>, id: i64)
    ensures
        holds(upload_model(s, u, truth, id), "dataset_id"@, signed_model(id as int)),
        holds(upload_model(s, u, truth, id), "input_hash"@, JsonModel::Str(u.input_hash@)),
        holds(upload_model(s, u, truth, id), "x_unit"@, JsonModel::Str(u.x_unit.name())),
        holds(upload_model(s, u, truth, id), "y_kind"@, JsonModel::Str(u.y_kind@)),
        holds(upload_model(s, u, truth, id), "x_header"@, JsonModel::Str(u.spectrum.x_header@)),
        holds(upload_model(s, u, truth, id), "y_header"@, JsonModel::Str(u.spectrum.y_header@)),
        holds(upload_model(s, u, truth, id), "n_points"@, whole_model(u.spectrum.x@.len())),
        holds(
            upload_model(s, u, truth, id),
            "diagnostics"@,
            diagnostics_model(s, u.spectrum.diagnostics),
        ),
        holds(upload_model(s, u, truth, id), "synthetic_truth"@, optional_model(truth)),
        holds(upload_model(s, u, truth, id), "versions"@, versions_model()),
        holds(upload_model(s, u, truth, id), "x"@, numbers_model(s, u.spectrum.x@)),
        holds(upload_model(s, u, truth, id), "y"@, numbers_model(s, u.spectrum.y@)),
        holds(upload_model(s, u, truth, id), "source_rows"@, counts_model(u.spectrum.source_rows@)),
{
    let e = upload_model(s, u, truth, id)->Object_0;
    assert(e[0].0 == "dataset_id"@);
    assert(e[1].0 == "input_hash"@);
    assert(e[2].0 == "x_unit"@);
    assert(e[3].0 == "y_kind"@);
    assert(e[4].0 == "x_header"@);
    assert(e[5].0 == "y_header"@);
    assert(e[6].0 == "n_points"@);
    assert(e[7].0 == "diagnostics"@);
    assert(e[8].0 == "synthetic_truth"@);
    assert(e[9].0 == "versions"@);
    assert(e[10].0 == "x"@);
    assert(e[11].0 == "y"@);
    assert(e[12].0 == "source_rows"@);
}

/// The members of a listed data set.
pub proof fn law_dataset_members(d: DatasetLine)
    ensures
        holds(dataset_model(d), "id"@, signed_model(d.id as int)),
        holds(dataset_model(d), "input_hash"@, JsonModel::Str(d.input_hash@)),
        holds(dataset_model(d), "x_unit"@, JsonModel::Str(d.x_unit@)),
        holds(dataset_model(d), "n_points"@, signed_model(d.n_points as int)),
        holds(dataset_model(d), "created_at"@, JsonModel::Str(d.created_at@)),
{
    let e = dataset_model(d)->Object_0;
    assert(e[0].0 == "id"@);
    assert(e[1].0 == "input_hash"@);
    assert(e[2].0 == "x_unit"@);
    assert(e[3].0 == "n_points"@);
    assert(e[4].0 == "created_at"@);
}

/// The members of a listed scheme.
pub proof fn law_scheme_line_members(d: SchemeLine)
    ensures
        holds(scheme_line_model(d), "id"@, signed_model(d.id as int)),
        holds(scheme_line_model(d), "origin"@, JsonModel::Str(d.origin@)),
        holds(scheme_line_model(d), "accepted"@, JsonModel::Bool(d.accepted != 0)),
        holds(scheme_line_model(d), "parent_id"@, optional_signed_model(d.parent)),
        holds(scheme_line_model(d), "fingerprint"@, JsonModel::Str(d.fingerprint@)),
{
    let e = scheme_line_model(d)->Object_0;
    assert(e[0].0 == "id"@);
    assert(e[2].0 == "origin"@);
    assert(e[3].0 == "accepted"@);
    assert(e[4].0 == "parent_id"@);
    assert(e[5].0 == "fingerprint"@);
}

/// The members of the answer to the creation of a scheme.
pub proof fn law_created_members(id: i64, fingerprint: Seq<char>)
    ensures
        holds(created_model(id, fingerprint), "scheme_id"@, signed_model(id as int)),
        holds(created_model(id, fingerprint), "fingerprint"@, JsonModel::Str(fingerprint)),
{
    let e = created_model(id, fingerprint)->Object_0;
    assert(e[0].0 == "scheme_id"@);
    assert(e[1].0 == "fingerprint"@);
}

/// The members of the answer to an acceptance.
pub proof fn law_accepted_members(w: Wish)
    ensures
        holds(accepted_model(w), "scheme_id"@, signed_model(w.scheme as int)),
        holds(accepted_model(w), "accepted"@, JsonModel::Bool(w.accepted)),
{
    let e = accepted_model(w)->Object_0;
    assert(e[0].0 == "scheme_id"@);
    assert(e[1].0 == "accepted"@);
}

/// The members of the answer that replays a fit, which says so.
pub proof fn law_replay_members(fingerprint: Seq<char>, report: Seq<char>)
    ensures
        holds(replay_model(fingerprint, report), "fingerprint"@, JsonModel::Str(fingerprint)),
        holds(replay_model(fingerprint, report), "replayed"@, JsonModel::Bool(true)),
        holds(replay_model(fingerprint, report), "report"@, JsonModel::Raw(report)),
{
    let e = replay_model(fingerprint, report)->Object_0;
    assert(e[0].0 == "fingerprint"@);
    assert(e[1].0 == "replayed"@);
    assert(e[2].0 == "report"@);
}

/// The members of the answer to a fresh fit, which was not replayed and is not accepted.
pub proof fn law_fresh_members(
    s: Script,
    fingerprint: Seq<char>,
    scheme: i64,
    auto: bool,
    pf: PreparedFit,
)
    ensures
        holds(
            fresh_model(s, fingerprint, scheme, auto, pf),
            "fingerprint"@,
            JsonModel::Str(fingerprint),
        ),
        holds(
            fresh_model(s, fingerprint, scheme, auto, pf),
            "scheme_id"@,
            signed_model(scheme as int),
        ),
        holds(fresh_model(s, fingerprint, scheme, auto, pf), "replayed"@, JsonModel::Bool(false)),
        holds(fresh_model(s, fingerprint, scheme, auto, pf), "accepted"@, JsonModel::Bool(false)),
        holds(
            fresh_model(s, fingerprint, scheme, auto, pf),
            "converged"@,
            JsonModel::Bool(pf.report.converged),
        ),
        holds(
            fresh_model(s, fingerprint, scheme, auto, pf),
            "auto_candidate"@,
            JsonModel::Bool(auto),
        ),
        holds(fresh_model(s, fingerprint, scheme, auto, pf), "report"@, report_model(s, pf.report)),
        holds(
            fresh_model(s, fingerprint, scheme, auto, pf),
            "baseline"@,
            numbers_model(s, pf.baseline@),
        ),
        holds(
            fresh_model(s, fingerprint, scheme, auto, pf),
            "smoothed"@,
            optional_numbers(s, pf.smoothed),
        ),
        holds(fresh_model(s, fingerprint, scheme, auto, pf), "mask"@, marks_model(pf.mask@)),
        holds(
            fresh_model(s, fingerprint, scheme, auto, pf),
            "corrected"@,
            numbers_model(s, pf.corrected@),
        ),
{
    let e = fresh_model(s, fingerprint, scheme, auto, pf)->Object_0;
    assert(e[0].0 == "fingerprint"@);
    assert(e[1].0 == "scheme_id"@);
    assert(e[2].0 == "replayed"@);
    assert(e[3].0 == "accepted"@);
    assert(e[4].0 == "converged"@);
    assert(e[5].0 == "auto_candidate"@);
    assert(e[6].0 == "report"@);
    assert(e[7].0 == "baseline"@);
    assert(e[8].0 == "smoothed"@);
    assert(e[9].0 == "mask"@);
    assert(e[10].0 == "corrected"@);
}

/// The members of a scheme.
pub proof fn law_scheme_members(s: Script, v: SchemeSpec)
    ensures
        holds(scheme_model(s, v), "smooth_sigma"@, number_model(s, v.smooth_sigma)),
        holds(scheme_model(s, v), "baseline"@, baseline_model(s, v.baseline)),
        holds(scheme_model(s, v), "excluded_x"@, numbers_model(s, v.excluded_x@)),
{
    let e = scheme_model(s, v)->Object_0;
    assert(e[0].0 == "smooth_sigma"@);
    assert(e[1].0 == "baseline"@);
    assert(e[2].0 == "excluded_x"@);
}

/// The members of a candidate peak.
pub proof fn law_candidate_members(s: Script, p: PeakSpec)
    ensures
        holds(peak_model(s, p), "kind"@, JsonModel::Str(p.kind.name())),
        holds(peak_model(s, p), "center0"@, number_model(s, p.center0)),
        holds(peak_model(s, p), "width0"@, number_model(s, p.width0)),
        holds(peak_model(s, p), "amp0"@, number_model(s, p.amp0)),
        holds(peak_model(s, p), "fix_center"@, JsonModel::Bool(p.fix_center)),
{
    let e = peak_model(s, p)->Object_0;
    assert(e[0].0 == "kind"@);
    assert(e[1].0 == "center0"@);
    assert(e[2].0 == "width0"@);
    assert(e[3].0 == "amp0"@);
    assert(e[4].0 == "fix_center"@);
}

} // verus!
