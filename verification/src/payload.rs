//! What the interface answers, in JSON.

use crate::binary64::Binary64;
use crate::data::Diagnostics;
use crate::fit::IterTrace;
use crate::json::{element_models, member_models, whole_json, whole_model, Json, JsonModel};
use crate::model::PeakKind;
use crate::notation::{
    number_json, number_model, numbers_json, numbers_model, writes, Notation, Script,
};
use crate::report::{FitReport, PeakResult};
use vstd::prelude::*;

verus! {

/// A text in JSON.
fn text_json(t: &str) -> (j: Json)
    ensures
        j@ == JsonModel::Str(t@),
{
    Json::Str(t.to_owned())
}

/// A text, or null.
pub open spec fn optional_str_model(o: Option<Seq<char>>) -> JsonModel {
    match o {
        Some(t) => JsonModel::Str(t),
        None => JsonModel::Null,
    }
}

/// Marks in JSON.
pub open spec fn marks_model(v: Seq<bool>) -> JsonModel {
    JsonModel::Array(v.map_values(|b: bool| JsonModel::Bool(b)))
}

/// Marks in JSON.
pub fn marks_json(v: &Vec<bool>) -> (j: Json)
    ensures
        j@ == marks_model(v@),
{
    let mut a: Vec<Json> = Vec::new();
    for i in 0..v.len()
        invariant
            a@.len() == i,
            forall|k: int| 0 <= k < i ==> (#[trigger] a@[k])@ == JsonModel::Bool(v@[k]),
    {
        a.push(Json::Bool(v[i]));
    }
    let ghost all = a@;
    let j: Json = Json::Array(a);
    proof {
        assert(element_models(all) =~= marks_model(v@)->Array_0);
    }
    j
}

/// Counts in JSON.
pub open spec fn counts_model(v: Seq<usize>) -> JsonModel {
    JsonModel::Array(v.map_values(|n: usize| whole_model(n as nat)))
}

/// Counts in JSON.
pub fn counts_json(v: &Vec<usize>) -> (j: Json)
    ensures
        j@ == counts_model(v@),
{
    let mut a: Vec<Json> = Vec::new();
    for i in 0..v.len()
        invariant
            a@.len() == i,
            forall|k: int| 0 <= k < i ==> (#[trigger] a@[k])@ == whole_model(v@[k] as nat),
    {
        a.push(whole_json(v[i] as u64));
    }
    let ghost all = a@;
    let j: Json = Json::Array(a);
    proof {
        assert(element_models(all) =~= counts_model(v@)->Array_0);
    }
    j
}

// ------------------------------------------------------------------ diagnostics

/// A parse error in JSON: the row and the reason.
pub open spec fn fault_model(e: (usize, String)) -> JsonModel {
    JsonModel::Array(seq![whole_model(e.0 as nat), JsonModel::Str(e.1@)])
}

/// Parse errors in JSON.
pub open spec fn faults_model(v: Seq<(usize, String)>) -> JsonModel {
    JsonModel::Array(v.map_values(|e: (usize, String)| fault_model(e)))
}

fn fault_json(e: &(usize, String)) -> (j: Json)
    ensures
        j@ == fault_model(*e),
{
    let mut a: Vec<Json> = Vec::new();
    a.push(whole_json(e.0 as u64));
    a.push(text_json(e.1.as_str()));
    let ghost all = a@;
    let j: Json = Json::Array(a);
    proof {
        assert(element_models(all) =~= fault_model(*e)->Array_0);
    }
    j
}

/// Parse errors in JSON.
fn faults_json(v: &Vec<(usize, String)>) -> (j: Json)
    ensures
        j@ == faults_model(v@),
{
    let mut a: Vec<Json> = Vec::new();
    for i in 0..v.len()
        invariant
            a@.len() == i,
            forall|k: int| 0 <= k < i ==> (#[trigger] a@[k])@ == fault_model(v@[k]),
    {
        a.push(fault_json(&v[i]));
    }
    let ghost all = a@;
    let j: Json = Json::Array(a);
    proof {
        assert(element_models(all) =~= faults_model(v@)->Array_0);
    }
    j
}

/// A pair of rows out of order in JSON: the place and the two coordinates.
pub open spec fn break_model(s: Script, e: (usize, Binary64, Binary64)) -> JsonModel {
    JsonModel::Array(seq![whole_model(e.0 as nat), number_model(s, e.1), number_model(s, e.2)])
}

/// Pairs of rows out of order in JSON.
pub open spec fn breaks_model(s: Script, v: Seq<(usize, Binary64, Binary64)>) -> JsonModel {
    JsonModel::Array(v.map_values(|e: (usize, Binary64, Binary64)| break_model(s, e)))
}

fn break_json<N: Notation>(e: (usize, Binary64, Binary64)) -> (j: Json)
    ensures
        forall|s: Script| #[trigger] writes::<N>(s) ==> j@ == break_model(s, e),
{
    let mut a: Vec<Json> = Vec::new();
    a.push(whole_json(e.0 as u64));
    a.push(number_json::<N>(e.1));
    a.push(number_json::<N>(e.2));
    let ghost all = a@;
    let j: Json = Json::Array(a);
    proof {
        assert forall|s: Script| #[trigger] writes::<N>(s) implies j@ == break_model(s, e) by {
            assert(element_models(all) =~= break_model(s, e)->Array_0);
        }
    }
    j
}

/// Pairs of rows out of order in JSON.
fn breaks_json<N: Notation>(v: &Vec<(usize, Binary64, Binary64)>) -> (j: Json)
    ensures
        forall|s: Script| #[trigger] writes::<N>(s) ==> j@ == breaks_model(s, v@),
{
    let mut a: Vec<Json> = Vec::new();
    for i in 0..v.len()
        invariant
            a@.len() == i,
            forall|s: Script, k: int|
                #![trigger writes::<N>(s), a@[k]]
                writes::<N>(s) && 0 <= k < i ==> a@[k]@ == break_model(s, v@[k]),
    {
        a.push(break_json::<N>(v[i]));
    }
    let ghost all = a@;
    let j: Json = Json::Array(a);
    proof {
        assert forall|s: Script| #[trigger] writes::<N>(s) implies j@ == breaks_model(s, v@) by {
            assert(element_models(all) =~= breaks_model(s, v@)->Array_0);
        }
    }
    j
}

fn direction_json(o: &Option<String>) -> (j: Json)
    ensures
        j@ == optional_str_model(
            match *o {
                Some(t) => Some(t@),
                None => None,
            },
        ),
{
    match o {
        Some(t) => text_json(t.as_str()),
        None => Json::Null,
    }
}

/// The findings on a table in JSON.
pub open spec fn diagnostics_model(s: Script, d: Diagnostics) -> JsonModel {
    JsonModel::Object(
        seq![
            ("rows_read"@, whole_model(d.rows_read as nat)),
            ("rows_kept"@, whole_model(d.rows_kept as nat)),
            ("parse_errors"@, faults_model(d.parse_errors@)),
            ("nonfinite_rows"@, counts_model(d.nonfinite_rows@)),
            ("duplicate_x"@, numbers_model(s, d.duplicate_x@)),
            ("nonmonotonic_pairs"@, breaks_model(s, d.nonmonotonic_pairs@)),
            ("monotonic"@, optional_str_model(
                match d.monotonic {
                    Some(t) => Some(t@),
                    None => None,
                },
            )),
            ("too_few_rows"@, JsonModel::Bool(d.too_few_rows)),
        ],
    )
}

/// The findings on a table in JSON.
pub fn diagnostics_json<N: Notation>(d: &Diagnostics) -> (j: Json)
    ensures
        forall|s: Script| #[trigger] writes::<N>(s) ==> j@ == diagnostics_model(s, *d),
{
    let mut o: Vec<(String, Json)> = Vec::new();
    o.push(("rows_read".to_owned(), whole_json(d.rows_read as u64)));
    o.push(("rows_kept".to_owned(), whole_json(d.rows_kept as u64)));
    o.push(("parse_errors".to_owned(), faults_json(&d.parse_errors)));
    o.push(("nonfinite_rows".to_owned(), counts_json(&d.nonfinite_rows)));
    o.push(("duplicate_x".to_owned(), numbers_json::<N>(&d.duplicate_x)));
    o.push(("nonmonotonic_pairs".to_owned(), breaks_json::<N>(&d.nonmonotonic_pairs)));
    o.push(("monotonic".to_owned(), direction_json(&d.monotonic)));
    o.push(("too_few_rows".to_owned(), Json::Bool(d.too_few_rows)));
    let ghost all = o@;
    let j: Json = Json::Object(o);
    proof {
        assert forall|s: Script| #[trigger] writes::<N>(s) implies j@ == diagnostics_model(s, *d) by {
            assert(member_models(all) =~= diagnostics_model(s, *d)->Object_0);
        }
    }
    j
}

// ------------------------------------------------------------------- fit reports

/// A line of the record of a fit in JSON.
pub open spec fn trace_model(s: Script, d: IterTrace) -> JsonModel {
    JsonModel::Object(
        seq![
            ("iter"@, whole_model(d.iter as nat)),
            ("chi2"@, number_model(s, d.chi2)),
            ("lambda"@, number_model(s, d.lambda)),
            ("accepted"@, JsonModel::Bool(d.accepted)),
            ("params"@, numbers_model(s, d.params@)),
        ],
    )
}

/// A line of the record of a fit in JSON.
fn trace_json<N: Notation>(d: &IterTrace) -> (j: Json)
    ensures
        forall|s: Script| #[trigger] writes::<N>(s) ==> j@ == trace_model(s, *d),
{
    let mut o: Vec<(String, Json)> = Vec::new();
    o.push(("iter".to_owned(), whole_json(d.iter as u64)));
    o.push(("chi2".to_owned(), number_json::<N>(d.chi2)));
    o.push(("lambda".to_owned(), number_json::<N>(d.lambda)));
    o.push(("accepted".to_owned(), Json::Bool(d.accepted)));
    o.push(("params".to_owned(), numbers_json::<N>(&d.params)));
    let ghost all = o@;
    let j: Json = Json::Object(o);
    proof {
        assert forall|s: Script| #[trigger] writes::<N>(s) implies j@ == trace_model(s, *d) by {
            assert(member_models(all) =~= trace_model(s, *d)->Object_0);
        }
    }
    j
}

/// The record of a fit in JSON.
pub open spec fn traces_model(s: Script, v: Seq<IterTrace>) -> JsonModel {
    JsonModel::Array(v.map_values(|t: IterTrace| trace_model(s, t)))
}

/// The record of a fit in JSON.
fn traces_json<N: Notation>(v: &Vec<IterTrace>) -> (j: Json)
    ensures
        forall|s: Script| #[trigger] writes::<N>(s) ==> j@ == traces_model(s, v@),
{
    let mut a: Vec<Json> = Vec::new();
    for i in 0..v.len()
        invariant
            a@.len() == i,
            forall|s: Script, k: int|
                #![trigger writes::<N>(s), a@[k]]
                writes::<N>(s) && 0 <= k < i ==> a@[k]@ == trace_model(s, v@[k]),
    {
        a.push(trace_json::<N>(&v[i]));
    }
    let ghost all = a@;
    let j: Json = Json::Array(a);
    proof {
        assert forall|s: Script| #[trigger] writes::<N>(s) implies j@ == traces_model(s, v@) by {
            assert(element_models(all) =~= traces_model(s, v@)->Array_0);
        }
    }
    j
}

/// A member for a width of a Voigt profile, where there is one.
pub open spec fn width_members(s: Script, key: Seq<char>, o: Option<Binary64>) -> Seq<
    (Seq<char>, JsonModel),
> {
    match o {
        Some(x) => seq![(key, number_model(s, x))],
        None => Seq::empty(),
    }
}

/// A fitted peak in JSON.  The two widths of a Voigt profile are there for
/// that profile alone.
pub open spec fn peak_result_model(s: Script, d: PeakResult) -> JsonModel {
    JsonModel::Object(
        seq![
            ("kind"@, JsonModel::Str(d.kind.name())),
            ("center"@, number_model(s, d.center)),
            ("width"@, number_model(s, d.width)),
            ("height"@, number_model(s, d.height)),
        ] + width_members(s, "sigma"@, d.sigma) + width_members(s, "gamma"@, d.gamma) + seq![
            ("area"@, number_model(s, d.area)),
            (
                "area_ci95"@,
                JsonModel::Array(
                    seq![number_model(s, d.area_ci95.0), number_model(s, d.area_ci95.1)],
                ),
            ),
            ("area_se"@, number_model(s, d.area_se)),
        ],
    )
}

/// A fitted peak in JSON.
fn peak_result_json<N: Notation>(d: &PeakResult) -> (j: Json)
    ensures
        forall|s: Script| #[trigger] writes::<N>(s) ==> j@ == peak_result_model(s, *d),
{
    let mut o: Vec<(String, Json)> = Vec::new();
    o.push(("kind".to_owned(), text_json(d.kind.as_str())));
    o.push(("center".to_owned(), number_json::<N>(d.center)));
    o.push(("width".to_owned(), number_json::<N>(d.width)));
    o.push(("height".to_owned(), number_json::<N>(d.height)));
    if let Some(x) = d.sigma {
        o.push(("sigma".to_owned(), number_json::<N>(x)));
    }
    if let Some(x) = d.gamma {
        o.push(("gamma".to_owned(), number_json::<N>(x)));
    }
    let mut ci: Vec<Json> = Vec::new();
    ci.push(number_json::<N>(d.area_ci95.0));
    ci.push(number_json::<N>(d.area_ci95.1));
    let ghost bounds = ci@;
    o.push(("area".to_owned(), number_json::<N>(d.area)));
    o.push(("area_ci95".to_owned(), Json::Array(ci)));
    o.push(("area_se".to_owned(), number_json::<N>(d.area_se)));
    let ghost all = o@;
    let j: Json = Json::Object(o);
    proof {
        assert forall|s: Script| #[trigger] writes::<N>(s) implies j@ == peak_result_model(
            s,
            *d,
        ) by {
            assert(element_models(bounds) =~= seq![
                number_model(s, d.area_ci95.0),
                number_model(s, d.area_ci95.1),
            ]);
            assert(member_models(all) =~= peak_result_model(s, *d)->Object_0);
        }
    }
    j
}

/// Fitted peaks in JSON.
pub open spec fn peak_results_model(s: Script, v: Seq<PeakResult>) -> JsonModel {
    JsonModel::Array(v.map_values(|p: PeakResult| peak_result_model(s, p)))
}

/// Fitted peaks in JSON.
fn peak_results_json<N: Notation>(v: &Vec<PeakResult>) -> (j: Json)
    ensures
        forall|s: Script| #[trigger] writes::<N>(s) ==> j@ == peak_results_model(s, v@),
{
    let mut a: Vec<Json> = Vec::new();
    for i in 0..v.len()
        invariant
            a@.len() == i,
            forall|s: Script, k: int|
                #![trigger writes::<N>(s), a@[k]]
                writes::<N>(s) && 0 <= k < i ==> a@[k]@ == peak_result_model(s, v@[k]),
    {
        a.push(peak_result_json::<N>(&v[i]));
    }
    let ghost all = a@;
    let j: Json = Json::Array(a);
    proof {
        assert forall|s: Script| #[trigger] writes::<N>(s) implies j@ == peak_results_model(s, v@) by {
            assert(element_models(all) =~= peak_results_model(s, v@)->Array_0);
        }
    }
    j
}

/// Shapes in JSON.
pub open spec fn kinds_model(v: Seq<PeakKind>) -> JsonModel {
    JsonModel::Array(v.map_values(|k: PeakKind| JsonModel::Str(k.name())))
}

/// Shapes in JSON.
fn kinds_json(v: &Vec<PeakKind>) -> (j: Json)
    ensures
        j@ == kinds_model(v@),
{
    let mut a: Vec<Json> = Vec::new();
    for i in 0..v.len()
        invariant
            a@.len() == i,
            forall|k: int| 0 <= k < i ==> (#[trigger] a@[k])@ == JsonModel::Str(v@[k].name()),
    {
        a.push(text_json(v[i].as_str()));
    }
    let ghost all = a@;
    let j: Json = Json::Array(a);
    proof {
        assert(element_models(all) =~= kinds_model(v@)->Array_0);
    }
    j
}

/// The peak and slot of a free parameter in JSON.
pub open spec fn owner_model(e: (usize, usize)) -> JsonModel {
    JsonModel::Array(seq![whole_model(e.0 as nat), whole_model(e.1 as nat)])
}

/// The peaks and slots of the free parameters in JSON.
pub open spec fn owners_model(v: Seq<(usize, usize)>) -> JsonModel {
    JsonModel::Array(v.map_values(|e: (usize, usize)| owner_model(e)))
}

fn owner_json(e: (usize, usize)) -> (j: Json)
    ensures
        j@ == owner_model(e),
{
    let mut a: Vec<Json> = Vec::new();
    a.push(whole_json(e.0 as u64));
    a.push(whole_json(e.1 as u64));
    let ghost all = a@;
    let j: Json = Json::Array(a);
    proof {
        assert(element_models(all) =~= owner_model(e)->Array_0);
    }
    j
}

/// The peaks and slots of the free parameters in JSON.
fn owners_json(v: &Vec<(usize, usize)>) -> (j: Json)
    ensures
        j@ == owners_model(v@),
{
    let mut a: Vec<Json> = Vec::new();
    for i in 0..v.len()
        invariant
            a@.len() == i,
            forall|k: int| 0 <= k < i ==> (#[trigger] a@[k])@ == owner_model(v@[k]),
    {
        a.push(owner_json(v[i]));
    }
    let ghost all = a@;
    let j: Json = Json::Array(a);
    proof {
        assert(element_models(all) =~= owners_model(v@)->Array_0);
    }
    j
}

/// The report of a fit in JSON.
pub open spec fn report_model(s: Script, d: FitReport) -> JsonModel {
    JsonModel::Object(
        seq![
            ("converged"@, JsonModel::Bool(d.converged)),
            ("status"@, JsonModel::Str(d.status@)),
            ("iterations"@, whole_model(d.iterations as nat)),
            ("chi2"@, number_model(s, d.chi2)),
            ("dof"@, whole_model(d.dof as nat)),
            ("rmse"@, number_model(s, d.rmse)),
            ("aic"@, number_model(s, d.aic)),
            ("bic"@, number_model(s, d.bic)),
            ("rss"@, number_model(s, d.rss)),
            ("kinds"@, kinds_model(d.kinds@)),
            ("params"@, numbers_model(s, d.params@)),
            ("covariance"@, numbers_model(s, d.covariance@)),
            ("correlation"@, numbers_model(s, d.correlation@)),
            ("free_map"@, owners_model(d.free_map@)),
            ("peaks"@, peak_results_model(s, d.peaks@)),
            ("fitted"@, numbers_model(s, d.fitted@)),
            ("residual"@, numbers_model(s, d.residual@)),
            ("trace"@, traces_model(s, d.trace@)),
        ],
    )
}

/// The report of a fit in JSON.
pub fn report_json<N: Notation>(d: &FitReport) -> (j: Json)
    ensures
        forall|s: Script| #[trigger] writes::<N>(s) ==> j@ == report_model(s, *d),
{
    let mut o: Vec<(String, Json)> = Vec::new();
    o.push(("converged".to_owned(), Json::Bool(d.converged)));
    o.push(("status".to_owned(), text_json(d.status.as_str())));
    o.push(("iterations".to_owned(), whole_json(d.iterations as u64)));
    o.push(("chi2".to_owned(), number_json::<N>(d.chi2)));
    o.push(("dof".to_owned(), whole_json(d.dof as u64)));
    o.push(("rmse".to_owned(), number_json::<N>(d.rmse)));
    o.push(("aic".to_owned(), number_json::<N>(d.aic)));
    o.push(("bic".to_owned(), number_json::<N>(d.bic)));
    o.push(("rss".to_owned(), number_json::<N>(d.rss)));
    o.push(("kinds".to_owned(), kinds_json(&d.kinds)));
    o.push(("params".to_owned(), numbers_json::<N>(&d.params)));
    o.push(("covariance".to_owned(), numbers_json::<N>(&d.covariance)));
    o.push(("correlation".to_owned(), numbers_json::<N>(&d.correlation)));
    o.push(("free_map".to_owned(), owners_json(&d.free_map)));
    o.push(("peaks".to_owned(), peak_results_json::<N>(&d.peaks)));
    o.push(("fitted".to_owned(), numbers_json::<N>(&d.fitted)));
    o.push(("residual".to_owned(), numbers_json::<N>(&d.residual)));
    o.push(("trace".to_owned(), traces_json::<N>(&d.trace)));
    let ghost all = o@;
    let j: Json = Json::Object(o);
    proof {
        assert forall|s: Script| #[trigger] writes::<N>(s) implies j@ == report_model(s, *d) by {
            assert(member_models(all) =~= report_model(s, *d)->Object_0);
        }
    }
    j
}

} // verus!
