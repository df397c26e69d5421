//! The interface: what each request leads to, and what is answered.

use crate::arithmetic::{follows, Arithmetic, Meaning};
use crate::binary64::Binary64;
use crate::data::{parse_csv, parses_as, table_fault, Spectrum, LOADER_VERSION};
use crate::db::{Dataset, NewScheme};
use crate::fit::FITTER_VERSION;
use crate::hash::{sha256, sha256_hex};
use crate::json::{
    canonical, canonical_json, element_models, json_text, member_models, optional_text, reprinted,
    signed_json, signed_model, stored, to_text, whole_json, whole_model, Json, JsonModel,
};
use crate::model::MODEL_VERSION;
use crate::notation::{
    number_json, number_model, numbers_json, numbers_model, writes, Notation, Script,
};
use crate::numeral::{hex, read_i64, signed};
use crate::payload::{counts_json, counts_model, diagnostics_json, diagnostics_model};
use crate::scheme::{
    fingerprint, fingerprint_of, scheme_json, scheme_model, SchemeSpec, SCHEME_VERSION,
};
use crate::text::{chars_of, contains, has_part, lowered, pieces, split, to_lower, views, Class};
use crate::units::{
    convert_peak, convert_scalar, converted, converted_peak, XUnit, UNITS_VERSION,
};
use vstd::prelude::*;
use vstd::utf8::encode_utf8;

verus! {

// ---------------------------------------------------------------------- replies

/// An answer: a status code and a JSON text.
pub struct Reply {
    pub code: u16,
    pub payload: String,
}

impl Reply {
    /// The answer that a request was met, with the value `m`.
    pub open spec fn says(self, m: JsonModel) -> bool {
        self.code == 200 && self.payload@ == json_text(canonical(m))
    }

    /// The answer that a request was refused, with a code and a reason.
    pub open spec fn refuses(self, code: u16, reason: Seq<char>) -> bool {
        self.code == code && self.payload@ == json_text(refusal_model(reason))
    }
}

/// A reason in JSON.
pub open spec fn refusal_model(reason: Seq<char>) -> JsonModel {
    JsonModel::Object(seq![("error"@, JsonModel::Str(reason))])
}

/// The answer that a request was met.  Members come in ascending order of their
/// keys.
pub fn json_ok(v: &Json) -> (r: Reply)
    ensures
        r.says(v@),
{
    Reply { code: 200, payload: canonical_json(v) }
}

/// The answer that a request was refused.
pub fn json_err(code: u16, msg: &str) -> (r: Reply)
    ensures
        r.refuses(code, msg@),
{
    let mut o: Vec<(String, Json)> = Vec::new();
    o.push(("error".to_owned(), Json::Str(msg.to_owned())));
    let ghost all = o@;
    let j: Json = Json::Object(o);
    proof {
        assert(member_models(all) =~= refusal_model(msg@)->Object_0);
    }
    Reply { code, payload: to_text(&j) }
}

// ----------------------------------------------------------------------- upload

/// Where the text of an upload comes from.
pub enum Source {
    /// The synthetic spectrum.
    Synthetic,
    /// The text that came with the request.
    Given(String),
}

/// Where the text of an upload comes from.  The synthetic spectrum is asked for
/// explicitly; otherwise a text must come with the request.
pub fn choose_source(synthetic: Option<bool>, csv: Option<String>) -> (r: Result<Source, Reply>)
    ensures
        synthetic == Some(true) ==> r == Ok::<Source, Reply>(Source::Synthetic),
        synthetic != Some(true) ==> match csv {
            Some(c) => r == Ok::<Source, Reply>(Source::Given(c)),
            None => r matches Err(e) && e.refuses(400, "missing csv"@),
        },
{
    match synthetic {
        Some(true) => {
            return Ok(Source::Synthetic);
        },
        _ => {},
    }
    match csv {
        Some(c) => Ok(Source::Given(c)),
        None => Err(json_err(400, "missing csv")),
    }
}

/// An upload that has been read.
pub struct Upload {
    pub csv: String,
    /// "synthetic" or "upload".
    pub source: String,
    pub input_hash: String,
    pub spectrum: Spectrum,
    pub x_unit: XUnit,
    pub y_kind: String,
}

/// The hash of a text.
pub open spec fn text_hash(t: Seq<char>) -> Seq<char> {
    hex(sha256(encode_utf8(t)))
}

/// The unit of an upload: the one that the request names, else the one that
/// the header names, else nanometres.
pub open spec fn unit_choice(asked: Option<Seq<char>>, header: Seq<char>) -> XUnit {
    match asked {
        Some(t) if XUnit::named(t) is Some => XUnit::named(t)->0,
        _ => match XUnit::named(header) {
            Some(u) => u,
            None => XUnit::Nm,
        },
    }
}

/// What the values of an upload are: what the request says, else what the
/// header suggests.
pub open spec fn kind_choice(asked: Option<Seq<char>>, header: Seq<char>) -> Seq<char> {
    match asked {
        Some(t) => t,
        None => if has_part(lowered(header), "absorb"@) {
            "absorbance"@
        } else {
            "intensity"@
        },
    }
}

fn choose_unit(asked: &Option<String>, header: &str) -> (r: XUnit)
    ensures
        r == unit_choice(optional_text(*asked), header@),
{
    if let Some(t) = asked {
        if let Some(u) = XUnit::parse(t.as_str()) {
            return u;
        }
    }
    match XUnit::parse(header) {
        Some(u) => u,
        None => XUnit::Nm,
    }
}

fn choose_kind(asked: Option<String>, header: &str) -> (r: String)
    ensures
        r@ == kind_choice(optional_text(asked), header@),
{
    match asked {
        Some(t) => t,
        None => {
            let h: Vec<char> = chars_of(header);
            let low: Vec<char> = to_lower(h.as_slice());
            let part: Vec<char> = chars_of("absorb");
            proof {
                reveal_strlit("absorb");
            }
            if contains(low.as_slice(), part.as_slice()) {
                "absorbance".to_owned()
            } else {
                "intensity".to_owned()
            }
        },
    }
}

impl Upload {
    /// This is the upload of the text `csv`, with what the request says of its
    /// unit and kind.
    pub open spec fn reads<N: Notation>(
        self,
        csv: String,
        synthetic: bool,
        x_unit: Option<Seq<char>>,
        y_kind: Option<Seq<char>>,
    ) -> bool {
        &&& self.csv == csv
        &&& self.source@ == (if synthetic {
            "synthetic"@
        } else {
            "upload"@
        })
        &&& self.input_hash@ == text_hash(csv@)
        &&& parses_as::<N>(csv@, Ok(self.spectrum))
        &&& self.x_unit == unit_choice(x_unit, self.spectrum.x_header@)
        &&& self.y_kind@ == kind_choice(y_kind, self.spectrum.y_header@)
    }
}

/// Reads an upload.  A text that is no table is refused with the reason.
pub fn prepare_upload<N: Notation>(
    csv: String,
    synthetic: bool,
    x_unit: Option<String>,
    y_kind: Option<String>,
) -> (r: Result<Upload, Reply>)
    ensures
        match table_fault(csv@) {
            Some(m) => r matches Err(e) && e.refuses(400, m),
            None => r matches Ok(u) && u.reads::<N>(
                csv,
                synthetic,
                optional_text(x_unit),
                optional_text(y_kind),
            ),
        },
{
    let input_hash: String = sha256_hex(csv.as_str().as_bytes());
    let spectrum: Spectrum = match parse_csv::<N>(csv.as_str()) {
        Ok(s) => s,
        Err(e) => {
            return Err(json_err(400, e.as_str()));
        },
    };
    let unit: XUnit = choose_unit(&x_unit, spectrum.x_header.as_str());
    let kind: String = choose_kind(y_kind, spectrum.y_header.as_str());
    let source: String = if synthetic {
        "synthetic".to_owned()
    } else {
        "upload".to_owned()
    };
    Ok(Upload { csv, source, input_hash, spectrum, x_unit: unit, y_kind: kind })
}

impl Upload {
    /// The data set to be stored for an upload.
    pub fn dataset<N: Notation>(&self) -> (d: Dataset)
        ensures
            d.input_hash@ == self.input_hash@,
            d.x_unit@ == self.x_unit.name(),
            d.y_kind@ == self.y_kind@,
            d.x_header@ == self.spectrum.x_header@,
            d.y_header@ == self.spectrum.y_header@,
            d.raw_csv@ == self.csv@,
            d.n_points == self.spectrum.x@.len(),
            d.loader_version@ == LOADER_VERSION@,
            d.source@ == self.source@,
            forall|s: Script| #[trigger]
                writes::<N>(s) ==> d.diagnostics_json@ == json_text(
                    diagnostics_model(s, self.spectrum.diagnostics),
                ),
    {
        let diagnostics: Json = diagnostics_json::<N>(&self.spectrum.diagnostics);
        Dataset {
            input_hash: self.input_hash.clone(),
            x_unit: self.x_unit.as_str().to_owned(),
            y_kind: self.y_kind.clone(),
            x_header: self.spectrum.x_header.clone(),
            y_header: self.spectrum.y_header.clone(),
            raw_csv: self.csv.clone(),
            n_points: self.spectrum.x.len(),
            loader_version: LOADER_VERSION.to_owned(),
            diagnostics_json: to_text(&diagnostics),
            source: self.source.clone(),
        }
    }
}

/// The versions of the methods in JSON.
pub open spec fn versions_model() -> JsonModel {
    JsonModel::Object(
        seq![
            ("loader"@, JsonModel::Str(LOADER_VERSION@)),
            ("units"@, JsonModel::Str(UNITS_VERSION@)),
            ("model"@, JsonModel::Str(MODEL_VERSION@)),
            ("fitter"@, JsonModel::Str(FITTER_VERSION@)),
            ("scheme"@, JsonModel::Str(SCHEME_VERSION@)),
        ],
    )
}

fn versions_json() -> (j: Json)
    ensures
        j@ == versions_model(),
{
    let mut o: Vec<(String, Json)> = Vec::new();
    o.push(("loader".to_owned(), Json::Str(LOADER_VERSION.to_owned())));
    o.push(("units".to_owned(), Json::Str(UNITS_VERSION.to_owned())));
    o.push(("model".to_owned(), Json::Str(MODEL_VERSION.to_owned())));
    o.push(("fitter".to_owned(), Json::Str(FITTER_VERSION.to_owned())));
    o.push(("scheme".to_owned(), Json::Str(SCHEME_VERSION.to_owned())));
    let ghost all = o@;
    let j: Json = Json::Object(o);
    proof {
        assert(member_models(all) =~= versions_model()->Object_0);
    }
    j
}

/// The content of an optional value.
pub open spec fn optional_model(o: Option<Json>) -> JsonModel {
    match o {
        Some(j) => j@,
        None => JsonModel::Null,
    }
}

/// What an upload is answered, in JSON.
pub open spec fn upload_model(s: Script, u: Upload, truth: Option<Json>, id: i64) -> JsonModel {
    JsonModel::Object(
        seq![
            ("dataset_id"@, signed_model(id as int)),
            ("input_hash"@, JsonModel::Str(u.input_hash@)),
            ("x_unit"@, JsonModel::Str(u.x_unit.name())),
            ("y_kind"@, JsonModel::Str(u.y_kind@)),
            ("x_header"@, JsonModel::Str(u.spectrum.x_header@)),
            ("y_header"@, JsonModel::Str(u.spectrum.y_header@)),
            ("n_points"@, whole_model(u.spectrum.x@.len())),
            ("diagnostics"@, diagnostics_model(s, u.spectrum.diagnostics)),
            ("synthetic_truth"@, optional_model(truth)),
            ("versions"@, versions_model()),
            ("x"@, numbers_model(s, u.spectrum.x@)),
            ("y"@, numbers_model(s, u.spectrum.y@)),
            ("source_rows"@, counts_model(u.spectrum.source_rows@)),
        ],
    )
}

/// The answer to an upload that was stored under a number, with what a
/// synthetic spectrum was made from.
pub fn upload_reply<N: Notation>(u: &Upload, truth: Option<Json>, id: i64) -> (r: Reply)
    ensures
        forall|s: Script| #[trigger] writes::<N>(s) ==> r.says(upload_model(s, *u, truth, id)),
{
    let ghost given = truth;
    let truth_json: Json = match truth {
        Some(j) => j,
        None => Json::Null,
    };
    let mut o: Vec<(String, Json)> = Vec::new();
    o.push(("dataset_id".to_owned(), signed_json(id)));
    o.push(("input_hash".to_owned(), Json::Str(u.input_hash.clone())));
    o.push(("x_unit".to_owned(), Json::Str(u.x_unit.as_str().to_owned())));
    o.push(("y_kind".to_owned(), Json::Str(u.y_kind.clone())));
    o.push(("x_header".to_owned(), Json::Str(u.spectrum.x_header.clone())));
    o.push(("y_header".to_owned(), Json::Str(u.spectrum.y_header.clone())));
    o.push(("n_points".to_owned(), whole_json(u.spectrum.x.len() as u64)));
    o.push(("diagnostics".to_owned(), diagnostics_json::<N>(&u.spectrum.diagnostics)));
    o.push(("synthetic_truth".to_owned(), truth_json));
    o.push(("versions".to_owned(), versions_json()));
    o.push(("x".to_owned(), numbers_json::<N>(&u.spectrum.x)));
    o.push(("y".to_owned(), numbers_json::<N>(&u.spectrum.y)));
    o.push(("source_rows".to_owned(), counts_json(&u.spectrum.source_rows)));
    let ghost all = o@;
    let j: Json = Json::Object(o);
    proof {
        assert forall|s: Script| #[trigger] writes::<N>(s) implies j@ == upload_model(
            s,
            *u,
            given,
            id,
        ) by {
            assert(member_models(all) =~= upload_model(s, *u, given, id)->Object_0);
        }
    }
    json_ok(&j)
}

// --------------------------------------------------------------------- data sets

/// A stored data set as it is listed.
pub struct DatasetLine {
    pub id: i64,
    pub input_hash: String,
    pub x_unit: String,
    pub n_points: i64,
    pub created_at: String,
}

/// A listed data set in JSON.
pub open spec fn dataset_model(d: DatasetLine) -> JsonModel {
    JsonModel::Object(
        seq![
            ("id"@, signed_model(d.id as int)),
            ("input_hash"@, JsonModel::Str(d.input_hash@)),
            ("x_unit"@, JsonModel::Str(d.x_unit@)),
            ("n_points"@, signed_model(d.n_points as int)),
            ("created_at"@, JsonModel::Str(d.created_at@)),
        ],
    )
}

/// The list of data sets in JSON.
pub open spec fn datasets_model(v: Seq<DatasetLine>) -> JsonModel {
    JsonModel::Object(
        seq![("datasets"@, JsonModel::Array(v.map_values(|d: DatasetLine| dataset_model(d))))],
    )
}

fn dataset_json(d: &DatasetLine) -> (j: Json)
    ensures
        j@ == dataset_model(*d),
{
    let mut o: Vec<(String, Json)> = Vec::new();
    o.push(("id".to_owned(), signed_json(d.id)));
    o.push(("input_hash".to_owned(), Json::Str(d.input_hash.clone())));
    o.push(("x_unit".to_owned(), Json::Str(d.x_unit.clone())));
    o.push(("n_points".to_owned(), signed_json(d.n_points)));
    o.push(("created_at".to_owned(), Json::Str(d.created_at.clone())));
    let ghost all = o@;
    let j: Json = Json::Object(o);
    proof {
        assert(member_models(all) =~= dataset_model(*d)->Object_0);
    }
    j
}

/// The answer that lists the data sets.
pub fn datasets(rows: &Vec<DatasetLine>) -> (r: Reply)
    ensures
        r.says(datasets_model(rows@)),
{
    let mut a: Vec<Json> = Vec::new();
    for i in 0..rows.len()
        invariant
            a@.len() == i,
            forall|k: int| 0 <= k < i ==> (#[trigger] a@[k])@ == dataset_model(rows@[k]),
    {
        a.push(dataset_json(&rows[i]));
    }
    let ghost list = a@;
    let mut o: Vec<(String, Json)> = Vec::new();
    o.push(("datasets".to_owned(), Json::Array(a)));
    let ghost all = o@;
    let j: Json = Json::Object(o);
    proof {
        assert(element_models(list) =~= rows@.map_values(|d: DatasetLine| dataset_model(d)));
        assert(member_models(all) =~= datasets_model(rows@)->Object_0);
    }
    json_ok(&j)
}

// -------------------------------------------------------------------- conversion

/// A request for conversions.
pub struct ConvertRequest {
    pub from: String,
    pub to: String,
    pub x: Option<Vec<Binary64>>,
    pub intervals: Option<Vec<(Binary64, Binary64)>>,
    pub peaks: Option<Vec<(Binary64, Binary64)>>,
}

/// Two converted bounds in order.
pub open spec fn ordered_bounds(
    m: Meaning<Binary64>,
    p: (Binary64, Binary64),
    from: XUnit,
    to: XUnit,
) -> (Binary64, Binary64) {
    let a = converted(m, p.0, from, to);
    let b = converted(m, p.1, from, to);
    if m.lt(b, a) {
        (b, a)
    } else {
        (a, b)
    }
}

/// A pair of numbers in JSON.
pub open spec fn pair_model(s: Script, p: (Binary64, Binary64)) -> JsonModel {
    JsonModel::Array(seq![number_model(s, p.0), number_model(s, p.1)])
}

/// Pairs of numbers in JSON.
pub open spec fn pairs_model(s: Script, v: Seq<(Binary64, Binary64)>) -> JsonModel {
    JsonModel::Array(v.map_values(|p: (Binary64, Binary64)| pair_model(s, p)))
}

/// What a request for conversions is answered, in JSON.
pub open spec fn convert_model(
    m: Meaning<Binary64>,
    s: Script,
    req: ConvertRequest,
    from: XUnit,
    to: XUnit,
) -> JsonModel {
    JsonModel::Object(
        seq![
            (
                "x"@,
                match req.x {
                    Some(v) => numbers_model(
                        s,
                        v@.map_values(|x: Binary64| converted(m, x, from, to)),
                    ),
                    None => JsonModel::Null,
                },
            ),
            (
                "intervals"@,
                match req.intervals {
                    Some(v) => pairs_model(
                        s,
                        v@.map_values(
                            |p: (Binary64, Binary64)| ordered_bounds(m, p, from, to),
                        ),
                    ),
                    None => JsonModel::Null,
                },
            ),
            (
                "peaks"@,
                match req.peaks {
                    Some(v) => pairs_model(
                        s,
                        v@.map_values(
                            |p: (Binary64, Binary64)| converted_peak(m, p.0, p.1, from, to),
                        ),
                    ),
                    None => JsonModel::Null,
                },
            ),
            ("units_version"@, JsonModel::Str(UNITS_VERSION@)),
        ],
    )
}

fn pair_json<N: Notation>(p: (Binary64, Binary64)) -> (j: Json)
    ensures
        forall|s: Script| #[trigger] writes::<N>(s) ==> j@ == pair_model(s, p),
{
    let mut a: Vec<Json> = Vec::new();
    a.push(number_json::<N>(p.0));
    a.push(number_json::<N>(p.1));
    let ghost all = a@;
    let j: Json = Json::Array(a);
    proof {
        assert forall|s: Script| #[trigger] writes::<N>(s) implies j@ == pair_model(s, p) by {
            assert(element_models(all) =~= pair_model(s, p)->Array_0);
        }
    }
    j
}

fn pairs_json<N: Notation>(v: &Vec<(Binary64, Binary64)>) -> (j: Json)
    ensures
        forall|s: Script| #[trigger] writes::<N>(s) ==> j@ == pairs_model(s, v@),
{
    let mut a: Vec<Json> = Vec::new();
    for i in 0..v.len()
        invariant
            a@.len() == i,
            forall|s: Script, k: int|
                #![trigger writes::<N>(s), a@[k]]
                writes::<N>(s) && 0 <= k < i ==> a@[k]@ == pair_model(s, v@[k]),
    {
        a.push(pair_json::<N>(v[i]));
    }
    let ghost all = a@;
    let j: Json = Json::Array(a);
    proof {
        assert forall|s: Script| #[trigger] writes::<N>(s) implies j@ == pairs_model(s, v@) by {
            assert(element_models(all) =~= pairs_model(s, v@)->Array_0);
        }
    }
    j
}

fn convert_all<A: Arithmetic>(v: &Vec<Binary64>, from: XUnit, to: XUnit) -> (r: Vec<Binary64>)
    ensures
        forall|m: Meaning<Binary64>| #[trigger]
            follows::<A>(m) ==> r@ == v@.map_values(|x: Binary64| converted(m, x, from, to)),
{
    let mut r: Vec<Binary64> = Vec::new();
    for i in 0..v.len()
        invariant
            r@.len() == i,
            forall|m: Meaning<Binary64>, k: int|
                #![trigger follows::<A>(m), r@[k]]
                follows::<A>(m) && 0 <= k < i ==> r@[k] == converted(m, v@[k], from, to),
    {
        r.push(convert_scalar::<A>(v[i], from, to));
    }
    proof {
        assert forall|m: Meaning<Binary64>| #[trigger] follows::<A>(m) implies r@ == v@.map_values(
            |x: Binary64| converted(m, x, from, to),
        ) by {
            assert(r@ =~= v@.map_values(|x: Binary64| converted(m, x, from, to)));
        }
    }
    r
}

fn convert_bounds<A: Arithmetic>(v: &Vec<(Binary64, Binary64)>, from: XUnit, to: XUnit) -> (r: Vec<
    (Binary64, Binary64),
>)
    ensures
        forall|m: Meaning<Binary64>| #[trigger]
            follows::<A>(m) ==> r@ == v@.map_values(
                |p: (Binary64, Binary64)| ordered_bounds(m, p, from, to),
            ),
{
    let mut r: Vec<(Binary64, Binary64)> = Vec::new();
    for i in 0..v.len()
        invariant
            r@.len() == i,
            forall|m: Meaning<Binary64>, k: int|
                #![trigger follows::<A>(m), r@[k]]
                follows::<A>(m) && 0 <= k < i ==> r@[k] == ordered_bounds(m, v@[k], from, to),
    {
        let a: Binary64 = convert_scalar::<A>(v[i].0, from, to);
        let b: Binary64 = convert_scalar::<A>(v[i].1, from, to);
        if b.lt(&a) {
            r.push((b, a));
        } else {
            r.push((a, b));
        }
    }
    proof {
        assert forall|m: Meaning<Binary64>| #[trigger] follows::<A>(m) implies r@ == v@.map_values(
            |p: (Binary64, Binary64)| ordered_bounds(m, p, from, to),
        ) by {
            assert(r@ =~= v@.map_values(
                |p: (Binary64, Binary64)| ordered_bounds(m, p, from, to),
            ));
        }
    }
    r
}

fn convert_peaks<A: Arithmetic>(v: &Vec<(Binary64, Binary64)>, from: XUnit, to: XUnit) -> (r: Vec<
    (Binary64, Binary64),
>)
    ensures
        forall|m: Meaning<Binary64>| #[trigger]
            follows::<A>(m) ==> r@ == v@.map_values(
                |p: (Binary64, Binary64)| converted_peak(m, p.0, p.1, from, to),
            ),
{
    let mut r: Vec<(Binary64, Binary64)> = Vec::new();
    for i in 0..v.len()
        invariant
            r@.len() == i,
            forall|m: Meaning<Binary64>, k: int|
                #![trigger follows::<A>(m), r@[k]]
                follows::<A>(m) && 0 <= k < i ==> r@[k] == converted_peak(
                    m,
                    v@[k].0,
                    v@[k].1,
                    from,
                    to,
                ),
    {
        r.push(convert_peak::<A>(v[i].0, v[i].1, from, to));
    }
    proof {
        assert forall|m: Meaning<Binary64>| #[trigger] follows::<A>(m) implies r@ == v@.map_values(
            |p: (Binary64, Binary64)| converted_peak(m, p.0, p.1, from, to),
        ) by {
            assert(r@ =~= v@.map_values(
                |p: (Binary64, Binary64)| converted_peak(m, p.0, p.1, from, to),
            ));
        }
    }
    r
}

/// The answer to a request for conversions.
pub fn convert_endpoint<A: Arithmetic, N: Notation>(req: &ConvertRequest) -> (r: Reply)
    ensures
        match (XUnit::named(req.from@), XUnit::named(req.to@)) {
            (Some(from), Some(to)) => forall|m: Meaning<Binary64>, s: Script|
                #![trigger follows::<A>(m), writes::<N>(s)]
                follows::<A>(m) && writes::<N>(s) ==> r.says(convert_model(m, s, *req, from, to)),
            _ => r.refuses(400, "unknown unit"@),
        },
{
    let (from, to): (XUnit, XUnit) = match (
        XUnit::parse(req.from.as_str()),
        XUnit::parse(req.to.as_str()),
    ) {
        (Some(a), Some(b)) => (a, b),
        _ => {
            return json_err(400, "unknown unit");
        },
    };
    let x: Json = match &req.x {
        Some(v) => numbers_json::<N>(&convert_all::<A>(v, from, to)),
        None => Json::Null,
    };
    let intervals: Json = match &req.intervals {
        Some(v) => pairs_json::<N>(&convert_bounds::<A>(v, from, to)),
        None => Json::Null,
    };
    let peaks: Json = match &req.peaks {
        Some(v) => pairs_json::<N>(&convert_peaks::<A>(v, from, to)),
        None => Json::Null,
    };
    let mut o: Vec<(String, Json)> = Vec::new();
    o.push(("x".to_owned(), x));
    o.push(("intervals".to_owned(), intervals));
    o.push(("peaks".to_owned(), peaks));
    o.push(("units_version".to_owned(), Json::Str(UNITS_VERSION.to_owned())));
    let ghost all = o@;
    let j: Json = Json::Object(o);
    proof {
        assert forall|m: Meaning<Binary64>, s: Script|
            #![trigger follows::<A>(m), writes::<N>(s)]
            follows::<A>(m) && writes::<N>(s) implies j@ == convert_model(m, s, *req, from, to) by {
            assert(member_models(all) =~= convert_model(m, s, *req, from, to)->Object_0);
        }
    }
    json_ok(&j)
}

// ----------------------------------------------------------------------- schemes

/// The scheme to be stored for a request, given the text of the data set that
/// it names, where there is one.
pub fn create_scheme<N: Notation>(
    dataset: i64,
    parent: Option<i64>,
    spec: &SchemeSpec,
    csv: Option<String>,
) -> (r: Result<NewScheme, Reply>)
    ensures
        match csv {
            None => r matches Err(e) && e.refuses(404, "unknown dataset"@),
            Some(c) => r matches Ok(n) && n.dataset == dataset && n.parent == parent && n.origin@
                == "manual"@ && forall|s: Script| #[trigger]
                writes::<N>(s) ==> n.spec_json@ == json_text(canonical(scheme_model(s, *spec)))
                    && n.fingerprint@ == fingerprint_of(s, text_hash(c@), *spec),
        },
{
    let c: String = match csv {
        Some(c) => c,
        None => {
            return Err(json_err(404, "unknown dataset"));
        },
    };
    let input_hash: String = sha256_hex(c.as_str().as_bytes());
    let j: Json = scheme_json::<N>(spec);
    Ok(
        NewScheme {
            dataset,
            parent,
            spec_json: canonical_json(&j),
            fingerprint: fingerprint::<N>(input_hash.as_str(), spec),
            origin: "manual".to_owned(),
        },
    )
}

/// What the creation of a scheme is answered, in JSON.
pub open spec fn created_model(id: i64, fingerprint: Seq<char>) -> JsonModel {
    JsonModel::Object(
        seq![
            ("scheme_id"@, signed_model(id as int)),
            ("fingerprint"@, JsonModel::Str(fingerprint)),
        ],
    )
}

/// The answer to the creation of a scheme that was stored under a number.
pub fn created_reply(id: i64, fingerprint: &str) -> (r: Reply)
    ensures
        r.says(created_model(id, fingerprint@)),
{
    let mut o: Vec<(String, Json)> = Vec::new();
    o.push(("scheme_id".to_owned(), signed_json(id)));
    o.push(("fingerprint".to_owned(), Json::Str(fingerprint.to_owned())));
    let ghost all = o@;
    let j: Json = Json::Object(o);
    proof {
        assert(member_models(all) =~= created_model(id, fingerprint@)->Object_0);
    }
    json_ok(&j)
}

/// The data set that a query names: the whole number between the first and the
/// second equals sign.
pub open spec fn queried(q: Seq<char>) -> Option<i64> {
    let parts = pieces(q, Class::One('='));
    if parts.len() < 2 {
        None
    } else {
        match signed(parts[1]) {
            Some(v) if i64::MIN <= v <= i64::MAX => Some(v as i64),
            _ => None,
        }
    }
}

/// The data set that a query names.
pub fn dataset_query(q: &str) -> (r: Result<i64, Reply>)
    ensures
        match queried(q@) {
            Some(v) => r == Ok::<i64, Reply>(v),
            None => r matches Err(e) && e.refuses(400, "need dataset_id"@),
        },
{
    let cs: Vec<char> = chars_of(q);
    let parts: Vec<&[char]> = split(cs.as_slice(), Class::One('='));
    assert(views(parts@).len() == parts@.len());
    if parts.len() >= 2 {
        assert(views(parts@)[1] == parts@[1]@);
        if let Some(v) = read_i64(parts[1]) {
            return Ok(v);
        }
    }
    Err(json_err(400, "need dataset_id"))
}

/// A stored scheme as it is listed.
pub struct SchemeLine {
    pub id: i64,
    pub spec_json: String,
    pub origin: String,
    pub accepted: i64,
    pub parent: Option<i64>,
    pub fingerprint: String,
}

/// A number in JSON, or null.
pub open spec fn optional_signed_model(o: Option<i64>) -> JsonModel {
    match o {
        Some(v) => signed_model(v as int),
        None => JsonModel::Null,
    }
}

/// A listed scheme in JSON.
pub open spec fn scheme_line_model(d: SchemeLine) -> JsonModel {
    JsonModel::Object(
        seq![
            ("id"@, signed_model(d.id as int)),
            ("spec"@, JsonModel::Raw(reprinted(d.spec_json@)->0)),
            ("origin"@, JsonModel::Str(d.origin@)),
            ("accepted"@, JsonModel::Bool(d.accepted != 0)),
            ("parent_id"@, optional_signed_model(d.parent)),
            ("fingerprint"@, JsonModel::Str(d.fingerprint@)),
        ],
    )
}

/// The list of schemes in JSON.
pub open spec fn schemes_model(v: Seq<SchemeLine>) -> JsonModel {
    JsonModel::Object(
        seq![("schemes"@, JsonModel::Array(v.map_values(|d: SchemeLine| scheme_line_model(d))))],
    )
}

fn scheme_line_json(d: &SchemeLine) -> (r: Option<Json>)
    ensures
        r is Some <==> reprinted(d.spec_json@) is Some,
        r matches Some(j) ==> j@ == scheme_line_model(*d),
{
    let spec: Json = match stored(d.spec_json.as_str()) {
        Some(j) => j,
        None => {
            return None;
        },
    };
    let parent: Json = match d.parent {
        Some(v) => signed_json(v),
        None => Json::Null,
    };
    let mut o: Vec<(String, Json)> = Vec::new();
    o.push(("id".to_owned(), signed_json(d.id)));
    o.push(("spec".to_owned(), spec));
    o.push(("origin".to_owned(), Json::Str(d.origin.clone())));
    o.push(("accepted".to_owned(), Json::Bool(d.accepted != 0)));
    o.push(("parent_id".to_owned(), parent));
    o.push(("fingerprint".to_owned(), Json::Str(d.fingerprint.clone())));
    let ghost all = o@;
    let j: Json = Json::Object(o);
    proof {
        assert(member_models(all) =~= scheme_line_model(*d)->Object_0);
    }
    Some(j)
}

/// The answer that lists schemes; none where a stored scheme is no JSON text.
pub fn list_schemes(rows: &Vec<SchemeLine>) -> (r: Option<Reply>)
    ensures
        r is Some <==> forall|k: int|
            0 <= k < rows@.len() ==> reprinted((#[trigger] rows@[k]).spec_json@) is Some,
        r matches Some(p) ==> p.says(schemes_model(rows@)),
{
    let mut a: Vec<Json> = Vec::new();
    for i in 0..rows.len()
        invariant
            a@.len() == i,
            forall|k: int|
                0 <= k < i ==> reprinted((#[trigger] rows@[k]).spec_json@) is Some && a@[k]@
                    == scheme_line_model(rows@[k]),
    {
        match scheme_line_json(&rows[i]) {
            Some(j) => a.push(j),
            None => {
                assert(reprinted(rows@[i as int].spec_json@) is None);
                return None;
            },
        }
    }
    let ghost list = a@;
    let mut o: Vec<(String, Json)> = Vec::new();
    o.push(("schemes".to_owned(), Json::Array(a)));
    let ghost all = o@;
    let j: Json = Json::Object(o);
    proof {
        assert(element_models(list) =~= rows@.map_values(|d: SchemeLine| scheme_line_model(d)));
        assert(member_models(all) =~= schemes_model(rows@)->Object_0);
    }
    Some(json_ok(&j))
}

} // verus!
