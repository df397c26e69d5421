//! Scheme specifications, content fingerprints and the fit pipeline.

use crate::arithmetic::{follows, Arithmetic, Meaning};
use crate::binary64::{Binary64, ONE_BITS};
use crate::fit::FITTER_VERSION;
use crate::hash::{sha256, sha256_hex};
use crate::json::{
    canonical, canonical_json, element_models, json_text, member_models, Json, JsonModel,
};
use crate::model::{baseline, gaussian_smooth, poly_baseline, smooth_value, PeakSpec, MODEL_VERSION};
use crate::notation::{
    number_json, number_model, numbers_json, numbers_model, writes, Notation, Script,
};
use crate::numeral::{decimal, hex, lower_hex, to_decimal};
use crate::report::{fit, task_of, FitReport};
use crate::text::string_of;
use vstd::prelude::*;
use vstd::utf8::encode_utf8;

verus! {

/// The version of the scheme format.
pub const SCHEME_VERSION: &'static str = "scheme-v1.0.0";

/// The number 1e-9: how near a point must be to an excluded coordinate.
pub const EXCLUSION_TOL_BITS: u64 = 0x3e11_2e0b_e826_d695;

/// How a baseline is fitted.
pub struct BaselineSpec {
    pub degree: usize,
    /// Anchor windows in the unit of the data, lower and upper bound.
    pub windows: Vec<(Binary64, Binary64)>,
}

/// How a spectrum is evaluated.
pub struct SchemeSpec {
    /// Width of the smoothing kernel in the unit of the data; zero disables
    /// smoothing.
    pub smooth_sigma: Binary64,
    pub baseline: BaselineSpec,
    /// Coordinates of cosmic rays and other excluded points.
    pub excluded_x: Vec<Binary64>,
    pub peaks: Vec<PeakSpec>,
}

// ------------------------------------------------------------ the JSON of a scheme

/// A candidate peak in JSON.
pub open spec fn peak_model(s: Script, p: PeakSpec) -> JsonModel {
    JsonModel::Object(
        seq![
            ("kind"@, JsonModel::Str(p.kind.name())),
            ("center0"@, number_model(s, p.center0)),
            ("width0"@, number_model(s, p.width0)),
            ("amp0"@, number_model(s, p.amp0)),
            ("fix_center"@, JsonModel::Bool(p.fix_center)),
        ],
    )
}

/// A window in JSON.
pub open spec fn window_model(s: Script, w: (Binary64, Binary64)) -> JsonModel {
    JsonModel::Array(seq![number_model(s, w.0), number_model(s, w.1)])
}

/// A baseline specification in JSON.
pub open spec fn baseline_model(s: Script, b: BaselineSpec) -> JsonModel {
    JsonModel::Object(
        seq![
            ("degree"@, JsonModel::Number(decimal(b.degree as nat))),
            (
                "windows"@,
                JsonModel::Array(b.windows@.map_values(|w: (Binary64, Binary64)| window_model(s, w))),
            ),
        ],
    )
}

/// A scheme in JSON.
pub open spec fn scheme_model(s: Script, v: SchemeSpec) -> JsonModel {
    JsonModel::Object(
        seq![
            ("smooth_sigma"@, number_model(s, v.smooth_sigma)),
            ("baseline"@, baseline_model(s, v.baseline)),
            ("excluded_x"@, numbers_model(s, v.excluded_x@)),
            ("peaks"@, JsonModel::Array(v.peaks@.map_values(|p: PeakSpec| peak_model(s, p)))),
        ],
    )
}

/// A candidate peak in JSON.
fn peak_json<N: Notation>(p: PeakSpec) -> (j: Json)
    ensures
        forall|s: Script| #[trigger] writes::<N>(s) ==> j@ == peak_model(s, p),
{
    let name: String = p.kind.as_str().to_owned();
    let mut o: Vec<(String, Json)> = Vec::new();
    o.push(("kind".to_owned(), Json::Str(name)));
    o.push(("center0".to_owned(), number_json::<N>(p.center0)));
    o.push(("width0".to_owned(), number_json::<N>(p.width0)));
    o.push(("amp0".to_owned(), number_json::<N>(p.amp0)));
    o.push(("fix_center".to_owned(), Json::Bool(p.fix_center)));
    let ghost all = o@;
    let j: Json = Json::Object(o);
    proof {
        assert forall|s: Script| #[trigger] writes::<N>(s) implies j@ == peak_model(s, p) by {
            assert(member_models(all) =~= peak_model(s, p)->Object_0);
        }
    }
    j
}

/// A baseline specification in JSON.
pub fn baseline_json<N: Notation>(b: &BaselineSpec) -> (j: Json)
    ensures
        forall|s: Script| #[trigger] writes::<N>(s) ==> j@ == baseline_model(s, *b),
{
    let mut w: Vec<Json> = Vec::new();
    for i in 0..b.windows.len()
        invariant
            w@.len() == i,
            forall|s: Script, k: int|
                #![trigger writes::<N>(s), w@[k]]
                writes::<N>(s) && 0 <= k < i ==> w@[k]@ == window_model(s, b.windows@[k]),
    {
        let mut pair: Vec<Json> = Vec::new();
        pair.push(number_json::<N>(b.windows[i].0));
        pair.push(number_json::<N>(b.windows[i].1));
        let ghost both = pair@;
        let one: Json = Json::Array(pair);
        proof {
            assert forall|s: Script| #[trigger] writes::<N>(s) implies one@ == window_model(
                s,
                b.windows@[i as int],
            ) by {
                assert(element_models(both) =~= window_model(s, b.windows@[i as int])->Array_0);
            }
        }
        w.push(one);
    }
    let ghost all = w@;
    let windows: Json = Json::Array(w);
    let degree: Vec<char> = to_decimal(b.degree as u64);
    let mut o: Vec<(String, Json)> = Vec::new();
    o.push(("degree".to_owned(), Json::Number(string_of(degree.as_slice()))));
    o.push(("windows".to_owned(), windows));
    let ghost members = o@;
    let j: Json = Json::Object(o);
    proof {
        assert forall|s: Script| #[trigger] writes::<N>(s) implies j@ == baseline_model(s, *b) by {
            assert(element_models(all) =~= b.windows@.map_values(
                |w: (Binary64, Binary64)| window_model(s, w),
            ));
            assert(member_models(members) =~= baseline_model(s, *b)->Object_0);
        }
    }
    j
}

/// A scheme in JSON.
pub fn scheme_json<N: Notation>(v: &SchemeSpec) -> (j: Json)
    ensures
        forall|s: Script| #[trigger] writes::<N>(s) ==> j@ == scheme_model(s, *v),
{
    let mut a: Vec<Json> = Vec::new();
    for i in 0..v.peaks.len()
        invariant
            a@.len() == i,
            forall|s: Script, k: int|
                #![trigger writes::<N>(s), a@[k]]
                writes::<N>(s) && 0 <= k < i ==> a@[k]@ == peak_model(s, v.peaks@[k]),
    {
        a.push(peak_json::<N>(v.peaks[i]));
    }
    let ghost all = a@;
    let peaks: Json = Json::Array(a);
    let mut o: Vec<(String, Json)> = Vec::new();
    o.push(("smooth_sigma".to_owned(), number_json::<N>(v.smooth_sigma)));
    o.push(("baseline".to_owned(), baseline_json::<N>(&v.baseline)));
    o.push(("excluded_x".to_owned(), numbers_json::<N>(&v.excluded_x)));
    o.push(("peaks".to_owned(), peaks));
    let ghost members = o@;
    let j: Json = Json::Object(o);
    proof {
        assert forall|s: Script| #[trigger] writes::<N>(s) implies j@ == scheme_model(s, *v) by {
            assert(element_models(all) =~= v.peaks@.map_values(|p: PeakSpec| peak_model(s, p)));
            assert(member_models(members) =~= scheme_model(s, *v)->Object_0);
        }
    }
    j
}

// ------------------------------------------------------------------ fingerprint

/// What a fingerprint is taken of: the hash of the input, the canonical text
/// of the scheme and the versions of the methods, a line each.
pub open spec fn fingerprint_body(input_hash: Seq<char>, scheme: Seq<char>) -> Seq<char> {
    input_hash + "\n"@ + scheme + "\n"@ + MODEL_VERSION@ + "\n"@ + FITTER_VERSION@ + "\n"@
        + SCHEME_VERSION@
}

/// The fingerprint of an input and a scheme.
pub open spec fn fingerprint_of(s: Script, input_hash: Seq<char>, v: SchemeSpec) -> Seq<char> {
    hex(sha256(encode_utf8(fingerprint_body(input_hash, json_text(canonical(scheme_model(s, v)))))))
}

/// The fingerprint of an input and a scheme: it tells apart fits that differ in
/// input, initial values, constraints or versions of the methods.
pub fn fingerprint<N: Notation>(input_hash: &str, spec: &SchemeSpec) -> (r: String)
    ensures
        r@.len() == 64,
        lower_hex(r@),
        forall|s: Script| #[trigger]
            writes::<N>(s) ==> r@ == fingerprint_of(s, input_hash@, *spec),
{
    let j: Json = scheme_json::<N>(spec);
    let c: String = canonical_json(&j);
    let mut body: String = input_hash.to_owned();
    body.append("\n");
    body.append(c.as_str());
    body.append("\n");
    body.append(MODEL_VERSION);
    body.append("\n");
    body.append(FITTER_VERSION);
    body.append("\n");
    body.append(SCHEME_VERSION);
    assert(body@ == fingerprint_body(input_hash@, c@));
    sha256_hex(body.as_str().as_bytes())
}

// ------------------------------------------------------------------- exclusion

/// The coordinate `x` matches the excluded coordinate `e`.
pub open spec fn matched<T>(m: Meaning<T>, x: T, e: T) -> bool {
    m.le(m.abs(m.sub(x, e)), m.mul(m.num(EXCLUSION_TOL_BITS), m.max(m.abs(e), m.one())))
}

/// The coordinate `x` matches an excluded coordinate.
pub open spec fn excluded<T>(m: Meaning<T>, x: T, ex: Seq<T>) -> bool {
    exists|k: int| 0 <= k < ex.len() && matched(m, x, #[trigger] ex[k])
}

/// Which points are excluded.
pub open spec fn exclusions<T>(m: Meaning<T>, xs: Seq<T>, ex: Seq<T>) -> Seq<bool> {
    xs.map_values(|x: T| excluded(m, x, ex))
}

/// Which points are excluded: those near an excluded coordinate.
pub fn exclusion_mask<A: Arithmetic>(xs: &Vec<Binary64>, excluded_x: &Vec<Binary64>) -> (mask: Vec<
    bool,
>)
    ensures
        mask@.len() == xs@.len(),
        forall|m: Meaning<Binary64>| #[trigger]
            follows::<A>(m) ==> mask@ == exclusions(m, xs@, excluded_x@),
{
    let mut mask: Vec<bool> = Vec::new();
    for i in 0..xs.len()
        invariant
            mask@.len() == i,
            forall|m: Meaning<Binary64>, k: int|
                #![trigger follows::<A>(m), mask@[k]]
                follows::<A>(m) && 0 <= k < i ==> mask@[k] == excluded(m, xs@[k], excluded_x@),
    {
        let mut hit: bool = false;
        for k in 0..excluded_x.len()
            invariant
                i < xs@.len(),
                forall|m: Meaning<Binary64>| #[trigger]
                    follows::<A>(m) ==> hit == exists|j: int|
                        0 <= j < k && matched(m, xs@[i as int], #[trigger] excluded_x@[j]),
        {
            let e: Binary64 = excluded_x[k];
            let scale: Binary64 = e.abs().max(Binary64 { bits: ONE_BITS });
            let tol: Binary64 = A::times(Binary64 { bits: EXCLUSION_TOL_BITS }, scale);
            let near: bool = A::minus(xs[i], e).abs().le(&tol);
            let ghost before = hit;
            if near {
                hit = true;
            }
            proof {
                assert forall|m: Meaning<Binary64>| #[trigger] follows::<A>(m) implies hit
                    == exists|j: int|
                    0 <= j < k + 1 && matched(m, xs@[i as int], #[trigger] excluded_x@[j]) by {
                    assert(near == matched(m, xs@[i as int], excluded_x@[k as int]));
                    if before {
                        let j = choose|j: int|
                            0 <= j < k && matched(m, xs@[i as int], #[trigger] excluded_x@[j]);
                        assert(matched(m, xs@[i as int], excluded_x@[j]));
                    }
                }
            }
        }
        mask.push(hit);
    }
    proof {
        assert forall|m: Meaning<Binary64>| #[trigger] follows::<A>(m) implies mask@ == exclusions(
            m,
            xs@,
            excluded_x@,
        ) by {
            assert(mask@ =~= exclusions(m, xs@, excluded_x@));
        }
    }
    mask
}

// -------------------------------------------------------------------- pipeline

/// A finished evaluation.
pub struct PreparedFit {
    pub mask: Vec<bool>,
    pub baseline: Vec<Binary64>,
    pub smoothed: Option<Vec<Binary64>>,
    pub report: FitReport,
    pub corrected: Vec<Binary64>,
}

/// The values less the baseline.
pub open spec fn corrected<T>(m: Meaning<T>, ys: Seq<T>, base: Seq<T>) -> Seq<T> {
    Seq::new(base.len(), |i: int| m.sub(ys[i], base[i]))
}

impl PreparedFit {
    /// This is the evaluation of the points by the scheme: the excluded points
    /// are marked, the baseline is fitted and taken off, the rest is smoothed
    /// for display where that is asked for, and the peaks are fitted to what
    /// was not smoothed.
    pub open spec fn evaluates(
        self,
        m: Meaning<Binary64>,
        nodes: Seq<(Binary64, Binary64)>,
        xs: Seq<Binary64>,
        ys: Seq<Binary64>,
        spec: SchemeSpec,
    ) -> bool {
        let t = task_of(m, nodes, xs, self.corrected@, self.mask@, spec.peaks@);
        &&& self.mask@ == exclusions(m, xs, spec.excluded_x@)
        &&& baseline(
            m,
            xs,
            ys,
            self.mask@,
            spec.baseline.windows@,
            spec.baseline.degree as nat,
        ) == Ok::<Seq<Binary64>, Seq<char>>(self.baseline@)
        &&& self.corrected@ == corrected(m, ys, self.baseline@)
        &&& match self.smoothed {
            Some(v) => {
                &&& m.lt(m.zero(), spec.smooth_sigma)
                &&& v@.len() == xs.len()
                &&& forall|i: int|
                    0 <= i < xs.len() ==> #[trigger] v@[i] == smooth_value(
                        m,
                        xs,
                        self.corrected@,
                        self.mask@,
                        spec.smooth_sigma,
                        i,
                    )
            },
            None => !m.lt(m.zero(), spec.smooth_sigma),
        }
        &&& self.report.tells(m, t, t.ending(m))
    }
}

/// What the evaluation of points by a scheme comes to: a finished evaluation,
/// or the reason why the baseline cannot be fitted.
pub open spec fn evaluation_yields(
    m: Meaning<Binary64>,
    nodes: Seq<(Binary64, Binary64)>,
    xs: Seq<Binary64>,
    ys: Seq<Binary64>,
    spec: SchemeSpec,
    r: Result<PreparedFit, String>,
) -> bool {
    match r {
        Ok(pf) => pf.evaluates(m, nodes, xs, ys, spec),
        Err(e) => baseline(
            m,
            xs,
            ys,
            exclusions(m, xs, spec.excluded_x@),
            spec.baseline.windows@,
            spec.baseline.degree as nat,
        ) == Err::<Seq<Binary64>, Seq<char>>(e@),
    }
}

/// Evaluates points by a scheme.  Smoothing is for display; the fit always
/// uses the values that are not smoothed.
pub fn run_pipeline<A: Arithmetic>(
    nodes: &Vec<(Binary64, Binary64)>,
    xs: &Vec<Binary64>,
    ys: &Vec<Binary64>,
    spec: &SchemeSpec,
) -> (r: Result<PreparedFit, String>)
    requires
        xs@.len() <= ys@.len(),
        (4 * spec.peaks@.len()) * (4 * spec.peaks@.len()) <= usize::MAX,
    ensures
        r matches Ok(pf) ==> {
            &&& pf.mask@.len() == xs@.len()
            &&& pf.baseline@.len() == xs@.len()
            &&& pf.corrected@.len() == xs@.len()
            &&& (pf.smoothed matches Some(v) ==> v@.len() == xs@.len())
        },
        forall|m: Meaning<Binary64>| #[trigger]
            follows::<A>(m) ==> evaluation_yields(m, nodes@, xs@, ys@, *spec, r),
{
    let mask: Vec<bool> = exclusion_mask::<A>(xs, &spec.excluded_x);
    let base: Vec<Binary64> = match poly_baseline::<A>(
        xs,
        ys,
        &mask,
        &spec.baseline.windows,
        spec.baseline.degree,
    ) {
        Ok(b) => b,
        Err(e) => {
            return Err(e);
        },
    };
    let mut rest: Vec<Binary64> = Vec::new();
    for i in 0..base.len()
        invariant
            base@.len() == xs@.len(),
            xs@.len() <= ys@.len(),
            rest@.len() == i,
            forall|m: Meaning<Binary64>, k: int|
                #![trigger follows::<A>(m), rest@[k]]
                follows::<A>(m) && 0 <= k < i ==> rest@[k] == m.sub(ys@[k], base@[k]),
    {
        rest.push(A::minus(ys[i], base[i]));
    }
    proof {
        assert forall|m: Meaning<Binary64>| #[trigger] follows::<A>(m) implies rest@ == corrected(
            m,
            ys@,
            base@,
        ) by {
            assert(rest@ =~= corrected(m, ys@, base@));
        }
    }
    let zero: Binary64 = Binary64 { bits: 0 };
    let smoothed: Option<Vec<Binary64>> = if zero.lt(&spec.smooth_sigma) {
        Some(gaussian_smooth::<A>(xs, &rest, &mask, spec.smooth_sigma))
    } else {
        None
    };
    let report: FitReport = fit::<A>(nodes, xs, &rest, &mask, &spec.peaks);
    Ok(PreparedFit { mask, baseline: base, smoothed, report, corrected: rest })
}

// ------------------------------------------------------------------- artifacts

/// The first lines of what an artifact hash is taken of: the hash of the
/// input, the hash of the artifact it was derived from or a dash, the version
/// of the method and its parameters.
pub open spec fn artifact_head(
    input_hash: Seq<char>,
    upstream: Option<Seq<char>>,
    method: Seq<char>,
    params: Seq<char>,
) -> Seq<char> {
    let up = match upstream {
        Some(h) => h,
        None => "-"@,
    };
    input_hash + "\n"@ + up + "\n"@ + method + "\n"@ + params + "\n"@
}

/// The first `k` points of a curve, a numeral for each coordinate.
pub open spec fn curve_text(s: Script, xs: Seq<Binary64>, ys: Seq<Binary64>, k: int) -> Seq<char>
    decreases k,
{
    if k <= 0 {
        Seq::empty()
    } else {
        curve_text(s, xs, ys, k - 1) + (s.scientific)(xs[k - 1], 15) + ","@ + (s.scientific)(
            ys[k - 1],
            15,
        ) + ";"@
    }
}

/// The number of points of a curve with these coordinates.
pub open spec fn paired(xs: Seq<Binary64>, ys: Seq<Binary64>) -> int {
    if xs.len() <= ys.len() {
        xs.len() as int
    } else {
        ys.len() as int
    }
}

/// What an artifact hash is taken of.
pub open spec fn artifact_body(
    s: Script,
    input_hash: Seq<char>,
    upstream: Option<Seq<char>>,
    method: Seq<char>,
    params: Seq<char>,
    xs: Seq<Binary64>,
    ys: Seq<Binary64>,
) -> Seq<char> {
    artifact_head(input_hash, upstream, method, params) + curve_text(s, xs, ys, paired(xs, ys))
}

/// The text of an optional string slice.
pub open spec fn optional_str(o: Option<&str>) -> Option<Seq<char>> {
    match o {
        Some(t) => Some(t@),
        None => None,
    }
}

/// The hash of a derived curve, which binds it to its input, to what it was
/// derived from, and to the method.
pub fn artifact_hash<N: Notation>(
    input_hash: &str,
    upstream: Option<&str>,
    method_version: &str,
    params_canonical: &str,
    xs: &Vec<Binary64>,
    ys: &Vec<Binary64>,
) -> (r: String)
    ensures
        r@.len() == 64,
        forall|s: Script| #[trigger]
            writes::<N>(s) ==> r@ == hex(
                sha256(
                    encode_utf8(
                        artifact_body(
                            s,
                            input_hash@,
                            optional_str(upstream),
                            method_version@,
                            params_canonical@,
                            xs@,
                            ys@,
                        ),
                    ),
                ),
            ),
{
    let mut body: String = input_hash.to_owned();
    body.append("\n");
    match upstream {
        Some(h) => body.append(h),
        None => body.append("-"),
    }
    body.append("\n");
    body.append(method_version);
    body.append("\n");
    body.append(params_canonical);
    body.append("\n");
    let ghost head = body@;
    assert(head == artifact_head(
        input_hash@,
        optional_str(upstream),
        method_version@,
        params_canonical@,
    ));
    let n: usize = if xs.len() <= ys.len() {
        xs.len()
    } else {
        ys.len()
    };
    for k in 0..n
        invariant
            n == paired(xs@, ys@),
            forall|s: Script| #[trigger]
                writes::<N>(s) ==> body@ == head + curve_text(s, xs@, ys@, k as int),
    {
        let x: String = N::scientific(xs[k], 15);
        let y: String = N::scientific(ys[k], 15);
        body.append(x.as_str());
        body.append(",");
        body.append(y.as_str());
        body.append(";");
        proof {
            assert forall|s: Script| #[trigger] writes::<N>(s) implies body@ == head + curve_text(
                s,
                xs@,
                ys@,
                k + 1,
            ) by {
                assert(body@ =~= head + curve_text(s, xs@, ys@, k + 1));
            }
        }
    }
    proof {
        assert forall|s: Script| #[trigger] writes::<N>(s) implies body@ == artifact_body(
            s,
            input_hash@,
            optional_str(upstream),
            method_version@,
            params_canonical@,
            xs@,
            ys@,
        ) by {
            assert(n as int == paired(xs@, ys@));
        }
    }
    sha256_hex(body.as_str().as_bytes())
}

} // verus!
