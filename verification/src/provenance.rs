//! What fingerprints and artifact hashes are taken of tells apart what they
//! stand for.

use crate::binary64::Binary64;
use crate::canon::{distinct, lemma_by_key_set};
use crate::fit::FITTER_VERSION;
use crate::hash::sha256;
use crate::json::{
    by_key, canonical, canonical_elements, canonical_members, json_text, JsonModel,
};
use crate::model::{PeakSpec, MODEL_VERSION};
use crate::notation::{number_model, Script};
use crate::numeral::{decimal, digit, hex, hex_digit, is_digit, law_hex_names_one_sequence};
use crate::reading::{law_text_names_one_value, number_text, plain};
use crate::scheme::{
    artifact_body, baseline_model, curve_text, fingerprint_body, fingerprint_of, paired, peak_model,
    scheme_model, window_model, SchemeSpec, SCHEME_VERSION,
};
use vstd::prelude::*;
use vstd::utf8::{encode_utf8, encode_utf8_decode_utf8};

verus! {

// --------------------------------------------------------------- canonical forms

/// The canonical form of a plain value is plain.
proof fn lemma_plain_canonical(m: JsonModel)
    requires
        plain(m),
    ensures
        plain(canonical(m)),
    decreases m,
{
    match m {
        JsonModel::Array(a) => {
            let c = canonical_elements(a);
            assert forall|i: int| 0 <= i < c.len() implies plain(#[trigger] c[i]) by {
                lemma_plain_canonical(a[i]);
            }
        },
        JsonModel::Object(e) => {
            let c = canonical_members(e);
            lemma_by_key_set(c);
            let r = by_key(c);
            assert forall|i: int| 0 <= i < r.len() implies plain((#[trigger] r[i]).1) by {
                assert(c.contains(r[i]));
                let j = choose|j: int| 0 <= j < c.len() && c[j] == r[i];
                assert(plain(e[j].1));
                lemma_plain_canonical(e[j].1);
            }
        },
        _ => {},
    }
}

/// Objects with the same keys and the same canonical form have members with
/// the same canonical forms.
proof fn lemma_canonical_members(
    e: Seq<(Seq<char>, JsonModel)>,
    f: Seq<(Seq<char>, JsonModel)>,
    i: int,
)
    requires
        distinct(e),
        e.len() == f.len(),
        forall|k: int| 0 <= k < e.len() ==> (#[trigger] e[k]).0 == f[k].0,
        canonical(JsonModel::Object(e)) == canonical(JsonModel::Object(f)),
        0 <= i < e.len(),
    ensures
        canonical(e[i].1) == canonical(f[i].1),
{
    let ce = canonical_members(e);
    let cf = canonical_members(f);
    lemma_by_key_set(ce);
    lemma_by_key_set(cf);
    assert(by_key(ce) == by_key(cf));
    assert(by_key(ce).contains(ce[i]));
    let k = choose|k: int| 0 <= k < by_key(ce).len() && by_key(ce)[k] == ce[i];
    assert(cf.contains(by_key(cf)[k]));
    let j = choose|j: int| 0 <= j < cf.len() && cf[j] == ce[i];
    assert(e[j].0 == f[j].0);
    assert(e[i].0 == f[j].0);
    if i < j {
        assert(e[i].0 != e[j].0);
    }
    if j < i {
        assert(e[j].0 != e[i].0);
    }
}

// ----------------------------------------------------------------------- schemes

/// Finite numbers are written as numbers, and no two alike.
pub open spec fn legible(s: Script) -> bool {
    &&& forall|x: Binary64| #[trigger]
        x.finite() ==> (s.numeral)(x) is Some && number_text((s.numeral)(x)->0)
    &&& forall|x: Binary64, y: Binary64|
        x.finite() && y.finite() && #[trigger] (s.numeral)(x) == #[trigger] (s.numeral)(y) ==> x
            == y
}

/// The numbers of a scheme are finite.
pub open spec fn finite_scheme(v: SchemeSpec) -> bool {
    &&& v.smooth_sigma.finite()
    &&& forall|i: int|
        0 <= i < v.baseline.windows@.len() ==> (#[trigger] v.baseline.windows@[i]).0.finite()
            && v.baseline.windows@[i].1.finite()
    &&& forall|i: int| 0 <= i < v.excluded_x@.len() ==> (#[trigger] v.excluded_x@[i]).finite()
    &&& forall|i: int|
        0 <= i < v.peaks@.len() ==> {
            &&& (#[trigger] v.peaks@[i]).center0.finite()
            &&& v.peaks@[i].width0.finite()
            &&& v.peaks@[i].amp0.finite()
        }
}

/// The schemes say the same.
pub open spec fn same_scheme(v: SchemeSpec, w: SchemeSpec) -> bool {
    &&& v.smooth_sigma == w.smooth_sigma
    &&& v.baseline.degree == w.baseline.degree
    &&& v.baseline.windows@ == w.baseline.windows@
    &&& v.excluded_x@ == w.excluded_x@
    &&& v.peaks@ == w.peaks@
}

proof fn lemma_decimal(n: nat)
    ensures
        decimal(n).len() > 0,
        forall|i: int| 0 <= i < decimal(n).len() ==> is_digit(#[trigger] decimal(n)[i]),
    decreases n,
{
    if n >= 10 {
        lemma_decimal(n / 10);
    }
}

proof fn lemma_decimal_injective(a: nat, b: nat)
    requires
        decimal(a) == decimal(b),
    ensures
        a == b,
    decreases a,
{
    lemma_decimal(a / 10);
    lemma_decimal(b / 10);
    let s = decimal(a);
    let t = decimal(b);
    assert(s.last() == digit(a % 10));
    assert(t.last() == digit(b % 10));
    assert(a % 10 == b % 10);
    if a >= 10 && b >= 10 {
        assert(s.drop_last() =~= decimal(a / 10));
        assert(t.drop_last() =~= decimal(b / 10));
        lemma_decimal_injective(a / 10, b / 10);
    }
}

proof fn lemma_number_plain(s: Script, x: Binary64)
    requires
        legible(s),
        x.finite(),
    ensures
        number_model(s, x) == JsonModel::Number((s.numeral)(x)->0),
        plain(number_model(s, x)),
        canonical(number_model(s, x)) == number_model(s, x),
{
}

proof fn lemma_number_same(s: Script, x: Binary64, y: Binary64)
    requires
        legible(s),
        x.finite(),
        y.finite(),
        canonical(number_model(s, x)) == canonical(number_model(s, y)),
    ensures
        x == y,
{
    lemma_number_plain(s, x);
    lemma_number_plain(s, y);
    assert((s.numeral)(x) == (s.numeral)(y));
}

proof fn lemma_keys()
    ensures
        "smooth_sigma"@.len() == 12,
        "baseline"@.len() == 8,
        "excluded_x"@.len() == 10,
        "peaks"@.len() == 5,
        "degree"@.len() == 6,
        "windows"@.len() == 7,
        "kind"@.len() == 4,
        "center0"@.len() == 7,
        "width0"@.len() == 6,
        "amp0"@.len() == 4,
        "fix_center"@.len() == 10,
        "kind"@ != "amp0"@,
        "gauss"@ != "lorentz"@,
        "gauss"@ != "voigt"@,
        "lorentz"@ != "voigt"@,
{
    reveal_strlit("smooth_sigma");
    reveal_strlit("baseline");
    reveal_strlit("excluded_x");
    reveal_strlit("peaks");
    reveal_strlit("degree");
    reveal_strlit("windows");
    reveal_strlit("kind");
    reveal_strlit("center0");
    reveal_strlit("width0");
    reveal_strlit("amp0");
    reveal_strlit("fix_center");
    reveal_strlit("gauss");
    reveal_strlit("lorentz");
    reveal_strlit("voigt");
    assert("kind"@[0] != "amp0"@[0]);
    assert("gauss"@[0] != "voigt"@[0]);
    assert("gauss"@.len() != "lorentz"@.len());
    assert("voigt"@.len() != "lorentz"@.len());
}

proof fn lemma_peak(s: Script, p: PeakSpec, q: PeakSpec)
    requires
        legible(s),
        p.center0.finite() && p.width0.finite() && p.amp0.finite(),
        q.center0.finite() && q.width0.finite() && q.amp0.finite(),
        canonical(peak_model(s, p)) == canonical(peak_model(s, q)),
    ensures
        p == q,
{
    let e = peak_model(s, p)->Object_0;
    let f = peak_model(s, q)->Object_0;
    lemma_keys();
    assert(distinct(e));
    lemma_canonical_members(e, f, 0);
    lemma_canonical_members(e, f, 1);
    lemma_canonical_members(e, f, 2);
    lemma_canonical_members(e, f, 3);
    lemma_canonical_members(e, f, 4);
    lemma_number_same(s, p.center0, q.center0);
    lemma_number_same(s, p.width0, q.width0);
    lemma_number_same(s, p.amp0, q.amp0);
    assert(e[0].1 == f[0].1);
    assert(p.kind == q.kind);
    assert(e[4].1 == f[4].1);
}

proof fn lemma_peak_plain(s: Script, p: PeakSpec)
    requires
        legible(s),
        p.center0.finite() && p.width0.finite() && p.amp0.finite(),
    ensures
        plain(peak_model(s, p)),
{
    let e = peak_model(s, p)->Object_0;
    lemma_number_plain(s, p.center0);
    lemma_number_plain(s, p.width0);
    lemma_number_plain(s, p.amp0);
    assert forall|i: int| 0 <= i < e.len() implies plain((#[trigger] e[i]).1) by {
        assert(plain(e[0].1) && plain(e[1].1) && plain(e[2].1) && plain(e[3].1) && plain(e[4].1));
    }
}

proof fn lemma_window(s: Script, v: (Binary64, Binary64), w: (Binary64, Binary64))
    requires
        legible(s),
        v.0.finite() && v.1.finite(),
        w.0.finite() && w.1.finite(),
        canonical(window_model(s, v)) == canonical(window_model(s, w)),
    ensures
        v == w,
{
    let a = window_model(s, v)->Array_0;
    let b = window_model(s, w)->Array_0;
    assert(canonical_elements(a)[0] == canonical_elements(b)[0]);
    assert(canonical_elements(a)[1] == canonical_elements(b)[1]);
    lemma_number_same(s, v.0, w.0);
    lemma_number_same(s, v.1, w.1);
}

proof fn lemma_window_plain(s: Script, v: (Binary64, Binary64))
    requires
        legible(s),
        v.0.finite() && v.1.finite(),
    ensures
        plain(window_model(s, v)),
{
    let a = window_model(s, v)->Array_0;
    lemma_number_plain(s, v.0);
    lemma_number_plain(s, v.1);
    assert forall|i: int| 0 <= i < a.len() implies plain(#[trigger] a[i]) by {
        assert(plain(a[0]) && plain(a[1]));
    }
}

proof fn lemma_scheme_plain(s: Script, v: SchemeSpec)
    requires
        legible(s),
        finite_scheme(v),
    ensures
        plain(scheme_model(s, v)),
{
    let e = scheme_model(s, v)->Object_0;
    let b = baseline_model(s, v.baseline)->Object_0;
    let w = b[1].1->Array_0;
    let x = e[2].1->Array_0;
    let p = e[3].1->Array_0;
    lemma_number_plain(s, v.smooth_sigma);
    lemma_decimal(v.baseline.degree as nat);
    assert forall|i: int| 0 <= i < w.len() implies plain(#[trigger] w[i]) by {
        assert(v.baseline.windows@[i].0.finite());
        lemma_window_plain(s, v.baseline.windows@[i]);
    }
    assert forall|i: int| 0 <= i < x.len() implies plain(#[trigger] x[i]) by {
        lemma_number_plain(s, v.excluded_x@[i]);
    }
    assert forall|i: int| 0 <= i < p.len() implies plain(#[trigger] p[i]) by {
        assert(v.peaks@[i].center0.finite());
        lemma_peak_plain(s, v.peaks@[i]);
    }
    assert(plain(b[0].1));
    assert(plain(b[1].1));
    assert forall|i: int| 0 <= i < b.len() implies plain((#[trigger] b[i]).1) by {
        assert(i == 0 || i == 1);
    }
    assert(plain(e[1].1));
    assert forall|i: int| 0 <= i < e.len() implies plain((#[trigger] e[i]).1) by {
        assert(plain(e[0].1) && plain(e[2].1) && plain(e[3].1));
        assert(i == 0 || i == 1 || i == 2 || i == 3);
    }
}

/// Schemes with the same canonical text are the same scheme: it changes with
/// every initial value, every constraint, every window, every excluded point
/// and with the smoothing.
pub proof fn law_scheme_text_names_one_scheme(s: Script, v: SchemeSpec, w: SchemeSpec)
    requires
        legible(s),
        finite_scheme(v),
        finite_scheme(w),
        json_text(canonical(scheme_model(s, v))) == json_text(canonical(scheme_model(s, w))),
    ensures
        same_scheme(v, w),
{
    lemma_scheme_plain(s, v);
    lemma_scheme_plain(s, w);
    lemma_plain_canonical(scheme_model(s, v));
    lemma_plain_canonical(scheme_model(s, w));
    law_text_names_one_value(canonical(scheme_model(s, v)), canonical(scheme_model(s, w)));
    let e = scheme_model(s, v)->Object_0;
    let f = scheme_model(s, w)->Object_0;
    lemma_keys();
    assert(distinct(e));
    lemma_canonical_members(e, f, 0);
    lemma_canonical_members(e, f, 1);
    lemma_canonical_members(e, f, 2);
    lemma_canonical_members(e, f, 3);
    lemma_number_same(s, v.smooth_sigma, w.smooth_sigma);
    let b = baseline_model(s, v.baseline)->Object_0;
    let c = baseline_model(s, w.baseline)->Object_0;
    assert(distinct(b));
    lemma_canonical_members(b, c, 0);
    lemma_canonical_members(b, c, 1);
    lemma_decimal_injective(v.baseline.degree as nat, w.baseline.degree as nat);
    let wa = b[1].1->Array_0;
    let wb = c[1].1->Array_0;
    assert(canonical_elements(wa) == canonical_elements(wb));
    assert(canonical_elements(wa).len() == wa.len() && canonical_elements(wb).len() == wb.len());
    assert forall|i: int| 0 <= i < wa.len() implies #[trigger] v.baseline.windows@[i]
        == w.baseline.windows@[i] by {
        assert(canonical_elements(wa)[i] == canonical_elements(wb)[i]);
        assert(w.baseline.windows@[i].0.finite());
        lemma_window(s, v.baseline.windows@[i], w.baseline.windows@[i]);
    }
    assert(v.baseline.windows@ =~= w.baseline.windows@);
    let xa = e[2].1->Array_0;
    let xb = f[2].1->Array_0;
    assert(canonical_elements(xa) == canonical_elements(xb));
    assert(canonical_elements(xa).len() == xa.len() && canonical_elements(xb).len() == xb.len());
    assert forall|i: int| 0 <= i < xa.len() implies #[trigger] v.excluded_x@[i]
        == w.excluded_x@[i] by {
        assert(canonical_elements(xa)[i] == canonical_elements(xb)[i]);
        assert(w.excluded_x@[i].finite());
        lemma_number_same(s, v.excluded_x@[i], w.excluded_x@[i]);
    }
    assert(v.excluded_x@ =~= w.excluded_x@);
    let pa = e[3].1->Array_0;
    let pb = f[3].1->Array_0;
    assert(canonical_elements(pa) == canonical_elements(pb));
    assert(canonical_elements(pa).len() == pa.len() && canonical_elements(pb).len() == pb.len());
    assert forall|i: int| 0 <= i < pa.len() implies #[trigger] v.peaks@[i] == w.peaks@[i] by {
        assert(canonical_elements(pa)[i] == canonical_elements(pb)[i]);
        assert(w.peaks@[i].center0.finite());
        lemma_peak(s, v.peaks@[i], w.peaks@[i]);
    }
    assert(v.peaks@ =~= w.peaks@);
}

// ----------------------------------------------------- what the hashes are taken of

/// The character `c` does not stand in `t`.
pub open spec fn lacks(t: Seq<char>, c: char) -> bool {
    forall|i: int| 0 <= i < t.len() ==> #[trigger] t[i] != c
}

/// Texts that are cut at the first place where a character stands.
proof fn lemma_cut(a: Seq<char>, u: Seq<char>, b: Seq<char>, v: Seq<char>, c: char)
    requires
        lacks(a, c),
        lacks(b, c),
        a + (seq![c] + u) == b + (seq![c] + v),
    ensures
        a == b,
        u == v,
{
    let x = a + (seq![c] + u);
    let y = b + (seq![c] + v);
    let n = a.len() as int;
    let k = b.len() as int;
    assert(x[n] == c);
    assert(y[k] == c);
    if n < k {
        assert(y[n] == b[n]);
    }
    if k < n {
        assert(x[k] == a[k]);
    }
    assert(a =~= x.take(n) && b =~= x.take(n));
    assert(u =~= x.skip(n + 1) && v =~= x.skip(n + 1));
}

proof fn lemma_line_break()
    ensures
        "\n"@ == seq!['\n'],
        ","@ == seq![','],
        ";"@ == seq![';'],
{
    reveal_strlit("\n");
    reveal_strlit(",");
    reveal_strlit(";");
    assert("\n"@ =~= seq!['\n']);
    assert(","@ =~= seq![',']);
    assert(";"@ =~= seq![';']);
}

/// A hash in hexadecimal digits is one line, and no dash, whatever it is of.
pub proof fn law_hash_is_one_line(bytes: Seq<u8>)
    requires
        bytes.len() > 0,
    ensures
        lacks(hex(bytes), '\n'),
        hex(bytes) != "-"@,
{
    let t = hex(bytes);
    reveal_strlit("-");
    assert(t.len() == 2 * bytes.len());
    assert forall|i: int| 0 <= i < t.len() implies #[trigger] t[i] != '\n' by {
        let b = bytes[i / 2] as int;
        assert(t[i] == hex_digit(b / 16) || t[i] == hex_digit(b % 16));
    }
    assert("-"@.len() == 1);
}

/// What a fingerprint is taken of determines the input, by its hash, and the
/// scheme: fits that share it agree in input, initial values and constraints.
pub proof fn law_fingerprint_tells_apart(
    s: Script,
    g: Seq<char>,
    v: SchemeSpec,
    h: Seq<char>,
    w: SchemeSpec,
)
    requires
        legible(s),
        finite_scheme(v),
        finite_scheme(w),
        lacks(g, '\n'),
        lacks(h, '\n'),
        fingerprint_body(g, json_text(canonical(scheme_model(s, v)))) == fingerprint_body(
            h,
            json_text(canonical(scheme_model(s, w))),
        ),
    ensures
        g == h,
        same_scheme(v, w),
{
    lemma_line_break();
    let a = json_text(canonical(scheme_model(s, v)));
    let b = json_text(canonical(scheme_model(s, w)));
    let e = "\n"@ + MODEL_VERSION@ + "\n"@ + FITTER_VERSION@ + "\n"@ + SCHEME_VERSION@;
    assert(fingerprint_body(g, a) =~= g + (seq!['\n'] + (a + e)));
    assert(fingerprint_body(h, b) =~= h + (seq!['\n'] + (b + e)));
    lemma_cut(g, a + e, h, b + e, '\n');
    let x = a + e;
    let n = (x.len() - e.len()) as int;
    assert(a =~= x.take(n) && b =~= x.take(n));
    law_scheme_text_names_one_scheme(s, v, w);
}

/// Two sequences of bytes that differ and have one digest.
pub open spec fn collide(a: Seq<u8>, b: Seq<u8>) -> bool {
    a != b && sha256(a) == sha256(b)
}

/// Texts with one hash are one text, unless they collide.  So it is with
/// inputs, with curves and with what a fingerprint is taken of.
pub proof fn law_hash_names_one_text(a: Seq<char>, b: Seq<char>)
    requires
        hex(sha256(encode_utf8(a))) == hex(sha256(encode_utf8(b))),
        !collide(encode_utf8(a), encode_utf8(b)),
    ensures
        a == b,
{
    law_hex_names_one_sequence(sha256(encode_utf8(a)), sha256(encode_utf8(b)));
    encode_utf8_decode_utf8(a);
    encode_utf8_decode_utf8(b);
}

/// The same input and scheme have the same fingerprint.
pub proof fn law_same_scheme_same_fingerprint(
    s: Script,
    hash: Seq<char>,
    v: SchemeSpec,
    w: SchemeSpec,
)
    requires
        same_scheme(v, w),
    ensures
        fingerprint_of(s, hash, v) == fingerprint_of(s, hash, w),
{
}

/// Fits with one fingerprint agree in input, initial values and constraints,
/// unless the texts that the two fingerprints are taken of collide.
pub proof fn law_fingerprint_names_one_fit(
    s: Script,
    g: Seq<char>,
    v: SchemeSpec,
    h: Seq<char>,
    w: SchemeSpec,
)
    requires
        legible(s),
        finite_scheme(v),
        finite_scheme(w),
        lacks(g, '\n'),
        lacks(h, '\n'),
        fingerprint_of(s, g, v) == fingerprint_of(s, h, w),
        !collide(
            encode_utf8(fingerprint_body(g, json_text(canonical(scheme_model(s, v))))),
            encode_utf8(fingerprint_body(h, json_text(canonical(scheme_model(s, w))))),
        ),
    ensures
        g == h,
        same_scheme(v, w),
{
    let a = fingerprint_body(g, json_text(canonical(scheme_model(s, v))));
    let b = fingerprint_body(h, json_text(canonical(scheme_model(s, w))));
    law_hash_names_one_text(a, b);
    law_fingerprint_tells_apart(s, g, v, h, w);
}

/// Numbers are written without the marks that stand between them.
pub open spec fn separable(s: Script) -> bool {
    &&& forall|x: Binary64| #[trigger] lacks((s.scientific)(x, 15), ',')
    &&& forall|x: Binary64| #[trigger] lacks((s.scientific)(x, 15), ';')
}

/// A point of a curve as it is written.
spec fn point_text(s: Script, x: Binary64, y: Binary64) -> Seq<char> {
    (s.scientific)(x, 15) + (seq![','] + ((s.scientific)(y, 15) + seq![';']))
}

/// The points of a curve from point `k` on.
spec fn points_from(s: Script, xs: Seq<Binary64>, ys: Seq<Binary64>, k: int, n: int) -> Seq<char>
    decreases n - k,
{
    if k >= n {
        Seq::empty()
    } else {
        point_text(s, xs[k], ys[k]) + points_from(s, xs, ys, k + 1, n)
    }
}

proof fn lemma_points(s: Script, xs: Seq<Binary64>, ys: Seq<Binary64>, k: int, n: int)
    requires
        0 <= k <= n,
    ensures
        curve_text(s, xs, ys, n) == curve_text(s, xs, ys, k) + points_from(s, xs, ys, k, n),
    decreases n - k,
{
    if k < n {
        lemma_points(s, xs, ys, k + 1, n);
        lemma_line_break();
        assert(curve_text(s, xs, ys, k + 1) =~= curve_text(s, xs, ys, k) + point_text(
            s,
            xs[k],
            ys[k],
        ));
        assert(curve_text(s, xs, ys, n) =~= curve_text(s, xs, ys, k) + points_from(s, xs, ys, k, n));
    } else {
        assert(curve_text(s, xs, ys, n) + Seq::<char>::empty() =~= curve_text(s, xs, ys, n));
    }
}

/// The curves have equally many points, and the numbers at each are written
/// alike.
pub open spec fn written_alike(
    s: Script,
    xs: Seq<Binary64>,
    ys: Seq<Binary64>,
    vs: Seq<Binary64>,
    ws: Seq<Binary64>,
) -> bool {
    &&& paired(xs, ys) == paired(vs, ws)
    &&& forall|i: int|
        0 <= i < paired(xs, ys) ==> (s.scientific)(#[trigger] xs[i], 15) == (s.scientific)(
            #[trigger] vs[i],
            15,
        ) && (s.scientific)(ys[i], 15) == (s.scientific)(ws[i], 15)
}

proof fn lemma_points_alike(
    s: Script,
    xs: Seq<Binary64>,
    ys: Seq<Binary64>,
    n: int,
    vs: Seq<Binary64>,
    ws: Seq<Binary64>,
    m: int,
    k: int,
)
    requires
        separable(s),
        0 <= k <= n,
        k <= m,
        points_from(s, xs, ys, k, n) == points_from(s, vs, ws, k, m),
    ensures
        n == m,
        forall|i: int|
            k <= i < n ==> (s.scientific)(#[trigger] xs[i], 15) == (s.scientific)(
                #[trigger] vs[i],
                15,
            ) && (s.scientific)(ys[i], 15) == (s.scientific)(ws[i], 15),
    decreases n - k,
{
    let p = points_from(s, xs, ys, k, n);
    let q = points_from(s, vs, ws, k, m);
    if k < n && k < m {
        let a = (s.scientific)(xs[k], 15);
        let b = (s.scientific)(ys[k], 15);
        let c = (s.scientific)(vs[k], 15);
        let d = (s.scientific)(ws[k], 15);
        let u = points_from(s, xs, ys, k + 1, n);
        let v = points_from(s, vs, ws, k + 1, m);
        assert(p =~= a + (seq![','] + (b + (seq![';'] + u))));
        assert(q =~= c + (seq![','] + (d + (seq![';'] + v))));
        lemma_cut(a, b + (seq![';'] + u), c, d + (seq![';'] + v), ',');
        lemma_cut(b, u, d, v, ';');
        lemma_points_alike(s, xs, ys, n, vs, ws, m, k + 1);
    } else if k < n {
        assert(p.len() > 0);
    } else if k < m {
        assert(q.len() > 0);
    }
}

/// The first lines of an artifact's text, a line each.
proof fn lemma_head_cut(
    g: Seq<char>,
    up: Seq<char>,
    method: Seq<char>,
    params: Seq<char>,
    t: Seq<char>,
)
    ensures
        g + "\n"@ + up + "\n"@ + method + "\n"@ + params + "\n"@ + t == g + (seq!['\n'] + (up + (
        seq!['\n'] + (method + (seq!['\n'] + (params + (seq!['\n'] + t))))))),
{
    lemma_line_break();
    assert(g + "\n"@ + up + "\n"@ + method + "\n"@ + params + "\n"@ + t =~= g + (seq!['\n'] + (up
        + (seq!['\n'] + (method + (seq!['\n'] + (params + (seq!['\n'] + t))))))));
}

/// Texts of one line.
pub open spec fn one_line_each(
    g: Seq<char>,
    up: Option<Seq<char>>,
    method: Seq<char>,
    params: Seq<char>,
) -> bool {
    &&& lacks(g, '\n')
    &&& up matches Some(h) ==> lacks(h, '\n') && h != "-"@
    &&& lacks(method, '\n')
    &&& lacks(params, '\n')
}

/// What an artifact hash is taken of determines the input and the artifact that
/// the curve was derived from, by their hashes, the method, its parameters and
/// the curve as it is written.
pub proof fn law_artifact_tells_apart(
    s: Script,
    g: Seq<char>,
    up: Option<Seq<char>>,
    method: Seq<char>,
    params: Seq<char>,
    xs: Seq<Binary64>,
    ys: Seq<Binary64>,
    h: Seq<char>,
    vp: Option<Seq<char>>,
    technique: Seq<char>,
    settings: Seq<char>,
    vs: Seq<Binary64>,
    ws: Seq<Binary64>,
)
    requires
        separable(s),
        one_line_each(g, up, method, params),
        one_line_each(h, vp, technique, settings),
        artifact_body(s, g, up, method, params, xs, ys) == artifact_body(
            s,
            h,
            vp,
            technique,
            settings,
            vs,
            ws,
        ),
    ensures
        g == h,
        up == vp,
        method == technique,
        params == settings,
        written_alike(s, xs, ys, vs, ws),
{
    reveal_strlit("-");
    let a = match up {
        Some(t) => t,
        None => "-"@,
    };
    let b = match vp {
        Some(t) => t,
        None => "-"@,
    };
    let n = paired(xs, ys);
    let m = paired(vs, ws);
    let p = curve_text(s, xs, ys, n);
    let q = curve_text(s, vs, ws, m);
    lemma_head_cut(g, a, method, params, p);
    lemma_head_cut(h, b, technique, settings, q);
    let p3 = params + (seq!['\n'] + p);
    let q3 = settings + (seq!['\n'] + q);
    let p2 = method + (seq!['\n'] + p3);
    let q2 = technique + (seq!['\n'] + q3);
    let p1 = a + (seq!['\n'] + p2);
    let q1 = b + (seq!['\n'] + q2);
    lemma_cut(g, p1, h, q1, '\n');
    lemma_cut(a, p2, b, q2, '\n');
    lemma_cut(method, p3, technique, q3, '\n');
    lemma_cut(params, p, settings, q, '\n');
    lemma_points(s, xs, ys, 0, n);
    lemma_points(s, vs, ws, 0, m);
    assert(p =~= points_from(s, xs, ys, 0, n));
    assert(q =~= points_from(s, vs, ws, 0, m));
    lemma_points_alike(s, xs, ys, n, vs, ws, m, 0);
}

} // verus!
