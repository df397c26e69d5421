//! A synthetic spectrum with a fixed seed.
//!
//! The curve spans 380 to 720 nanometres, with two overlapping Gaussians, a
//! Lorentzian, a sloping quadratic baseline, mild normal noise and a few
//! injected cosmic-ray spikes.

use crate::arithmetic::{follows, Arithmetic, Meaning};
use crate::binary64::{Binary64, ONE_BITS};
use crate::json::{element_models, member_models, whole_json, whole_model, Json, JsonModel};
use crate::model::{gauss_line, gauss_value, lorentz_line, lorentz_value, PeakKind};
use crate::notation::{number_json, number_model, writes, Notation, Script};
use crate::rng::{drawn, Rng, RNG_VERSION, SYNTH_SEED};
use vstd::prelude::*;

verus! {

/// The number of rows.
pub const SYNTH_ROWS: usize = 900;

/// The number 380: the first coordinate.
pub const FIRST_BITS: u64 = 0x4077_c000_0000_0000;

/// The number 720: the last coordinate.
pub const LAST_BITS: u64 = 0x4086_8000_0000_0000;

/// The number 550: the coordinate about which the baseline is expanded.
pub const MIDDLE_BITS: u64 = 0x4081_3000_0000_0000;

/// The number 0.15: the baseline at the middle.
pub const LEVEL_BITS: u64 = 0x3fc3_3333_3333_3333;

/// The number 0.0004: how the baseline falls at the middle.
pub const FALL_BITS: u64 = 0x3f3a_36e2_eb1c_432d;

/// The number 0.000002: how the baseline bends.
pub const BEND_BITS: u64 = 0x3ec0_c6f7_a0b5_ed8d;

/// The number 0.01: the deviation of the noise.
pub const NOISE_BITS: u64 = 0x3f84_7ae1_47ae_147b;

/// The number 0.6: the least height of a spike.
pub const SPIKE_BITS: u64 = 0x3fe3_3333_3333_3333;

/// The number 0.1: how much the heights of spikes vary.
pub const SPIKE_VARIES_BITS: u64 = 0x3fb9_9999_9999_999a;

/// A peak of the synthetic spectrum: shape, centre, width and height.
pub struct TruePeak {
    pub kind: PeakKind,
    pub center: u64,
    pub width: u64,
    pub height: u64,
}

/// The first peak: a Gaussian at 500 with width 8 and height 1.2.
pub open spec fn peak_one() -> TruePeak {
    TruePeak {
        kind: PeakKind::Gauss,
        center: 0x407f_4000_0000_0000,
        width: 0x4020_0000_0000_0000,
        height: 0x3ff3_3333_3333_3333,
    }
}

/// The second peak: a Gaussian at 512 with width 10 and height 0.8.
pub open spec fn peak_two() -> TruePeak {
    TruePeak {
        kind: PeakKind::Gauss,
        center: 0x4080_0000_0000_0000,
        width: 0x4024_0000_0000_0000,
        height: 0x3fe9_9999_9999_999a,
    }
}

/// The third peak: a Lorentzian at 610 with width 14 and height 0.55.
pub open spec fn peak_three() -> TruePeak {
    TruePeak {
        kind: PeakKind::Lorentz,
        center: 0x4083_1000_0000_0000,
        width: 0x402c_0000_0000_0000,
        height: 0x3fe1_9999_9999_999a,
    }
}

/// The rows with a spike.
pub open spec fn spiked(i: int) -> bool {
    i == 123 || i == 455 || i == 701
}

/// The coordinate of row `i`.
pub open spec fn synth_x<T>(m: Meaning<T>, i: nat) -> T {
    let first = m.num(FIRST_BITS);
    let dx = m.div(m.sub(m.num(LAST_BITS), first), m.sub(m.count(SYNTH_ROWS as nat), m.one()));
    m.add(first, m.mul(m.count(i), dx))
}

/// A true peak at `x`.
pub open spec fn true_value<T>(m: Meaning<T>, p: TruePeak, x: T) -> T {
    match p.kind {
        PeakKind::Gauss => gauss_value(m, x, m.num(p.center), m.num(p.width), m.num(p.height)),
        _ => lorentz_value(m, x, m.num(p.center), m.num(p.width), m.num(p.height)),
    }
}

/// The curve at `x` without noise and spikes.
pub open spec fn synth_curve<T>(m: Meaning<T>, x: T) -> T {
    let d = m.sub(x, m.num(MIDDLE_BITS));
    let base = m.add(
        m.sub(m.num(LEVEL_BITS), m.mul(m.num(FALL_BITS), d)),
        m.mul(m.num(BEND_BITS), m.pow(d, 2)),
    );
    m.add(
        m.add(m.add(base, true_value(m, peak_one(), x)), true_value(m, peak_two(), x)),
        true_value(m, peak_three(), x),
    )
}

/// The value of row `i` with noise and spike, and the generator after it; no
/// value where no normal deviate is ever drawn.
pub open spec fn synth_y(m: Meaning<Binary64>, g: Rng, i: nat) -> (Rng, Option<Binary64>) {
    let (h, z) = drawn(m, g);
    match z {
        None => (h, None),
        Some(z) => {
            let y = m.add(synth_curve(m, synth_x(m, i)), m.mul(m.num(NOISE_BITS), z));
            if spiked(i as int) {
                let more = m.add(
                    m.num(SPIKE_BITS),
                    m.mul(m.num(SPIKE_VARIES_BITS), h.unit()),
                );
                (h.advanced(), Some(m.add(y, more)))
            } else {
                (h, Some(y))
            }
        },
    }
}

/// The first `k` rows, a line each, and the generator after them.
pub open spec fn synth_rows(m: Meaning<Binary64>, s: Script, k: nat) -> Option<(Rng, Seq<char>)>
    decreases k,
{
    if k == 0 {
        Some((Rng::seeded(SYNTH_SEED), Seq::empty()))
    } else {
        match synth_rows(m, s, (k - 1) as nat) {
            None => None,
            Some((g, text)) => {
                let (h, y) = synth_y(m, g, (k - 1) as nat);
                match y {
                    None => None,
                    Some(y) => Some(
                        (
                            h,
                            text + (s.fixed)(synth_x(m, (k - 1) as nat), 4) + ","@ + (s.fixed)(y, 6)
                                + "\n"@,
                        ),
                    ),
                }
            },
        }
    }
}

/// The synthetic spectrum as CSV text.
pub open spec fn synth_text(m: Meaning<Binary64>, s: Script) -> Option<Seq<char>> {
    match synth_rows(m, s, SYNTH_ROWS as nat) {
        None => None,
        Some((_, text)) => Some("wavelength_nm,intensity\n"@ + text),
    }
}

fn peaks() -> (r: (TruePeak, TruePeak, TruePeak))
    ensures
        r == (peak_one(), peak_two(), peak_three()),
{
    (
        TruePeak {
            kind: PeakKind::Gauss,
            center: 0x407f_4000_0000_0000,
            width: 0x4020_0000_0000_0000,
            height: 0x3ff3_3333_3333_3333,
        },
        TruePeak {
            kind: PeakKind::Gauss,
            center: 0x4080_0000_0000_0000,
            width: 0x4024_0000_0000_0000,
            height: 0x3fe9_9999_9999_999a,
        },
        TruePeak {
            kind: PeakKind::Lorentz,
            center: 0x4083_1000_0000_0000,
            width: 0x402c_0000_0000_0000,
            height: 0x3fe1_9999_9999_999a,
        },
    )
}

fn true_line<A: Arithmetic>(p: &TruePeak, x: Binary64) -> (v: Binary64)
    ensures
        forall|m: Meaning<Binary64>| #[trigger] follows::<A>(m) ==> v == true_value(m, *p, x),
{
    let c: Binary64 = Binary64 { bits: p.center };
    let w: Binary64 = Binary64 { bits: p.width };
    let h: Binary64 = Binary64 { bits: p.height };
    match p.kind {
        PeakKind::Gauss => gauss_line::<A>(x, c, w, h),
        _ => lorentz_line::<A>(x, c, w, h),
    }
}

fn curve_at<A: Arithmetic>(x: Binary64) -> (v: Binary64)
    ensures
        forall|m: Meaning<Binary64>| #[trigger] follows::<A>(m) ==> v == synth_curve(m, x),
{
    let d: Binary64 = A::minus(x, Binary64 { bits: MIDDLE_BITS });
    let base: Binary64 = A::plus(
        A::minus(Binary64 { bits: LEVEL_BITS }, A::times(Binary64 { bits: FALL_BITS }, d)),
        A::times(Binary64 { bits: BEND_BITS }, A::power(d, 2)),
    );
    let (a, b, c) = peaks();
    let v: Binary64 = A::plus(base, true_line::<A>(&a, x));
    let v: Binary64 = A::plus(v, true_line::<A>(&b, x));
    A::plus(v, true_line::<A>(&c, x))
}

fn row_x<A: Arithmetic>(i: usize) -> (x: Binary64)
    ensures
        forall|m: Meaning<Binary64>| #[trigger] follows::<A>(m) ==> x == synth_x(m, i as nat),
{
    let first: Binary64 = Binary64 { bits: FIRST_BITS };
    let dx: Binary64 = A::over(
        A::minus(Binary64 { bits: LAST_BITS }, first),
        A::minus(A::of_count(SYNTH_ROWS), Binary64 { bits: ONE_BITS }),
    );
    A::plus(first, A::times(A::of_count(i), dx))
}

fn row_y<A: Arithmetic>(g: &mut Rng, i: usize) -> (y: Option<Binary64>)
    ensures
        forall|m: Meaning<Binary64>| #[trigger]
            follows::<A>(m) ==> (*final(g), y) == synth_y(m, *old(g), i as nat),
{
    let z: Binary64 = match g.normal::<A>() {
        Some(z) => z,
        None => {
            return None;
        },
    };
    let y: Binary64 = A::plus(
        curve_at::<A>(row_x::<A>(i)),
        A::times(Binary64 { bits: NOISE_BITS }, z),
    );
    if i == 123 || i == 455 || i == 701 {
        let u: Binary64 = g.uniform();
        let more: Binary64 = A::plus(
            Binary64 { bits: SPIKE_BITS },
            A::times(Binary64 { bits: SPIKE_VARIES_BITS }, u),
        );
        Some(A::plus(y, more))
    } else {
        Some(y)
    }
}

/// The synthetic spectrum as CSV text.  None where a normal deviate that it needs
/// is never drawn.
pub fn synthetic_csv<A: Arithmetic, N: Notation>() -> (r: Option<String>)
    ensures
        forall|m: Meaning<Binary64>, s: Script|
            #![trigger follows::<A>(m), writes::<N>(s)]
            follows::<A>(m) && writes::<N>(s) ==> match r {
                Some(t) => synth_text(m, s) == Some(t@),
                None => synth_text(m, s) is None,
            },
{
    let mut g: Rng = Rng::new(SYNTH_SEED);
    let mut text: String = "wavelength_nm,intensity\n".to_owned();
    for k in 0..SYNTH_ROWS
        invariant
            forall|m: Meaning<Binary64>, s: Script|
                #![trigger follows::<A>(m), writes::<N>(s)]
                follows::<A>(m) && writes::<N>(s) ==> {
                    &&& synth_rows(m, s, k as nat) matches Some((h, t))
                    &&& g == h
                    &&& text@ == "wavelength_nm,intensity\n"@ + t
                },
    {
        let y: Binary64 = match row_y::<A>(&mut g, k) {
            Some(y) => y,
            None => {
                proof {
                    assert forall|m: Meaning<Binary64>, s: Script|
                        #![trigger follows::<A>(m), writes::<N>(s)]
                        follows::<A>(m) && writes::<N>(s) implies synth_text(m, s) is None by {
                        assert(synth_rows(m, s, (k + 1) as nat) is None);
                        lemma_rows_none(m, s, (k + 1) as nat, SYNTH_ROWS as nat);
                    }
                }
                return None;
            },
        };
        let a: String = N::fixed(row_x::<A>(k), 4);
        let b: String = N::fixed(y, 6);
        text.append(a.as_str());
        text.append(",");
        text.append(b.as_str());
        text.append("\n");
        proof {
            assert forall|m: Meaning<Binary64>, s: Script|
                #![trigger follows::<A>(m), writes::<N>(s)]
                follows::<A>(m) && writes::<N>(s) implies {
                &&& synth_rows(m, s, (k + 1) as nat) matches Some((h, t))
                &&& g == h
                &&& text@ == "wavelength_nm,intensity\n"@ + t
            } by {
                let (h, t) = synth_rows(m, s, (k + 1) as nat)->0;
                assert(text@ =~= "wavelength_nm,intensity\n"@ + t);
            }
        }
    }
    Some(text)
}

proof fn lemma_rows_none(m: Meaning<Binary64>, s: Script, k: nat, n: nat)
    requires
        synth_rows(m, s, k) is None,
        k <= n,
    ensures
        synth_rows(m, s, n) is None,
    decreases n - k,
{
    if k < n {
        lemma_rows_none(m, s, k, (n - 1) as nat);
    }
}

// ----------------------------------------------------------------- description

/// The number -0.0004.
pub const MINUS_FALL_BITS: u64 = 0xbf3a_36e2_eb1c_432d;

/// The constant with a bit pattern, in JSON.
pub open spec fn constant_model(s: Script, bits: u64) -> JsonModel {
    number_model(s, Binary64 { bits })
}

/// A true peak in JSON.
pub open spec fn true_model(s: Script, p: TruePeak) -> JsonModel {
    JsonModel::Object(
        seq![
            ("kind"@, JsonModel::Str(p.kind.name())),
            ("center_nm"@, constant_model(s, p.center)),
            ("fwhm_nm"@, constant_model(s, p.width)),
            ("height"@, constant_model(s, p.height)),
        ],
    )
}

/// The true baseline in JSON.
pub open spec fn true_baseline_model(s: Script) -> JsonModel {
    JsonModel::Object(
        seq![
            ("form"@, JsonModel::Str("quadratic"@)),
            (
                "coef_about_550"@,
                JsonModel::Array(
                    seq![
                        constant_model(s, LEVEL_BITS),
                        constant_model(s, MINUS_FALL_BITS),
                        constant_model(s, BEND_BITS),
                    ],
                ),
            ),
        ],
    )
}

/// What the synthetic spectrum was made from, in JSON.
pub open spec fn truth_model(s: Script) -> JsonModel {
    JsonModel::Object(
        seq![
            ("generator"@, JsonModel::Str(RNG_VERSION@)),
            ("seed"@, whole_model(SYNTH_SEED as nat)),
            ("n"@, whole_model(SYNTH_ROWS as nat)),
            (
                "x_range_nm"@,
                JsonModel::Array(
                    seq![constant_model(s, FIRST_BITS), constant_model(s, LAST_BITS)],
                ),
            ),
            ("noise_sigma"@, constant_model(s, NOISE_BITS)),
            (
                "cosmic_ray_rows"@,
                JsonModel::Array(seq![whole_model(123), whole_model(455), whole_model(701)]),
            ),
            ("baseline"@, true_baseline_model(s)),
            (
                "peaks"@,
                JsonModel::Array(
                    seq![
                        true_model(s, peak_one()),
                        true_model(s, peak_two()),
                        true_model(s, peak_three()),
                    ],
                ),
            ),
        ],
    )
}

fn constant_json<N: Notation>(bits: u64) -> (j: Json)
    ensures
        forall|s: Script| #[trigger] writes::<N>(s) ==> j@ == constant_model(s, bits),
{
    number_json::<N>(Binary64 { bits })
}

fn true_json<N: Notation>(p: &TruePeak) -> (j: Json)
    ensures
        forall|s: Script| #[trigger] writes::<N>(s) ==> j@ == true_model(s, *p),
{
    let name: String = p.kind.as_str().to_owned();
    let mut o: Vec<(String, Json)> = Vec::new();
    o.push(("kind".to_owned(), Json::Str(name)));
    o.push(("center_nm".to_owned(), constant_json::<N>(p.center)));
    o.push(("fwhm_nm".to_owned(), constant_json::<N>(p.width)));
    o.push(("height".to_owned(), constant_json::<N>(p.height)));
    let ghost all = o@;
    let j: Json = Json::Object(o);
    proof {
        assert forall|s: Script| #[trigger] writes::<N>(s) implies j@ == true_model(s, *p) by {
            assert(member_models(all) =~= true_model(s, *p)->Object_0);
        }
    }
    j
}

fn true_baseline_json<N: Notation>() -> (j: Json)
    ensures
        forall|s: Script| #[trigger] writes::<N>(s) ==> j@ == true_baseline_model(s),
{
    let mut c: Vec<Json> = Vec::new();
    c.push(constant_json::<N>(LEVEL_BITS));
    c.push(constant_json::<N>(MINUS_FALL_BITS));
    c.push(constant_json::<N>(BEND_BITS));
    let ghost coef = c@;
    let mut o: Vec<(String, Json)> = Vec::new();
    o.push(("form".to_owned(), Json::Str("quadratic".to_owned())));
    o.push(("coef_about_550".to_owned(), Json::Array(c)));
    let ghost all = o@;
    let j: Json = Json::Object(o);
    proof {
        assert forall|s: Script| #[trigger] writes::<N>(s) implies j@ == true_baseline_model(s) by {
            assert(element_models(coef) =~= seq![
                constant_model(s, LEVEL_BITS),
                constant_model(s, MINUS_FALL_BITS),
                constant_model(s, BEND_BITS),
            ]);
            assert(member_models(all) =~= true_baseline_model(s)->Object_0);
        }
    }
    j
}

/// What the synthetic spectrum was made from.
pub fn synthetic_truth<N: Notation>() -> (j: Json)
    ensures
        forall|s: Script| #[trigger] writes::<N>(s) ==> j@ == truth_model(s),
{
    let mut range: Vec<Json> = Vec::new();
    range.push(constant_json::<N>(FIRST_BITS));
    range.push(constant_json::<N>(LAST_BITS));
    let ghost g_range = range@;
    let mut rows: Vec<Json> = Vec::new();
    rows.push(whole_json(123));
    rows.push(whole_json(455));
    rows.push(whole_json(701));
    let ghost g_rows = rows@;
    let (a, b, c) = peaks();
    let mut list: Vec<Json> = Vec::new();
    list.push(true_json::<N>(&a));
    list.push(true_json::<N>(&b));
    list.push(true_json::<N>(&c));
    let ghost g_list = list@;
    let mut o: Vec<(String, Json)> = Vec::new();
    o.push(("generator".to_owned(), Json::Str(RNG_VERSION.to_owned())));
    o.push(("seed".to_owned(), whole_json(SYNTH_SEED)));
    o.push(("n".to_owned(), whole_json(SYNTH_ROWS as u64)));
    o.push(("x_range_nm".to_owned(), Json::Array(range)));
    o.push(("noise_sigma".to_owned(), constant_json::<N>(NOISE_BITS)));
    o.push(("cosmic_ray_rows".to_owned(), Json::Array(rows)));
    o.push(("baseline".to_owned(), true_baseline_json::<N>()));
    o.push(("peaks".to_owned(), Json::Array(list)));
    let ghost all = o@;
    let j: Json = Json::Object(o);
    proof {
        assert forall|s: Script| #[trigger] writes::<N>(s) implies j@ == truth_model(s) by {
            assert(element_models(g_range) =~= seq![
                constant_model(s, FIRST_BITS),
                constant_model(s, LAST_BITS),
            ]);
            assert(element_models(g_rows) =~= seq![
                whole_model(123),
                whole_model(455),
                whole_model(701),
            ]);
            assert(element_models(g_list) =~= seq![
                true_model(s, peak_one()),
                true_model(s, peak_two()),
                true_model(s, peak_three()),
            ]);
            assert(member_models(all) =~= truth_model(s)->Object_0);
        }
    }
    j
}

} // verus!
