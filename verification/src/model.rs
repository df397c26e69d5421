//! Peak models: Gaussian, Lorentzian, Voigt; baseline and smoothing.
//!
//! Width convention: every peak carries a single full-width parameter.
//! - Gaussian: full width at half maximum `w`;
//!   `V(x) = h exp(-4 ln2 ((x-c)/w)^2)`, area = h*w*sqrt(pi/(4 ln2)).
//! - Lorentzian: full width at half maximum `w`; `V(x) = h/(1+4((x-c)/w)^2)`,
//!   area = h*w*pi/2.
//! - Voigt: parameterised by Gaussian 1-sigma `sigma` and Lorentzian
//!   half-width `gamma`; the profile is normalised to unit area by the
//!   Faddeeva function `w(z)`, evaluated by Gauss-Hermite quadrature.

use crate::arithmetic::{follows, Arithmetic, Meaning};
use crate::binary64::{Binary64, ONE_BITS};
use crate::data::places;
use crate::linalg::{polyfit, polyfit_norm};
use crate::numeral::{decimal, to_decimal};
use crate::quadrature::{PI_BITS, SQRT_2_BITS, TWO_BITS};
use crate::text::{chars_of, lowered, same, string_of, to_lower};
use vstd::prelude::*;

verus! {

/// The version of the models.
pub const MODEL_VERSION: &'static str = "model-v1.0.0";

/// The natural logarithm of two.
pub const LN_2_BITS: u64 = 0x3fe6_2e42_fefa_39ef;

/// The number -1/2.
pub const MINUS_HALF_BITS: u64 = 0xbfe0_0000_0000_0000;

/// The number 4.
pub const FOUR_BITS: u64 = 0x4010_0000_0000_0000;

/// The number -4.
pub const MINUS_FOUR_BITS: u64 = 0xc010_0000_0000_0000;

/// The number 1e-10: the least ratio of the two widths of a Voigt profile for
/// which the quadrature is used.
pub const VOIGT_FLOOR_BITS: u64 = 0x3ddb_7cdf_d9d7_bdbb;

/// The number 1e-12: the least width.
pub const WIDTH_FLOOR_BITS: u64 = 0x3d71_9799_812d_ea11;

/// The number 1e-300: the least positive amplitude.
pub const AMPLITUDE_FLOOR_BITS: u64 = 0x01a5_6e1f_c2f8_f359;

/// The number 1e-30: the least denominator of the smoothing kernel.
pub const KERNEL_FLOOR_BITS: u64 = 0x39b4_484b_feeb_c2a0;

/// A value that is not a number.
pub const NAN_BITS: u64 = 0x7ff8_0000_0000_0000;

/// The highest degree of a baseline.
pub const MAX_DEGREE: usize = 6;

/// The shape of a peak.
#[derive(Clone, Copy, Debug, PartialEq, Eq, Structural)]
pub enum PeakKind {
    Gauss,
    Lorentz,
    Voigt,
}

impl PeakKind {
    /// The shape that a name means; letter case does not matter.
    pub open spec fn named(s: Seq<char>) -> Option<PeakKind> {
        let t = lowered(s);
        if t == "gauss"@ || t == "gaussian"@ {
            Some(PeakKind::Gauss)
        } else if t == "lorentz"@ || t == "lorentzian"@ {
            Some(PeakKind::Lorentz)
        } else if t == "voigt"@ {
            Some(PeakKind::Voigt)
        } else {
            None
        }
    }

    /// The shape that a name means; letter case does not matter.
    pub fn parse(s: &str) -> (r: Option<PeakKind>)
        ensures
            r == PeakKind::named(s@),
    {
        let cs: Vec<char> = chars_of(s);
        let t: Vec<char> = to_lower(cs.as_slice());
        let t: &[char] = t.as_slice();
        if same(t, "gauss") || same(t, "gaussian") {
            Some(PeakKind::Gauss)
        } else if same(t, "lorentz") || same(t, "lorentzian") {
            Some(PeakKind::Lorentz)
        } else if same(t, "voigt") {
            Some(PeakKind::Voigt)
        } else {
            None
        }
    }

    /// The name of a shape.
    pub open spec fn name(self) -> Seq<char> {
        match self {
            PeakKind::Gauss => "gauss"@,
            PeakKind::Lorentz => "lorentz"@,
            PeakKind::Voigt => "voigt"@,
        }
    }

    /// The name of a shape.
    pub fn as_str(self) -> (r: &'static str)
        ensures
            r@ == self.name(),
    {
        match self {
            PeakKind::Gauss => "gauss",
            PeakKind::Lorentz => "lorentz",
            PeakKind::Voigt => "voigt",
        }
    }

    /// The number of parameters of a shape.
    pub open spec fn params(self) -> nat {
        match self {
            PeakKind::Gauss | PeakKind::Lorentz => 3,
            PeakKind::Voigt => 4,
        }
    }

    /// The number of parameters of a shape: centre, width and height, or
    /// centre, the two widths and the area.
    pub fn n_params(self) -> (r: usize)
        ensures
            r == self.params(),
    {
        match self {
            PeakKind::Gauss | PeakKind::Lorentz => 3,
            PeakKind::Voigt => 4,
        }
    }
}

/// A candidate peak with its initial values.
#[derive(Clone, Copy, Debug, PartialEq, Eq, Structural)]
pub struct PeakSpec {
    pub kind: PeakKind,
    pub center0: Binary64,
    /// Initial full width at half maximum; for the Voigt profile both widths
    /// start from it.
    pub width0: Binary64,
    /// Initial height, or area for the Voigt profile.
    pub amp0: Binary64,
    /// The centre does not move.
    pub fix_center: bool,
}

// ---------------------------------------------------------------- the profiles

/// The real part of the quadrature sum for the Faddeeva function, over the
/// first `k` nodes.
pub open spec fn faddeeva_re<T>(m: Meaning<T>, nodes: Seq<(T, T)>, re: T, im: T, k: int) -> T
    decreases k,
{
    if k <= 0 {
        m.zero()
    } else {
        let (t, weight) = nodes[k - 1];
        let a = m.sub(re, t);
        let den = m.add(m.mul(a, a), m.mul(im, im));
        m.add(faddeeva_re(m, nodes, re, im, k - 1), m.div(m.mul(weight, im), den))
    }
}

/// The imaginary part of that sum.
pub open spec fn faddeeva_im<T>(m: Meaning<T>, nodes: Seq<(T, T)>, re: T, im: T, k: int) -> T
    decreases k,
{
    if k <= 0 {
        m.zero()
    } else {
        let (t, weight) = nodes[k - 1];
        let a = m.sub(re, t);
        let den = m.add(m.mul(a, a), m.mul(im, im));
        m.add(faddeeva_im(m, nodes, re, im, k - 1), m.div(m.mul(weight, a), den))
    }
}

/// The Faddeeva function `w(z) = exp(-z^2) erfc(-i z)` at `z = re + i im`, by
/// quadrature of `(i/pi) e^(-t^2) / (z - t)` over the real line.
pub open spec fn faddeeva_value<T>(m: Meaning<T>, nodes: Seq<(T, T)>, re: T, im: T) -> (T, T) {
    let invpi = m.div(m.one(), m.num(PI_BITS));
    (
        m.mul(faddeeva_re(m, nodes, re, im, nodes.len() as int), invpi),
        m.mul(faddeeva_im(m, nodes, re, im, nodes.len() as int), invpi),
    )
}

/// The Faddeeva function for a non-negative imaginary part, with the nodes and
/// weights of a Gauss-Hermite quadrature.
pub fn faddeeva<A: Arithmetic>(
    nodes: &Vec<(Binary64, Binary64)>,
    re: Binary64,
    im: Binary64,
) -> (w: (Binary64, Binary64))
    ensures
        forall|m: Meaning<Binary64>| #[trigger]
            follows::<A>(m) ==> w == faddeeva_value(m, nodes@, re, im),
{
    let mut wr: Binary64 = Binary64 { bits: 0 };
    let mut wi: Binary64 = Binary64 { bits: 0 };
    let invpi: Binary64 = A::over(Binary64 { bits: ONE_BITS }, Binary64 { bits: PI_BITS });
    for k in 0..nodes.len()
        invariant
            forall|m: Meaning<Binary64>| #[trigger]
                follows::<A>(m) ==> {
                    &&& invpi == m.div(m.one(), m.num(PI_BITS))
                    &&& wr == faddeeva_re(m, nodes@, re, im, k as int)
                    &&& wi == faddeeva_im(m, nodes@, re, im, k as int)
                },
    {
        let (t, weight) = nodes[k];
        let a: Binary64 = A::minus(re, t);
        let den: Binary64 = A::plus(A::times(a, a), A::times(im, im));
        wr = A::plus(wr, A::over(A::times(weight, im), den));
        wi = A::plus(wi, A::over(A::times(weight, a), den));
    }
    (A::times(wr, invpi), A::times(wi, invpi))
}

/// The normalised Voigt profile.
pub open spec fn voigt_value<T>(
    m: Meaning<T>,
    nodes: Seq<(T, T)>,
    x: T,
    c: T,
    sigma: T,
    gamma: T,
) -> T {
    let norm = m.div(
        m.one(),
        m.mul(sigma, m.sqrt(m.mul(m.num(TWO_BITS), m.num(PI_BITS)))),
    );
    let floor = m.mul(sigma, m.num(VOIGT_FLOOR_BITS));
    if m.le(gamma, m.zero()) || m.lt(gamma, floor) {
        let u = m.div(m.sub(x, c), sigma);
        m.mul(norm, m.e(m.mul(m.mul(m.num(MINUS_HALF_BITS), u), u)))
    } else {
        let spread = m.mul(sigma, m.num(SQRT_2_BITS));
        let re = m.div(m.sub(x, c), spread);
        let im = m.div(m.max(gamma, floor), spread);
        m.mul(faddeeva_value(m, nodes, re, im).0, norm)
    }
}

/// The normalised Voigt profile at `x`.  Where the Lorentzian width is
/// negligible beside the Gaussian one, the profile is the Gaussian in closed
/// form.
pub fn voigt<A: Arithmetic>(
    nodes: &Vec<(Binary64, Binary64)>,
    x: Binary64,
    c: Binary64,
    sigma: Binary64,
    gamma: Binary64,
) -> (v: Binary64)
    ensures
        forall|m: Meaning<Binary64>| #[trigger]
            follows::<A>(m) ==> v == voigt_value(m, nodes@, x, c, sigma, gamma),
{
    let one: Binary64 = Binary64 { bits: ONE_BITS };
    let zero: Binary64 = Binary64 { bits: 0 };
    let two_pi: Binary64 = A::times(Binary64 { bits: TWO_BITS }, Binary64 { bits: PI_BITS });
    let norm: Binary64 = A::over(one, A::times(sigma, A::root(two_pi)));
    let floor: Binary64 = A::times(sigma, Binary64 { bits: VOIGT_FLOOR_BITS });
    if gamma.le(&zero) || gamma.lt(&floor) {
        let u: Binary64 = A::over(A::minus(x, c), sigma);
        return A::times(
            norm,
            A::exp(A::times(A::times(Binary64 { bits: MINUS_HALF_BITS }, u), u)),
        );
    }
    let spread: Binary64 = A::times(sigma, Binary64 { bits: SQRT_2_BITS });
    let re: Binary64 = A::over(A::minus(x, c), spread);
    let im: Binary64 = A::over(gamma.max(floor), spread);
    let (wr, _) = faddeeva::<A>(nodes, re, im);
    A::times(wr, norm)
}

/// `h exp(-4 ln2 ((x-c)/w)^2)`
pub open spec fn gauss_value<T>(m: Meaning<T>, x: T, c: T, w: T, h: T) -> T {
    let t = m.div(m.sub(x, c), w);
    m.mul(h, m.e(m.mul(m.mul(m.mul(m.num(MINUS_FOUR_BITS), m.num(LN_2_BITS)), t), t)))
}

/// A Gaussian with centre `c`, full width at half maximum `w` and height `h`.
pub fn gauss_line<A: Arithmetic>(x: Binary64, c: Binary64, w: Binary64, h: Binary64) -> (v: Binary64)
    ensures
        forall|m: Meaning<Binary64>| #[trigger]
            follows::<A>(m) ==> v == gauss_value(m, x, c, w, h),
{
    let t: Binary64 = A::over(A::minus(x, c), w);
    let k: Binary64 = A::times(Binary64 { bits: MINUS_FOUR_BITS }, Binary64 { bits: LN_2_BITS });
    A::times(h, A::exp(A::times(A::times(k, t), t)))
}

/// `h / (1 + 4 ((x-c)/w)^2)`
pub open spec fn lorentz_value<T>(m: Meaning<T>, x: T, c: T, w: T, h: T) -> T {
    let t = m.div(m.sub(x, c), w);
    m.div(h, m.add(m.one(), m.mul(m.mul(m.num(FOUR_BITS), t), t)))
}

/// A Lorentzian with centre `c`, full width at half maximum `w` and height `h`.
pub fn lorentz_line<A: Arithmetic>(x: Binary64, c: Binary64, w: Binary64, h: Binary64) -> (v:
    Binary64)
    ensures
        forall|m: Meaning<Binary64>| #[trigger]
            follows::<A>(m) ==> v == lorentz_value(m, x, c, w, h),
{
    let t: Binary64 = A::over(A::minus(x, c), w);
    let d: Binary64 = A::times(A::times(Binary64 { bits: FOUR_BITS }, t), t);
    A::over(h, A::plus(Binary64 { bits: ONE_BITS }, d))
}

/// The area of a peak with the parameters that begin at `off`.
pub open spec fn area<T>(m: Meaning<T>, kind: PeakKind, p: Seq<T>, off: int) -> T {
    match kind {
        PeakKind::Gauss => m.mul(
            m.mul(p[off + 2], p[off + 1]),
            m.sqrt(m.div(m.num(PI_BITS), m.mul(m.num(FOUR_BITS), m.num(LN_2_BITS)))),
        ),
        PeakKind::Lorentz => m.div(
            m.mul(m.mul(p[off + 2], p[off + 1]), m.num(PI_BITS)),
            m.num(TWO_BITS),
        ),
        PeakKind::Voigt => p[off + 3],
    }
}

/// The area of a peak with the parameters that begin at `off`.
pub fn peak_area<A: Arithmetic>(kind: PeakKind, p: &Vec<Binary64>, off: usize) -> (v: Binary64)
    requires
        off + kind.params() <= p.len(),
    ensures
        forall|m: Meaning<Binary64>| #[trigger]
            follows::<A>(m) ==> v == area(m, kind, p@, off as int),
{
    let pi: Binary64 = Binary64 { bits: PI_BITS };
    match kind {
        PeakKind::Gauss => {
            let d: Binary64 = A::times(Binary64 { bits: FOUR_BITS }, Binary64 { bits: LN_2_BITS });
            A::times(A::times(p[off + 2], p[off + 1]), A::root(A::over(pi, d)))
        },
        PeakKind::Lorentz => A::over(
            A::times(A::times(p[off + 2], p[off + 1]), pi),
            Binary64 { bits: TWO_BITS },
        ),
        PeakKind::Voigt => p[off + 3],
    }
}

// ------------------------------------------------------------ the sum of peaks

/// Where the parameters of peak `k` begin: each peak has its own after those
/// of the peaks before it.
pub open spec fn offset(kinds: Seq<PeakKind>, k: int) -> nat
    decreases k,
{
    if k <= 0 {
        0
    } else {
        offset(kinds, k - 1) + kinds[k - 1].params()
    }
}

/// Parameters of later peaks begin later.
pub proof fn lemma_offset(kinds: Seq<PeakKind>, j: int, k: int)
    requires
        0 <= j <= k,
    ensures
        offset(kinds, j) + 3 * (k - j) <= offset(kinds, k),
    decreases k - j,
{
    if j < k {
        lemma_offset(kinds, j, k - 1);
    }
}

/// The value at `x` of a peak with the parameters that begin at `off`.
pub open spec fn peak_value<T>(
    m: Meaning<T>,
    nodes: Seq<(T, T)>,
    x: T,
    kind: PeakKind,
    p: Seq<T>,
    off: int,
) -> T {
    match kind {
        PeakKind::Gauss => gauss_value(m, x, p[off], p[off + 1], p[off + 2]),
        PeakKind::Lorentz => lorentz_value(m, x, p[off], p[off + 1], p[off + 2]),
        PeakKind::Voigt => m.mul(
            p[off + 3],
            voigt_value(
                m,
                nodes,
                x,
                p[off],
                m.max(p[off + 1], m.num(WIDTH_FLOOR_BITS)),
                m.max(p[off + 2], m.zero()),
            ),
        ),
    }
}

/// The sum of the first `k` peaks at `x`.
pub open spec fn peaks_value<T>(
    m: Meaning<T>,
    nodes: Seq<(T, T)>,
    x: T,
    kinds: Seq<PeakKind>,
    p: Seq<T>,
    k: int,
) -> T
    decreases k,
{
    if k <= 0 {
        m.zero()
    } else {
        m.add(
            peaks_value(m, nodes, x, kinds, p, k - 1),
            peak_value(m, nodes, x, kinds[k - 1], p, offset(kinds, k - 1) as int),
        )
    }
}

/// The sum of the peaks at `x`.
pub open spec fn model_value<T>(
    m: Meaning<T>,
    nodes: Seq<(T, T)>,
    x: T,
    kinds: Seq<PeakKind>,
    p: Seq<T>,
) -> T {
    peaks_value(m, nodes, x, kinds, p, kinds.len() as int)
}

fn eval_peak<A: Arithmetic>(
    nodes: &Vec<(Binary64, Binary64)>,
    x: Binary64,
    kind: PeakKind,
    p: &Vec<Binary64>,
    off: usize,
) -> (v: Binary64)
    requires
        off + kind.params() <= p.len(),
    ensures
        forall|m: Meaning<Binary64>| #[trigger]
            follows::<A>(m) ==> v == peak_value(m, nodes@, x, kind, p@, off as int),
{
    match kind {
        PeakKind::Gauss => gauss_line::<A>(x, p[off], p[off + 1], p[off + 2]),
        PeakKind::Lorentz => lorentz_line::<A>(x, p[off], p[off + 1], p[off + 2]),
        PeakKind::Voigt => {
            let sigma: Binary64 = p[off + 1].max(Binary64 { bits: WIDTH_FLOOR_BITS });
            let gamma: Binary64 = p[off + 2].max(Binary64 { bits: 0 });
            A::times(p[off + 3], voigt::<A>(nodes, x, p[off], sigma, gamma))
        },
    }
}

/// The sum of the peaks at `x`.  The parameters of a peak follow those of the
/// peaks before it: centre, width and height, or, for the Voigt profile,
/// centre, the two widths and the area.
pub fn eval_peaks<A: Arithmetic>(
    nodes: &Vec<(Binary64, Binary64)>,
    x: Binary64,
    peaks: &Vec<PeakKind>,
    p: &Vec<Binary64>,
) -> (v: Binary64)
    requires
        offset(peaks@, peaks@.len() as int) <= p.len(),
    ensures
        forall|m: Meaning<Binary64>| #[trigger]
            follows::<A>(m) ==> v == model_value(m, nodes@, x, peaks@, p@),
{
    let mut off: usize = 0;
    let mut v: Binary64 = Binary64 { bits: 0 };
    for k in 0..peaks.len()
        invariant
            offset(peaks@, peaks@.len() as int) <= p.len(),
            off == offset(peaks@, k as int),
            forall|m: Meaning<Binary64>| #[trigger]
                follows::<A>(m) ==> v == peaks_value(m, nodes@, x, peaks@, p@, k as int),
    {
        proof {
            lemma_offset(peaks@, k + 1, peaks@.len() as int);
        }
        v = A::plus(v, eval_peak::<A>(nodes, x, peaks[k], p, off));
        off = off + peaks[k].n_params();
    }
    v
}

// ---------------------------------------------------------- the initial vector

/// The Gaussian and the Lorentzian width that a Voigt profile starts with: those
/// of lines with the full width `w` at half maximum.
pub open spec fn voigt_seeds<T>(m: Meaning<T>, w: T) -> (T, T) {
    (
        m.div(w, m.mul(m.num(TWO_BITS), m.sqrt(m.mul(m.num(TWO_BITS), m.num(LN_2_BITS))))),
        m.div(w, m.num(TWO_BITS)),
    )
}

/// The initial parameters of one candidate.
pub open spec fn seeds(m: Meaning<Binary64>, s: PeakSpec) -> Seq<Binary64> {
    let w = s.width0.larger(Binary64 { bits: WIDTH_FLOOR_BITS });
    match s.kind {
        PeakKind::Gauss | PeakKind::Lorentz => seq![s.center0, w, s.amp0],
        PeakKind::Voigt => seq![
            s.center0,
            voigt_seeds(m, w).0,
            voigt_seeds(m, w).1,
            s.amp0.larger(Binary64 { bits: AMPLITUDE_FLOOR_BITS }),
        ],
    }
}

/// Which parameters of one candidate do not move: the centre, where it is
/// fixed.
pub open spec fn pins(s: PeakSpec) -> Seq<bool> {
    Seq::new(s.kind.params(), |slot: int| slot == 0 && s.fix_center)
}

/// The initial parameters of the first `k` candidates.
pub open spec fn all_seeds(m: Meaning<Binary64>, specs: Seq<PeakSpec>, k: int) -> Seq<Binary64>
    decreases k,
{
    if k <= 0 {
        Seq::empty()
    } else {
        all_seeds(m, specs, k - 1) + seeds(m, specs[k - 1])
    }
}

/// Which parameters of the first `k` candidates do not move.
pub open spec fn all_pins(specs: Seq<PeakSpec>, k: int) -> Seq<bool>
    decreases k,
{
    if k <= 0 {
        Seq::empty()
    } else {
        all_pins(specs, k - 1) + pins(specs[k - 1])
    }
}

/// The shapes of the candidates.
pub open spec fn shapes(specs: Seq<PeakSpec>) -> Seq<PeakKind> {
    specs.map_values(|s: PeakSpec| s.kind)
}

/// The shapes, the initial parameters and the fixed parameters of the
/// candidates.
pub fn initial_vector<A: Arithmetic>(specs: &Vec<PeakSpec>) -> (r: (
    Vec<PeakKind>,
    Vec<Binary64>,
    Vec<bool>,
))
    ensures
        r.0@ == shapes(specs@),
        r.1@.len() == offset(shapes(specs@), specs@.len() as int),
        r.2@.len() == offset(shapes(specs@), specs@.len() as int),
        r.2@ == all_pins(specs@, specs@.len() as int),
        forall|m: Meaning<Binary64>| #[trigger]
            follows::<A>(m) ==> r.1@ == all_seeds(m, specs@, specs@.len() as int),
{
    let mut kinds: Vec<PeakKind> = Vec::new();
    let mut p: Vec<Binary64> = Vec::new();
    let mut fixed: Vec<bool> = Vec::new();
    let two: Binary64 = Binary64 { bits: TWO_BITS };
    for k in 0..specs.len()
        invariant
            two == (Binary64 { bits: TWO_BITS }),
            kinds@ == shapes(specs@).take(k as int),
            p@.len() == offset(shapes(specs@), k as int),
            fixed@.len() == offset(shapes(specs@), k as int),
            fixed@ == all_pins(specs@, k as int),
            forall|m: Meaning<Binary64>| #[trigger]
                follows::<A>(m) ==> p@ == all_seeds(m, specs@, k as int),
    {
        let s: PeakSpec = specs[k];
        let ghost p0 = p@;
        let ghost f0 = fixed@;
        kinds.push(s.kind);
        let w: Binary64 = s.width0.max(Binary64 { bits: WIDTH_FLOOR_BITS });
        p.push(s.center0);
        fixed.push(s.fix_center);
        match s.kind {
            PeakKind::Gauss | PeakKind::Lorentz => {
                p.push(w);
                p.push(s.amp0);
                fixed.push(false);
                fixed.push(false);
            },
            PeakKind::Voigt => {
                let d: Binary64 = A::times(
                    two,
                    A::root(A::times(two, Binary64 { bits: LN_2_BITS })),
                );
                p.push(A::over(w, d));
                p.push(A::over(w, two));
                p.push(s.amp0.max(Binary64 { bits: AMPLITUDE_FLOOR_BITS }));
                fixed.push(false);
                fixed.push(false);
                fixed.push(false);
            },
        }
        proof {
            assert(shapes(specs@).take(k + 1) =~= shapes(specs@).take(k as int).push(s.kind));
            assert(fixed@ =~= f0 + pins(s));
            assert forall|m: Meaning<Binary64>| #[trigger] follows::<A>(m) implies p@ == all_seeds(
                m,
                specs@,
                k + 1,
            ) by {
                assert(p@ =~= p0 + seeds(m, s));
            }
        }
    }
    assert(shapes(specs@).take(specs@.len() as int) =~= shapes(specs@));
    (kinds, p, fixed)
}

// ------------------------------------------------------ baseline and smoothing

/// `x` lies in one of the windows, bounds included.
pub open spec fn in_window<T>(m: Meaning<T>, windows: Seq<(T, T)>, x: T) -> bool {
    exists|w: int|
        0 <= w < windows.len() && m.le((#[trigger] windows[w]).0, x) && m.le(x, windows[w].1)
}

/// The points that a baseline is anchored on: those in a window that are not
/// excluded.
pub open spec fn anchors<T>(m: Meaning<T>, xs: Seq<T>, mask: Seq<bool>, windows: Seq<(T, T)>) -> Seq<
    int,
> {
    places(xs.len(), |i: int| !mask[i] && in_window(m, windows, xs[i]))
}

/// The middle of the anchors: the coordinate that a baseline is centred on.
pub open spec fn anchor_middle<T>(xs: Seq<T>, sel: Seq<int>) -> T {
    xs[sel[(sel.len() / 2) as int]]
}

/// The larger magnitude of the outermost anchors, and at least one: the unit
/// in which a baseline measures coordinates.
pub open spec fn anchor_scale<T>(m: Meaning<T>, xs: Seq<T>, sel: Seq<int>) -> T {
    m.max(m.max(m.abs(xs[sel.last()]), m.abs(xs[sel[0]])), m.one())
}

/// A power of `t`, multiplied up from one.
pub open spec fn poly_power<T>(m: Meaning<T>, t: T, k: int) -> T
    decreases k,
{
    if k <= 0 {
        m.one()
    } else {
        m.mul(poly_power(m, t, k - 1), t)
    }
}

/// The first `k` terms of a polynomial at `t`, lowest power first.
pub open spec fn poly_value<T>(m: Meaning<T>, coef: Seq<T>, t: T, k: int) -> T
    decreases k,
{
    if k <= 0 {
        m.zero()
    } else {
        m.add(poly_value(m, coef, t, k - 1), m.mul(coef[k - 1], poly_power(m, t, k - 1)))
    }
}

/// A polynomial baseline over all points, or the reason why there is none.
pub open spec fn baseline<T>(
    m: Meaning<T>,
    xs: Seq<T>,
    ys: Seq<T>,
    mask: Seq<bool>,
    windows: Seq<(T, T)>,
    degree: nat,
) -> Result<Seq<T>, Seq<char>> {
    let sel = anchors(m, xs, mask, windows);
    if degree > MAX_DEGREE {
        Err("baseline degree must be 0..=6"@)
    } else if sel.len() < degree + 2 {
        Err(
            "baseline needs >= "@ + decimal(degree + 2) + " anchor points, found "@ + decimal(
                sel.len(),
            ),
        )
    } else {
        let mid = anchor_middle(xs, sel);
        let scale = anchor_scale(m, xs, sel);
        let t = sel.map_values(|i: int| m.div(m.sub(xs[i], mid), scale));
        let y = sel.map_values(|i: int| ys[i]);
        let w = sel.map_values(|i: int| m.one());
        match polyfit(m, t, y, w, degree) {
            None => Err("singular baseline normal equations"@),
            Some(coef) => Ok(
                xs.map_values(
                    |x: T|
                        poly_value(
                            m,
                            coef,
                            m.div(m.sub(x, mid), scale),
                            coef.len() as int,
                        ),
                ),
            ),
        }
    }
}

fn within_window<A: Arithmetic>(windows: &Vec<(Binary64, Binary64)>, x: Binary64) -> (r: bool)
    ensures
        forall|m: Meaning<Binary64>| #[trigger]
            follows::<A>(m) ==> r == in_window(m, windows@, x),
{
    for w in 0..windows.len()
        invariant
            forall|m: Meaning<Binary64>, v: int|
                #![trigger follows::<A>(m), windows@[v]]
                follows::<A>(m) && 0 <= v < w ==> !(m.le(windows@[v].0, x) && m.le(
                    x,
                    windows@[v].1,
                )),
    {
        if windows[w].0.le(&x) && x.le(&windows[w].1) {
            return true;
        }
    }
    false
}

/// The points that a baseline is anchored on.
fn select<A: Arithmetic>(
    xs: &Vec<Binary64>,
    mask: &Vec<bool>,
    windows: &Vec<(Binary64, Binary64)>,
) -> (sel: Vec<usize>)
    requires
        xs@.len() <= mask@.len(),
    ensures
        forall|k: int| 0 <= k < sel@.len() ==> (#[trigger] sel@[k]) < xs@.len(),
        forall|m: Meaning<Binary64>| #[trigger]
            follows::<A>(m) ==> sel@.map_values(|i: usize| i as int) == anchors(
                m,
                xs@,
                mask@,
                windows@,
            ),
{
    let mut sel: Vec<usize> = Vec::new();
    for i in 0..xs.len()
        invariant
            xs@.len() <= mask@.len(),
            forall|k: int| 0 <= k < sel@.len() ==> (#[trigger] sel@[k]) < xs@.len(),
            forall|m: Meaning<Binary64>| #[trigger]
                follows::<A>(m) ==> sel@.map_values(|i: usize| i as int) == places(
                    i as nat,
                    |i: int| !mask@[i] && in_window(m, windows@, xs@[i]),
                ),
    {
        let ghost before = sel@;
        if !mask[i] && within_window::<A>(windows, xs[i]) {
            sel.push(i);
            assert(sel@.map_values(|i: usize| i as int) =~= before.map_values(
                |i: usize| i as int,
            ).push(i as int));
        }
    }
    sel
}

/// The value of a polynomial, lowest power first.
fn eval_poly<A: Arithmetic>(coef: &Vec<Binary64>, t: Binary64) -> (v: Binary64)
    ensures
        forall|m: Meaning<Binary64>| #[trigger]
            follows::<A>(m) ==> v == poly_value(m, coef@, t, coef@.len() as int),
{
    let mut v: Binary64 = Binary64 { bits: 0 };
    let mut tk: Binary64 = Binary64 { bits: ONE_BITS };
    for k in 0..coef.len()
        invariant
            forall|m: Meaning<Binary64>| #[trigger]
                follows::<A>(m) ==> v == poly_value(m, coef@, t, k as int) && tk == poly_power(
                    m,
                    t,
                    k as int,
                ),
    {
        v = A::plus(v, A::times(coef[k], tk));
        tk = A::times(tk, t);
    }
    v
}

/// The refusal of a baseline with too few anchors.
fn few_anchors(need: usize, found: usize) -> (e: String)
    ensures
        e@ == "baseline needs >= "@ + decimal(need as nat) + " anchor points, found "@ + decimal(
            found as nat,
        ),
{
    let mut e: String = "baseline needs >= ".to_owned();
    let a: Vec<char> = to_decimal(need as u64);
    let b: Vec<char> = to_decimal(found as u64);
    e.append(string_of(a.as_slice()).as_str());
    e.append(" anchor points, found ");
    e.append(string_of(b.as_slice()).as_str());
    e
}

/// A polynomial baseline, evaluated on every point.  Only points inside one of
/// the windows and not excluded contribute to the fit.
pub fn poly_baseline<A: Arithmetic>(
    xs: &Vec<Binary64>,
    ys: &Vec<Binary64>,
    excluded_mask: &Vec<bool>,
    windows: &Vec<(Binary64, Binary64)>,
    degree: usize,
) -> (r: Result<Vec<Binary64>, String>)
    requires
        xs@.len() <= ys@.len(),
        xs@.len() <= excluded_mask@.len(),
    ensures
        r matches Ok(v) ==> v@.len() == xs@.len(),
        forall|m: Meaning<Binary64>| #[trigger]
            follows::<A>(m) ==> match r {
                Ok(v) => baseline(m, xs@, ys@, excluded_mask@, windows@, degree as nat) == Ok::<
                    Seq<Binary64>,
                    Seq<char>,
                >(v@),
                Err(e) => baseline(m, xs@, ys@, excluded_mask@, windows@, degree as nat) == Err::<
                    Seq<Binary64>,
                    Seq<char>,
                >(e@),
            },
{
    if degree > MAX_DEGREE {
        return Err("baseline degree must be 0..=6".to_owned());
    }
    let sel: Vec<usize> = select::<A>(xs, excluded_mask, windows);
    let ghost places_of = sel@.map_values(|i: usize| i as int);
    if sel.len() < degree + 2 {
        return Err(few_anchors(degree + 2, sel.len()));
    }
    let mid: Binary64 = xs[sel[sel.len() / 2]];
    let last: Binary64 = xs[sel[sel.len() - 1]].abs();
    let scale: Binary64 = last.max(xs[sel[0]].abs()).max(Binary64 { bits: ONE_BITS });
    let mut tv: Vec<Binary64> = Vec::new();
    let mut yv: Vec<Binary64> = Vec::new();
    let mut wv: Vec<Binary64> = Vec::new();
    for k in 0..sel.len()
        invariant
            xs@.len() <= ys@.len(),
            forall|k: int| 0 <= k < sel@.len() ==> (#[trigger] sel@[k]) < xs@.len(),
            places_of == sel@.map_values(|i: usize| i as int),
            tv@.len() == k,
            yv@ == places_of.map_values(|i: int| ys@[i]).take(k as int),
            wv@.len() == k,
            forall|m: Meaning<Binary64>| #[trigger]
                follows::<A>(m) ==> {
                    &&& tv@ == places_of.map_values(
                        |i: int| m.div(m.sub(xs@[i], mid), scale),
                    ).take(k as int)
                    &&& wv@ == places_of.map_values(|i: int| m.one()).take(k as int)
                },
    {
        let i: usize = sel[k];
        tv.push(A::over(A::minus(xs[i], mid), scale));
        yv.push(ys[i]);
        wv.push(Binary64 { bits: ONE_BITS });
        proof {
            assert(places_of[k as int] == i);
            assert(yv@ =~= places_of.map_values(|i: int| ys@[i]).take(k + 1));
            assert forall|m: Meaning<Binary64>| #[trigger] follows::<A>(m) implies tv@
                == places_of.map_values(|i: int| m.div(m.sub(xs@[i], mid), scale)).take(k + 1)
                && wv@ == places_of.map_values(|i: int| m.one()).take(k + 1) by {
                assert(tv@ =~= places_of.map_values(
                    |i: int| m.div(m.sub(xs@[i], mid), scale),
                ).take(k + 1));
                assert(wv@ =~= places_of.map_values(|i: int| m.one()).take(k + 1));
            }
        }
    }
    let ghost count = sel@.len() as int;
    assert(yv@ =~= places_of.map_values(|i: int| ys@[i]));
    proof {
        assert((degree + 1) * (degree + 1) <= 49) by (nonlinear_arith)
            requires
                0 <= degree <= 6,
        ;
        assert forall|m: Meaning<Binary64>| #[trigger] follows::<A>(m) implies tv@
            == places_of.map_values(|i: int| m.div(m.sub(xs@[i], mid), scale)) && wv@
            == places_of.map_values(|i: int| m.one()) && mid == anchor_middle(xs@, places_of)
            && scale == anchor_scale(m, xs@, places_of) by {
            let t = places_of.map_values(|i: int| m.div(m.sub(xs@[i], mid), scale));
            let w = places_of.map_values(|i: int| m.one());
            assert(t.take(count) =~= t);
            assert(w.take(count) =~= w);
        }
    }
    let coef: Vec<Binary64> = match polyfit_norm::<A>(&tv, &yv, &wv, degree) {
        Some(c) => c,
        None => {
            return Err("singular baseline normal equations".to_owned());
        },
    };
    let mut out: Vec<Binary64> = Vec::new();
    for i in 0..xs.len()
        invariant
            out@.len() == i,
            forall|m: Meaning<Binary64>| #[trigger]
                follows::<A>(m) ==> out@ == xs@.map_values(
                    |x: Binary64|
                        poly_value(
                            m,
                            coef@,
                            m.div(m.sub(x, mid), scale),
                            coef@.len() as int,
                        ),
                ).take(i as int),
    {
        let t: Binary64 = A::over(A::minus(xs[i], mid), scale);
        out.push(eval_poly::<A>(&coef, t));
        proof {
            assert forall|m: Meaning<Binary64>| #[trigger] follows::<A>(m) implies out@
                == xs@.map_values(
                |x: Binary64|
                    poly_value(m, coef@, m.div(m.sub(x, mid), scale), coef@.len() as int),
            ).take(i + 1) by {
                assert(out@ =~= xs@.map_values(
                    |x: Binary64|
                        poly_value(m, coef@, m.div(m.sub(x, mid), scale), coef@.len() as int),
                ).take(i + 1));
            }
        }
    }
    proof {
        assert forall|m: Meaning<Binary64>| #[trigger] follows::<A>(m) implies baseline(
            m,
            xs@,
            ys@,
            excluded_mask@,
            windows@,
            degree as nat,
        ) == Ok::<Seq<Binary64>, Seq<char>>(out@) by {
            let all = xs@.map_values(
                |x: Binary64|
                    poly_value(m, coef@, m.div(m.sub(x, mid), scale), coef@.len() as int),
            );
            assert(all.take(xs@.len() as int) =~= all);
        }
    }
    Ok(out)
}

/// The denominator of the smoothing kernel for the width `sigma`.
pub open spec fn kernel_spread<T>(m: Meaning<T>, sigma: T) -> T {
    let d = m.mul(m.num(TWO_BITS), sigma);
    m.max(m.mul(d, d), m.num(KERNEL_FLOOR_BITS))
}

/// The smoothing kernel `exp(-(dx/(2 sigma))^2)`.
pub open spec fn kernel<T>(m: Meaning<T>, dx: T, spread: T) -> T {
    m.e(m.div(m.mul(m.neg(dx), dx), spread))
}

/// The sum of the weights that the first `k` points have at point `i`;
/// excluded points have none.
pub open spec fn weight_sum<T>(
    m: Meaning<T>,
    xs: Seq<T>,
    mask: Seq<bool>,
    spread: T,
    i: int,
    k: int,
) -> T
    decreases k,
{
    if k <= 0 {
        m.zero()
    } else if mask[k - 1] {
        weight_sum(m, xs, mask, spread, i, k - 1)
    } else {
        m.add(
            weight_sum(m, xs, mask, spread, i, k - 1),
            kernel(m, m.sub(xs[k - 1], xs[i]), spread),
        )
    }
}

/// The sum of the values of the first `k` points, by the weights that they
/// have at point `i`.
pub open spec fn value_sum<T>(
    m: Meaning<T>,
    xs: Seq<T>,
    ys: Seq<T>,
    mask: Seq<bool>,
    spread: T,
    i: int,
    k: int,
) -> T
    decreases k,
{
    if k <= 0 {
        m.zero()
    } else if mask[k - 1] {
        value_sum(m, xs, ys, mask, spread, i, k - 1)
    } else {
        m.add(
            value_sum(m, xs, ys, mask, spread, i, k - 1),
            m.mul(kernel(m, m.sub(xs[k - 1], xs[i]), spread), ys[k - 1]),
        )
    }
}

/// The smoothed value at point `i`; not a number where the point is excluded.
pub open spec fn smooth_value<T>(
    m: Meaning<T>,
    xs: Seq<T>,
    ys: Seq<T>,
    mask: Seq<bool>,
    sigma: T,
    i: int,
) -> T {
    let spread = kernel_spread(m, sigma);
    let n = xs.len() as int;
    if mask[i] {
        m.num(NAN_BITS)
    } else {
        m.div(value_sum(m, xs, ys, mask, spread, i, n), weight_sum(m, xs, mask, spread, i, n))
    }
}

/// Smoothing with a Gaussian kernel, for display only.  Excluded points are
/// neither evaluated nor used.
pub fn gaussian_smooth<A: Arithmetic>(
    xs: &Vec<Binary64>,
    ys: &Vec<Binary64>,
    excluded_mask: &Vec<bool>,
    sigma: Binary64,
) -> (out: Vec<Binary64>)
    requires
        xs@.len() <= ys@.len(),
        xs@.len() <= excluded_mask@.len(),
    ensures
        out@.len() == xs@.len(),
        forall|m: Meaning<Binary64>, i: int|
            #![trigger follows::<A>(m), out@[i]]
            follows::<A>(m) && 0 <= i < xs@.len() ==> out@[i] == smooth_value(
                m,
                xs@,
                ys@,
                excluded_mask@,
                sigma,
                i,
            ),
{
    let d: Binary64 = A::times(Binary64 { bits: TWO_BITS }, sigma);
    let spread: Binary64 = A::times(d, d).max(Binary64 { bits: KERNEL_FLOOR_BITS });
    let mut out: Vec<Binary64> = Vec::new();
    for i in 0..xs.len()
        invariant
            xs@.len() <= ys@.len(),
            xs@.len() <= excluded_mask@.len(),
            out@.len() == i,
            forall|m: Meaning<Binary64>| #[trigger]
                follows::<A>(m) ==> spread == kernel_spread(m, sigma),
            forall|m: Meaning<Binary64>, k: int|
                #![trigger follows::<A>(m), out@[k]]
                follows::<A>(m) && 0 <= k < i ==> out@[k] == smooth_value(
                    m,
                    xs@,
                    ys@,
                    excluded_mask@,
                    sigma,
                    k,
                ),
    {
        if excluded_mask[i] {
            out.push(Binary64 { bits: NAN_BITS });
        } else {
            let mut sw: Binary64 = Binary64 { bits: 0 };
            let mut sy: Binary64 = Binary64 { bits: 0 };
            for j in 0..xs.len()
                invariant
                    i < xs@.len(),
                    xs@.len() <= ys@.len(),
                    xs@.len() <= excluded_mask@.len(),
                    forall|m: Meaning<Binary64>| #[trigger]
                        follows::<A>(m) ==> {
                            &&& sw == weight_sum(
                                m,
                                xs@,
                                excluded_mask@,
                                spread,
                                i as int,
                                j as int,
                            )
                            &&& sy == value_sum(
                                m,
                                xs@,
                                ys@,
                                excluded_mask@,
                                spread,
                                i as int,
                                j as int,
                            )
                        },
            {
                if !excluded_mask[j] {
                    let dx: Binary64 = A::minus(xs[j], xs[i]);
                    let w: Binary64 = A::exp(A::over(A::times(dx.neg(), dx), spread));
                    sw = A::plus(sw, w);
                    sy = A::plus(sy, A::times(w, ys[j]));
                }
            }
            out.push(A::over(sy, sw));
        }
    }
    out
}

} // verus!
