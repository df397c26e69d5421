//! Units of the x axis and transformations that keep the physical range.
//!
//! Supported units:
//! - wavelength `nm`
//! - wavenumber `cm^-1` (1e7 over the wavelength in nanometres)
//! - energy `eV`
//!
//! All conversions go through the wavelength in nanometres.

use crate::arithmetic::{exact, follows, Arithmetic, Meaning};
use crate::binary64::Binary64;
use crate::quadrature::TWO_BITS;
use crate::text::{chars_of, lowered, remove, same, to_lower, trim, trimmed, without, Class};
use vstd::prelude::*;

verus! {

/// The number 1239.8419843929196: Planck constant times speed of light, in
/// electronvolts times nanometres.
pub const HC_EV_NM_BITS: u64 = 0x4093_5f5e_3128_1d54;

/// The number 1e7: one centimetre in nanometres.
pub const CM_IN_NM_BITS: u64 = 0x4163_12d0_0000_0000;

/// The version of the formulas and constants.
pub const UNITS_VERSION: &'static str = "units-v1.0.0";

/// A unit of the x axis.
#[derive(Clone, Copy, Debug, PartialEq, Eq, Structural)]
pub enum XUnit {
    Nm,
    CmInv,
    Ev,
}

/// A text without surrounding white space and without blanks, in lower case.
pub open spec fn bare(s: Seq<char>) -> Seq<char> {
    without(lowered(trimmed(s, Class::White)), Class::One(' '))
}

impl XUnit {
    /// The name of a unit.
    pub open spec fn name(self) -> Seq<char> {
        match self {
            XUnit::Nm => "nm"@,
            XUnit::CmInv => "cm^-1"@,
            XUnit::Ev => "eV"@,
        }
    }

    /// The name of a unit.
    pub fn as_str(self) -> (r: &'static str)
        ensures
            r@ == self.name(),
    {
        match self {
            XUnit::Nm => "nm",
            XUnit::CmInv => "cm^-1",
            XUnit::Ev => "eV",
        }
    }

    /// The unit that a text means.  Letter case, blanks and surrounding white
    /// space do not matter.
    pub open spec fn named(s: Seq<char>) -> Option<XUnit> {
        let t = bare(s);
        if t == "nm"@ || t == "wavelength"@ || t == "wavelength_nm"@ || t == "wavelength(nm)"@ {
            Some(XUnit::Nm)
        } else if t == "cm^-1"@ || t == "cm-1"@ || t == "cm_inv"@ || t == "wavenumber"@ || t
            == "1/cm"@ || t == "wavenumber(cm^-1)"@ {
            Some(XUnit::CmInv)
        } else if t == "ev"@ || t == "energy"@ || t == "energy_ev"@ || t == "energy(ev)"@ {
            Some(XUnit::Ev)
        } else {
            None
        }
    }

    /// The unit that a text means.
    pub fn parse(s: &str) -> (r: Option<XUnit>)
        ensures
            r == XUnit::named(s@),
    {
        let cs: Vec<char> = chars_of(s);
        let low: Vec<char> = to_lower(trim(cs.as_slice(), Class::White));
        let kept: Vec<char> = remove(low.as_slice(), Class::One(' '));
        let t: &[char] = kept.as_slice();
        if same(t, "nm") || same(t, "wavelength") || same(t, "wavelength_nm") || same(
            t,
            "wavelength(nm)",
        ) {
            Some(XUnit::Nm)
        } else if same(t, "cm^-1") || same(t, "cm-1") || same(t, "cm_inv") || same(t, "wavenumber")
            || same(t, "1/cm") || same(t, "wavenumber(cm^-1)") {
            Some(XUnit::CmInv)
        } else if same(t, "ev") || same(t, "energy") || same(t, "energy_ev") || same(
            t,
            "energy(ev)",
        ) {
            Some(XUnit::Ev)
        } else {
            None
        }
    }
}

// ---------------------------------------------------------------------- scalars

/// A coordinate against the wavelength: the wavelength of a coordinate, and
/// the coordinate of a wavelength.
pub open spec fn against<T>(m: Meaning<T>, unit: XUnit, x: T) -> T {
    match unit {
        XUnit::Nm => x,
        XUnit::CmInv => m.div(m.num(CM_IN_NM_BITS), x),
        XUnit::Ev => m.div(m.num(HC_EV_NM_BITS), x),
    }
}

/// A coordinate in another unit.  Zero and what is not finite stand for
/// themselves.
pub open spec fn converted<T>(m: Meaning<T>, x: T, from: XUnit, to: XUnit) -> T {
    if from == to || !m.fin(x) || m.eq(x, m.zero()) {
        x
    } else {
        against(m, to, against(m, from, x))
    }
}

fn against_of<A: Arithmetic>(unit: XUnit, x: Binary64) -> (r: Binary64)
    ensures
        forall|m: Meaning<Binary64>| #[trigger] follows::<A>(m) ==> r == against(m, unit, x),
{
    match unit {
        XUnit::Nm => x,
        XUnit::CmInv => A::over(Binary64 { bits: CM_IN_NM_BITS }, x),
        XUnit::Ev => A::over(Binary64 { bits: HC_EV_NM_BITS }, x),
    }
}

/// Converts a coordinate to another unit.
pub fn convert_scalar<A: Arithmetic>(x: Binary64, from: XUnit, to: XUnit) -> (r: Binary64)
    ensures
        from == to ==> r == x,
        forall|m: Meaning<Binary64>| #[trigger] follows::<A>(m) ==> r == converted(m, x, from, to),
{
    if from == to || !x.is_finite() || x.is_zero() {
        return x;
    }
    against_of::<A>(to, against_of::<A>(from, x))
}

// -------------------------------------------------------------------- intervals

/// An interval in one unit.
#[derive(Clone, Copy, Debug, PartialEq, Eq, Structural)]
pub struct Interval {
    pub lo: Binary64,
    pub hi: Binary64,
    pub unit: XUnit,
}

/// The bounds of an interval in another unit, in order.
pub open spec fn converted_bounds<T>(m: Meaning<T>, lo: T, hi: T, from: XUnit, to: XUnit) -> (T, T) {
    let a = converted(m, lo, from, to);
    let b = converted(m, hi, from, to);
    (m.min(a, b), m.max(a, b))
}

/// `x` lies within the bounds.
pub open spec fn inside<T>(m: Meaning<T>, lo: T, hi: T, x: T) -> bool {
    m.le(lo, x) && m.le(x, hi)
}

/// The pairs of bounds agree up to a part `tol` of the largest of their
/// magnitudes and widths.
pub open spec fn agree<T>(m: Meaning<T>, a: (T, T), b: (T, T), tol: T) -> bool {
    let span = m.max(m.abs(m.sub(a.1, a.0)), m.abs(m.sub(b.1, b.0)));
    let scale = m.max(
        span,
        m.max(m.max(m.max(m.abs(a.0), m.abs(a.1)), m.abs(b.0)), m.abs(b.1)),
    );
    &&& m.le(m.abs(m.sub(a.0, b.0)), m.mul(tol, scale))
    &&& m.le(m.abs(m.sub(a.1, b.1)), m.mul(tol, scale))
}

impl Interval {
    /// The interval between two coordinates, in whichever order they come.
    pub fn new(a: Binary64, b: Binary64, unit: XUnit) -> (r: Interval)
        ensures
            r.lo == a.smaller(b),
            r.hi == a.larger(b),
            r.unit == unit,
    {
        Interval { lo: a.min(b), hi: a.max(b), unit }
    }

    /// The interval in another unit.  Reciprocal transforms reverse the order
    /// of the bounds, so they are sorted again.
    pub fn to_unit<A: Arithmetic>(&self, to: XUnit) -> (r: Interval)
        ensures
            r.unit == to,
            forall|m: Meaning<Binary64>| #[trigger]
                follows::<A>(m) ==> (r.lo, r.hi) == converted_bounds(
                    m,
                    self.lo,
                    self.hi,
                    self.unit,
                    to,
                ),
    {
        let a: Binary64 = convert_scalar::<A>(self.lo, self.unit, to);
        let b: Binary64 = convert_scalar::<A>(self.hi, self.unit, to);
        Interval::new(a, b, to)
    }

    /// Whether another interval covers the same physical range, within the
    /// relative tolerance `tol`, evaluated in the unit of the other.  Bounds that
    /// are not numbers always fail.
    pub fn same_physical_range<A: Arithmetic>(&self, other: &Interval, tol: Binary64) -> (r: bool)
        ensures
            self.lo.nan() || self.hi.nan() || other.lo.nan() || other.hi.nan() ==> !r,
            !(self.lo.nan() || self.hi.nan() || other.lo.nan() || other.hi.nan()) ==> forall|
                m: Meaning<Binary64>,
            | #[trigger]
                follows::<A>(m) ==> r == agree(
                    m,
                    converted_bounds(m, self.lo, self.hi, self.unit, other.unit),
                    (other.lo, other.hi),
                    tol,
                ),
    {
        if self.lo.is_nan() || self.hi.is_nan() || other.lo.is_nan() || other.hi.is_nan() {
            return false;
        }
        let a: Interval = self.to_unit::<A>(other.unit);
        let span: Binary64 = A::minus(a.hi, a.lo).abs().max(A::minus(other.hi, other.lo).abs());
        let most: Binary64 = a.lo.abs().max(a.hi.abs()).max(other.lo.abs()).max(other.hi.abs());
        let scale: Binary64 = span.max(most);
        let slack: Binary64 = A::times(tol, scale);
        A::minus(a.lo, other.lo).abs().le(&slack) && A::minus(a.hi, other.hi).abs().le(&slack)
    }

    /// Whether a coordinate lies in the interval, bounds included.
    pub fn contains(&self, x: Binary64) -> (r: bool)
        ensures
            r == ((self.lo.below(x) || self.lo.equals(x)) && (x.below(self.hi) || x.equals(
                self.hi,
            ))),
    {
        self.lo.le(&x) && x.le(&self.hi)
    }
}

// ------------------------------------------------------------------------ peaks

/// The centre and width of a peak in another unit: the width is that of the
/// transformed span around the centre.
pub open spec fn converted_peak<T>(m: Meaning<T>, center: T, width: T, from: XUnit, to: XUnit) -> (
    T,
    T,
) {
    if from == to {
        (center, width)
    } else {
        let half = m.div(width, m.num(TWO_BITS));
        let lo = converted(m, m.sub(center, half), from, to);
        let hi = converted(m, m.add(center, half), from, to);
        (converted(m, center, from, to), m.abs(m.sub(hi, lo)))
    }
}

/// Converts the centre and the width of a peak.  The width is a span around
/// the centre: the bounds of the span are transformed, and the new width is
/// the distance between them.
pub fn convert_peak<A: Arithmetic>(center: Binary64, width: Binary64, from: XUnit, to: XUnit) -> (r: (
    Binary64,
    Binary64,
))
    ensures
        forall|m: Meaning<Binary64>| #[trigger]
            follows::<A>(m) ==> r == converted_peak(m, center, width, from, to),
{
    if from == to {
        return (center, width);
    }
    let c: Binary64 = convert_scalar::<A>(center, from, to);
    let half: Binary64 = A::over(width, Binary64 { bits: TWO_BITS });
    let lo: Binary64 = convert_scalar::<A>(A::minus(center, half), from, to);
    let hi: Binary64 = convert_scalar::<A>(A::plus(center, half), from, to);
    (c, A::minus(hi, lo).abs())
}

// ------------------------------------------------------------------------- laws

/// The constants of the conversions, read over the real numbers, are positive.
pub open spec fn positive_constants(m: Meaning<real>) -> bool {
    (m.constant)(CM_IN_NM_BITS) > 0real && (m.constant)(HC_EV_NM_BITS) > 0real
}

proof fn lemma_reciprocal(k: real, x: real)
    requires
        k > 0real,
        x != 0real,
    ensures
        k / x != 0real,
        k / (k / x) == x,
        x > 0real <==> k / x > 0real,
{
    assert((k / x) * x == k) by (nonlinear_arith)
        requires
            x != 0real,
    ;
    let y = k / x;
    assert(y != 0real) by (nonlinear_arith)
        requires
            y * x == k,
            k > 0real,
    ;
    assert(x > 0real <==> y > 0real) by (nonlinear_arith)
        requires
            y * x == k,
            k > 0real,
    ;
    assert((k / y) * y == k) by (nonlinear_arith)
        requires
            y != 0real,
    ;
    let z = k / y;
    assert(z == x) by (nonlinear_arith)
        requires
            z * y == k,
            y * x == k,
            y != 0real,
    ;
}

/// Over the real numbers, a conversion there and back changes nothing.
pub proof fn law_conversion_round_trip(m: Meaning<real>, x: real, from: XUnit, to: XUnit)
    requires
        exact(m),
        positive_constants(m),
    ensures
        converted(m, converted(m, x, from, to), to, from) == x,
{
    let cm = (m.constant)(CM_IN_NM_BITS);
    let hc = (m.constant)(HC_EV_NM_BITS);
    if from != to && x != 0real {
        let wl = against(m, from, x);
        lemma_reciprocal(cm, x);
        lemma_reciprocal(hc, x);
        assert(wl != 0real);
        assert(against(m, from, wl) == x);
        lemma_reciprocal(cm, wl);
        lemma_reciprocal(hc, wl);
    }
}

/// Over the real numbers, wavelengths and the other two units are reciprocal, by
/// one centimetre in nanometres and by the product of the Planck constant and the
/// speed of light; wavenumbers and energies are proportional.  What is zero stays
/// zero, and what keeps its unit stays as it is.
pub proof fn law_conversion_formulas(m: Meaning<real>, x: real, hc: real)
    requires
        exact(m),
        (m.constant)(CM_IN_NM_BITS) == 10000000real,
        (m.constant)(HC_EV_NM_BITS) == hc,
        hc > 0real,
    ensures
        x != 0real ==> {
            &&& converted(m, x, XUnit::Nm, XUnit::CmInv) * x == 10000000real
            &&& converted(m, x, XUnit::CmInv, XUnit::Nm) * x == 10000000real
            &&& converted(m, x, XUnit::Nm, XUnit::Ev) * x == hc
            &&& converted(m, x, XUnit::Ev, XUnit::Nm) * x == hc
            &&& converted(m, x, XUnit::CmInv, XUnit::Ev) * 10000000real == hc * x
            &&& converted(m, x, XUnit::Ev, XUnit::CmInv) * hc == 10000000real * x
        },
        forall|from: XUnit, to: XUnit| #[trigger] converted(m, 0real, from, to) == 0real,
        forall|u: XUnit| #[trigger] converted(m, x, u, u) == x,
{
    if x != 0real {
        let cm = 10000000real;
        lemma_reciprocal_of(cm, x);
        lemma_reciprocal_of(hc, x);
        lemma_reciprocal(cm, x);
        lemma_reciprocal(hc, x);
        lemma_two_reciprocals(cm, hc, x);
        lemma_two_reciprocals(hc, cm, x);
        assert(converted(m, x, XUnit::CmInv, XUnit::Ev) == hc / (cm / x));
        assert(converted(m, x, XUnit::Ev, XUnit::CmInv) == cm / (hc / x));
    }
}

proof fn lemma_reciprocal_of(k: real, x: real)
    requires
        x != 0real,
    ensures
        (k / x) * x == k,
{
    assert((k / x) * x == k) by (nonlinear_arith)
        requires
            x != 0real,
    ;
}

/// One reciprocal over another.
proof fn lemma_two_reciprocals(k: real, l: real, x: real)
    requires
        k > 0real,
        l > 0real,
        x != 0real,
    ensures
        (l / (k / x)) * k == l * x,
{
    lemma_reciprocal(k, x);
    lemma_reciprocal_of(k, x);
    let a = k / x;
    lemma_reciprocal_of(l, a);
    let b = l / a;
    let p = b * a;
    assert(p * x == b * k) by (nonlinear_arith)
        requires
            p == b * a,
            a * x == k,
    ;
}

/// Over the real numbers, a conversion from one unit to a second and from there
/// to a third is the one from the first to the third.
pub proof fn law_conversions_compose(
    m: Meaning<real>,
    x: real,
    first: XUnit,
    second: XUnit,
    third: XUnit,
)
    requires
        exact(m),
        positive_constants(m),
    ensures
        converted(m, converted(m, x, first, second), second, third) == converted(
            m,
            x,
            first,
            third,
        ),
{
    if x != 0real {
        let cm = (m.constant)(CM_IN_NM_BITS);
        let hc = (m.constant)(HC_EV_NM_BITS);
        lemma_reciprocal(cm, x);
        lemma_reciprocal(hc, x);
        let w = against(m, first, x);
        lemma_reciprocal(cm, w);
        lemma_reciprocal(hc, w);
        law_conversion_round_trip(m, x, first, second);
    }
}

/// What is not finite, or zero, is left as it is by every conversion.
pub proof fn law_without_reciprocal_unchanged<T>(m: Meaning<T>, x: T, from: XUnit, to: XUnit)
    requires
        !m.fin(x) || m.eq(x, m.zero()),
    ensures
        converted(m, x, from, to) == x,
{
}

/// Both positive or both negative.
pub open spec fn same_sign(x: real, y: real) -> bool {
    (x > 0real && y > 0real) || (x < 0real && y < 0real)
}

proof fn lemma_against_order(m: Meaning<real>, unit: XUnit, x: real, y: real)
    requires
        exact(m),
        positive_constants(m),
        same_sign(x, y),
    ensures
        same_sign(x, against(m, unit, x)),
        same_sign(y, against(m, unit, y)),
        unit is Nm ==> (x <= y <==> against(m, unit, x) <= against(m, unit, y)),
        unit !is Nm ==> (x <= y <==> against(m, unit, y) <= against(m, unit, x)),
{
    if unit !is Nm {
        let k = if unit is CmInv {
            (m.constant)(CM_IN_NM_BITS)
        } else {
            (m.constant)(HC_EV_NM_BITS)
        };
        lemma_reciprocal(k, x);
        lemma_reciprocal(k, y);
        let a = k / x;
        let b = k / y;
        assert(a * x == k && b * y == k) by (nonlinear_arith)
            requires
                a == k / x,
                b == k / y,
                x != 0real,
                y != 0real,
        ;
        assert(x <= y <==> b <= a) by (nonlinear_arith)
            requires
                a * x == k,
                b * y == k,
                k > 0real,
                (x > 0real && y > 0real && a > 0real && b > 0real) || (x < 0real && y < 0real && a
                    < 0real && b < 0real),
        ;
    }
}

/// Over the real numbers, an interval that does not reach zero holds, in any
/// unit, exactly the points that it held before: conversion keeps the physical
/// range, also where it reverses the order.
pub proof fn law_interval_keeps_range(
    m: Meaning<real>,
    lo: real,
    hi: real,
    x: real,
    from: XUnit,
    to: XUnit,
)
    requires
        exact(m),
        positive_constants(m),
        lo <= hi,
        same_sign(lo, hi),
    ensures
        ({
            let b = converted_bounds(m, lo, hi, from, to);
            &&& b.0 <= b.1
            &&& same_sign(lo, b.0)
            &&& inside(m, lo, hi, x) <==> inside(m, b.0, b.1, converted(m, x, from, to))
        }),
{
    if from != to {
        lemma_against_order(m, from, lo, hi);
        lemma_against_order(m, to, against(m, from, lo), against(m, from, hi));
        if x != 0real {
            lemma_against_order(m, from, x, x);
            lemma_against_order(m, to, against(m, from, x), against(m, from, x));
            if same_sign(x, lo) {
                lemma_against_order(m, from, lo, x);
                lemma_against_order(m, from, x, lo);
                lemma_against_order(m, from, x, hi);
                lemma_against_order(m, from, hi, x);
                let wx = against(m, from, x);
                let wl = against(m, from, lo);
                let wh = against(m, from, hi);
                lemma_against_order(m, to, wl, wx);
                lemma_against_order(m, to, wx, wl);
                lemma_against_order(m, to, wx, wh);
                lemma_against_order(m, to, wh, wx);
            }
        }
    }
}

/// Over the real numbers, an interval that does not reach zero comes back from
/// a conversion with its own bounds.
pub proof fn law_interval_round_trip(m: Meaning<real>, lo: real, hi: real, from: XUnit, to: XUnit)
    requires
        exact(m),
        positive_constants(m),
        lo <= hi,
        same_sign(lo, hi),
    ensures
        ({
            let b = converted_bounds(m, lo, hi, from, to);
            converted_bounds(m, b.0, b.1, to, from) == (lo, hi)
        }),
{
    law_conversion_round_trip(m, lo, from, to);
    law_conversion_round_trip(m, hi, from, to);
}

/// Over the real numbers, an interval and its conversion are the same physical
/// range, within any tolerance.
pub proof fn law_conversion_is_same_range(
    m: Meaning<real>,
    lo: real,
    hi: real,
    from: XUnit,
    to: XUnit,
    tol: real,
)
    requires
        exact(m),
        tol >= 0real,
    ensures
        ({
            let b = converted_bounds(m, lo, hi, from, to);
            agree(m, converted_bounds(m, lo, hi, from, to), b, tol)
        }),
{
    let b = converted_bounds(m, lo, hi, from, to);
    let span = m.max(m.abs(m.sub(b.1, b.0)), m.abs(m.sub(b.1, b.0)));
    let scale = m.max(
        span,
        m.max(m.max(m.max(m.abs(b.0), m.abs(b.1)), m.abs(b.0)), m.abs(b.1)),
    );
    assert(tol * scale >= 0real) by (nonlinear_arith)
        requires
            tol >= 0real,
            scale >= 0real,
    ;
    assert(m.le(m.abs(m.sub(b.0, b.0)), m.mul(tol, scale)));
    assert(m.le(m.abs(m.sub(b.1, b.1)), m.mul(tol, scale)));
}

/// Over the real numbers, the converted width of a peak is the width of its
/// converted span.
pub proof fn law_peak_width_is_converted_span(
    m: Meaning<real>,
    center: real,
    width: real,
    from: XUnit,
    to: XUnit,
)
    requires
        exact(m),
        positive_constants(m),
        (m.constant)(TWO_BITS) == 2real,
        width >= 0real,
    ensures
        ({
            let half = width / 2real;
            let b = converted_bounds(m, center - half, center + half, from, to);
            let (c, w) = converted_peak(m, center, width, from, to);
            c == converted(m, center, from, to) && w == b.1 - b.0
        }),
{
    let half = width / 2real;
    assert((center + half) - (center - half) == width) by {
        assert(half + half == width) by (nonlinear_arith)
            requires
                half == width / 2real,
        ;
    }
}

} // verus!
