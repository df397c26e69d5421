//! Laws of conversions with rounded arithmetic.
//!
//! Numbers of some kind stand for real numbers.  Where quotients are rounded
//! with a small relative error, a conversion there and back is off by little,
//! and an interval stays the same physical range.

use crate::arithmetic::{native, Meaning};
use crate::binary64::{lemma_scaled_sign, Binary64};
use crate::units::{
    against, agree, converted, converted_bounds, inside, XUnit, CM_IN_NM_BITS, HC_EV_NM_BITS,
};
use vstd::arithmetic::power2::{
    lemma2_to64, lemma2_to64_rest, lemma_pow2_adds, lemma_pow2_pos, pow2,
};
use vstd::prelude::*;

verus! {

/// `r` differs from the positive number `q` by at most the part `d` of it.
pub open spec fn near(r: real, q: real, d: real) -> bool {
    q - q * d <= r <= q + q * d
}

/// A number of ordinary size, between `1e-20` and `1e20`.
pub open spec fn ordinary(q: real) -> bool {
    1real <= q * 100000000000000000000real && q <= 100000000000000000000real
}

/// Under the values `val`, quotients of ordinary size are rounded with a
/// relative error of at most `u`.
pub open spec fn rounds_quotients<T>(m: Meaning<T>, val: spec_fn(T) -> real, u: real) -> bool {
    forall|a: T, b: T|
        #![trigger (m.over)(a, b)]
        m.fin(a) && m.fin(b) && val(a) > 0real && val(b) > 0real && ordinary(val(a) / val(b))
            ==> m.fin(m.div(a, b)) && near(val(m.div(a, b)), val(a) / val(b), u)
}

/// Under the values `val`, finite numbers that are not zero do not compare as
/// zero, and the constants of the conversions are what they are meant to be.
pub open spec fn values_constants<T>(m: Meaning<T>, val: spec_fn(T) -> real) -> bool {
    &&& forall|x: T| m.fin(x) && val(x) != 0real ==> !#[trigger] m.eq(x, m.zero())
    &&& m.fin(m.num(CM_IN_NM_BITS))
    &&& val(m.num(CM_IN_NM_BITS)) == 10000000real
    &&& m.fin(m.num(HC_EV_NM_BITS))
    &&& 1239real < val(m.num(HC_EV_NM_BITS)) < 1240real
}

/// A quotient by a divisor that is too small by little is too large by little.
proof fn lemma_quotient_above(q: real, a: real, x: real, y: real, d: real)
    requires
        q > 0real,
        x > 0real,
        q * y == a * x,
        y >= x - x * d,
    ensures
        q - q * d <= a,
{
    let low = x - x * d;
    assert(q * low <= q * y) by (nonlinear_arith)
        requires
            q > 0real,
            low <= y,
    ;
    let e = q - q * d;
    assert(q * low == e * x) by (nonlinear_arith)
        requires
            low == x - x * d,
            e == q - q * d,
    ;
    assert(e <= a) by (nonlinear_arith)
        requires
            e * x <= a * x,
            x > 0real,
    ;
}

/// A quotient by a divisor that is too large by little is too small by little.
proof fn lemma_quotient_below(q: real, a: real, x: real, y: real, d: real)
    requires
        q > 0real,
        x > 0real,
        q * y == a * x,
        y <= x + x * d,
    ensures
        a <= q + q * d,
{
    let high = x + x * d;
    assert(q * y <= q * high) by (nonlinear_arith)
        requires
            q > 0real,
            y <= high,
    ;
    let e = q + q * d;
    assert(q * high == e * x) by (nonlinear_arith)
        requires
            high == x + x * d,
            e == q + q * d,
    ;
    assert(a <= e) by (nonlinear_arith)
        requires
            a * x <= e * x,
            x > 0real,
    ;
}

proof fn lemma_scaled(a: real, b: real, d: real)
    requires
        a <= b,
        d >= 0real,
    ensures
        a * d <= b * d,
{
    assert(a * d <= b * d) by (nonlinear_arith)
        requires
            a <= b,
            d >= 0real,
    ;
}

proof fn lemma_expand(a: real, d: real, u: real)
    ensures
        a * (2real * d + 2real * u) == 2real * (a * d) + 2real * (a * u),
{
    assert(a * (2real * d + 2real * u) == 2real * (a * d) + 2real * (a * u)) by (nonlinear_arith);
}

/// One rounded division: the error of the divisor and that of the rounding at
/// most double.
proof fn lemma_rounded(k: real, x: real, y: real, r: real, d: real, u: real)
    requires
        k > 0real,
        x > 0real,
        y > 0real,
        0real <= d <= 1real / 4real,
        0real <= u <= 1real / 4real,
        near(y, x, d),
        near(r, k / y, u),
    ensures
        near(r, k / x, 2real * d + 2real * u),
{
    let a = k / x;
    let q = k / y;
    lemma_cancel(k, x);
    lemma_cancel(k, y);
    lemma_quotient_above(q, a, x, y, d);
    lemma_quotient_below(q, a, x, y, d);
    // q - q d <= a <= q + q d, and q - q u <= r <= q + q u
    lemma_expand(a, d, u);
    lemma_scaled(d, 1real / 4real, q);
    lemma_scaled(u, 1real / 4real, q);
    assert(q * d == d * q && q * u == u * q) by (nonlinear_arith);
    assert(q * d <= q / 4real && q * u <= q / 4real);
    assert(q <= a + q / 4real);
    lemma_scaled(q, a + q / 4real, d);
    lemma_scaled(q, a + q / 4real, u);
    let s = a + q / 4real;
    assert(s * d == a * d + q * d / 4real) by (nonlinear_arith)
        requires
            s == a + q / 4real,
    ;
    assert(s * u == a * u + q * u / 4real) by (nonlinear_arith)
        requires
            s == a + q / 4real,
    ;
    // so that q d <= (4/3) a d and q u <= (4/3) a u
    assert(3real * (q * d) <= 4real * (a * d));
    assert(3real * (q * u) <= 4real * (a * u));
    lemma_scaled(0real, d, a);
    lemma_scaled(0real, u, a);
    assert(d * a == a * d && u * a == a * u && 0real * a == 0real) by (nonlinear_arith);
}

proof fn lemma_cancel(k: real, x: real)
    requires
        k > 0real,
        x > 0real,
    ensures
        (k / x) * x == k,
        k / x > 0real,
{
    let q = k / x;
    assert(q * x == k) by (nonlinear_arith)
        requires
            q == k / x,
            x > 0real,
    ;
    assert(q > 0real) by (nonlinear_arith)
        requires
            q * x == k,
            k > 0real,
            x > 0real,
    ;
}

/// The bounds of a quotient.
proof fn lemma_quotient_bounds(k: real, x: real, least: real, most: real)
    requires
        0real < least <= x <= most,
        1000real <= k <= 10000000real,
    ensures
        least * (k / x) <= 10000000real,
        most * (k / x) >= 1000real,
        k / x > 0real,
{
    lemma_cancel(k, x);
    let q = k / x;
    lemma_scaled(least, x, q);
    lemma_scaled(x, most, q);
    assert(x * q == q * x) by (nonlinear_arith);
}

proof fn lemma_within_part(q: real, d: real)
    requires
        q > 0real,
        0real <= d <= 1real / 4real,
    ensures
        q * d <= q / 4real,
        q * d >= 0real,
{
    lemma_scaled(d, 1real / 4real, q);
    lemma_scaled(0real, d, q);
    assert(q * d == d * q && 0real * q == 0real) by (nonlinear_arith);
}

/// A constant over a number that is close to `x` is close to the constant over
/// `x`.
proof fn lemma_divided<T>(
    m: Meaning<T>,
    val: spec_fn(T) -> real,
    u: real,
    c: T,
    b: T,
    x: real,
    d: real,
)
    requires
        rounds_quotients(m, val, u),
        m.fin(c),
        1000real <= val(c) <= 10000000real,
        m.fin(b),
        near(val(b), x, d),
        0real <= d <= 1real / 8real,
        0real <= u <= 1real / 100real,
        1real <= x * 100000000000real,
        x <= 1000000000000000real,
    ensures
        m.fin(m.div(c, b)),
        near(val(m.div(c, b)), val(c) / x, 2real * d + 2real * u),
        val(m.div(c, b)) > 0real,
{
    let k = val(c);
    let y = val(b);
    lemma_within_part(x, d);
    assert(y > 0real);
    lemma_quotient_bounds(k, y, 1real / 1000000000000real, 10000000000000000real);
    assert(ordinary(k / y));
    lemma_rounded(k, x, y, val(m.div(c, b)), d, u);
    lemma_within_part(k / y, u);
}

/// The constant of a unit.
spec fn unit_constant<T>(m: Meaning<T>, unit: XUnit) -> T {
    if unit is CmInv {
        m.num(CM_IN_NM_BITS)
    } else {
        m.num(HC_EV_NM_BITS)
    }
}

/// Twice taken, a reciprocal is the number itself.
proof fn lemma_reciprocal_twice(k: real, x: real)
    requires
        k > 0real,
        x > 0real,
    ensures
        k / (k / x) == x,
        k / x > 0real,
{
    lemma_cancel(k, x);
    let q = k / x;
    lemma_cancel(k, q);
    let z = k / q;
    assert(z == x) by (nonlinear_arith)
        requires
            z * q == k,
            q * x == k,
            q > 0real,
    ;
}

/// There and back between the wavelength and another unit.
proof fn lemma_there_and_back<T>(m: Meaning<T>, val: spec_fn(T) -> real, u: real, c: T, x: T)
    requires
        rounds_quotients(m, val, u),
        m.fin(c),
        1000real <= val(c) <= 10000000real,
        0real <= u <= 1real / 1000real,
        m.fin(x),
        1real <= val(x) * 1000000real,
        val(x) <= 1000000real,
    ensures
        m.fin(m.div(c, x)),
        val(m.div(c, x)) > 0real,
        near(val(m.div(c, m.div(c, x))), val(x), 6real * u),
{
    let k = val(c);
    let v = val(x);
    assert(v * 0real == 0real) by (nonlinear_arith);
    lemma_divided(m, val, u, c, x, v, 0real);
    lemma_quotient_bounds(k, v, 1real / 1000000real, 1000000real);
    lemma_divided(m, val, u, c, m.div(c, x), k / v, 2real * u);
    lemma_reciprocal_twice(k, v);
}

/// There and back between two units that are reciprocal to the wavelength.
proof fn lemma_across_and_back<T>(
    m: Meaning<T>,
    val: spec_fn(T) -> real,
    u: real,
    c: T,
    e: T,
    x: T,
)
    requires
        rounds_quotients(m, val, u),
        m.fin(c),
        1000real <= val(c) <= 10000000real,
        m.fin(e),
        1000real <= val(e) <= 10000000real,
        0real <= u <= 1real / 1000real,
        m.fin(x),
        1real <= val(x) * 1000000real,
        val(x) <= 1000000real,
    ensures
        ({
            let y = m.div(e, m.div(c, x));
            &&& m.fin(y)
            &&& val(y) > 0real
            &&& near(val(m.div(c, m.div(e, y))), val(x), 30real * u)
        }),
{
    let k = val(c);
    let l = val(e);
    let v = val(x);
    assert(v * 0real == 0real) by (nonlinear_arith);
    lemma_divided(m, val, u, c, x, v, 0real);
    let w = m.div(c, x);
    let a = k / v;
    lemma_quotient_bounds(k, v, 1real / 1000000real, 1000000real);
    lemma_divided(m, val, u, e, w, a, 2real * u);
    let y = m.div(e, w);
    let b = l / a;
    lemma_quotient_bounds(l, a, 1real / 1000real, 10000000000000real);
    lemma_across(k, l, v);
    lemma_divided(m, val, u, e, y, b, 6real * u);
    lemma_reciprocal_twice(l, a);
    lemma_divided(m, val, u, c, m.div(e, y), a, 14real * u);
    lemma_reciprocal_twice(k, v);
}

/// The size of a number in the other unit.
proof fn lemma_across(k: real, l: real, v: real)
    requires
        1000real <= k <= 10000000real,
        1000real <= l <= 10000000real,
        1real <= v * 1000000real,
        v <= 1000000real,
    ensures
        1real <= (l / (k / v)) * 10000000000real,
        l / (k / v) <= 10000000000real,
{
    lemma_cancel(k, v);
    let a = k / v;
    lemma_cancel(l, a);
    let b = l / a;
    // b k == l v
    assert(b * k == l * v) by {
        let p = b * a;
        assert(p * v == b * k) by (nonlinear_arith)
            requires
                p == b * a,
                a * v == k,
        ;
    }
    lemma_scaled(1000real, l, v);
    lemma_scaled(l, 10000000real, v);
    lemma_scaled(1000real, k, b);
    lemma_scaled(k, 10000000real, b);
    assert(b * k == k * b) by (nonlinear_arith);
}

/// A conversion there and back with rounded arithmetic changes a number of
/// usual size, from a millionth to a million, by less than a part in ten
/// billion, where quotients are rounded with a relative error of at most a part
/// in a million million.  Where the units are the same, nothing changes.
pub proof fn law_rounded_round_trip<T>(
    m: Meaning<T>,
    val: spec_fn(T) -> real,
    u: real,
    x: T,
    from: XUnit,
    to: XUnit,
)
    requires
        rounds_quotients(m, val, u),
        values_constants(m, val),
        0real <= u <= 1real / 1000000000000real,
        m.fin(x),
        1real <= val(x) * 1000000real,
        val(x) <= 1000000real,
    ensures
        ({
            let z = converted(m, converted(m, x, from, to), to, from);
            &&& -val(x) < (val(z) - val(x)) * 10000000000real < val(x)
            &&& from == to ==> converted(m, x, from, to) == x
        }),
{
    let v = val(x);
    if from != to {
        let c = unit_constant(m, from);
        let e = unit_constant(m, to);
        if from is Nm {
            lemma_there_and_back(m, val, u, e, x);
            lemma_small(v, val(m.div(e, m.div(e, x))), 6real * u, u);
        } else if to is Nm {
            lemma_there_and_back(m, val, u, c, x);
            lemma_small(v, val(m.div(c, m.div(c, x))), 6real * u, u);
        } else {
            lemma_across_and_back(m, val, u, c, e, x);
            let y = m.div(e, m.div(c, x));
            lemma_small(v, val(m.div(c, m.div(e, y))), 30real * u, u);
        }
    }
}

proof fn lemma_small(v: real, z: real, d: real, u: real)
    requires
        v > 0real,
        near(z, v, d),
        0real <= d <= 30real * u,
        0real <= u <= 1real / 1000000000000real,
    ensures
        -v < (z - v) * 10000000000real < v,
{
    lemma_scaled(d, 30real / 1000000000000real, v);
    assert(d * v == v * d) by (nonlinear_arith);
}

/// A number less itself is zero, the larger of two numbers is not negative
/// where one of them is not, nor is a magnitude, nor is the part `tol` of a
/// number that is not negative.
pub open spec fn compares<T>(m: Meaning<T>, tol: T) -> bool {
    &&& forall|a: T| m.fin(a) ==> #[trigger] m.sub(a, a) == m.zero()
    &&& m.abs(m.zero()) == m.zero()
    &&& forall|a: T| m.fin(a) ==> m.le(m.zero(), #[trigger] m.abs(a))
    &&& forall|a: T, b: T|
        m.le(m.zero(), a) || m.le(m.zero(), b) ==> m.le(m.zero(), #[trigger] m.max(a, b))
    &&& forall|s: T| m.le(m.zero(), s) ==> m.le(m.zero(), #[trigger] m.mul(tol, s))
}

/// With rounded arithmetic, too, an interval and its conversion are the same
/// physical range: the comparison is made in the unit of the conversion.
pub proof fn law_rounded_conversion_is_same_range<T>(
    m: Meaning<T>,
    lo: T,
    hi: T,
    from: XUnit,
    to: XUnit,
    tol: T,
)
    requires
        compares(m, tol),
        m.fin(converted_bounds(m, lo, hi, from, to).0),
        m.fin(converted_bounds(m, lo, hi, from, to).1),
    ensures
        agree(
            m,
            converted_bounds(m, lo, hi, from, to),
            converted_bounds(m, lo, hi, from, to),
            tol,
        ),
{
    let b = converted_bounds(m, lo, hi, from, to);
    let span = m.max(m.abs(m.sub(b.1, b.0)), m.abs(m.sub(b.1, b.0)));
    let most = m.max(m.max(m.max(m.abs(b.0), m.abs(b.1)), m.abs(b.0)), m.abs(b.1));
    assert(m.le(m.zero(), most));
    assert(m.le(m.zero(), m.max(span, most)));
    assert(m.le(m.zero(), m.mul(tol, m.max(span, most))));
    assert(m.sub(b.0, b.0) == m.zero() && m.sub(b.1, b.1) == m.zero());
}

// ---------------------------------------------------- numbers of the format binary64

/// The real number that a finite number of the format binary64 stands for.
pub open spec fn real_value(x: Binary64) -> real {
    x.value() as real / pow2(1074) as real
}

/// The real numbers that numbers of the format binary64 stand for.
pub open spec fn real_values() -> spec_fn(Binary64) -> real {
    |x: Binary64| real_value(x)
}

proof fn lemma_quotient_is(c: real, p: real)
    requires
        p > 0real,
    ensures
        (c * p) / p == c,
{
    let v = c * p;
    let q = v / p;
    assert(q * p == v) by (nonlinear_arith)
        requires
            q == v / p,
            p > 0real,
    ;
    assert(q == c) by (nonlinear_arith)
        requires
            q * p == c * p,
            p > 0real,
    ;
}

proof fn lemma_quotient_between(v: real, p: real, a: real, b: real)
    requires
        p > 0real,
        a * p < v,
        v < b * p,
    ensures
        a < v / p < b,
{
    let q = v / p;
    assert(q * p == v) by (nonlinear_arith)
        requires
            q == v / p,
            p > 0real,
    ;
    assert(a < q && q < b) by (nonlinear_arith)
        requires
            a * p < q * p,
            q * p < b * p,
            p > 0real,
    ;
}

/// The bits of the constants say what they should.
proof fn lemma_constants(m: Meaning<Binary64>)
    requires
        native(m),
    ensures
        values_constants(m, real_values()),
{
    let p = pow2(1074) as int;
    let cm = Binary64 { bits: CM_IN_NM_BITS };
    let hc = Binary64 { bits: HC_EV_NM_BITS };
    lemma_pow2_pos(1074);
    lemma2_to64();
    lemma2_to64_rest();
    lemma_pow2_adds(29, 1045);
    lemma_pow2_adds(42, 1032);
    let q = pow2(1032) as int;
    let r = pow2(1045) as int;
    lemma_pow2_pos(1032);
    assert(p == 0x2000_0000 * r);
    assert(p == 0x400_0000_0000 * q);
    assert(cm.unsigned() / 0x10_0000_0000_0000 == 1046);
    assert(cm.unsigned() % 0x10_0000_0000_0000 == 0x3_12d0_0000_0000);
    assert(cm.value() == 0x13_12d0_0000_0000 * r);
    assert(cm.value() == 10000000 * p);
    lemma_quotient_is(10000000real, p as real);
    assert(hc.unsigned() / 0x10_0000_0000_0000 == 1033);
    assert(hc.unsigned() % 0x10_0000_0000_0000 == 0x3_5f5e_3128_1d54);
    assert(hc.value() == 0x13_5f5e_3128_1d54 * q);
    assert(1239 * p < hc.value() < 1240 * p);
    lemma_quotient_between(hc.value() as real, p as real, 1239real, 1240real);
    assert forall|x: Binary64| m.fin(x) && real_values()(x) != 0real implies !#[trigger] m.eq(
        x,
        m.zero(),
    ) by {
        lemma_scaled_sign(0);
        if x.value() == 0 {
            lemma_quotient_is(0real, p as real);
            assert(0real * p as real == 0real) by (nonlinear_arith);
        }
    }
}

/// A conversion there and back of a number of the format binary64 and of usual
/// size, from a millionth to a million, changes it by less than a part in ten
/// billion, where quotients are rounded with a relative error of at most a part
/// in a million million.  Where the units are the same, nothing changes.
pub proof fn law_binary64_round_trip(
    m: Meaning<Binary64>,
    u: real,
    x: Binary64,
    from: XUnit,
    to: XUnit,
)
    requires
        native(m),
        rounds_quotients(m, real_values(), u),
        0real <= u <= 1real / 1000000000000real,
        x.finite(),
        1real <= real_value(x) * 1000000real,
        real_value(x) <= 1000000real,
    ensures
        ({
            let z = converted(m, converted(m, x, from, to), to, from);
            &&& -real_value(x) < (real_value(z) - real_value(x)) * 10000000000real < real_value(x)
            &&& from == to ==> converted(m, x, from, to) == x
        }),
{
    lemma_constants(m);
    law_rounded_round_trip(m, real_values(), u, x, from, to);
}

/// Quotients fall as a positive divisor grows, and the constants of the
/// conversions have positive quotients by positive finite numbers.
pub open spec fn divides_in_order(m: Meaning<Binary64>) -> bool {
    &&& forall|a: Binary64, b: Binary64, c: Binary64|
        #![trigger (m.over)(a, b), (m.over)(a, c)]
        m.fin(a) && m.lt(m.zero(), a) && m.lt(m.zero(), b) && m.le(b, c) ==> m.le(
            m.div(a, c),
            m.div(a, b),
        )
    &&& forall|b: Binary64|
        m.fin(b) && m.lt(m.zero(), b) ==> m.lt(
            m.zero(),
            #[trigger] m.div(m.num(CM_IN_NM_BITS), b),
        ) && m.lt(m.zero(), m.div(m.num(HC_EV_NM_BITS), b))
}

/// A finite number less itself is zero, and the part `tol` of a number that is
/// not negative is not negative.
pub open spec fn differs_in_order(m: Meaning<Binary64>, tol: Binary64) -> bool {
    &&& forall|a: Binary64| m.fin(a) ==> #[trigger] m.sub(a, a) == m.zero()
    &&& forall|s: Binary64| m.le(m.zero(), s) ==> m.le(m.zero(), #[trigger] m.mul(tol, s))
}

proof fn lemma_compares(m: Meaning<Binary64>, tol: Binary64)
    requires
        native(m),
        differs_in_order(m, tol),
    ensures
        compares(m, tol),
{
    lemma_scaled_sign(0);
    assert forall|a: Binary64| m.fin(a) implies m.le(m.zero(), #[trigger] m.abs(a)) by {
        lemma_scaled_sign(a.unsigned());
        assert(a.absolute().unsigned() == a.unsigned());
    }
}

/// A wavelength or a reciprocal of one keeps positive numbers positive, and keeps
/// or reverses their order.
proof fn lemma_against_ordered(m: Meaning<Binary64>, unit: XUnit, x: Binary64, y: Binary64)
    requires
        native(m),
        divides_in_order(m),
        m.lt(m.zero(), x),
        m.le(x, y),
    ensures
        unit is Nm ==> m.le(against(m, unit, x), against(m, unit, y)),
        unit !is Nm ==> m.le(against(m, unit, y), against(m, unit, x)),
        m.fin(x) ==> m.lt(m.zero(), against(m, unit, x)),
        m.fin(y) ==> m.lt(m.zero(), against(m, unit, y)),
{
    let c = unit_constant(m, unit);
    lemma_scaled_sign(0);
    lemma_scaled_sign(c.unsigned());
    assert(m.fin(c) && m.lt(m.zero(), c));
    assert(m.div(m.num(CM_IN_NM_BITS), x) == (m.over)(m.num(CM_IN_NM_BITS), x));
    assert(m.div(m.num(CM_IN_NM_BITS), y) == (m.over)(m.num(CM_IN_NM_BITS), y));
    assert(m.div(c, x) == (m.over)(c, x) && m.div(c, y) == (m.over)(c, y));
}

/// The order of two converted coordinates.
proof fn lemma_converted_ordered(
    m: Meaning<Binary64>,
    x: Binary64,
    y: Binary64,
    from: XUnit,
    to: XUnit,
)
    requires
        native(m),
        divides_in_order(m),
        m.fin(x),
        m.fin(y),
        m.lt(m.zero(), x),
        m.le(x, y),
    ensures
        (from is Nm) == (to is Nm) ==> m.le(converted(m, x, from, to), converted(m, y, from, to)),
        (from is Nm) != (to is Nm) ==> m.le(converted(m, y, from, to), converted(m, x, from, to)),
{
    if from != to {
        lemma_against_ordered(m, from, x, y);
        let v = against(m, from, x);
        let w = against(m, from, y);
        if from is Nm {
            lemma_against_ordered(m, to, v, w);
        } else {
            lemma_against_ordered(m, to, w, v);
        }
    }
}

/// An interval of positive finite numbers of the format binary64 and its
/// conversion cover the same physical range, also with rounded arithmetic.  The
/// new bounds are the images of the old ones, in reverse between wavelengths and
/// the other units, and in order.  The image of a point of the interval lies
/// within.  Where the new bounds are finite, the two intervals compare as the
/// same.
pub proof fn law_converted_interval_keeps_range(
    m: Meaning<Binary64>,
    lo: Binary64,
    hi: Binary64,
    x: Binary64,
    from: XUnit,
    to: XUnit,
    tol: Binary64,
)
    requires
        native(m),
        divides_in_order(m),
        m.fin(lo),
        m.fin(hi),
        m.fin(x),
        m.lt(m.zero(), lo),
        m.le(lo, x),
        m.le(x, hi),
    ensures
        ({
            let b = converted_bounds(m, lo, hi, from, to);
            let p = converted(m, lo, from, to);
            let q = converted(m, hi, from, to);
            &&& m.le(b.0, b.1)
            &&& (from is Nm) == (to is Nm) ==> m.eq(b.0, p) && m.eq(b.1, q)
            &&& (from is Nm) != (to is Nm) ==> m.eq(b.0, q) && m.eq(b.1, p)
            &&& inside(m, b.0, b.1, converted(m, x, from, to))
            &&& m.fin(b.0) && m.fin(b.1) && differs_in_order(m, tol) ==> agree(m, b, b, tol)
        }),
{
    lemma_converted_ordered(m, lo, x, from, to);
    lemma_converted_ordered(m, x, hi, from, to);
    lemma_converted_ordered(m, lo, hi, from, to);
    let b = converted_bounds(m, lo, hi, from, to);
    if m.fin(b.0) && m.fin(b.1) && differs_in_order(m, tol) {
        lemma_compares(m, tol);
        law_rounded_conversion_is_same_range(m, lo, hi, from, to, tol);
    }
}

} // verus!
