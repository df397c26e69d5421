//! Laws of the synthetic spectrum and of the random numbers that it is made with.

use crate::arithmetic::{exact, Meaning};
use crate::binary64::Binary64;
use crate::cholesky_laws::exact_roots;
use crate::model::{gauss_value, lorentz_value};
use crate::products::{lemma_prod, lemma_quot, lemma_quot_positive, lemma_undo, quot};
use crate::rng::{
    drawn, first_hit, hits, pair_of, passed, stretch, taken, Rng, MINUS_TWO_BITS,
};
use crate::synthetic::{
    synth_curve, synth_x, synth_y, BEND_BITS, FALL_BITS, FIRST_BITS, LAST_BITS, LEVEL_BITS,
    MIDDLE_BITS, NOISE_BITS, SPIKE_BITS, SPIKE_VARIES_BITS,
};
use vstd::prelude::*;

verus! {

/// The rows are evenly spaced, from 380 in the first of nine hundred to 720 in the
/// last.
pub proof fn law_rows_are_evenly_spaced(m: Meaning<real>, i: nat)
    requires
        exact(m),
        m.num(FIRST_BITS) == 380real,
        m.num(LAST_BITS) == 720real,
    ensures
        (synth_x(m, i) - 380real) * 899real == i as real * 340real,
{
    let dx = 340real / 899real;
    assert(m.count(900) == 900real);
    assert(m.sub(m.count(900), m.one()) == 899real);
    assert(synth_x(m, i) == 380real + (i as real) * dx);
    let c = i as real;
    assert(dx * 899real == 340real);
    assert((c * dx) * 899real == c * 340real) by (nonlinear_arith)
        requires
            dx * 899real == 340real,
    ;
}

/// The curve without noise: a parabola about 550, a Gaussian at 500 with the width 8,
/// one at 512 with the width 10, and a Lorentzian at 610 with the width 14.
pub proof fn law_synthetic_curve(
    m: Meaning<real>,
    x: real,
    level: real,
    fall: real,
    bend: real,
    h1: real,
    h2: real,
    h3: real,
)
    requires
        exact(m),
        forall|a: real| #[trigger] m.pow(a, 2) == a * a,
        m.num(MIDDLE_BITS) == 550real,
        m.num(LEVEL_BITS) == level,
        m.num(FALL_BITS) == fall,
        m.num(BEND_BITS) == bend,
        m.num(0x407f_4000_0000_0000) == 500real,
        m.num(0x4020_0000_0000_0000) == 8real,
        m.num(0x3ff3_3333_3333_3333) == h1,
        m.num(0x4080_0000_0000_0000) == 512real,
        m.num(0x4024_0000_0000_0000) == 10real,
        m.num(0x3fe9_9999_9999_999a) == h2,
        m.num(0x4083_1000_0000_0000) == 610real,
        m.num(0x402c_0000_0000_0000) == 14real,
        m.num(0x3fe1_9999_9999_999a) == h3,
    ensures
        synth_curve(m, x) == level - fall * (x - 550real) + bend * ((x - 550real) * (x - 550real))
            + gauss_value(m, x, 500real, 8real, h1) + gauss_value(m, x, 512real, 10real, h2)
            + lorentz_value(m, x, 610real, 14real, h3),
{
}

/// A row is the curve at its coordinate and a normal deviate times the deviation of
/// the noise.  Rows 123, 455 and 701, and no others, have a spike on top, whose
/// height is drawn too.
pub proof fn law_noise_and_spikes(m: Meaning<Binary64>, g: Rng, i: nat)
    ensures
        ({
            let (h, z) = drawn(m, g);
            let (next, y) = synth_y(m, g, i);
            let plain = m.add(synth_curve(m, synth_x(m, i)), m.mul(m.num(NOISE_BITS), z->0));
            let spike = m.add(m.num(SPIKE_BITS), m.mul(m.num(SPIKE_VARIES_BITS), h.unit()));
            let has_spike = i == 123 || i == 455 || i == 701;
            &&& y is None <==> z is None
            &&& z is Some && !has_spike ==> y == Some(plain) && next == h
            &&& z is Some && has_spike ==> y == Some(m.add(plain, spike)) && next == h.advanced()
        }),
{
}

/// The factor of a pair of deviates: its square times the sum of squares `s` is minus
/// twice the logarithm of `s`.
pub proof fn law_stretch(m: Meaning<real>, s: real)
    requires
        exact(m),
        exact_roots(m),
        m.num(MINUS_TWO_BITS) == -2real,
        0real < s,
        m.log(s) < 0real,
    ensures
        stretch(m, s) > 0real,
        (stretch(m, s) * stretch(m, s)) * s == -2real * m.log(s),
{
    let a = -2real * m.log(s);
    assert(a > 0real);
    lemma_quot(a, s);
    lemma_quot_positive(a, s);
    lemma_undo(a, s);
    lemma_prod(quot(a, s), s);
    let k = stretch(m, s);
    assert(k == m.sqrt(quot(a, s)));
    assert(k * k == quot(a, s));
}

proof fn lemma_first_hit(m: Meaning<Binary64>, g: Rng, a: nat, b: nat)
    requires
        first_hit(m, g, a),
        first_hit(m, g, b),
    ensures
        a == b,
{
    if a < b {
        assert(!hits(m, passed(g, a)));
    } else if b < a {
        assert(!hits(m, passed(g, b)));
    }
}

/// Deviates come in pairs.  From a state without a spare one, pairs of numbers are
/// passed over until one lies within the unit circle; the first deviate is its first
/// number times the factor, the second its second, and between the two nothing is
/// drawn.
pub proof fn law_deviates_come_in_pairs(m: Meaning<Binary64>, g: Rng, k: nat)
    requires
        g.spare is None,
        first_hit(m, g, k),
    ensures
        ({
            let (u, v, s) = pair_of(m, passed(g, k));
            let (h, a) = drawn(m, g);
            let (j, b) = drawn(m, h);
            &&& a == Some(m.mul(u, stretch(m, s)))
            &&& b == Some(m.mul(v, stretch(m, s)))
            &&& j.spare is None
            &&& j.s0 == h.s0 && j.s1 == h.s1
            &&& h.s0 == passed(g, k + 1).s0 && h.s1 == passed(g, k + 1).s1
        }),
{
    let c = choose|c: nat| first_hit(m, g, c);
    assert(first_hit(m, g, c));
    lemma_first_hit(m, g, c, k);
    assert(drawn(m, g) == ({
        let (h, z) = taken(m, passed(g, k));
        (h, Some(z))
    }));
    assert(passed(g, k + 1) == passed(g, k).advanced().advanced());
}

} // verus!
