//! A deterministic pseudo-random generator (xorshift128+) with normal
//! deviates by the polar method.

use crate::arithmetic::{follows, Arithmetic, Meaning};
use crate::binary64::{lemma_order, Binary64, ONE_BITS};
use crate::quadrature::TWO_BITS;
use vstd::arithmetic::power2::{lemma2_to64_rest, lemma_pow2_adds, lemma_pow2_pos, pow2};
use vstd::prelude::*;
use vstd::set_lib::{lemma_int_range, lemma_len_subset, set_int_range};

verus! {

/// The seed of the synthetic spectrum.
pub const SYNTH_SEED: u64 = 20260921;

/// The version of the generator.
pub const RNG_VERSION: &'static str = "rng-xorshift128plus-v1";

/// The number -2.
pub const MINUS_TWO_BITS: u64 = 0xc000_0000_0000_0000;

/// The state of the generator: two words, and a normal deviate that is still
/// to be handed out.
pub struct Rng {
    pub s0: u64,
    pub s1: u64,
    pub spare: Option<Binary64>,
}

/// The step between successive inputs of the mixing function.
pub const GOLDEN: u64 = 0x9e37_79b9_7f4a_7c15;

/// The mixing function that fills the state from a seed.
pub open spec fn mixed(x: u64) -> u64 {
    let a = (x ^ (x >> 30)).wrapping_mul(0xbf58_476d_1ce4_e5b9);
    let b = (a ^ (a >> 27)).wrapping_mul(0x94d0_49bb_1331_11eb);
    b ^ (b >> 31)
}

fn mix(x: u64) -> (r: u64)
    ensures
        r == mixed(x),
{
    let a: u64 = (x ^ (x >> 30)).wrapping_mul(0xbf58_476d_1ce4_e5b9);
    let b: u64 = (a ^ (a >> 27)).wrapping_mul(0x94d0_49bb_1331_11eb);
    b ^ (b >> 31)
}

/// The number `k / 2^53`.
pub open spec fn fraction(k: int) -> Binary64 {
    choose|b: Binary64|
        b.finite() && !b.negative() && #[trigger] b.value() == k * pow2(1021)
}

proof fn lemma_fraction(k: int, b: Binary64)
    requires
        b.finite(),
        !b.negative(),
        b.value() == k * pow2(1021),
    ensures
        b == fraction(k),
{
    let c = fraction(k);
    assert(c.finite() && !c.negative() && c.value() == k * pow2(1021));
    lemma_order(b, c);
}

impl Rng {
    /// The state after one word has been drawn.
    pub open spec fn advanced(self) -> Rng {
        let t = self.s0 ^ (self.s0 << 23);
        Rng {
            s0: self.s1,
            s1: t ^ self.s1 ^ (t >> 18) ^ (self.s1 >> 5),
            spare: self.spare,
        }
    }

    /// The word that is drawn next.
    pub open spec fn word(self) -> u64 {
        self.advanced().s1.wrapping_add(self.s1)
    }

    /// The number that is drawn next: the upper 53 bits of the next word, as a
    /// fraction.
    pub open spec fn unit(self) -> Binary64 {
        fraction((self.word() >> 11) as int)
    }

    /// The state that a seed sets up.
    pub open spec fn seeded(seed: u64) -> Rng {
        let a = (seed | 1).wrapping_add(GOLDEN);
        let b = a.wrapping_add(GOLDEN);
        Rng { s0: mixed(a), s1: mixed(b) | 1, spare: None }
    }

    /// A generator with the state that a seed sets up.
    pub fn new(seed: u64) -> (r: Rng)
        ensures
            r == Rng::seeded(seed),
            r.s1 != 0,
    {
        let a: u64 = (seed | 1).wrapping_add(GOLDEN);
        let b: u64 = a.wrapping_add(GOLDEN);
        let t: u64 = mix(b);
        assert(t | 1 != 0) by (bit_vector);
        Rng { s0: mix(a), s1: t | 1, spare: None }
    }

    /// Draws a word.
    pub fn u64(&mut self) -> (r: u64)
        ensures
            r == old(self).word(),
            *final(self) == old(self).advanced(),
    {
        let t: u64 = self.s0 ^ (self.s0 << 23);
        let s0: u64 = self.s1;
        self.s0 = s0;
        self.s1 = t ^ s0 ^ (t >> 18) ^ (s0 >> 5);
        self.s1.wrapping_add(s0)
    }

    /// Draws a number from zero up to, but not including, one: the upper 53
    /// bits of a word as a fraction.
    pub fn uniform(&mut self) -> (r: Binary64)
        ensures
            *final(self) == old(self).advanced(),
            r == old(self).unit(),
            r.finite(),
            !r.negative(),
            r.value() == (old(self).word() >> 11) * pow2(1021),
            r.below(Binary64 { bits: ONE_BITS }),
    {
        let w: u64 = self.u64();
        assert(w >> 11 < 0x20_0000_0000_0000) by (bit_vector);
        let k: u64 = w >> 11;
        let r: Binary64 = Binary64::from_53_bits(k);
        proof {
            lemma_fraction(k as int, r);
            lemma2_to64_rest();
            lemma_pow2_adds(52, 1022);
            lemma_pow2_adds(53, 1021);
            lemma_pow2_pos(1021);
            let one = Binary64 { bits: ONE_BITS };
            assert(one.unsigned() == 0x3ff0_0000_0000_0000);
            assert(one.value() == 0x10_0000_0000_0000 * pow2(1022));
            let p = pow2(1021) as int;
            assert(k * p < 0x20_0000_0000_0000 * p) by (nonlinear_arith)
                requires
                    k < 0x20_0000_0000_0000,
                    p > 0,
            ;
        }
        r
    }
}

/// Two numbers drawn from -1 up to 1, and the sum of their squares.
pub open spec fn pair_of(m: Meaning<Binary64>, g: Rng) -> (Binary64, Binary64, Binary64) {
    let u = m.sub(m.mul(g.unit(), m.num(TWO_BITS)), m.one());
    let v = m.sub(m.mul(g.advanced().unit(), m.num(TWO_BITS)), m.one());
    (u, v, m.add(m.mul(u, u), m.mul(v, v)))
}

/// The factor that makes two normal deviates of a pair with the sum of squares
/// `s`.
pub open spec fn stretch<T>(m: Meaning<T>, s: T) -> T {
    m.sqrt(m.div(m.mul(m.num(MINUS_TWO_BITS), m.log(s)), s))
}

/// The next pair of numbers lies within the unit circle, and not at its centre.
pub open spec fn hits(m: Meaning<Binary64>, g: Rng) -> bool {
    let s = pair_of(m, g).2;
    m.lt(s, m.one()) && m.lt(m.zero(), s)
}

/// The state after `k` pairs of numbers have been drawn.
pub open spec fn passed(g: Rng, k: nat) -> Rng
    decreases k,
{
    if k == 0 {
        g
    } else {
        passed(g, (k - 1) as nat).advanced().advanced()
    }
}

/// Pair `k`, counted from zero, is the first that lies within the unit circle.
pub open spec fn first_hit(m: Meaning<Binary64>, g: Rng, k: nat) -> bool {
    &&& hits(m, passed(g, k))
    &&& forall|i: nat| i < k ==> !hits(m, #[trigger] passed(g, i))
}

/// The two normal deviates of the next pair: the state that keeps the second,
/// and the first.
pub open spec fn taken(m: Meaning<Binary64>, g: Rng) -> (Rng, Binary64) {
    let (u, v, s) = pair_of(m, g);
    let k = stretch(m, s);
    (Rng { spare: Some(m.mul(v, k)), ..g.advanced().advanced() }, m.mul(u, k))
}

/// The state after a normal deviate has been drawn, and the deviate: the spare
/// one, or the first of two from the first pair that lies within the unit
/// circle.  No deviate, and the same state, where no pair ever does.
pub open spec fn drawn(m: Meaning<Binary64>, g: Rng) -> (Rng, Option<Binary64>) {
    match g.spare {
        Some(z) => (Rng { spare: None, ..g }, Some(z)),
        None => if exists|k: nat| first_hit(m, g, k) {
            let (h, z) = taken(m, passed(g, choose|k: nat| first_hit(m, g, k)));
            (h, Some(z))
        } else {
            (g, None)
        },
    }
}

/// The number of states of the two words: two to the power 128.
pub open spec fn states() -> int {
    u128::MAX + 1
}

/// The two words as one number.
spec fn state_number(g: Rng) -> int {
    g.s0 * 0x1_0000_0000_0000_0000 + g.s1
}

proof fn lemma_passed_on(g: Rng, a: nat, b: nat)
    ensures
        passed(g, a + b) == passed(passed(g, a), b),
    decreases b,
{
    if b > 0 {
        lemma_passed_on(g, a, (b - 1) as nat);
    }
}

proof fn lemma_passed_spare(g: Rng, k: nat)
    ensures
        passed(g, k).spare == g.spare,
    decreases k,
{
    if k > 0 {
        lemma_passed_spare(g, (k - 1) as nat);
    }
}

/// Among one state more than there are, two are the same.
proof fn lemma_returns(g: Rng) -> (r: (nat, nat))
    ensures
        r.0 < r.1 <= states(),
        passed(g, r.0) == passed(g, r.1),
{
    let codes = Seq::new((states() + 1) as nat, |i: int| state_number(passed(g, i as nat)));
    if codes.no_duplicates() {
        let all = set_int_range(0, states());
        lemma_int_range(0, states());
        codes.unique_seq_to_set();
        assert(codes.to_set().subset_of(all)) by {
            assert forall|c: int| codes.to_set().contains(c) implies all.contains(c) by {
                let i = choose|i: int| 0 <= i < codes.len() && codes[i] == c;
                let h = passed(g, i as nat);
                assert(0 <= state_number(h) < states());
            }
        }
        lemma_len_subset(codes.to_set(), all);
        assert(false);
    }
    let (i, j) = choose|i: int, j: int|
        0 <= i < codes.len() && 0 <= j < codes.len() && i != j && codes[i] == codes[j];
    let a = passed(g, i as nat);
    let b = passed(g, j as nat);
    assert(state_number(a) == state_number(b));
    lemma_passed_spare(g, i as nat);
    lemma_passed_spare(g, j as nat);
    assert(a == b);
    if i < j {
        (i as nat, j as nat)
    } else {
        (j as nat, i as nat)
    }
}

/// What has come back once comes back for ever.
proof fn lemma_recurs(g: Rng, i: nat, j: nat, k: nat) -> (r: nat)
    requires
        i < j,
        passed(g, i) == passed(g, j),
    ensures
        r < j,
        passed(g, k) == passed(g, r),
    decreases k,
{
    if k < j {
        k
    } else {
        let b = (k - j) as nat;
        lemma_passed_on(g, j, b);
        lemma_passed_on(g, i, b);
        lemma_recurs(g, i, j, i + b)
    }
}

/// Where as many pairs as there are states lie outside the unit circle, no pair
/// ever lies within.
pub proof fn law_no_hit_for_ever(m: Meaning<Binary64>, g: Rng, k: nat)
    requires
        forall|i: nat|
            i < states() ==> !hits(m, #[trigger] passed(g, i)),
    ensures
        !hits(m, passed(g, k)),
{
    let (i, j) = lemma_returns(g);
    let r = lemma_recurs(g, i, j, k);
    assert(!hits(m, passed(g, r)));
}

/// There is one first pair.
proof fn lemma_first_hit(m: Meaning<Binary64>, g: Rng, k: nat)
    requires
        g.spare is None,
        first_hit(m, g, k),
    ensures
        drawn(m, g) == (taken(m, passed(g, k)).0, Some(taken(m, passed(g, k)).1)),
{
    let l = choose|l: nat| first_hit(m, g, l);
    assert(first_hit(m, g, l));
    if l < k {
        assert(!hits(m, passed(g, l)));
    }
    if k < l {
        assert(!hits(m, passed(g, k)));
    }
}

impl Rng {
    /// Draws a standard normal deviate.  None, and the generator unchanged, where
    /// no pair of numbers ever lies within the unit circle: where as many pairs
    /// as there are states lie outside, all others do.
    pub fn normal<A: Arithmetic>(&mut self) -> (r: Option<Binary64>)
        ensures
            forall|m: Meaning<Binary64>| #[trigger]
                follows::<A>(m) ==> (*final(self), r) == drawn(m, *old(self)),
    {
        if let Some(z) = self.spare {
            self.spare = None;
            return Some(z);
        }
        let one: Binary64 = Binary64 { bits: ONE_BITS };
        let zero: Binary64 = Binary64 { bits: 0 };
        let two: Binary64 = Binary64 { bits: TWO_BITS };
        let (s0, s1): (u64, u64) = (self.s0, self.s1);
        let ghost g = *self;
        let mut k: u128 = 0;
        loop
            invariant
                one == (Binary64 { bits: ONE_BITS }),
                zero == (Binary64 { bits: 0 }),
                two == (Binary64 { bits: TWO_BITS }),
                g == *old(self),
                g.spare is None,
                s0 == g.s0,
                s1 == g.s1,
                *self == passed(g, k as nat),
                self.spare is None,
                forall|m: Meaning<Binary64>, i: nat|
                    #![trigger follows::<A>(m), passed(g, i)]
                    follows::<A>(m) && i < k ==> !hits(m, passed(g, i)),
            decreases u128::MAX - k,
        {
            let ghost at = *self;
            let u: Binary64 = A::minus(A::times(self.uniform(), two), one);
            let v: Binary64 = A::minus(A::times(self.uniform(), two), one);
            let s: Binary64 = A::plus(A::times(u, u), A::times(v, v));
            if s.lt(&one) && zero.lt(&s) {
                let c: Binary64 = A::root(
                    A::over(A::times(Binary64 { bits: MINUS_TWO_BITS }, A::ln(s)), s),
                );
                self.spare = Some(A::times(v, c));
                let r: Binary64 = A::times(u, c);
                proof {
                    assert forall|m: Meaning<Binary64>| #[trigger] follows::<A>(m) implies (
                        *self,
                        Some(r),
                    ) == drawn(m, g) by {
                        assert(pair_of(m, at) == (u, v, s));
                        assert(first_hit(m, g, k as nat));
                        lemma_first_hit(m, g, k as nat);
                    }
                }
                return Some(r);
            }
            proof {
                assert(*self == passed(g, (k + 1) as nat));
                assert forall|m: Meaning<Binary64>, i: nat|
                    #![trigger follows::<A>(m), passed(g, i)]
                    follows::<A>(m) && i < k + 1 implies !hits(m, passed(g, i)) by {
                    if i == k {
                        assert(pair_of(m, at) == (u, v, s));
                    }
                }
            }
            if k == u128::MAX {
                proof {
                    assert forall|m: Meaning<Binary64>| #[trigger] follows::<A>(m) implies (
                        g,
                        None::<Binary64>,
                    ) == drawn(m, g) by {
                        if exists|l: nat| first_hit(m, g, l) {
                            let l = choose|l: nat| first_hit(m, g, l);
                            law_no_hit_for_ever(m, g, l);
                        }
                    }
                }
                self.s0 = s0;
                self.s1 = s1;
                return None;
            }
            k = k + 1;
        }
    }
}

/// The generator never gets stuck: a state that is not all zero leads to
/// another that is not, and a seed sets up such a state.
pub proof fn law_never_stuck(g: Rng, seed: u64)
    ensures
        g.s0 != 0 || g.s1 != 0 ==> g.advanced().s0 != 0 || g.advanced().s1 != 0,
        Rng::seeded(seed).s1 != 0,
{
    let a = g.s0;
    let b = g.s1;
    let t = a ^ (a << 23);
    assert(t == 0u64 ==> a == 0u64) by (bit_vector)
        requires
            t == a ^ (a << 23),
    ;
    assert(t ^ (t >> 18) == 0u64 ==> t == 0u64) by (bit_vector);
    assert(b == 0u64 ==> t ^ b ^ (t >> 18) ^ (b >> 5) == t ^ (t >> 18)) by (bit_vector);
    let w = mixed((seed | 1).wrapping_add(GOLDEN).wrapping_add(GOLDEN));
    assert(w | 1 != 0) by (bit_vector);
}

} // verus!
