//! Laws of the constants: the number that each bit pattern stands for.

use crate::binary64::Binary64;
use crate::data::MIN_ROWS;
use crate::fit::{
    FD_EPS_BITS, LAMBDA0_BITS, LAMBDA_DOWN_BITS, LAMBDA_MAX_BITS, LAMBDA_UP_BITS, TOLERANCE_BITS,
    MAX_ATTEMPTS, MAX_ITER,
};
use crate::model::{
    FOUR_BITS, KERNEL_FLOOR_BITS, LN_2_BITS, VOIGT_FLOOR_BITS, WIDTH_FLOOR_BITS, MAX_DEGREE,
    MINUS_FOUR_BITS, MINUS_HALF_BITS,
};
use crate::quadrature::{PI_BITS, SMALL_BITS, SQRT_2_BITS, TWO_BITS, MAX_SWEEPS, VOIGT_NODES};
use crate::report::{T95_BITS, WIDTH_A_BITS, WIDTH_B_BITS};
use crate::rng::{MINUS_TWO_BITS, SYNTH_SEED};
use crate::scheme::EXCLUSION_TOL_BITS;
use crate::server::MAX_BODY;
use crate::synthetic::{
    BEND_BITS, FALL_BITS, FIRST_BITS, LAST_BITS, LEVEL_BITS, MIDDLE_BITS, NOISE_BITS, SPIKE_BITS,
    SPIKE_VARIES_BITS, MINUS_FALL_BITS, SYNTH_ROWS,
};
use crate::units::{CM_IN_NM_BITS, HC_EV_NM_BITS};
use vstd::arithmetic::power2::{
    lemma2_to64, lemma2_to64_rest, lemma_pow2_adds, lemma_pow2_pos, pow2,
};
use vstd::prelude::*;

verus! {

/// The value of a pattern, in units of 2^-1074.
pub open spec fn value_of(bits: u64) -> int {
    (Binary64 { bits }).value()
}

/// The pattern stands for the number `num / den`, up to one part in `2^52`.
pub open spec fn stands_for(bits: u64, num: int, den: int) -> bool {
    let unit = pow2(1074) as int;
    let off = value_of(bits) * den - num * unit;
    -(num * unit) <= off * 0x10_0000_0000_0000 <= num * unit
}

/// A pattern with the exponent `e` and the significand `f`.
proof fn lemma_stands_for(bits: u64, num: int, den: int, e: int, f: int, p: int)
    requires
        bits < 0x8000_0000_0000_0000,
        bits as int / 0x10_0000_0000_0000 == e,
        bits as int % 0x10_0000_0000_0000 + 0x10_0000_0000_0000 == f,
        1 <= e <= 1075,
        p == pow2((1075 - e) as nat),
        -(num * p) <= (f * den - num * p) * 0x10_0000_0000_0000 <= num * p,
    ensures
        stands_for(bits, num, den),
{
    let q = pow2((e - 1) as nat) as int;
    let unit = pow2(1074) as int;
    lemma_pow2_adds((1075 - e) as nat, (e - 1) as nat);
    lemma_pow2_pos((e - 1) as nat);
    let x = Binary64 { bits };
    assert(x.value() == f * q);
    assert(unit == p * q);
    let a = f * den - num * p;
    let w = num * p;
    assert((f * q) * den - num * (p * q) == a * q) by (nonlinear_arith)
        requires
            a == f * den - num * p,
    ;
    assert(num * (p * q) == w * q) by (nonlinear_arith)
        requires
            w == num * p,
    ;
    let k = 0x10_0000_0000_0000int;
    assert(-(w * q) <= (a * q) * k <= w * q) by (nonlinear_arith)
        requires
            -w <= a * k <= w,
            q > 0,
    ;
}

proof fn lemma_fd_eps()
    ensures
        stands_for(FD_EPS_BITS, 1, 10000000),
{
    lemma2_to64();
    lemma2_to64_rest();
    lemma_pow2_adds(64, 12);
    assert(pow2(76) == 75557863725914323419136);
    lemma_stands_for(FD_EPS_BITS, 1, 10000000, 999, 7555786372591432, 75557863725914323419136);
}

proof fn lemma_lambda0()
    ensures
        stands_for(LAMBDA0_BITS, 1, 1000),
{
    lemma2_to64();
    lemma2_to64_rest();
    assert(pow2(62) == 4611686018427387904);
    lemma_stands_for(LAMBDA0_BITS, 1, 1000, 1013, 4611686018427388, 4611686018427387904);
}

proof fn lemma_lambda_up()
    ensures
        stands_for(LAMBDA_UP_BITS, 10, 1),
{
    lemma2_to64();
    lemma2_to64_rest();
    assert(pow2(49) == 562949953421312);
    lemma_stands_for(LAMBDA_UP_BITS, 10, 1, 1026, 5629499534213120, 562949953421312);
}

proof fn lemma_lambda_down()
    ensures
        stands_for(LAMBDA_DOWN_BITS, 3, 10),
{
    lemma2_to64();
    lemma2_to64_rest();
    assert(pow2(54) == 18014398509481984);
    lemma_stands_for(LAMBDA_DOWN_BITS, 3, 10, 1021, 5404319552844595, 18014398509481984);
}

proof fn lemma_lambda_max()
    ensures
        stands_for(LAMBDA_MAX_BITS, 1000000000000, 1),
{
    lemma2_to64();
    lemma2_to64_rest();
    assert(pow2(13) == 8192);
    lemma_stands_for(LAMBDA_MAX_BITS, 1000000000000, 1, 1062, 8192000000000000, 8192);
}

proof fn lemma_tolerance()
    ensures
        stands_for(TOLERANCE_BITS, 1, 10000000000),
{
    lemma2_to64();
    lemma2_to64_rest();
    lemma_pow2_adds(64, 22);
    assert(pow2(86) == 77371252455336267181195264);
    lemma_stands_for(
        TOLERANCE_BITS,
        1,
        10000000000,
        989,
        7737125245533627,
        77371252455336267181195264,
    );
}

proof fn lemma_ln_2()
    ensures
        stands_for(LN_2_BITS, 693147180559945309417232, 1000000000000000000000000),
{
    lemma2_to64();
    lemma2_to64_rest();
    assert(pow2(53) == 9007199254740992);
    lemma_stands_for(
        LN_2_BITS,
        693147180559945309417232,
        1000000000000000000000000,
        1022,
        6243314768165359,
        9007199254740992,
    );
}

proof fn lemma_four()
    ensures
        stands_for(FOUR_BITS, 4, 1),
{
    lemma2_to64();
    lemma2_to64_rest();
    assert(pow2(50) == 1125899906842624);
    lemma_stands_for(FOUR_BITS, 4, 1, 1025, 4503599627370496, 1125899906842624);
}

proof fn lemma_voigt_floor()
    ensures
        stands_for(VOIGT_FLOOR_BITS, 1, 10000000000),
{
    lemma2_to64();
    lemma2_to64_rest();
    lemma_pow2_adds(64, 22);
    assert(pow2(86) == 77371252455336267181195264);
    lemma_stands_for(
        VOIGT_FLOOR_BITS,
        1,
        10000000000,
        989,
        7737125245533627,
        77371252455336267181195264,
    );
}

proof fn lemma_width_floor()
    ensures
        stands_for(WIDTH_FLOOR_BITS, 1, 1000000000000),
{
    lemma2_to64();
    lemma2_to64_rest();
    lemma_pow2_adds(64, 28);
    assert(pow2(92) == 4951760157141521099596496896);
    lemma_stands_for(
        WIDTH_FLOOR_BITS,
        1,
        1000000000000,
        983,
        4951760157141521,
        4951760157141521099596496896,
    );
}

proof fn lemma_kernel_floor()
    ensures
        stands_for(KERNEL_FLOOR_BITS, 1, 1000000000000000000000000000000),
{
    lemma2_to64();
    lemma2_to64_rest();
    lemma_pow2_adds(64, 64);
    lemma_pow2_adds(128, 24);
    assert(pow2(152) == 5708990770823839524233143877797980545530986496int);
    lemma_stands_for(
        KERNEL_FLOOR_BITS,
        1,
        1000000000000000000000000000000,
        923,
        5708990770823840,
        5708990770823839524233143877797980545530986496int,
    );
}

proof fn lemma_two()
    ensures
        stands_for(TWO_BITS, 2, 1),
{
    lemma2_to64();
    lemma2_to64_rest();
    assert(pow2(51) == 2251799813685248);
    lemma_stands_for(TWO_BITS, 2, 1, 1024, 4503599627370496, 2251799813685248);
}

proof fn lemma_small()
    ensures
        stands_for(SMALL_BITS, 1, 1000000000000000),
{
    lemma2_to64();
    lemma2_to64_rest();
    lemma_pow2_adds(64, 38);
    assert(pow2(102) == 5070602400912917605986812821504);
    lemma_stands_for(
        SMALL_BITS,
        1,
        1000000000000000,
        973,
        5070602400912918,
        5070602400912917605986812821504,
    );
}

proof fn lemma_sqrt_2()
    ensures
        stands_for(SQRT_2_BITS, 1414213562373095048802, 1000000000000000000000),
{
    lemma2_to64();
    lemma2_to64_rest();
    assert(pow2(52) == 4503599627370496);
    lemma_stands_for(
        SQRT_2_BITS,
        1414213562373095048802,
        1000000000000000000000,
        1023,
        6369051672525773,
        4503599627370496,
    );
}

proof fn lemma_pi()
    ensures
        stands_for(PI_BITS, 3141592653589793238463, 1000000000000000000000),
{
    lemma2_to64();
    lemma2_to64_rest();
    assert(pow2(51) == 2251799813685248);
    lemma_stands_for(
        PI_BITS,
        3141592653589793238463,
        1000000000000000000000,
        1024,
        7074237752028440,
        2251799813685248,
    );
}

proof fn lemma_t95()
    ensures
        stands_for(T95_BITS, 19599643482753495, 10000000000000000),
{
    lemma2_to64();
    lemma2_to64_rest();
    assert(pow2(52) == 4503599627370496);
    lemma_stands_for(
        T95_BITS,
        19599643482753495,
        10000000000000000,
        1023,
        8826894708552321,
        4503599627370496,
    );
}

proof fn lemma_width_a()
    ensures
        stands_for(WIDTH_A_BITS, 5346, 10000),
{
    lemma2_to64();
    lemma2_to64_rest();
    assert(pow2(53) == 9007199254740992);
    lemma_stands_for(WIDTH_A_BITS, 5346, 10000, 1022, 4815248721584534, 9007199254740992);
}

proof fn lemma_width_b()
    ensures
        stands_for(WIDTH_B_BITS, 2166, 10000),
{
    lemma2_to64();
    lemma2_to64_rest();
    assert(pow2(55) == 36028797018963968);
    lemma_stands_for(WIDTH_B_BITS, 2166, 10000, 1020, 7803837434307595, 36028797018963968);
}

proof fn lemma_exclusion_tol()
    ensures
        stands_for(EXCLUSION_TOL_BITS, 1, 1000000000),
{
    lemma2_to64();
    lemma2_to64_rest();
    lemma_pow2_adds(64, 18);
    assert(pow2(82) == 4835703278458516698824704);
    lemma_stands_for(
        EXCLUSION_TOL_BITS,
        1,
        1000000000,
        993,
        4835703278458517,
        4835703278458516698824704,
    );
}

proof fn lemma_first()
    ensures
        stands_for(FIRST_BITS, 380, 1),
{
    lemma2_to64();
    lemma2_to64_rest();
    assert(pow2(44) == 17592186044416);
    lemma_stands_for(FIRST_BITS, 380, 1, 1031, 6685030696878080, 17592186044416);
}

proof fn lemma_last()
    ensures
        stands_for(LAST_BITS, 720, 1),
{
    lemma2_to64();
    lemma2_to64_rest();
    assert(pow2(43) == 8796093022208);
    lemma_stands_for(LAST_BITS, 720, 1, 1032, 6333186975989760, 8796093022208);
}

proof fn lemma_middle()
    ensures
        stands_for(MIDDLE_BITS, 550, 1),
{
    lemma2_to64();
    lemma2_to64_rest();
    assert(pow2(43) == 8796093022208);
    lemma_stands_for(MIDDLE_BITS, 550, 1, 1032, 4837851162214400, 8796093022208);
}

proof fn lemma_level()
    ensures
        stands_for(LEVEL_BITS, 15, 100),
{
    lemma2_to64();
    lemma2_to64_rest();
    assert(pow2(55) == 36028797018963968);
    lemma_stands_for(LEVEL_BITS, 15, 100, 1020, 5404319552844595, 36028797018963968);
}

proof fn lemma_fall()
    ensures
        stands_for(FALL_BITS, 4, 10000),
{
    lemma2_to64();
    lemma2_to64_rest();
    assert(pow2(64) == 18446744073709551616);
    lemma_stands_for(FALL_BITS, 4, 10000, 1011, 7378697629483821, 18446744073709551616);
}

proof fn lemma_bend()
    ensures
        stands_for(BEND_BITS, 2, 1000000),
{
    lemma2_to64();
    lemma2_to64_rest();
    lemma_pow2_adds(64, 7);
    assert(pow2(71) == 2361183241434822606848);
    lemma_stands_for(BEND_BITS, 2, 1000000, 1004, 4722366482869645, 2361183241434822606848);
}

proof fn lemma_noise()
    ensures
        stands_for(NOISE_BITS, 1, 100),
{
    lemma2_to64();
    lemma2_to64_rest();
    assert(pow2(59) == 576460752303423488);
    lemma_stands_for(NOISE_BITS, 1, 100, 1016, 5764607523034235, 576460752303423488);
}

proof fn lemma_spike()
    ensures
        stands_for(SPIKE_BITS, 6, 10),
{
    lemma2_to64();
    lemma2_to64_rest();
    assert(pow2(53) == 9007199254740992);
    lemma_stands_for(SPIKE_BITS, 6, 10, 1022, 5404319552844595, 9007199254740992);
}

proof fn lemma_spike_varies()
    ensures
        stands_for(SPIKE_VARIES_BITS, 1, 10),
{
    lemma2_to64();
    lemma2_to64_rest();
    assert(pow2(56) == 72057594037927936);
    lemma_stands_for(SPIKE_VARIES_BITS, 1, 10, 1019, 7205759403792794, 72057594037927936);
}

proof fn lemma_hc_ev_nm()
    ensures
        stands_for(HC_EV_NM_BITS, 12398419843929196, 10000000000000),
{
    lemma2_to64();
    lemma2_to64_rest();
    assert(pow2(42) == 4398046511104);
    lemma_stands_for(
        HC_EV_NM_BITS,
        12398419843929196,
        10000000000000,
        1033,
        5452882713779540,
        4398046511104,
    );
}

proof fn lemma_cm_in_nm()
    ensures
        stands_for(CM_IN_NM_BITS, 10000000, 1),
{
    lemma2_to64();
    lemma2_to64_rest();
    assert(pow2(29) == 536870912);
    lemma_stands_for(CM_IN_NM_BITS, 10000000, 1, 1046, 5368709120000000, 536870912);
}

/// The constants that end a fit, and those of its differences and damping.
pub proof fn law_constants_of_the_fit()
    ensures
        stands_for(FD_EPS_BITS, 1, 10000000),
        stands_for(LAMBDA0_BITS, 1, 1000),
        stands_for(LAMBDA_UP_BITS, 10, 1),
        stands_for(LAMBDA_DOWN_BITS, 3, 10),
        stands_for(LAMBDA_MAX_BITS, 1000000000000, 1),
        stands_for(TOLERANCE_BITS, 1, 10000000000),
        MAX_ITER == 200,
        MAX_ATTEMPTS == 60,
{
    lemma_fd_eps();
    lemma_lambda0();
    lemma_lambda_up();
    lemma_lambda_down();
    lemma_lambda_max();
    lemma_tolerance();
}

/// The constants of the shapes, and the least widths.
pub proof fn law_constants_of_the_model()
    ensures
        stands_for(LN_2_BITS, 693147180559945309417232, 1000000000000000000000000),
        stands_for(FOUR_BITS, 4, 1),
        stands_for(VOIGT_FLOOR_BITS, 1, 10000000000),
        stands_for(WIDTH_FLOOR_BITS, 1, 1000000000000),
        stands_for(KERNEL_FLOOR_BITS, 1, 1000000000000000000000000000000),
        stands_for(TWO_BITS, 2, 1),
        stands_for(SMALL_BITS, 1, 1000000000000000),
        stands_for(SQRT_2_BITS, 1414213562373095048802, 1000000000000000000000),
        stands_for(PI_BITS, 3141592653589793238463, 1000000000000000000000),
        MAX_DEGREE == 6,
        VOIGT_NODES == 64,
        MAX_SWEEPS == 300,
{
    lemma_ln_2();
    lemma_four();
    lemma_voigt_floor();
    lemma_width_floor();
    lemma_kernel_floor();
    lemma_two();
    lemma_small();
    lemma_sqrt_2();
    lemma_pi();
}

/// The factor of a 95% interval, those of the width of a Voigt profile, the tolerance
/// of exclusions, and the constants of the conversions.
pub proof fn law_constants_of_the_report()
    ensures
        stands_for(T95_BITS, 19599643482753495, 10000000000000000),
        stands_for(WIDTH_A_BITS, 5346, 10000),
        stands_for(WIDTH_B_BITS, 2166, 10000),
        stands_for(EXCLUSION_TOL_BITS, 1, 1000000000),
        stands_for(HC_EV_NM_BITS, 12398419843929196, 10000000000000),
        stands_for(CM_IN_NM_BITS, 10000000, 1),
        MIN_ROWS == 8,
        MAX_BODY == 32 * 1024 * 1024,
{
    lemma_t95();
    lemma_width_a();
    lemma_width_b();
    lemma_exclusion_tol();
    lemma_hc_ev_nm();
    lemma_cm_in_nm();
}

/// The constants of the synthetic spectrum.
pub proof fn law_constants_of_the_spectrum()
    ensures
        stands_for(FIRST_BITS, 380, 1),
        stands_for(LAST_BITS, 720, 1),
        stands_for(MIDDLE_BITS, 550, 1),
        stands_for(LEVEL_BITS, 15, 100),
        stands_for(FALL_BITS, 4, 10000),
        stands_for(BEND_BITS, 2, 1000000),
        stands_for(NOISE_BITS, 1, 100),
        stands_for(SPIKE_BITS, 6, 10),
        stands_for(SPIKE_VARIES_BITS, 1, 10),
        SYNTH_ROWS == 900,
        SYNTH_SEED == 20260921,
{
    lemma_first();
    lemma_last();
    lemma_middle();
    lemma_level();
    lemma_fall();
    lemma_bend();
    lemma_noise();
    lemma_spike();
    lemma_spike_varies();
}

/// Constants that are opposites of others.
pub proof fn law_opposite_constants()
    ensures
        value_of(MINUS_FOUR_BITS) == -value_of(FOUR_BITS),
        value_of(MINUS_TWO_BITS) == -value_of(TWO_BITS),
        value_of(MINUS_FALL_BITS) == -value_of(FALL_BITS),
        4 * value_of(MINUS_HALF_BITS) == -value_of(TWO_BITS),
{
    lemma2_to64();
    lemma_pow2_adds(2, 1021);
    assert(Binary64 { bits: MINUS_HALF_BITS }.unsigned() == 0x3fe0_0000_0000_0000);
    assert(Binary64 { bits: TWO_BITS }.unsigned() == 0x4000_0000_0000_0000);
    let q = pow2(1021) as int;
    assert(pow2(1023) as int == 4 * q);
    assert(value_of(MINUS_HALF_BITS) == -(0x10_0000_0000_0000 * q));
    assert(value_of(TWO_BITS) == 0x10_0000_0000_0000 * pow2(1023));
}

} // verus!
