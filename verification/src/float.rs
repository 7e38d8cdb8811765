//! IEEE 754 numbers by their bit patterns.

use vstd::prelude::*;
use vstd::arithmetic::power2::{
    lemma2_to64, lemma_pow2_adds, lemma_pow2_pos, lemma_pow2_strictly_increases, lemma_pow2_unfold,
    pow2,
};

verus! {

/// Whether the binary32 number with this bit pattern is finite.
pub open spec fn finite_single(bits: u32) -> bool {
    (bits / 0x80_0000) % 256 != 255
}

/// Whether the binary64 number with this bit pattern is finite.
pub open spec fn finite_double(bits: u64) -> bool {
    (bits / 0x10_0000_0000_0000) % 2048 != 2047
}

/// The magnitude of a finite binary32 number, as a multiple of its smallest
/// positive number, which is two to the power of -149.
pub open spec fn single_magnitude(bits: u32) -> nat {
    let exponent = (bits / 0x80_0000) % 256;
    let fraction = (bits % 0x80_0000) as nat;
    if exponent == 0 {
        fraction
    } else {
        (0x80_0000 + fraction) as nat * pow2((exponent - 1) as nat)
    }
}

/// The magnitude of a finite binary64 number, as a multiple of its smallest
/// positive number, which is two to the power of -1074.
pub open spec fn double_magnitude(bits: u64) -> nat {
    let exponent = (bits / 0x10_0000_0000_0000) % 2048;
    let fraction = (bits % 0x10_0000_0000_0000) as nat;
    if exponent == 0 {
        fraction
    } else {
        (0x10_0000_0000_0000 + fraction) as nat * pow2((exponent - 1) as nat)
    }
}

/// Whether a binary64 number is the same number as a binary32 one, a zero of
/// either sign being told apart: equal sign, and equal magnitude in multiples
/// of two to the power of -1074.
pub open spec fn same_number(single: u32, double: u64) -> bool {
    &&& finite_single(single)
    &&& finite_double(double)
    &&& (single / 0x8000_0000 == 1) == (double / 0x8000_0000_0000_0000 == 1)
    &&& double_magnitude(double) == single_magnitude(single) * pow2(925)
}

/// Whether the binary32 number with this bit pattern is finite.
pub fn is_finite_single(bits: u32) -> (r: bool)
    ensures
        r == finite_single(bits),
{
    (bits / 0x80_0000) % 256 != 255
}

/// Whether the binary64 number with this bit pattern is finite.
pub fn is_finite_double(bits: u64) -> (r: bool)
    ensures
        r == finite_double(bits),
{
    (bits / 0x10_0000_0000_0000) % 2048 != 2047
}

/// The parts of a bit pattern put together from them.
proof fn lemma_double_parts(sign: u64, exponent: u64, fraction: u64)
    requires
        sign < 2,
        exponent < 2048,
        fraction < 0x10_0000_0000_0000,
    ensures
        ({
            let bits = sign * 0x8000_0000_0000_0000 + exponent * 0x10_0000_0000_0000 + fraction;
            &&& bits <= u64::MAX
            &&& bits / 0x8000_0000_0000_0000 == sign
            &&& (bits / 0x10_0000_0000_0000) % 2048 == exponent
            &&& bits % 0x10_0000_0000_0000 == fraction
        }),
{
}

/// Of two finite binary64 numbers the one with the smaller exponent field has
/// the smaller magnitude.
proof fn lemma_exponent_orders(a: u64, b: u64)
    requires
        (a / 0x10_0000_0000_0000) % 2048 < (b / 0x10_0000_0000_0000) % 2048,
    ensures
        double_magnitude(a) < double_magnitude(b),
{
    let e = ((a / 0x10_0000_0000_0000) % 2048) as nat;
    let f = ((b / 0x10_0000_0000_0000) % 2048) as nat;
    let m = 0x10_0000_0000_0000 + (a % 0x10_0000_0000_0000) as nat;
    let n = 0x10_0000_0000_0000 + (b % 0x10_0000_0000_0000) as nat;
    lemma_pow2_pos((f - 1) as nat);
    assert(n * pow2((f - 1) as nat) >= 0x10_0000_0000_0000 * pow2((f - 1) as nat))
        by (nonlinear_arith)
        requires
            n >= 0x10_0000_0000_0000,
    ;
    if e > 0 {
        lemma_pow2_unfold(e);
        if e < f - 1 {
            lemma_pow2_strictly_increases(e, (f - 1) as nat);
        }
        lemma_pow2_pos((e - 1) as nat);
        assert(m * pow2((e - 1) as nat) < 0x20_0000_0000_0000 * pow2((e - 1) as nat))
            by (nonlinear_arith)
            requires
                m < 0x20_0000_0000_0000,
                pow2((e - 1) as nat) > 0,
        ;
    }
}

/// A binary32 number is one binary64 number only.
pub proof fn lemma_same_number_unique(single: u32, a: u64, b: u64)
    requires
        same_number(single, a),
        same_number(single, b),
    ensures
        a == b,
{
    let e = (a / 0x10_0000_0000_0000) % 2048;
    let f = (b / 0x10_0000_0000_0000) % 2048;
    if e < f {
        lemma_exponent_orders(a, b);
    } else if f < e {
        lemma_exponent_orders(b, a);
    } else if e > 0 {
        let m = 0x10_0000_0000_0000 + (a % 0x10_0000_0000_0000) as nat;
        let n = 0x10_0000_0000_0000 + (b % 0x10_0000_0000_0000) as nat;
        lemma_pow2_pos((e - 1) as nat);
        assert(m == n) by (nonlinear_arith)
            requires
                m * pow2((e - 1) as nat) == n * pow2((e - 1) as nat),
                pow2((e - 1) as nat) > 0,
        ;
    }
}

/// The bit pattern that the binary64 number with the value of a binary32 number
/// has, where the exponent field of that one is not zero.
proof fn lemma_widen_normal(single: u32)
    requires
        finite_single(single),
        (single / 0x80_0000) % 256 != 0,
    ensures
        ({
            let sign = single / 0x8000_0000;
            let exponent = (single / 0x80_0000) % 256;
            let fraction = single % 0x80_0000;
            let double = sign * 0x8000_0000_0000_0000 + (exponent + 896) * 0x10_0000_0000_0000
                + fraction * 0x2000_0000;
            &&& double <= u64::MAX
            &&& same_number(single, double as u64)
        }),
{
    let sign = (single / 0x8000_0000) as u64;
    let exponent = ((single / 0x80_0000) % 256) as u64;
    let fraction = (single % 0x80_0000) as u64;
    let wide = (fraction * 0x2000_0000) as u64;
    lemma_double_parts(sign, (exponent + 896) as u64, wide);
    let e = (exponent - 1) as nat;
    lemma_pow2_adds(29, (e + 896) as nat);
    lemma_pow2_adds(e, 925);
    lemma2_to64();
    let m = (0x80_0000 + fraction) as nat;
    assert((0x10_0000_0000_0000 + wide) == m * 0x2000_0000);
    assert((m * pow2(29)) * pow2((e + 896) as nat) == m * (pow2(29) * pow2((e + 896) as nat)))
        by (nonlinear_arith);
    assert((m * pow2(e)) * pow2(925) == m * (pow2(e) * pow2(925))) by (nonlinear_arith);
}

/// The bit pattern that the binary64 number with the value of a binary32 number
/// has, where the exponent field of that one is zero and its fraction, shifted
/// by `shift` bits, is `significand`.
pub proof fn lemma_widen_subnormal(single: u32, significand: u64, shift: u64)
    requires
        (single / 0x80_0000) % 256 == 0,
        0x80_0000 <= significand < 0x100_0000,
        shift <= 23,
        significand == (single % 0x80_0000) * pow2(shift as nat),
    ensures
        ({
            let sign = single / 0x8000_0000;
            let double = sign * 0x8000_0000_0000_0000 + (897 - shift) * 0x10_0000_0000_0000 + (
            significand - 0x80_0000) * 0x2000_0000;
            &&& double <= u64::MAX
            &&& same_number(single, double as u64)
        }),
{
    let sign = (single / 0x8000_0000) as u64;
    let wide = ((significand - 0x80_0000) * 0x2000_0000) as u64;
    let wide_exponent = (897 - shift) as u64;
    lemma_double_parts(sign, wide_exponent, wide);
    let k = shift as nat;
    let f = (single % 0x80_0000) as nat;
    let e = (wide_exponent - 1) as nat;
    lemma_pow2_adds(k, 29);
    lemma_pow2_adds((k + 29) as nat, e);
    lemma2_to64();
    assert((0x10_0000_0000_0000 + wide) == significand * 0x2000_0000);
    assert((f * pow2(k)) * pow2(29) == f * (pow2(k) * pow2(29))) by (nonlinear_arith);
    assert((f * pow2((k + 29) as nat)) * pow2(e) == f * (pow2((k + 29) as nat) * pow2(e)))
        by (nonlinear_arith);
}

/// Shifting a fraction by one more bit doubles it; a fraction that is not zero
/// and still has room is not shifted by 23 bits yet.
proof fn lemma_shift(fraction: nat, significand: nat, shift: nat)
    requires
        0 < fraction,
        significand < 0x80_0000,
        shift <= 23,
        significand == fraction * pow2(shift),
    ensures
        shift < 23,
        2 * significand == fraction * pow2(shift + 1),
{
    lemma2_to64();
    if shift == 23 {
        assert(fraction * pow2(23) >= pow2(23)) by (nonlinear_arith)
            requires
                fraction > 0,
        ;
    }
    lemma_pow2_unfold(shift + 1);
    assert(fraction * (2 * pow2(shift)) == 2 * (fraction * pow2(shift))) by (nonlinear_arith);
}

/// A fraction that is not zero can be shifted to the top.
proof fn lemma_shift_exists(fraction: nat, significand: nat, shift: nat) -> (r: (nat, nat))
    requires
        0 < fraction,
        0 < significand < 0x100_0000,
        shift <= 23,
        significand == fraction * pow2(shift),
    ensures
        0x80_0000 <= r.0 < 0x100_0000,
        r.1 <= 23,
        r.0 == fraction * pow2(r.1),
    decreases 0x100_0000 - significand,
{
    if significand < 0x80_0000 {
        lemma_shift(fraction, significand, shift);
        lemma_shift_exists(fraction, 2 * significand, shift + 1)
    } else {
        (significand, shift)
    }
}

/// A zero stays a zero of the same sign.
proof fn lemma_widen_zero(single: u32)
    requires
        single % 0x8000_0000 == 0,
    ensures
        ({
            let double = (single / 0x8000_0000) * 0x8000_0000_0000_0000;
            &&& double <= u64::MAX
            &&& same_number(single, double as u64)
        }),
{
    lemma_double_parts((single / 0x8000_0000) as u64, 0, 0);
    assert(0 * pow2(925) == 0) by (nonlinear_arith);
}

/// Every finite binary32 number is a binary64 number.
pub proof fn lemma_widened_exists(single: u32)
    requires
        finite_single(single),
    ensures
        exists|double: u64| same_number(single, double),
{
    let fraction = (single % 0x80_0000) as nat;
    if (single / 0x80_0000) % 256 != 0 {
        lemma_widen_normal(single);
    } else if fraction == 0 {
        lemma_widen_zero(single);
    } else {
        lemma2_to64();
        assert(fraction * pow2(0) == fraction) by (nonlinear_arith)
            requires
                pow2(0) == 1,
        ;
        let (significand, shift) = lemma_shift_exists(fraction, fraction, 0);
        lemma_widen_subnormal(single, significand as u64, shift as u64);
    }
}

/// The bit pattern of the binary64 number that a binary32 number is, where that
/// one is a zero or has an exponent field that is not zero.
pub proof fn lemma_widened_pattern(single: u32)
    requires
        finite_single(single),
    ensures
        ({
            let sign = single / 0x8000_0000;
            let exponent = (single / 0x80_0000) % 256;
            let fraction = single % 0x80_0000;
            let normal = sign * 0x8000_0000_0000_0000 + (exponent + 896) * 0x10_0000_0000_0000
                + fraction * 0x2000_0000;
            let zero = sign * 0x8000_0000_0000_0000;
            &&& exponent != 0 ==> normal <= u64::MAX && same_number(single, normal as u64)
            &&& exponent == 0 && fraction == 0 ==> zero <= u64::MAX && same_number(
                single,
                zero as u64,
            )
        }),
{
    if (single / 0x80_0000) % 256 != 0 {
        lemma_widen_normal(single);
    } else if single % 0x80_0000 == 0 {
        lemma_widen_zero(single);
    }
}

/// The binary64 number that a finite binary32 number is.
pub fn widen(single: u32) -> (r: u64)
    requires
        finite_single(single),
    ensures
        same_number(single, r),
{
    let sign: u64 = (single / 0x8000_0000) as u64;
    let exponent: u64 = ((single / 0x80_0000) % 256) as u64;
    let fraction: u64 = (single % 0x80_0000) as u64;
    if exponent != 0 {
        proof {
            lemma_widen_normal(single);
        }
        sign * 0x8000_0000_0000_0000 + (exponent + 896) * 0x10_0000_0000_0000 + fraction
            * 0x2000_0000
    } else if fraction == 0 {
        proof {
            lemma_widen_zero(single);
        }
        sign * 0x8000_0000_0000_0000
    } else {
        let mut significand: u64 = fraction;
        let mut shift: u64 = 0;
        proof {
            lemma2_to64();
            assert(fraction * pow2(0) == fraction) by (nonlinear_arith)
                requires
                    pow2(0) == 1,
            ;
        }
        while significand < 0x80_0000
            invariant
                0 < fraction < 0x80_0000,
                0 < significand < 0x100_0000,
                shift <= 23,
                significand == fraction * pow2(shift as nat),
            decreases 0x100_0000 - significand,
        {
            proof {
                lemma_shift(fraction as nat, significand as nat, shift as nat);
            }
            significand = significand * 2;
            shift = shift + 1;
        }
        proof {
            lemma_widen_subnormal(single, significand, shift);
        }
        sign * 0x8000_0000_0000_0000 + (897 - shift) * 0x10_0000_0000_0000 + (significand
            - 0x80_0000) * 0x2000_0000
    }
}

} // verus!
