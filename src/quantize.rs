//! Quantizing a channel value, held as a binary32 bit pattern, to a byte.

use vstd::prelude::*;
use vstd::arithmetic::power2::{
    pow2,
    lemma2_to64,
    lemma_pow2_adds,
    lemma_pow2_pos,
    lemma_pow2_strictly_increases,
    lemma_pow2_unfold,
};
use vstd::arithmetic::mul::lemma_mul_inequality;
use vstd::arithmetic::div_mod::lemma_fundamental_div_mod_converse;
use vstd::bits::{lemma_u32_shl_is_mul, lemma_u32_shr_is_div};
use crate::binary32::{
    sign_of,
    exponent_field,
    fraction_field,
    is_nan,
    is_finite,
    scaled_magnitude,
    lemma_fields,
    lemma_field_bits,
};

verus! {

/// `r` is the integer nearest to the magnitude whose value times 2^149 is
/// `scaled`, a half rounding up: `r - 1/2 <= scaled / 2^149 < r + 1/2`.
pub open spec fn is_nearest(scaled: int, r: int) -> bool {
    (2 * r - 1) * pow2(148) <= scaled < (2 * r + 1) * pow2(148)
}

/// The byte that a value quantizes to: the value with pattern `bits`,
/// clamped to [0, 255] and rounded to the nearest integer, a half rounding
/// up. Negative values and NaN give 0, +inf gives 255.
pub open spec fn quantized(bits: u32) -> int {
    if sign_of(bits) == 1 || is_nan(bits) {
        0
    } else if !is_finite(bits) {
        255
    } else {
        let nearest = (scaled_magnitude(bits) + pow2(148)) / (pow2(149) as int);
        if nearest > 255 {
            255
        } else {
            nearest
        }
    }
}

/// 254.5 times 2^149: from here on a value clamps to 255.
pub open spec fn top_half_scaled() -> int {
    509 * pow2(148) as int
}

/// The nearest integer is the quotient of the half-shifted value.
proof fn lemma_nearest_is_quotient(scaled: int, r: int)
    requires
        is_nearest(scaled, r),
    ensures
        r == (scaled + pow2(148)) / (pow2(149) as int),
{
    let h = pow2(148) as int;
    lemma_pow2_unfold(149);
    lemma_pow2_pos(148);
    assert(0 <= scaled + h - r * (2 * h) < 2 * h) by (nonlinear_arith)
        requires
            (2 * r - 1) * h <= scaled < (2 * r + 1) * h,
    ;
    lemma_fundamental_div_mod_converse(scaled + h, 2 * h, r, scaled + h - r * (2 * h));
}

/// From 254.5 on the quotient is at least 255.
proof fn lemma_top_clamps(scaled: int)
    requires
        scaled >= top_half_scaled(),
    ensures
        (scaled + pow2(148)) / (pow2(149) as int) >= 255,
{
    let h = pow2(148) as int;
    lemma_pow2_unfold(149);
    lemma_pow2_pos(148);
    assert(scaled + h >= 255 * (2 * h));
    vstd::arithmetic::div_mod::lemma_div_is_ordered(255 * (2 * h), scaled + h, 2 * h);
    vstd::arithmetic::div_mod::lemma_div_multiples_vanish(255, 2 * h);
}

proof fn lemma_at_least_top(bits: u32)
    requires
        sign_of(bits) == 0,
        134 <= exponent_field(bits) < 255,
        exponent_field(bits) == 134 ==> fraction_field(bits) >= 0x7e_8000,
    ensures
        scaled_magnitude(bits) >= top_half_scaled(),
{
    let e = exponent_field(bits);
    let f = fraction_field(bits);
    lemma2_to64();
    lemma_pow2_adds(15, 133);
    lemma_pow2_adds(9, 148);
    lemma_pow2_pos(148);
    if e == 134 {
        lemma_mul_inequality(509 * 0x8000 as int, 0x80_0000 + f, pow2(133) as int);
        assert(top_half_scaled() == 509 * 0x8000 * pow2(133)) by (nonlinear_arith)
            requires
                pow2(148) == 0x8000 * pow2(133),
        ;
    } else {
        lemma_pow2_adds(23, 134);
        if e > 135 {
            lemma_pow2_strictly_increases(134, (e - 1) as nat);
        }
        lemma_mul_inequality(pow2(134) as int, pow2((e - 1) as nat) as int, 0x80_0000);
        lemma_mul_inequality(0x80_0000, 0x80_0000 + f, pow2((e - 1) as nat) as int);
        assert(0x80_0000 * pow2(134) == pow2(157));
        assert(top_half_scaled() <= pow2(157)) by (nonlinear_arith)
            requires
                pow2(157) == 512 * pow2(148),
                pow2(148) > 0,
        ;
    }
}

proof fn lemma_below_half(bits: u32)
    requires
        exponent_field(bits) <= 125,
    ensures
        0 <= scaled_magnitude(bits) < pow2(148),
{
    let e = exponent_field(bits);
    let f = fraction_field(bits);
    lemma_fields(bits);
    lemma2_to64();
    lemma_pow2_pos(148);
    if e == 0 {
        lemma_pow2_strictly_increases(23, 148);
    } else {
        lemma_pow2_adds(24, 124);
        if e < 125 {
            lemma_pow2_strictly_increases((e - 1) as nat, 124);
        }
        lemma_pow2_pos((e - 1) as nat);
        lemma_mul_inequality(pow2((e - 1) as nat) as int, pow2(124) as int, 0x100_0000);
        assert((0x80_0000 + f) * pow2((e - 1) as nat) < 0x100_0000 * pow2((e - 1) as nat))
            by (nonlinear_arith)
            requires
                0x80_0000 + f < 0x100_0000,
                pow2((e - 1) as nat) > 0,
        ;
        assert(0 <= (0x80_0000 + f) * pow2((e - 1) as nat)) by (nonlinear_arith)
            requires
                0 <= f,
        ;
    }
}

proof fn lemma_rounded(bits: u32, m: int, half: int, r: int)
    requires
        sign_of(bits) == 0,
        126 <= exponent_field(bits) <= 134,
        exponent_field(bits) == 134 ==> fraction_field(bits) < 0x7e_8000,
        m == 0x80_0000 + fraction_field(bits),
        half == pow2((149 - exponent_field(bits)) as nat),
        r * (2 * half) <= m + half < (r + 1) * (2 * half),
    ensures
        is_nearest(scaled_magnitude(bits), r),
        scaled_magnitude(bits) < top_half_scaled(),
        0 <= r <= 254,
{
    let e = exponent_field(bits);
    let f = fraction_field(bits);
    let p = pow2((e - 1) as nat) as int;
    lemma_fields(bits);
    lemma2_to64();
    lemma_pow2_pos((e - 1) as nat);
    lemma_pow2_pos((149 - e) as nat);
    lemma_pow2_adds((149 - e) as nat, (e - 1) as nat);
    assert(half * p == pow2(148));
    assert((2 * r - 1) * half <= m < (2 * r + 1) * half) by (nonlinear_arith)
        requires
            r * (2 * half) <= m + half < (r + 1) * (2 * half),
    ;
    assert((2 * r - 1) * pow2(148) <= m * p < (2 * r + 1) * pow2(148)) by (nonlinear_arith)
        requires
            (2 * r - 1) * half <= m < (2 * r + 1) * half,
            half * p == pow2(148),
            p > 0,
    ;
    assert(m < 509 * half) by {
        if e == 134 {
            assert(half == 0x8000);
        } else {
            if e < 133 {
                lemma_pow2_strictly_increases(16, (149 - e) as nat);
            }
            assert(m < 0x100_0000);
            assert(0x100_0000 <= 509 * half) by (nonlinear_arith)
                requires
                    half >= 0x1_0000,
            ;
        }
    }
    assert(m * p < 509 * pow2(148)) by (nonlinear_arith)
        requires
            m < 509 * half,
            half * p == pow2(148),
            p > 0,
    ;
    assert(2 * r - 1 < 509) by (nonlinear_arith)
        requires
            (2 * r - 1) * half < 509 * half,
            half > 0,
    ;
    assert(r + 1 > 0) by (nonlinear_arith)
        requires
            m + half < (r + 1) * (2 * half),
            m >= 0,
            half > 0,
    ;
}

/// Quantizes the value with pattern `bits` to a byte: it is clamped to
/// [0, 255] and rounded to the nearest integer, a half rounding up.
/// Negative values and NaN give 0; +inf gives 255.
pub fn nearest_byte(bits: u32) -> (r: u8)
    ensures
        r as int == quantized(bits),
{
    proof {
        lemma_fields(bits);
        lemma_field_bits(bits);
    }
    if bits >= 0x8000_0000 {
        0
    } else if bits > 0x7f80_0000 {
        0
    } else if bits >= 0x437e_8000 {
        proof {
            if exponent_field(bits) < 255 {
                lemma_at_least_top(bits);
                lemma_top_clamps(scaled_magnitude(bits));
            }
        }
        255
    } else if bits < 0x3f00_0000 {
        proof {
            lemma_below_half(bits);
            lemma_pow2_pos(148);
            let scaled = scaled_magnitude(bits);
            assert((2 * 0 - 1) * pow2(148) <= scaled < (2 * 0 + 1) * pow2(148)) by (nonlinear_arith)
                requires
                    0 <= scaled < pow2(148),
            ;
            lemma_nearest_is_quotient(scaled, 0);
        }
        0
    } else {
        let e: u32 = bits >> 23;
        let m: u32 = (bits & 0x7f_ffff) | 0x80_0000;
        assert(m == (bits & 0x7f_ffff) + 0x80_0000) by (bit_vector)
            requires
                m == (bits & 0x7f_ffff) | 0x80_0000,
        ;
        assert(e as int == exponent_field(bits)) by (bit_vector)
            requires
                e == bits >> 23,
                bits < 0x8000_0000,
        ;
        let s: u32 = 150 - e;
        proof {
            lemma2_to64();
            lemma_pow2_strictly_increases((s - 1) as nat, 24);
            lemma_pow2_unfold(s as nat);
        }
        let half: u32 = 1u32 << (s - 1);
        proof {
            lemma_u32_shl_is_mul(1, (s - 1) as u32);
        }
        let sum: u32 = m + half;
        let r: u32 = sum >> s;
        proof {
            lemma_u32_shr_is_div(sum, s);
            let d = pow2(s as nat) as int;
            assert(r * d <= sum < (r + 1) * d) by (nonlinear_arith)
                requires
                    r as int == sum as int / d,
                    d > 0,
            ;
            lemma_rounded(bits, m as int, half as int, r as int);
            lemma_nearest_is_quotient(scaled_magnitude(bits), r as int);
        }
        r as u8
    }
}

} // verus!
