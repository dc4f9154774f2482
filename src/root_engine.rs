//! The integer half of the approximate n-th root engine.
//!
//! For a positive finite binary32 `x` the engine computes `x^(1/n)` as
//! `p(m) * 2^q * c[i]`, where `m` in [0.5, 1) is `x` with its exponent field
//! forced to that of 0.5, `p` a polynomial close to `m^(1/n)` on that range,
//! `q` the unbiased exponent `e` (stored exponent minus 126, so that
//! `x == m * 2^e`) divided by `n` with truncation, and `c` a table of the
//! `2n - 1` factors `2^(r/n)`, indexed by the remainder `r == e - q * n`
//! shifted by `n - 1`. This module takes the pattern of `x` apart and builds
//! the patterns of `m` and `2^q` and the table index; the polynomial and the
//! products are floating-point work.

use vstd::prelude::*;
use vstd::arithmetic::power2::{pow2, lemma_pow2_adds};
use crate::binary32::{
    sign_of,
    exponent_field,
    fraction_field,
    pattern,
    is_finite,
    scaled_magnitude,
    lemma_fields,
    lemma_field_bits,
};

verus! {

/// The exponent `e` with `x == m * 2^e` and `m` in [0.5, 1).
pub open spec fn unbiased_exponent(bits: u32) -> int {
    exponent_field(bits) - 126
}

/// The magnitude of `x_bits` is that of `m_bits` times `2^e`.
pub open spec fn scales_by(x_bits: u32, m_bits: u32, e: int) -> bool {
    if e >= 0 {
        scaled_magnitude(x_bits) == scaled_magnitude(m_bits) * pow2(e as nat)
    } else {
        scaled_magnitude(x_bits) * pow2((-e) as nat) == scaled_magnitude(m_bits)
    }
}

/// A normal pattern is its mantissa pattern times `2^e`, `e` its unbiased
/// exponent, when the two share their fraction bits.
proof fn lemma_mantissa_scales(bits: u32, m_bits: u32)
    requires
        1 <= exponent_field(bits) < 255,
        exponent_field(m_bits) == 126,
        fraction_field(m_bits) == fraction_field(bits),
    ensures
        scales_by(bits, m_bits, unbiased_exponent(bits)),
{
    let e = unbiased_exponent(bits);
    let s = 0x80_0000 + fraction_field(bits);
    if e >= 0 {
        lemma_pow2_adds(125, e as nat);
        assert(s * pow2((125 + e) as nat) == s * pow2(125) * pow2(e as nat)) by (nonlinear_arith)
            requires
                pow2((125 + e) as nat) == pow2(125) * pow2(e as nat),
        ;
    } else {
        lemma_pow2_adds((125 + e) as nat, (-e) as nat);
        assert(s * pow2((125 + e) as nat) * pow2((-e) as nat) == s * pow2(125)) by (nonlinear_arith)
            requires
                pow2((125 + e) as nat) * pow2((-e) as nat) == pow2(125),
        ;
    }
}

/// Integer division that truncates toward zero.
pub open spec fn trunc_div(a: int, n: int) -> int {
    if a >= 0 {
        a / n
    } else {
        -((-a) / n)
    }
}

/// The exponent `q` of the power of two that scales the root.
pub open spec fn root_exponent(bits: u32, n: int) -> int {
    trunc_div(unbiased_exponent(bits), n)
}

/// The index into the correction table: the remainder of the division,
/// shifted by `n - 1` so that it starts at zero.
pub open spec fn correction_index(bits: u32, n: int) -> int {
    unbiased_exponent(bits) - root_exponent(bits, n) * n + (n - 1)
}

/// The pieces of a binary32 pattern that the n-th root is assembled from.
#[derive(Debug, Clone, Copy, PartialEq, Eq)]
pub struct RootParts {
    /// Pattern of the mantissa `m`: sign and fraction of the input, the
    /// exponent field of 0.5.
    pub mantissa_bits: u32,
    /// Pattern of the power of two `2^q`.
    pub scale_bits: u32,
    /// Index of the factor `2^(r/n)` in a table of `2n - 1` entries.
    pub correction: usize,
}

/// Splits the pattern `bits` for an n-th root. The colour pipelines use n
/// of 3, 5 and 12; any n from 2 on keeps `2^q` a normal binary32.
pub fn split_for_root(bits: u32, n: u32) -> (r: RootParts)
    requires
        2 <= n < 0x8000_0000,
    ensures
        sign_of(r.mantissa_bits) == sign_of(bits),
        exponent_field(r.mantissa_bits) == 126,
        fraction_field(r.mantissa_bits) == fraction_field(bits),
        r.scale_bits as int == pattern(0, root_exponent(bits, n as int) + 127, 0),
        r.correction as int == correction_index(bits, n as int),
        r.correction < 2 * n - 1,
        exponent_field(bits) != 0 && is_finite(bits) ==> scales_by(
            bits,
            r.mantissa_bits,
            unbiased_exponent(bits),
        ),
{
    proof {
        lemma_field_bits(bits);
        lemma_fields(bits);
    }
    let exponent: u32 = (bits >> 23) & 0xff;
    let mantissa_bits: u32 = (bits & 0x807f_ffff) | 0x3f00_0000;
    assert(sign_of(mantissa_bits) == sign_of(bits) && exponent_field(mantissa_bits) == 126
        && fraction_field(mantissa_bits) == fraction_field(bits)) by {
        assert(((bits & 0x807f_ffff) | 0x3f00_0000) / 0x8000_0000 == bits / 0x8000_0000
            && (((bits & 0x807f_ffff) | 0x3f00_0000) / 0x80_0000) % 0x100 == 126
            && ((bits & 0x807f_ffff) | 0x3f00_0000) % 0x80_0000 == bits % 0x80_0000)
            by (bit_vector);
    }
    proof {
        if exponent_field(bits) != 0 && is_finite(bits) {
            lemma_mantissa_scales(bits, mantissa_bits);
        }
    }
    let biased: u32;
    let correction: u32;
    if exponent >= 126 {
        let e: u32 = exponent - 126;
        let q: u32 = e / n;
        assert(q * n <= e) by (nonlinear_arith)
            requires
                q == e / n,
                n > 0,
        ;
        assert(e - q * n < n) by (nonlinear_arith)
            requires
                q == e / n,
                n > 0,
        ;
        assert(q <= 64) by (nonlinear_arith)
            requires
                q == e / n,
                n >= 2,
                e <= 129,
        ;
        assert(root_exponent(bits, n as int) == q as int);
        biased = q + 127;
        correction = (e - q * n) + (n - 1);
    } else {
        let e: u32 = 126 - exponent;
        let q: u32 = e / n;
        assert(q * n <= e) by (nonlinear_arith)
            requires
                q == e / n,
                n > 0,
        ;
        assert(e - q * n < n) by (nonlinear_arith)
            requires
                q == e / n,
                n > 0,
        ;
        assert(q <= 63) by (nonlinear_arith)
            requires
                q == e / n,
                n >= 2,
                e <= 126,
        ;
        assert(root_exponent(bits, n as int) == -(q as int));
        biased = 127 - q;
        correction = (n - 1) - (e - q * n);
        assert((-(q as int)) * (n as int) == -((q * n) as int)) by (nonlinear_arith);
    }
    let scale_bits: u32 = biased << 23;
    assert(scale_bits == biased * 0x80_0000) by (bit_vector)
        requires
            scale_bits == biased << 23,
            biased < 256,
    ;
    RootParts { mantissa_bits, scale_bits, correction: correction as usize }
}

} // verus!
