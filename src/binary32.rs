//! The IEEE-754 binary32 layout, read from a bit pattern held as `u32`.

use vstd::prelude::*;
use vstd::arithmetic::power2::pow2;

verus! {

/// The sign bit: 0 or 1.
pub open spec fn sign_of(bits: u32) -> int {
    bits as int / 0x8000_0000
}

/// The eight stored exponent bits, 0 to 255.
pub open spec fn exponent_field(bits: u32) -> int {
    (bits as int / 0x80_0000) % 0x100
}

/// The 23 stored fraction bits.
pub open spec fn fraction_field(bits: u32) -> int {
    bits as int % 0x80_0000
}

/// The pattern made of a sign, an exponent field and a fraction field.
pub open spec fn pattern(sign: int, exponent: int, fraction: int) -> int {
    sign * 0x8000_0000 + exponent * 0x80_0000 + fraction
}

/// Not a number: all exponent bits set and a fraction that is not zero.
pub open spec fn is_nan(bits: u32) -> bool {
    exponent_field(bits) == 0xff && fraction_field(bits) != 0
}

/// Neither an infinity nor a NaN.
pub open spec fn is_finite(bits: u32) -> bool {
    exponent_field(bits) < 0xff
}

/// The magnitude of a finite pattern times 2^149. The smallest subnormal
/// is 2^-149, so every finite magnitude becomes an integer.
pub open spec fn scaled_magnitude(bits: u32) -> int {
    if exponent_field(bits) == 0 {
        fraction_field(bits)
    } else {
        (0x80_0000 + fraction_field(bits)) * pow2((exponent_field(bits) - 1) as nat)
    }
}

/// Every pattern is the sum of its three fields, each within its width.
pub proof fn lemma_fields(bits: u32)
    ensures
        0 <= sign_of(bits) <= 1,
        0 <= exponent_field(bits) < 0x100,
        0 <= fraction_field(bits) < 0x80_0000,
        bits as int == pattern(sign_of(bits), exponent_field(bits), fraction_field(bits)),
{
}

/// The fields as the shifts and masks of executable code read them.
pub proof fn lemma_field_bits(bits: u32)
    ensures
        (bits >> 31) as int == sign_of(bits),
        ((bits >> 23) & 0xff) as int == exponent_field(bits),
        (bits & 0x7f_ffff) as int == fraction_field(bits),
{
    assert((bits >> 31) == bits / 0x8000_0000) by (bit_vector);
    assert(((bits >> 23) & 0xff) == (bits / 0x80_0000) % 0x100) by (bit_vector);
    assert((bits & 0x7f_ffff) == bits % 0x80_0000) by (bit_vector);
}

} // verus!
