use colorconv::root_engine::{split_for_root, RootParts};

fn exponent(bits: u32) -> i32 {
    ((bits >> 23) & 0xff) as i32 - 126
}

#[test]
fn split_of_eight_for_cube_root() {
    let parts = split_for_root(8.0f32.to_bits(), 3);
    assert_eq!(
        parts,
        RootParts { mantissa_bits: 0.5f32.to_bits(), scale_bits: 2.0f32.to_bits(), correction: 3 }
    );
}

#[test]
fn split_of_negative_exponent_truncates_toward_zero() {
    // 2^-7 == 0.5 * 2^-6; -6 / 5 truncates to -1, remainder -1.
    let parts = split_for_root(0.0078125f32.to_bits(), 5);
    assert_eq!(f32::from_bits(parts.mantissa_bits), 0.5);
    assert_eq!(f32::from_bits(parts.scale_bits), 0.5);
    assert_eq!(parts.correction, 3);
}

#[test]
fn split_of_one_for_twelfth_root() {
    // 1.0 == 0.5 * 2^1; 1 / 12 is 0 with remainder 1.
    let parts = split_for_root(1.0f32.to_bits(), 12);
    assert_eq!(f32::from_bits(parts.mantissa_bits), 0.5);
    assert_eq!(f32::from_bits(parts.scale_bits), 1.0);
    assert_eq!(parts.correction, 12);
}

#[test]
fn split_keeps_fraction_and_sign() {
    let x: f32 = 0.7142;
    let parts = split_for_root(x.to_bits(), 5);
    let m = f32::from_bits(parts.mantissa_bits);
    assert!(m >= 0.5 && m < 1.0);
    assert_eq!(parts.mantissa_bits & 0x807f_ffff, x.to_bits() & 0x807f_ffff);
    assert_eq!(m * 2.0f32.powi(exponent(x.to_bits())), x);
}

#[test]
fn split_indexes_stay_in_table() {
    for n in [3u32, 5, 12] {
        for field in 1u32..255 {
            let bits = (field << 23) | 0x0012_3456;
            let parts = split_for_root(bits, n);
            assert!(parts.correction < (2 * n - 1) as usize);
        }
    }
}

#[test]
fn split_reassembles_exact_root() {
    // m^(1/n) * 2^q * 2^(r/n) is x^(1/n) when the pieces are exact.
    let samples: [f32; 8] = [1.0e-6, 0.0031308, 0.04045, 0.2, 0.5, 1.0, 3.75, 1234.5];
    for n in [3u32, 5, 12] {
        for x in samples {
            let bits = x.to_bits();
            let parts = split_for_root(bits, n);
            let m = f32::from_bits(parts.mantissa_bits) as f64;
            let scale = f32::from_bits(parts.scale_bits) as f64;
            let r = parts.correction as f64 - (n as f64 - 1.0);
            let root = m.powf(1.0 / n as f64) * scale * 2f64.powf(r / n as f64);
            let exact = (x as f64).powf(1.0 / n as f64);
            assert!(((root - exact) / exact).abs() < 1.0e-9, "n {} x {}", n, x);
        }
    }
}
