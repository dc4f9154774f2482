use colorconv::pixel_buffer::{convert_pixels, BYTES_PER_PIXEL};

fn scaled(r: u8, g: u8, b: u8, k: f32) -> (u32, u32, u32) {
    ((r as f32 * k).to_bits(), (g as f32 * k).to_bits(), (b as f32 * k).to_bits())
}

#[test]
fn identity_keeps_buffer() {
    let mut data: Vec<u8> = vec![1, 2, 3, 4, 250, 251, 252, 253, 0, 9];
    let len = data.len();
    convert_pixels(&mut data, 0, len, |r, g, b| scaled(r, g, b, 1.0));
    assert_eq!(data, vec![1, 2, 3, 4, 250, 251, 252, 253, 0, 9]);
}

#[test]
fn converts_channels_and_keeps_fourth_byte() {
    let mut data: Vec<u8> = vec![10, 20, 30, 40, 100, 200, 0, 77];
    convert_pixels(&mut data, 0, 8, |r, g, b| {
        ((255.0 - r as f32).to_bits(), (255.0 - g as f32).to_bits(), (255.0 - b as f32).to_bits())
    });
    assert_eq!(data, vec![245, 235, 225, 40, 155, 55, 255, 77]);
}

#[test]
fn offset_and_trailing_bytes_are_left_alone() {
    let mut data: Vec<u8> = vec![9, 9, 10, 20, 30, 40, 50, 60, 70, 80, 1, 2, 3, 8];
    // Region of 11 bytes from index 2: two whole pixels, three trailing bytes.
    convert_pixels(&mut data, 2, 11, |r, g, b| scaled(r, g, b, 2.0));
    assert_eq!(data, vec![9, 9, 20, 40, 60, 40, 100, 120, 140, 80, 1, 2, 3, 8]);
}

#[test]
fn results_are_clamped_and_rounded() {
    let mut data: Vec<u8> = vec![3, 200, 1, 5];
    convert_pixels(&mut data, 0, BYTES_PER_PIXEL, |r, g, b| {
        ((r as f32 * 0.5).to_bits(), (g as f32 * 1.5).to_bits(), (b as f32 - 2.0).to_bits())
    });
    assert_eq!(data, vec![2, 255, 0, 5]);
}

#[test]
fn empty_and_short_regions_change_nothing() {
    let mut data: Vec<u8> = vec![1, 2, 3];
    convert_pixels(&mut data, 0, 3, |r, g, b| scaled(r, g, b, 0.0));
    assert_eq!(data, vec![1, 2, 3]);
    let mut empty: Vec<u8> = Vec::new();
    convert_pixels(&mut empty, 0, 0, |r, g, b| scaled(r, g, b, 0.0));
    assert!(empty.is_empty());
}

#[test]
fn round_trip_is_within_one_and_keeps_layout() {
    let mut data: Vec<u8> = Vec::new();
    for i in 0u32..64 {
        data.push((i * 4) as u8);
        data.push((255 - i * 3) as u8);
        data.push((i * 7 % 256) as u8);
        data.push((i * 11 % 256) as u8);
    }
    let original = data.clone();
    let len = data.len();
    convert_pixels(&mut data, 0, len, |r, g, b| scaled(r, g, b, 1.0 / 2.2));
    convert_pixels(&mut data, 0, len, |r, g, b| scaled(r, g, b, 2.2));
    for (i, (a, b)) in original.iter().zip(data.iter()).enumerate() {
        if i % 4 == 3 {
            assert_eq!(a, b);
        } else {
            assert!((*a as i32 - *b as i32).abs() <= 1, "byte {}: {} vs {}", i, a, b);
        }
    }
}
