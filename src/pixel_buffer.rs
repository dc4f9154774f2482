//! The in-place walk of the batch converter over an interleaved pixel
//! buffer: four bytes a pixel, three channels and a fourth byte (alpha or
//! padding) that is passed through.

use vstd::prelude::*;
use crate::quantize::{nearest_byte, quantized};

verus! {

/// Bytes of one pixel.
pub const BYTES_PER_PIXEL: usize = 4;

/// Pixel `p` of the region that starts at `offset` begins at this index.
pub open spec fn pixel_start(offset: int, p: int) -> int {
    offset + 4 * p
}

/// Number of whole pixels in a region of `len` bytes; trailing bytes that
/// make no whole pixel are left alone.
pub open spec fn pixel_count(len: int) -> int {
    len / 4
}

/// The channels of the pixel at `at` in `after` are those that the output
/// `out` of a conversion quantizes to, and its fourth byte is that of
/// `before`.
pub open spec fn pixel_written(before: Seq<u8>, after: Seq<u8>, at: int, out: (u32, u32, u32)) -> bool {
    &&& after[at] as int == quantized(out.0)
    &&& after[at + 1] as int == quantized(out.1)
    &&& after[at + 2] as int == quantized(out.2)
    &&& after[at + 3] == before[at + 3]
}

/// The pixel at `at` of `after` is one that `convert` may give for the
/// channels of the pixel at `at` of `before`.
pub open spec fn pixel_converted<F: Fn(u8, u8, u8) -> (u32, u32, u32)>(
    convert: F,
    before: Seq<u8>,
    after: Seq<u8>,
    at: int,
) -> bool {
    exists|out: (u32, u32, u32)|
        #![trigger convert.ensures((before[at], before[at + 1], before[at + 2]), out)]
        convert.ensures((before[at], before[at + 1], before[at + 2]), out) && pixel_written(
            before,
            after,
            at,
            out,
        )
}

/// Every byte outside the whole pixels of the region is the same in both.
pub open spec fn same_outside(before: Seq<u8>, after: Seq<u8>, offset: int, len: int) -> bool {
    &&& before.len() == after.len()
    &&& forall|i: int|
        0 <= i < before.len() && !(offset <= i < pixel_start(offset, pixel_count(len)))
            ==> after[i] == before[i]
}

/// The fourth byte of every pixel of the region is the same in both.
pub open spec fn same_fourth_bytes(before: Seq<u8>, after: Seq<u8>, offset: int, len: int) -> bool {
    forall|p: int|
        0 <= p < pixel_count(len) ==> after[#[trigger] pixel_start(offset, p) + 3]
            == before[pixel_start(offset, p) + 3]
}

/// `after` is `before` with every whole pixel of the region converted.
pub open spec fn region_converted<F: Fn(u8, u8, u8) -> (u32, u32, u32)>(
    convert: F,
    before: Seq<u8>,
    after: Seq<u8>,
    offset: int,
    len: int,
) -> bool {
    &&& same_outside(before, after, offset, len)
    &&& forall|p: int|
        0 <= p < pixel_count(len) ==> #[trigger] pixel_converted(
            convert,
            before,
            after,
            pixel_start(offset, p),
        )
}

/// A converted region keeps the fourth byte of each of its pixels.
pub proof fn lemma_converted_keeps_fourth_bytes<F: Fn(u8, u8, u8) -> (u32, u32, u32)>(
    convert: F,
    before: Seq<u8>,
    after: Seq<u8>,
    offset: int,
    len: int,
)
    requires
        region_converted(convert, before, after, offset, len),
    ensures
        same_fourth_bytes(before, after, offset, len),
{
    assert forall|p: int| 0 <= p < pixel_count(len) implies after[#[trigger] pixel_start(offset, p) + 3]
        == before[pixel_start(offset, p) + 3] by {
        assert(pixel_converted(convert, before, after, pixel_start(offset, p)));
    }
}

/// Converting a region of a buffer and then converting the same region
/// back, with any two conversions, leaves the fourth byte of every pixel
/// and every byte outside the region's pixels as they were.
pub proof fn lemma_round_trip_keeps_layout<
    F: Fn(u8, u8, u8) -> (u32, u32, u32),
    G: Fn(u8, u8, u8) -> (u32, u32, u32),
>(forward: F, back: G, start: Seq<u8>, mid: Seq<u8>, end: Seq<u8>, offset: int, len: int)
    requires
        region_converted(forward, start, mid, offset, len),
        region_converted(back, mid, end, offset, len),
    ensures
        same_outside(start, end, offset, len),
        same_fourth_bytes(start, end, offset, len),
{
    lemma_converted_keeps_fourth_bytes(forward, start, mid, offset, len);
    lemma_converted_keeps_fourth_bytes(back, mid, end, offset, len);
}

/// Converts, in place, every whole pixel of the `len` bytes of `data` that
/// start at `offset`. `convert` takes the three channel bytes of a pixel and
/// gives the bit patterns of the three output values, already scaled to
/// the byte range; each is quantized to the byte that replaces its channel.
/// The fourth byte of each pixel and every byte outside the pixels stay.
pub fn convert_pixels<F: Fn(u8, u8, u8) -> (u32, u32, u32)>(
    data: &mut [u8],
    offset: usize,
    len: usize,
    convert: F,
)
    requires
        offset + len <= old(data)@.len(),
        forall|a: u8, b: u8, c: u8| #[trigger] convert.requires((a, b, c)),
    ensures
        region_converted(convert, old(data)@, final(data)@, offset as int, len as int),
        same_fourth_bytes(old(data)@, final(data)@, offset as int, len as int),
{
    let ghost before = data@;
    let size: usize = data.len();
    let ghost mut outs: Seq<(u32, u32, u32)> = Seq::empty();
    let count: usize = len / BYTES_PER_PIXEL;
    let mut p: usize = 0;
    while p < count
        invariant
            before == old(data)@,
            offset + len <= before.len(),
            before.len() == size,
            count == pixel_count(len as int),
            0 <= p <= count,
            outs.len() == p,
            data@.len() == before.len(),
            forall|i: int|
                0 <= i < before.len() && !(offset <= i < pixel_start(offset as int, p as int))
                    ==> data@[i] == before[i],
            forall|q: int|
                #![trigger outs[q]]
                0 <= q < p ==> {
                    let at = pixel_start(offset as int, q);
                    &&& convert.ensures((before[at], before[at + 1], before[at + 2]), outs[q])
                    &&& pixel_written(before, data@, at, outs[q])
                },
            forall|a: u8, b: u8, c: u8| #[trigger] convert.requires((a, b, c)),
        decreases count - p,
    {
        assert(4 * p + 4 <= len) by (nonlinear_arith)
            requires
                p < count,
                count == len / 4,
        ;
        let at: usize = offset + BYTES_PER_PIXEL * p;
        let out = convert(data[at], data[at + 1], data[at + 2]);
        let c0: u8 = nearest_byte(out.0);
        let c1: u8 = nearest_byte(out.1);
        let c2: u8 = nearest_byte(out.2);
        data[at] = c0;
        data[at + 1] = c1;
        data[at + 2] = c2;
        proof {
            outs = outs.push(out);
        }
        p = p + 1;
    }
    proof {
        assert forall|q: int| 0 <= q < pixel_count(len as int) implies #[trigger] pixel_converted(
            convert,
            before,
            data@,
            pixel_start(offset as int, q),
        ) by {
            let at = pixel_start(offset as int, q);
            assert(convert.ensures((before[at], before[at + 1], before[at + 2]), outs[q]));
        }
        lemma_converted_keeps_fourth_bytes(convert, before, data@, offset as int, len as int);
    }
}

} // verus!
