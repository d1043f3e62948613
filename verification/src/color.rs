//! Colour quantisation: 8-bit RGB channels to packed fixed-width values.

use vstd::prelude::*;

verus! {

/// A five-bit channel: the 8-bit value scaled to `0..=31`, rounded down.
pub open spec fn channel5(c: u8) -> int {
    (c as int * 31) / 255
}

/// A six-bit channel: the 8-bit value scaled to `0..=63`, rounded down.
pub open spec fn channel6(c: u8) -> int {
    (c as int * 63) / 255
}

/// The packed 5-6-5 colour of an RGB pixel: red in the five high bits,
/// green in the six middle bits, blue in the five low bits.
pub open spec fn quantize_spec(r: u8, g: u8, b: u8) -> int {
    channel5(r) * 2048 + channel6(g) * 32 + channel5(b)
}

/// Quantises an 8-bit RGB pixel to a 16-bit 5-6-5 colour. The three
/// quantised channels lie in bits 15-11, 10-5 and 4-0 of the result.
pub fn quantize(r: u8, g: u8, b: u8) -> (color: u16)
    ensures
        color as int == quantize_spec(r, g, b),
        color >> 11 == channel5(r),
        (color >> 5) & 0x3f == channel6(g),
        color & 0x1f == channel5(b),
{
    let r5: u32 = (r as u32 * 31) / 255;
    let g6: u32 = (g as u32 * 63) / 255;
    let b5: u32 = (b as u32 * 31) / 255;
    let color = (r5 * 2048 + g6 * 32 + b5) as u16;
    assert(color >> 11 == r5 && (color >> 5) & 0x3f == g6 && color & 0x1f == b5) by (bit_vector)
        requires
            r5 <= 31,
            g6 <= 63,
            b5 <= 31,
            color == (r5 * 2048 + g6 * 32 + b5) as u16,
    ;
    color
}

/// The 5-6-5 colour of an RGB pixel in a 32-bit word: the value of
/// [`quantize`], which fits the low sixteen bits.
pub fn convert_to_10bit_rgb(r: u8, g: u8, b: u8) -> (color: u32)
    ensures
        color as int == quantize_spec(r, g, b),
        color <= 0xFFFF,
{
    quantize(r, g, b) as u32
}

} // verus!
