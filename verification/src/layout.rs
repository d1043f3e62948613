//! The two byte layouts of the encoded stream. Bit 7 tells them apart.
//!
//! | field    | range byte          | colour byte                         |
//! |----------|---------------------|-------------------------------------|
//! | bit 7    | 1                   | 0                                   |
//! | bits 6-3 | run length (1-15)   | bits 6-4 first index, bit 3 copy    |
//! | bits 2-0 | palette index       | second palette index                |

use crate::range::{repeat, PixelRange};
use vstd::prelude::*;

verus! {

/// Tag bit of a range byte.
pub const RANGE_TAG: u8 = 0x80;

/// Copy flag of a colour byte.
pub const COPY_FLAG: u8 = 0x08;

/// The range byte for `run` pixels of index `color`.
pub open spec fn range_byte(run: u8, color: u8) -> u8 {
    (128 + run * 8 + color) as u8
}

/// The colour byte for the two pixels `first`, `second`.
pub open spec fn pair_byte(first: u8, second: u8) -> u8 {
    (first * 16 + second) as u8
}

/// The colour byte with the copy flag, for the four pixels
/// `first`, `second`, `first`, `second`.
pub open spec fn copy_byte(first: u8, second: u8) -> u8 {
    (first * 16 + 8 + second) as u8
}

/// The pixels that one encoded byte stands for.
pub open spec fn expand_byte(byte: u8) -> Seq<u8> {
    let low = (byte % 8) as u8;
    if byte >= 128 {
        repeat(low, ((byte / 8) % 16) as nat)
    } else {
        let high = ((byte / 16) % 8) as u8;
        if (byte / 8) % 2 == 1 {
            seq![high, low, high, low]
        } else {
            seq![high, low]
        }
    }
}

/// Packs a range into its byte.
pub fn encode_range(range: PixelRange) -> (byte: u8)
    requires
        range.valid(),
    ensures
        byte == range_byte(range.run, range.color),
        byte == RANGE_TAG | (range.run << 3) | range.color,
{
    let run = range.run;
    let color = range.color;
    assert((0x80u8 | (run << 3) | color) == (128 + run * 8 + color) as u8) by (bit_vector)
        requires
            run <= 15,
            color < 8,
    ;
    assert(128 + run * 8 + color <= 255);
    RANGE_TAG | (run << 3) | color
}

/// Packs two palette indices into a colour byte, with or without the copy flag.
pub fn encode_pair(first: u8, second: u8, copy: bool) -> (byte: u8)
    requires
        first < 8,
        second < 8,
    ensures
        copy ==> byte == copy_byte(first, second),
        !copy ==> byte == pair_byte(first, second),
        byte == (first << 4) | (if copy { COPY_FLAG } else { 0u8 }) | second,
{
    let flag: u8 = if copy { COPY_FLAG } else { 0 };
    assert(((first << 4) | flag | second) == (first * 16 + flag + second) as u8) by (bit_vector)
        requires
            first < 8,
            second < 8,
            flag == 0 || flag == 8,
    ;
    assert(first * 16 + flag + second <= 255);
    (first << 4) | flag | second
}

/// A range byte holds its run and index, and expands to that run.
pub proof fn lemma_expand_range_byte(run: u8, color: u8)
    requires
        run <= 15,
        color < 8,
    ensures
        expand_byte(range_byte(run, color)) == repeat(color, run as nat),
{
    let b = range_byte(run, color);
    assert(b == 128 + run * 8 + color);
    assert(b % 8 == color);
    assert((b / 8) % 16 == run);
}

/// A colour byte without the copy flag expands to its two indices.
pub proof fn lemma_expand_pair_byte(first: u8, second: u8)
    requires
        first < 8,
        second < 8,
    ensures
        expand_byte(pair_byte(first, second)) == seq![first, second],
{
    let b = pair_byte(first, second);
    assert(b == first * 16 + second);
    assert(b % 8 == second);
    assert((b / 16) % 8 == first);
    assert((b / 8) % 2 == 0);
}

/// A colour byte with the copy flag expands to its two indices, twice.
pub proof fn lemma_expand_copy_byte(first: u8, second: u8)
    requires
        first < 8,
        second < 8,
    ensures
        expand_byte(copy_byte(first, second)) == seq![first, second, first, second],
{
    let b = copy_byte(first, second);
    assert(b == first * 16 + 8 + second);
    assert(b % 8 == second);
    assert((b / 16) % 8 == first);
    assert((b / 8) % 2 == 1);
}

/// Whatever the byte, the pixels it stands for are palette indices, at most
/// fifteen of them.
pub proof fn lemma_expand_byte_bounds(byte: u8)
    ensures
        expand_byte(byte).len() <= 15,
        forall|i: int| 0 <= i < expand_byte(byte).len() ==> #[trigger] expand_byte(byte)[i] < 8,
{
}

} // verus!
