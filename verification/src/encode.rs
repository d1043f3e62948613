//! The encoder for whole images, and the assembler that lays palette and
//! byte stream out as one buffer.

use crate::codec::{decode_spec, encode_indices, encode_spec, theorem_round_trip};
use crate::indexing::{
    index_pixels, indices_of, lemma_overflows_upto, overflows_of, palette_of, positions,
    theorem_few_colors_fit, theorem_index_names_color,
};
use crate::palette::{palette_bytes, Palette};
use crate::raster::{colors_of, Image};
use vstd::arithmetic::div_mod::{lemma_mod_bound, lemma_multiply_divide_lt};
use vstd::prelude::*;

verus! {

/// Number of bytes that the palette takes at the start of the buffer.
pub const PALETTE_BYTES: usize = 16;

/// A pixel that overflowed the palette: its colour was the ninth, or a
/// later one, and the pixel was encoded with index 0 instead.
#[derive(Clone, Copy, Debug, PartialEq, Eq, Structural)]
pub struct Overflow {
    /// Column of the pixel.
    pub x: u32,
    /// Row of the pixel.
    pub y: u32,
}

/// The pixel at position `at` of a row-major image `width` pixels wide.
pub open spec fn overflow_at(at: int, width: nat) -> Overflow {
    Overflow { x: (at % width as int) as u32, y: (at / width as int) as u32 }
}

/// The overflow warnings of a colour stream: one for each pixel that
/// overflows the palette, in row-major order.
pub open spec fn warnings_of(colors: Seq<u16>, width: nat) -> Seq<Overflow> {
    overflows_of(colors).map_values(|at: int| overflow_at(at, width))
}

/// The buffer that holds an encoded image: the sixteen palette bytes, then
/// the byte stream.
pub open spec fn assemble_spec(palette: Seq<u16>, stream: Seq<u8>) -> Seq<u8> {
    palette_bytes(palette) + stream
}

/// An encoded image.
pub struct Encoded {
    /// The palette of the image.
    pub palette: Palette,
    /// The encoded byte stream of the image's index stream.
    pub stream: Vec<u8>,
    /// One warning for each pixel that overflowed the palette.
    pub warnings: Vec<Overflow>,
}

impl Encoded {
    /// The encoded image as one buffer: palette, then byte stream.
    pub fn to_bytes(&self) -> (bytes: Vec<u8>)
        ensures
            bytes@ == assemble_spec(self.palette@, self.stream@),
    {
        assemble(&self.palette, self.stream.as_slice())
    }
}

/// Lays an encoded image out as one buffer: bytes 0 to 15 hold the eight
/// palette entries, high byte first, a free slot as zero; the byte stream
/// follows from byte 16 on.
pub fn assemble(palette: &Palette, stream: &[u8]) -> (bytes: Vec<u8>)
    ensures
        bytes@ == assemble_spec(palette@, stream@),
        bytes@.len() == 16 + stream@.len(),
{
    let mut bytes = palette.to_bytes();
    let mut i: usize = 0;
    while i < stream.len()
        invariant
            i <= stream@.len(),
            bytes@ == palette_bytes(palette@) + stream@.take(i as int),
        decreases stream@.len() - i,
    {
        bytes.push(stream[i]);
        assert(stream@.take(i + 1) =~= stream@.take(i as int).push(stream@[i as int]));
        i += 1;
    }
    assert(stream@.take(i as int) =~= stream@);
    bytes
}

/// Lossless for up to eight colours: where a colour stream has at most
/// eight distinct colours, its encoded bytes decode to one index per pixel,
/// and each index names the palette slot that holds the pixel's colour.
pub proof fn theorem_lossless(colors: Seq<u16>)
    requires
        colors.to_set().len() <= 8,
    ensures
        decode_spec(encode_spec(indices_of(colors))).len() == colors.len(),
        forall|i: int|
            0 <= i < colors.len() ==> palette_of(colors)[#[trigger] decode_spec(
                encode_spec(indices_of(colors)),
            )[i] as int] == colors[i],
{
    let indices = indices_of(colors);
    assert forall|i: int| 0 <= i < indices.len() implies #[trigger] indices[i] < 8 by {
        theorem_index_names_color(colors, i);
    }
    theorem_round_trip(indices);
    theorem_few_colors_fit(colors);
}

/// Encodes an image: quantises every pixel, gives each distinct colour its
/// palette index in the order of first occurrence, and encodes the index
/// stream.
///
/// A pixel whose colour finds no slot in the palette is encoded with index
/// 0 and reported in `warnings`, with its column and row. The byte stream
/// decodes to the index stream of the image.
pub fn encode_image(image: &Image) -> (encoded: Encoded)
    ensures
        encoded.palette@ == palette_of(colors_of(image@.pixels)),
        encoded.stream@ == encode_spec(indices_of(colors_of(image@.pixels))),
        encoded.warnings@ == warnings_of(colors_of(image@.pixels), image@.width),
        decode_spec(encoded.stream@) == indices_of(colors_of(image@.pixels)),
{
    let colors = image.colors();
    let width = image.width();
    let height = image.height();
    let count = image.pixels().len();
    let indexed = index_pixels(colors.as_slice());
    let stream = encode_indices(indexed.indices.as_slice());
    let mut warnings: Vec<Overflow> = Vec::new();
    let mut k: usize = 0;
    proof {
        lemma_overflows_upto(colors@, colors@.len());
    }
    while k < indexed.overflows.len()
        invariant
            k <= indexed.overflows@.len(),
            count == width * height,
            count == colors@.len(),
            positions(indexed.overflows@) == overflows_of(colors@),
            forall|j: int|
                0 <= j < overflows_of(colors@).len() ==> 0 <= #[trigger] overflows_of(colors@)[j]
                    < colors@.len(),
            warnings@.len() == k,
            forall|j: int|
                0 <= j < k ==> #[trigger] warnings@[j] == overflow_at(
                    indexed.overflows@[j] as int,
                    width as nat,
                ),
        decreases indexed.overflows@.len() - k,
    {
        let at = indexed.overflows[k];
        proof {
            assert(positions(indexed.overflows@)[k as int] == at as int);
            assert(0 <= at < count);
            assert(width > 0) by (nonlinear_arith)
                requires
                    at < width * height,
                    at >= 0,
            ;
            lemma_mod_bound(at as int, width as int);
            assert(width * height == (width as int) * (height as int));
            lemma_multiply_divide_lt(at as int, width as int, height as int);
        }
        let x = (at % (width as usize)) as u32;
        let y = (at / (width as usize)) as u32;
        warnings.push(Overflow { x, y });
        k += 1;
    }
    proof {
        assert(warnings@ =~= warnings_of(colors@, width as nat)) by {
            assert forall|j: int| 0 <= j < warnings@.len() implies warnings@[j] == warnings_of(
                colors@,
                width as nat,
            )[j] by {
                assert(positions(indexed.overflows@)[j] == indexed.overflows@[j] as int);
            }
        }
    }
    Encoded { palette: indexed.palette, stream, warnings }
}

} // verus!
