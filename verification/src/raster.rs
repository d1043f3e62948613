//! The input of the encoder: a decoded image as plain values, a width, a
//! height and the pixels row by row.

use crate::color::{quantize, quantize_spec};
use vstd::prelude::*;

verus! {

/// One pixel: three 8-bit channels.
#[derive(Clone, Copy, Debug, PartialEq, Eq, Structural)]
pub struct Rgb {
    pub r: u8,
    pub g: u8,
    pub b: u8,
}

/// Why a sample buffer is not an image that the encoder takes.
#[derive(Clone, Copy, Debug, PartialEq, Eq, Structural)]
pub enum ImageError {
    /// The buffer has another number of channels than three.
    ColorModel,
    /// The buffer does not hold three samples for each of width times
    /// height pixels.
    Size,
}

/// The quantised colour of a pixel.
pub open spec fn color_of(pixel: Rgb) -> u16 {
    quantize_spec(pixel.r, pixel.g, pixel.b) as u16
}

/// The quantised colours of a pixel sequence.
pub open spec fn colors_of(pixels: Seq<Rgb>) -> Seq<u16> {
    pixels.map_values(|pixel: Rgb| color_of(pixel))
}

/// The pixels of an interleaved sample buffer: each three samples in a row
/// are the red, green and blue of one pixel.
pub open spec fn pixels_of(samples: Seq<u8>) -> Seq<Rgb> {
    Seq::new(
        samples.len() / 3,
        |i: int| Rgb { r: samples[3 * i], g: samples[3 * i + 1], b: samples[3 * i + 2] },
    )
}

/// A raster image: `width * height` pixels in row-major order.
pub struct Image {
    width: u32,
    height: u32,
    pixels: Vec<Rgb>,
}

/// What an image is: its size and its pixels, row by row.
pub struct ImageView {
    pub width: nat,
    pub height: nat,
    pub pixels: Seq<Rgb>,
}

impl View for Image {
    type V = ImageView;

    closed spec fn view(&self) -> ImageView {
        ImageView {
            width: self.width as nat,
            height: self.height as nat,
            pixels: self.pixels@,
        }
    }
}

impl Image {
    #[verifier::type_invariant]
    spec fn well_formed(self) -> bool {
        self.pixels@.len() == self.width * self.height
    }

    /// An image of the given size from its pixels in row-major order;
    /// `None` unless there are exactly `width * height` of them.
    pub fn new(width: u32, height: u32, pixels: Vec<Rgb>) -> (image: Option<Image>)
        ensures
            image is Some <==> pixels@.len() == width * height,
            image matches Some(img) ==> img@ == (ImageView {
                width: width as nat,
                height: height as nat,
                pixels: pixels@,
            }),
    {
        assert(width * height <= 0xffff_ffff * 0xffff_ffff) by (nonlinear_arith)
            requires
                width <= 0xffff_ffff,
                height <= 0xffff_ffff,
        ;
        if pixels.len() as u128 == (width as u128) * (height as u128) {
            Some(Image { width, height, pixels })
        } else {
            None
        }
    }

    /// An image of the given size from an interleaved 8-bit sample buffer
    /// with `channels` samples per pixel. Only three-channel buffers of
    /// exactly `width * height` pixels are taken.
    pub fn from_samples(width: u32, height: u32, channels: u8, samples: &[u8]) -> (image: Result<
        Image,
        ImageError,
    >)
        ensures
            match image {
                Ok(img) => {
                    &&& channels == 3
                    &&& samples@.len() == 3 * (width * height)
                    &&& img@ == (ImageView {
                        width: width as nat,
                        height: height as nat,
                        pixels: pixels_of(samples@),
                    })
                },
                Err(ImageError::ColorModel) => channels != 3,
                Err(ImageError::Size) => channels == 3 && samples@.len() != 3 * (width * height),
            },
    {
        if channels != 3 {
            return Err(ImageError::ColorModel);
        }
        assert(width * height <= 0xffff_ffff * 0xffff_ffff) by (nonlinear_arith)
            requires
                width <= 0xffff_ffff,
                height <= 0xffff_ffff,
        ;
        let count: u128 = (width as u128) * (height as u128);
        if samples.len() as u128 != 3 * count {
            return Err(ImageError::Size);
        }
        let mut pixels: Vec<Rgb> = Vec::new();
        let mut i: usize = 0;
        while i < samples.len()
            invariant
                samples@.len() == 3 * count,
                i == 3 * pixels@.len(),
                i <= samples@.len(),
                forall|k: int| 0 <= k < pixels@.len() ==> pixels@[k] == pixels_of(samples@)[k],
            decreases samples@.len() - i,
        {
            pixels.push(Rgb { r: samples[i], g: samples[i + 1], b: samples[i + 2] });
            i += 3;
        }
        assert(pixels@ =~= pixels_of(samples@));
        Ok(Image { width, height, pixels })
    }

    /// Number of pixels in a row.
    pub fn width(&self) -> (width: u32)
        ensures
            width == self@.width,
    {
        self.width
    }

    /// Number of rows.
    pub fn height(&self) -> (height: u32)
        ensures
            height == self@.height,
    {
        self.height
    }

    /// The pixels, row by row.
    pub fn pixels(&self) -> (pixels: &[Rgb])
        ensures
            pixels@ == self@.pixels,
            pixels@.len() == self@.width * self@.height,
    {
        proof {
            use_type_invariant(self);
        }
        self.pixels.as_slice()
    }

    /// The quantised colour of every pixel, row by row.
    pub fn colors(&self) -> (colors: Vec<u16>)
        ensures
            colors@ == colors_of(self@.pixels),
    {
        let mut colors: Vec<u16> = Vec::new();
        let mut i: usize = 0;
        while i < self.pixels.len()
            invariant
                i <= self.pixels@.len(),
                colors@.len() == i,
                forall|k: int| 0 <= k < i ==> colors@[k] == color_of(self.pixels@[k]),
            decreases self.pixels@.len() - i,
        {
            let pixel = self.pixels[i];
            colors.push(quantize(pixel.r, pixel.g, pixel.b));
            i += 1;
        }
        assert(colors@ =~= colors_of(self@.pixels));
        colors
    }
}

} // verus!
