use optcodec::codec::decode;
use optcodec::color::quantize;
use optcodec::encode::{assemble, encode_image, Overflow};
use optcodec::palette::Palette;
use optcodec::raster::{Image, ImageError, Rgb};

fn grey(v: u8) -> Rgb {
    Rgb { r: v, g: v, b: v }
}

#[test]
fn image_needs_width_times_height_pixels() {
    assert!(Image::new(2, 2, vec![grey(0); 4]).is_some());
    assert!(Image::new(2, 2, vec![grey(0); 3]).is_none());
    assert!(Image::new(2, 2, vec![grey(0); 5]).is_none());
    assert!(Image::new(0, 5, vec![]).is_some());
    assert!(Image::new(0, 5, vec![grey(0)]).is_none());
    assert!(Image::new(u32::MAX, u32::MAX, vec![grey(0)]).is_none());
}

#[test]
fn image_keeps_its_size_and_pixels() {
    let pixels = vec![grey(1), grey(2), grey(3), grey(4), grey(5), grey(6)];
    let image = Image::new(3, 2, pixels.clone()).unwrap();
    assert_eq!(image.width(), 3);
    assert_eq!(image.height(), 2);
    assert_eq!(image.pixels(), &pixels[..]);
}

#[test]
fn samples_are_taken_three_by_three() {
    let image = Image::from_samples(2, 1, 3, &[1, 2, 3, 4, 5, 6]).unwrap();
    assert_eq!(image.width(), 2);
    assert_eq!(image.height(), 1);
    assert_eq!(
        image.pixels(),
        &[Rgb { r: 1, g: 2, b: 3 }, Rgb { r: 4, g: 5, b: 6 }][..]
    );
}

#[test]
fn other_colour_models_are_rejected() {
    assert_eq!(
        Image::from_samples(1, 1, 4, &[1, 2, 3, 4]).err(),
        Some(ImageError::ColorModel)
    );
    assert_eq!(Image::from_samples(1, 1, 1, &[1]).err(), Some(ImageError::ColorModel));
    assert_eq!(Image::from_samples(3, 1, 1, &[1, 2, 3]).err(), Some(ImageError::ColorModel));
}

#[test]
fn sample_buffer_of_the_wrong_size_is_rejected() {
    assert_eq!(Image::from_samples(1, 1, 3, &[1, 2]).err(), Some(ImageError::Size));
    assert_eq!(Image::from_samples(1, 2, 3, &[1, 2, 3]).err(), Some(ImageError::Size));
    assert_eq!(Image::from_samples(1, 1, 3, &[1, 2, 3, 4]).err(), Some(ImageError::Size));
    assert_eq!(Image::from_samples(0, 0, 3, &[1, 2, 3]).err(), Some(ImageError::Size));
    assert!(Image::from_samples(0, 9, 3, &[]).is_ok());
}

#[test]
fn colours_are_the_quantised_pixels() {
    let image = Image::new(
        2,
        1,
        vec![Rgb { r: 255, g: 0, b: 0 }, Rgb { r: 10, g: 200, b: 99 }],
    )
    .unwrap();
    assert_eq!(image.colors(), vec![0xF800, quantize(10, 200, 99)]);
}

#[test]
fn single_pixel_image() {
    let image = Image::new(1, 1, vec![Rgb { r: 255, g: 255, b: 255 }]).unwrap();
    let encoded = encode_image(&image);
    assert_eq!(encoded.stream, vec![0x80 | (1 << 3) | 0]);
    assert_eq!(encoded.warnings, vec![]);
    assert_eq!(
        encoded.to_bytes(),
        vec![0xFF, 0xFF, 0, 0, 0, 0, 0, 0, 0, 0, 0, 0, 0, 0, 0, 0, 0x88]
    );
}

#[test]
fn empty_image_is_an_empty_palette_and_no_stream() {
    let image = Image::new(0, 0, vec![]).unwrap();
    let encoded = encode_image(&image);
    assert_eq!(encoded.stream, vec![]);
    assert_eq!(encoded.to_bytes(), vec![0u8; 16]);
}

#[test]
fn rows_run_on_into_each_other() {
    // two rows of three: the run of the first colour spans the row break
    let a = Rgb { r: 255, g: 0, b: 0 };
    let b = Rgb { r: 0, g: 0, b: 255 };
    let image = Image::new(3, 2, vec![a, a, a, a, b, b]).unwrap();
    let encoded = encode_image(&image);
    assert_eq!(encoded.stream, vec![0x80 | (4 << 3) | 0, 0x80 | (2 << 3) | 1]);
    assert_eq!(
        encoded.to_bytes(),
        vec![0xF8, 0x00, 0x00, 0x1F, 0, 0, 0, 0, 0, 0, 0, 0, 0, 0, 0, 0, 0xA0, 0x91]
    );
}

#[test]
fn pixels_that_quantise_alike_share_a_slot() {
    // 0 and 8 both give a five-bit channel of 0
    let image = Image::new(2, 1, vec![grey(0), Rgb { r: 8, g: 4, b: 8 }]).unwrap();
    let encoded = encode_image(&image);
    assert_eq!(encoded.palette.len(), 1);
    assert_eq!(encoded.stream, vec![0x80 | (2 << 3) | 0]);
}

#[test]
fn nine_colours_warn_at_the_pixel_of_the_ninth() {
    let mut pixels = Vec::new();
    for k in 0..9u8 {
        pixels.push(grey(k * 28));
    }
    let image = Image::new(3, 3, pixels).unwrap();
    let encoded = encode_image(&image);
    assert_eq!(encoded.warnings, vec![Overflow { x: 2, y: 2 }]);
    assert_eq!(encoded.palette.len(), 8);
    assert_eq!(decode(&encoded.stream), vec![0, 1, 2, 3, 4, 5, 6, 7, 0]);
}

#[test]
fn one_warning_for_each_overflowing_pixel() {
    // a row of nine colours, three times: the ninth overflows in every row
    let mut pixels = Vec::new();
    for _ in 0..3 {
        for k in 0..9u8 {
            pixels.push(grey(k * 28));
        }
    }
    let image = Image::new(9, 3, pixels).unwrap();
    let encoded = encode_image(&image);
    assert_eq!(
        encoded.warnings,
        vec![
            Overflow { x: 8, y: 0 },
            Overflow { x: 8, y: 1 },
            Overflow { x: 8, y: 2 }
        ]
    );
}

#[test]
fn warnings_give_column_then_row() {
    let mut pixels = Vec::new();
    for k in 0..10u8 {
        pixels.push(grey(k * 25));
    }
    // five columns, two rows: positions 8 and 9 are columns 3 and 4 of row 1
    let image = Image::new(5, 2, pixels.clone()).unwrap();
    assert_eq!(
        encode_image(&image).warnings,
        vec![Overflow { x: 3, y: 1 }, Overflow { x: 4, y: 1 }]
    );
    // two columns, five rows: positions 8 and 9 are columns 0 and 1 of row 4
    let image = Image::new(2, 5, pixels).unwrap();
    assert_eq!(
        encode_image(&image).warnings,
        vec![Overflow { x: 0, y: 4 }, Overflow { x: 1, y: 4 }]
    );
}

#[test]
fn stream_decodes_to_the_index_of_every_pixel() {
    let mut pixels = Vec::new();
    let mut state: u32 = 99;
    for _ in 0..(40 * 30) {
        state = state.wrapping_mul(1103515245).wrapping_add(12345);
        let shade = ((state >> 16) % 6) as u8 * 50;
        let repeat = (state >> 24) % 3 == 0;
        pixels.push(grey(shade));
        if repeat && pixels.len() < 40 * 30 {
            pixels.push(grey(shade));
        }
        if pixels.len() >= 40 * 30 {
            break;
        }
    }
    while pixels.len() < 40 * 30 {
        pixels.push(grey(0));
    }
    let image = Image::new(40, 30, pixels.clone()).unwrap();
    let encoded = encode_image(&image);
    assert!(encoded.warnings.is_empty());
    let indices = decode(&encoded.stream);
    assert_eq!(indices.len(), pixels.len());
    for (pixel, index) in pixels.iter().zip(indices.iter()) {
        assert_eq!(
            encoded.palette.get(*index as usize),
            Some(quantize(pixel.r, pixel.g, pixel.b))
        );
    }
}

#[test]
fn encoding_an_image_twice_gives_the_same_buffer() {
    let pixels: Vec<Rgb> = (0..64u32)
        .map(|i| Rgb { r: (i % 4 * 80) as u8, g: (i / 16 * 60) as u8, b: 0 })
        .collect();
    let image = Image::new(8, 8, pixels).unwrap();
    assert_eq!(encode_image(&image).to_bytes(), encode_image(&image).to_bytes());
}

#[test]
fn assemble_puts_the_palette_before_the_stream() {
    let mut palette = Palette::new();
    palette.intern(0xABCD);
    palette.intern(0x0102);
    let bytes = assemble(&palette, &[0x88, 0x12, 0xFF]);
    assert_eq!(bytes.len(), 19);
    assert_eq!(&bytes[..4], &[0xAB, 0xCD, 0x01, 0x02]);
    assert_eq!(&bytes[4..16], &[0u8; 12]);
    assert_eq!(&bytes[16..], &[0x88, 0x12, 0xFF]);
}

#[test]
fn assemble_with_no_stream_is_the_palette_alone() {
    let palette = Palette::new();
    assert_eq!(assemble(&palette, &[]), vec![0u8; 16]);
}
