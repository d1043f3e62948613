use optcodec::color::{convert_to_10bit_rgb, quantize};

#[test]
fn quantize_black_is_zero() {
    assert_eq!(quantize(0, 0, 0), 0);
}

#[test]
fn quantize_white_fills_all_bits() {
    assert_eq!(quantize(255, 255, 255), 0xFFFF);
}

#[test]
fn quantize_pure_channels_land_in_their_fields() {
    assert_eq!(quantize(255, 0, 0), 0xF800);
    assert_eq!(quantize(0, 255, 0), 0x07E0);
    assert_eq!(quantize(0, 0, 255), 0x001F);
}

#[test]
fn quantize_mid_grey() {
    // 128 * 31 / 255 = 15.56 -> 15; 128 * 63 / 255 = 31.62 -> 31
    assert_eq!(quantize(128, 128, 128), 15 * 2048 + 31 * 32 + 15);
    assert_eq!(quantize(128, 128, 128), 31727);
}

#[test]
fn quantize_truncates_and_does_not_round() {
    // 254 * 31 / 255 = 30.88 and 254 * 63 / 255 = 62.75
    assert_eq!(quantize(254, 254, 254), 30 * 2048 + 62 * 32 + 30);
    // the smallest values that reach 1 in a five-bit and a six-bit field
    assert_eq!(quantize(8, 0, 0), 0);
    assert_eq!(quantize(9, 0, 0), 2048);
    assert_eq!(quantize(0, 4, 0), 0);
    assert_eq!(quantize(0, 5, 0), 32);
    assert_eq!(quantize(0, 0, 8), 0);
    assert_eq!(quantize(0, 0, 9), 1);
}

#[test]
fn quantize_green_thirds_are_exact() {
    // 85 * 63 / 255 = 21 and 170 * 63 / 255 = 42, with no remainder
    assert_eq!(quantize(0, 85, 0), 21 * 32);
    assert_eq!(quantize(0, 170, 0), 42 * 32);
}

#[test]
fn quantize_fields_match_formula_for_every_value() {
    for v in 0..=255u32 {
        let color = quantize(v as u8, v as u8, v as u8) as u32;
        assert_eq!(color >> 11, v * 31 / 255);
        assert_eq!((color >> 5) & 0x3f, v * 63 / 255);
        assert_eq!(color & 0x1f, v * 31 / 255);
    }
}

#[test]
fn word_holds_the_five_six_five_colour() {
    assert_eq!(convert_to_10bit_rgb(0, 0, 0), 0);
    assert_eq!(convert_to_10bit_rgb(255, 255, 255), 0xFFFF);
    assert_eq!(convert_to_10bit_rgb(128, 128, 128), 0x7BEF);
    assert_eq!(convert_to_10bit_rgb(255, 0, 0), 0xF800);
    assert_eq!(convert_to_10bit_rgb(0, 255, 0), 0x07E0);
    assert_eq!(convert_to_10bit_rgb(0, 0, 255), 0x001F);
    assert_eq!(convert_to_10bit_rgb(254, 254, 254), 0xF7DE);
    assert_eq!(convert_to_10bit_rgb(8, 4, 8), 0);
    assert_eq!(convert_to_10bit_rgb(63, 0, 0), 7 * 2048);
    assert_eq!(convert_to_10bit_rgb(64, 0, 0), 7 * 2048);
}

#[test]
fn word_agrees_with_quantize_for_every_grey() {
    for v in 0..=255u8 {
        assert_eq!(convert_to_10bit_rgb(v, v, v), quantize(v, v, v) as u32);
        assert!(convert_to_10bit_rgb(v, 0, 255 - v) <= 0xFFFF);
    }
}
