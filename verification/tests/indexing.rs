use optcodec::indexing::index_pixels;

#[test]
fn palette_follows_first_occurrence() {
    let colors = [900u16, 5, 900, 77, 5, 5, 1234, 77];
    let indexed = index_pixels(&colors);
    assert_eq!(indexed.indices, vec![0, 1, 0, 2, 1, 1, 3, 2]);
    assert_eq!(indexed.overflows, vec![]);
    assert_eq!(
        indexed.palette.slots(),
        [Some(900), Some(5), Some(77), Some(1234), None, None, None, None]
    );
}

#[test]
fn every_index_names_the_slot_of_its_colour() {
    let colors: Vec<u16> = (0..200u32).map(|i| ((i * 37 + i / 3) % 8 * 1000) as u16).collect();
    let indexed = index_pixels(&colors);
    assert_eq!(indexed.indices.len(), colors.len());
    assert!(indexed.overflows.is_empty());
    for (i, color) in colors.iter().enumerate() {
        assert_eq!(indexed.palette.get(indexed.indices[i] as usize), Some(*color));
    }
}

#[test]
fn eight_colours_fill_the_palette_without_overflow() {
    let colors = [8u16, 7, 6, 5, 4, 3, 2, 1, 1, 8];
    let indexed = index_pixels(&colors);
    assert_eq!(indexed.indices, vec![0, 1, 2, 3, 4, 5, 6, 7, 7, 0]);
    assert_eq!(indexed.overflows, vec![]);
    assert_eq!(indexed.palette.len(), 8);
}

#[test]
fn ninth_colour_maps_to_zero_with_one_warning_per_pixel() {
    let colors = [10u16, 20, 30, 40, 50, 60, 70, 80, 90, 10, 90, 80, 90];
    let indexed = index_pixels(&colors);
    assert_eq!(indexed.indices, vec![0, 1, 2, 3, 4, 5, 6, 7, 0, 0, 0, 7, 0]);
    assert_eq!(indexed.overflows, vec![8, 10, 12]);
    assert_eq!(
        indexed.palette.slots(),
        [Some(10), Some(20), Some(30), Some(40), Some(50), Some(60), Some(70), Some(80)]
    );
}

#[test]
fn later_colours_overflow_too() {
    let colors = [1u16, 2, 3, 4, 5, 6, 7, 8, 9, 10, 11, 3];
    let indexed = index_pixels(&colors);
    assert_eq!(indexed.indices, vec![0, 1, 2, 3, 4, 5, 6, 7, 0, 0, 0, 2]);
    assert_eq!(indexed.overflows, vec![8, 9, 10]);
}

#[test]
fn no_pixels_give_an_empty_palette() {
    let indexed = index_pixels(&[]);
    assert_eq!(indexed.indices, vec![]);
    assert_eq!(indexed.overflows, vec![]);
    assert_eq!(indexed.palette.len(), 0);
}

#[test]
fn one_index_per_pixel() {
    let colors: Vec<u16> = (0..1000u32).map(|i| (i % 13) as u16).collect();
    let indexed = index_pixels(&colors);
    assert_eq!(indexed.indices.len(), 1000);
    for index in &indexed.indices {
        assert!(*index < 8);
    }
    // colours 8..=12 have no slot
    let expected: Vec<usize> = (0..1000usize).filter(|i| i % 13 >= 8).collect();
    assert_eq!(indexed.overflows, expected);
}
