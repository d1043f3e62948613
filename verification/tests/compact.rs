use optcodec::compact::{compact, Compactor};
use optcodec::layout::{encode_pair, encode_range};
use optcodec::range::PixelRange;

fn range(run: u8, color: u8) -> PixelRange {
    PixelRange { run, color }
}

#[test]
fn range_byte_layout() {
    assert_eq!(encode_range(range(1, 0)), 0x88);
    assert_eq!(encode_range(range(15, 7)), 0xFF);
    assert_eq!(encode_range(range(5, 3)), 0x80 | (5 << 3) | 3);
    assert_eq!(encode_range(range(5, 3)), 0xAB);
    assert_eq!(encode_range(range(0, 0)), 0x80);
}

#[test]
fn colour_byte_layout() {
    assert_eq!(encode_pair(0, 0, false), 0x00);
    assert_eq!(encode_pair(7, 7, false), 0x77);
    assert_eq!(encode_pair(7, 7, true), 0x7F);
    assert_eq!(encode_pair(2, 5, false), 0x25);
    assert_eq!(encode_pair(2, 5, true), 0x2D);
    assert_eq!(encode_pair(0, 0, true), 0x08);
}

#[test]
fn compactor_waits_until_the_window_is_full() {
    let mut compactor = Compactor::new();
    assert_eq!(compactor.push(range(5, 2)), None);
    assert_eq!(compactor.push(range(3, 1)), None);
    assert_eq!(compactor.push(range(2, 4)), None);
    assert_eq!(compactor.push(range(6, 0)), Some(0x80 | (5 << 3) | 2));
    assert_eq!(compactor.push(range(2, 2)), Some(0x80 | (3 << 3) | 1));
    assert_eq!(
        compactor.flush(),
        vec![0x80 | (2 << 3) | 4, 0x80 | (6 << 3) | 0, 0x80 | (2 << 3) | 2]
    );
}

#[test]
fn compactor_folds_four_alternating_pixels() {
    let mut compactor = Compactor::new();
    assert_eq!(compactor.push(range(1, 3)), None);
    assert_eq!(compactor.push(range(1, 6)), None);
    assert_eq!(compactor.push(range(1, 3)), None);
    assert_eq!(compactor.push(range(1, 6)), Some((3 << 4) | 0x08 | 6));
    // the window was cleared: nothing is left to flush
    assert_eq!(compactor.flush(), vec![]);
}

#[test]
fn compactor_absorbs_a_single_pixel_into_the_next_run() {
    let mut compactor = Compactor::new();
    assert_eq!(compactor.push(range(1, 1)), None);
    assert_eq!(compactor.push(range(4, 2)), None);
    assert_eq!(compactor.push(range(2, 5)), None);
    assert_eq!(compactor.push(range(2, 6)), Some((1 << 4) | 2));
    // the run of four has lent one pixel
    assert_eq!(compactor.push(range(2, 7)), Some(0x80 | (3 << 3) | 2));
    assert_eq!(
        compactor.flush(),
        vec![0x80 | (2 << 3) | 5, 0x80 | (2 << 3) | 6, 0x80 | (2 << 3) | 7]
    );
}

#[test]
fn compactor_emits_nothing_for_a_run_that_was_used_up() {
    let mut compactor = Compactor::new();
    assert_eq!(compactor.push(range(1, 1)), None);
    assert_eq!(compactor.push(range(1, 2)), None);
    assert_eq!(compactor.push(range(3, 3)), None);
    assert_eq!(compactor.push(range(3, 4)), Some((1 << 4) | 2));
    assert_eq!(compactor.push(range(3, 5)), None);
    assert_eq!(compactor.push(range(3, 6)), Some(0x80 | (3 << 3) | 3));
}

#[test]
fn alternating_pattern_wins_over_absorption() {
    assert_eq!(
        compact(&[range(1, 0), range(1, 1), range(1, 0), range(1, 1)]),
        vec![0x09]
    );
}

#[test]
fn four_single_pixels_that_do_not_alternate_pair_up() {
    assert_eq!(
        compact(&[range(1, 0), range(1, 1), range(1, 2), range(1, 3)]),
        vec![0x01, 0x23]
    );
    assert_eq!(
        compact(&[range(1, 0), range(1, 1), range(1, 0), range(1, 2)]),
        vec![0x01, 0x02]
    );
}

#[test]
fn lent_run_can_take_part_in_a_later_pattern() {
    // (1,A) (2,B) (1,A) (1,B) (1,A): the pair A,B leaves (1,B), and
    // (1,B) (1,A) (1,B) (1,A) alternates.
    assert_eq!(
        compact(&[range(1, 4), range(2, 5), range(1, 4), range(1, 5), range(1, 4)]),
        vec![0x45, 0x5C]
    );
}

#[test]
fn compact_of_nothing_is_nothing() {
    assert_eq!(compact(&[]), vec![]);
}

#[test]
fn compact_skips_placeholders() {
    assert_eq!(
        compact(&[range(0, 0), range(3, 1), range(0, 5), range(0, 0), range(2, 2)]),
        vec![0x80 | (3 << 3) | 1, 0x80 | (2 << 3) | 2]
    );
}

#[test]
fn single_pixel_before_a_placeholder_stays_a_range() {
    assert_eq!(
        compact(&[range(1, 3), range(0, 0), range(4, 2)]),
        vec![0x80 | (1 << 3) | 3, 0x80 | (4 << 3) | 2]
    );
}

#[test]
fn flush_leaves_the_compactor_as_new() {
    let mut compactor = Compactor::new();
    assert_eq!(compactor.push(range(2, 1)), None);
    assert_eq!(compactor.flush(), vec![0x80 | (2 << 3) | 1]);
    assert_eq!(compactor.flush(), vec![]);
    assert_eq!(compactor.push(range(1, 3)), None);
    assert_eq!(compactor.push(range(1, 6)), None);
    assert_eq!(compactor.push(range(1, 3)), None);
    assert_eq!(compactor.push(range(1, 6)), Some(0x3E));
}
