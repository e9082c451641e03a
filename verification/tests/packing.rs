use packer::arena::Arena;
use packer::frame::{pack_bits, pack_frame};

/// `count` pixels of the same color, in the four-sample interleaved layout
/// the packer reads (red, green, blue, alpha).
fn solid_pixels(count: usize, r: u8, g: u8, b: u8) -> Vec<u8> {
    let mut data = Vec::new();
    for _ in 0..count {
        data.push(r);
        data.push(g);
        data.push(b);
        data.push(255);
    }
    data
}

#[test]
fn eight_bright_pixels_pack_to_full_byte() {
    // luminance of (200, 200, 200) is 200, at or above threshold 128
    let data = solid_pixels(8, 200, 200, 200);
    assert_eq!(pack_bits(&data, 8, 1, 128, false), vec![0xFF]);
}

#[test]
fn inversion_clears_bright_pixels() {
    let data = solid_pixels(8, 200, 200, 200);
    assert_eq!(pack_bits(&data, 8, 1, 128, true), vec![0x00]);
}

#[test]
fn ninth_pixel_sets_msb_of_second_byte() {
    let data = solid_pixels(9, 200, 200, 200);
    let out = pack_bits(&data, 9, 1, 128, false);
    assert_eq!(out.len(), 2);
    assert_eq!(out, vec![0xFF, 0x80]);
}

#[test]
fn luminance_equal_to_threshold_is_active() {
    // luminance of (128, 128, 128) is exactly 128
    let data = solid_pixels(1, 128, 128, 128);
    assert_eq!(pack_bits(&data, 1, 1, 128, false), vec![0x80]);
    assert_eq!(pack_bits(&data, 1, 1, 128, true), vec![0x00]);
}

#[test]
fn luminance_uses_exact_integer_bt601_weights() {
    // (10*299 + 20*587 + 30*114) / 1000 = 18150 / 1000 = 18, truncated
    let data = solid_pixels(1, 10, 20, 30);
    assert_eq!(pack_bits(&data, 1, 1, 18, false), vec![0x80]);
    assert_eq!(pack_bits(&data, 1, 1, 19, false), vec![0x00]);
}

#[test]
fn pixel_weights_are_not_interchangeable() {
    // green carries the largest weight: (0*299 + 255*587 + 0*114) / 1000 = 149
    let green = solid_pixels(1, 0, 255, 0);
    assert_eq!(pack_bits(&green, 1, 1, 149, false), vec![0x80]);
    assert_eq!(pack_bits(&green, 1, 1, 150, false), vec![0x00]);
    // red alone: (255*299) / 1000 = 76
    let red = solid_pixels(1, 255, 0, 0);
    assert_eq!(pack_bits(&red, 1, 1, 76, false), vec![0x80]);
    assert_eq!(pack_bits(&red, 1, 1, 77, false), vec![0x00]);
}

#[test]
fn stride_is_four_samples_per_pixel() {
    // dark pixel then bright pixel: only the second bit of the row is set
    let mut data = solid_pixels(1, 0, 0, 0);
    data.extend(solid_pixels(1, 255, 255, 255));
    assert_eq!(pack_bits(&data, 2, 1, 128, false), vec![0x40]);
}

#[test]
fn short_buffer_leaves_remaining_bits_zero() {
    // two rows of eight, but only the first row's pixels are in the buffer
    let data = solid_pixels(8, 200, 200, 200);
    assert_eq!(pack_bits(&data, 8, 2, 128, false), vec![0xFF, 0x00]);
}

#[test]
fn pixel_with_all_three_samples_present_is_still_read() {
    // eight full pixels, then one pixel cut off right after its blue sample:
    // its three color samples are in the buffer, so it still packs
    let mut data = solid_pixels(8, 200, 200, 200);
    data.push(200);
    data.push(200);
    data.push(200);
    assert_eq!(pack_bits(&data, 8, 2, 128, false), vec![0xFF, 0x80]);
}

#[test]
fn pixel_missing_its_blue_sample_stays_zero() {
    // the ninth pixel's blue sample is exactly at the end of the buffer
    let mut data = solid_pixels(8, 200, 200, 200);
    data.push(200);
    data.push(200);
    assert_eq!(pack_bits(&data, 8, 2, 128, false), vec![0xFF, 0x00]);
}

#[test]
fn empty_buffer_packs_all_background() {
    let data = Vec::new();
    assert_eq!(pack_bits(&data, 8, 1, 128, false), vec![0x00]);
}

#[test]
fn output_length_is_rows_times_row_bytes() {
    let data = solid_pixels(39, 200, 200, 200);
    assert_eq!(pack_bits(&data, 13, 3, 128, false).len(), 6);
    assert_eq!(pack_bits(&data, 1, 1, 128, false).len(), 1);
    assert_eq!(pack_bits(&data, 16, 2, 128, false).len(), 4);
    assert_eq!(pack_bits(&data, 0, 5, 128, false).len(), 0);
}

#[test]
fn packed_frame_lands_in_arena_memory() {
    let mut arena = Arena::new(100);
    let data = solid_pixels(8, 200, 200, 200);
    let span = pack_frame(&mut arena, &data, 8, 1, 128, false).unwrap();
    assert_eq!(span.start, 0);
    assert_eq!(span.len, 1);
    assert_eq!(arena.read_bytes(span), vec![0xFF]);
    assert_eq!(arena.allocated_bytes(), 1);
}

#[test]
fn pack_frame_fails_without_room_and_leaves_arena_alone() {
    let mut arena = Arena::new(3);
    let data = solid_pixels(32, 200, 200, 200);
    // a 32x1 frame needs 4 bytes
    assert!(pack_frame(&mut arena, &data, 32, 1, 128, false).is_none());
    assert_eq!(arena.allocated_bytes(), 0);
    // a frame that fits still packs afterwards
    let span = pack_frame(&mut arena, &data, 8, 1, 128, false).unwrap();
    assert_eq!(span.start, 0);
    assert_eq!(arena.read_bytes(span), vec![0xFF]);
}

#[test]
fn consecutive_frames_are_adjacent() {
    let mut arena = Arena::new(10);
    let bright = solid_pixels(8, 200, 200, 200);
    let dark = solid_pixels(8, 10, 10, 10);
    let a = pack_frame(&mut arena, &bright, 8, 1, 128, false).unwrap();
    let b = pack_frame(&mut arena, &dark, 8, 1, 128, false).unwrap();
    assert_eq!(a.start, 0);
    assert_eq!(b.start, 1);
    assert_eq!(arena.read_bytes(a), vec![0xFF]);
    assert_eq!(arena.read_bytes(b), vec![0x00]);
}

#[test]
fn identical_inputs_after_reset_repack_identically() {
    let mut arena = Arena::new(50);
    let mut data = solid_pixels(9, 130, 140, 150);
    data.extend(solid_pixels(4, 10, 10, 10));
    let first_span = pack_frame(&mut arena, &data, 13, 1, 128, false).unwrap();
    let first = arena.read_bytes(first_span);
    arena.reset_heap();
    let second_span = pack_frame(&mut arena, &data, 13, 1, 128, false).unwrap();
    let second = arena.read_bytes(second_span);
    assert_eq!(first_span.start, second_span.start);
    assert_eq!(first, second);
    assert_eq!(first, pack_bits(&data, 13, 1, 128, false));
}
