use kjr_browser::display_list::Color;
use kjr_browser::pixels::{blend, blend_glyph, copy_to_buffer};

#[test]
fn blend_mixes_by_coverage() {
    assert_eq!(blend(255, 0, 255), 255);
    assert_eq!(blend(255, 0, 0), 0);
    assert_eq!(blend(0, 200, 0), 200);
    // 255 * 128 / 255 = 128
    assert_eq!(blend(255, 0, 128), 128);
    // (100 * 51 + 200 * 204) / 255 = 180
    assert_eq!(blend(100, 200, 51), 180);
}

#[test]
fn glyph_is_blended_and_clipped() {
    // a 3 x 2 white image, opaque
    let mut data = vec![255u8; 3 * 2 * 4];
    // a 2 x 2 glyph with its top-left corner at (2, 1): only its top-left cell
    // falls inside the image
    let coverage = [255u8, 255, 255, 255];
    blend_glyph(&mut data, 3, 2, 2, 1, 2, 2, &coverage, Color { r: 10, g: 20, b: 30 });
    let px = |x: usize, y: usize| {
        let i = (y * 3 + x) * 4;
        (data[i], data[i + 1], data[i + 2], data[i + 3])
    };
    assert_eq!(px(2, 1), (10, 20, 30, 255));
    assert_eq!(px(0, 0), (255, 255, 255, 255));
    assert_eq!(px(1, 1), (255, 255, 255, 255));
    assert_eq!(px(2, 0), (255, 255, 255, 255));
}

#[test]
fn zero_coverage_leaves_pixels() {
    let mut data = vec![7u8; 2 * 2 * 4];
    let coverage = [0u8, 128, 0, 0];
    blend_glyph(&mut data, 2, 2, 0, 0, 2, 2, &coverage, Color { r: 255, g: 255, b: 255 });
    assert_eq!(&data[0..4], &[7, 7, 7, 7]);
    // (255 * 128 + 7 * 127) / 255 = 131
    assert_eq!(&data[4..8], &[131, 131, 131, 7]);
    assert_eq!(&data[8..16], &[7u8; 8]);
}

#[test]
fn glyph_left_of_and_above_the_image_is_cut_off() {
    let mut data = vec![0u8; 2 * 2 * 4];
    let coverage = [255u8; 9];
    blend_glyph(&mut data, 2, 2, -2, -2, 3, 3, &coverage, Color { r: 9, g: 9, b: 9 });
    assert_eq!(&data[0..4], &[9, 9, 9, 0]);
    assert_eq!(&data[4..16], &[0u8; 12]);
}

#[test]
fn buffer_gets_packed_pixels() {
    let data = [0x12u8, 0x34, 0x56, 0xff, 0xab, 0xcd, 0xef, 0x00];
    let mut buffer = [1u32; 3];
    copy_to_buffer(&data, &mut buffer);
    assert_eq!(buffer, [0x00123456, 0x00abcdef, 1]);
}
