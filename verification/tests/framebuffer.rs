//! Captured framebuffers as images.

use snemu::framebuffer::render_ppm;

#[test]
fn header_names_the_correct_format_and_dimensions() {
    let ppm = render_ppm(&[0u8; 16], 2, 2, 8);
    assert!(ppm.starts_with(b"P6\n2 2\n255\n"));
}

#[test]
fn single_pixel_converts_xrgb8888_to_rgb_dropping_the_pad_byte() {
    let pixel = [0x40, 0x20, 0x20, 0xff];
    let ppm = render_ppm(&pixel, 1, 1, 4);
    let body = &ppm[ppm.len() - 3..];
    assert_eq!(body, &[0x20, 0x20, 0x40], "R, G, B order, pad byte dropped");
}

#[test]
fn stride_wider_than_width_times_four_skips_row_padding() {
    let mut pixels = vec![0u8; 16];
    pixels[0..4].copy_from_slice(&[0x01, 0x02, 0x03, 0xff]); // row 0 pixel
    pixels[8..12].copy_from_slice(&[0x04, 0x05, 0x06, 0xff]); // row 1 pixel
    let ppm = render_ppm(&pixels, 1, 2, 8);
    let body = &ppm[ppm.len() - 6..];
    assert_eq!(body, &[0x03, 0x02, 0x01, 0x06, 0x05, 0x04]);
}

#[test]
fn a_fully_out_of_range_pixel_degrades_to_black_not_panic() {
    let ppm = render_ppm(&[], 1, 1, 4); // no bytes at all
    let body = &ppm[ppm.len() - 3..];
    assert_eq!(body, &[0, 0, 0]);
}

#[test]
fn a_partially_out_of_range_pixel_degrades_only_the_missing_channels() {
    let ppm = render_ppm(&[0xAB, 0xCD], 1, 1, 4);
    let body = &ppm[ppm.len() - 3..];
    assert_eq!(body, &[0, 0xCD, 0xAB], "R missing (0), G and B present");
}

#[test]
fn multi_row_multi_column_produces_the_right_pixel_count() {
    let ppm = render_ppm(&[0u8; 4 * 3 * 2], 3, 2, 12);
    let header_len = b"P6\n3 2\n255\n".len();
    assert_eq!(ppm.len() - header_len, 3 * 2 * 3, "width*height RGB triples");
}
