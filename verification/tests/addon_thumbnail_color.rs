use reforger_language_server::addon_thumbnail_color::{
    average_color, thumbnail_color_from_png, thumbnail_size_acceptable, PixelLayout, MAX_THUMBNAIL_BYTES,
};

fn encode_png(width: u32, height: u32, color: png::ColorType, depth: png::BitDepth, pixels: &[u8]) -> Vec<u8> {
    let mut out = Vec::new();
    {
        let mut encoder = png::Encoder::new(&mut out, width, height);
        encoder.set_color(color);
        encoder.set_depth(depth);
        encoder.write_header().unwrap().write_image_data(pixels).unwrap();
    }
    out
}

fn rgba_png(width: u32, height: u32, pixels: &[u8]) -> Vec<u8> {
    encode_png(width, height, png::ColorType::Rgba, png::BitDepth::Eight, pixels)
}

#[test]
fn computes_an_alpha_weighted_average_and_ignores_transparent_pixels() {
    let bytes = rgba_png(3, 1, &[255, 0, 0, 255, 0, 0, 255, 255, 0, 255, 0, 0]);
    assert_eq!(thumbnail_color_from_png(&bytes).as_deref(), Some("#800080"));
}

#[test]
fn missing_and_fully_transparent_thumbnails_have_no_color() {
    assert_eq!(thumbnail_color_from_png(&[]), None);
    let bytes = rgba_png(1, 1, &[10, 20, 30, 0]);
    assert_eq!(thumbnail_color_from_png(&bytes), None);
}

#[test]
fn grayscale_rgb_and_sixteen_bit_images_are_averaged() {
    let gray = encode_png(2, 1, png::ColorType::Grayscale, png::BitDepth::Eight, &[10, 20]);
    assert_eq!(thumbnail_color_from_png(&gray).as_deref(), Some("#0F0F0F"));
    let rgb = encode_png(1, 1, png::ColorType::Rgb, png::BitDepth::Eight, &[0xAB, 0x01, 0xFF]);
    assert_eq!(thumbnail_color_from_png(&rgb).as_deref(), Some("#AB01FF"));
    // 16-bit samples are stripped to their high byte.
    let wide = encode_png(1, 1, png::ColorType::Rgb, png::BitDepth::Sixteen, &[0x12, 0x99, 0x34, 0x00, 0x56, 0xFF]);
    assert_eq!(thumbnail_color_from_png(&wide).as_deref(), Some("#123456"));
}

#[test]
fn oversized_and_invalid_images_have_no_color() {
    let wide = rgba_png(4097, 1, &vec![255; 4097 * 4]);
    assert_eq!(thumbnail_color_from_png(&wide), None);
    let edge = rgba_png(4096, 1, &vec![255; 4096 * 4]);
    assert_eq!(thumbnail_color_from_png(&edge).as_deref(), Some("#FFFFFF"));
    assert_eq!(thumbnail_color_from_png(b"not a png"), None);
    assert!(thumbnail_size_acceptable(MAX_THUMBNAIL_BYTES));
    assert!(!thumbnail_size_acceptable(MAX_THUMBNAIL_BYTES + 1));
}

#[test]
fn averages_round_half_up_and_skip_partial_pixels() {
    assert_eq!(average_color(PixelLayout::Grayscale, &[0, 1]).as_deref(), Some("#010101"));
    assert_eq!(average_color(PixelLayout::Grayscale, &[10, 20]).as_deref(), Some("#0F0F0F"));
    assert_eq!(average_color(PixelLayout::Rgb, &[1, 2, 3, 200]).as_deref(), Some("#010203"));
    assert_eq!(average_color(PixelLayout::GrayscaleAlpha, &[200, 0, 100, 255]).as_deref(), Some("#646464"));
    assert_eq!(average_color(PixelLayout::Rgba, &[9, 9, 9, 0]), None);
    assert_eq!(average_color(PixelLayout::Rgb, &[]), None);
    assert_eq!(average_color(PixelLayout::Indexed, &[1, 2, 3]), None);
}
