use fpi::pixel::{PixelBuffer, PixelFormat};

fn rgb_image(width: u32, height: u32, pixels: Vec<u8>) -> PixelBuffer {
    PixelBuffer::new(width, height, PixelFormat::Rgb8, pixels).unwrap()
}

fn solid(width: u32, height: u32, rgb: [u8; 3]) -> PixelBuffer {
    let mut px: Vec<u8> = Vec::new();
    for _ in 0..(width * height) {
        px.extend_from_slice(&rgb);
    }
    rgb_image(width, height, px)
}

/// Truncate-then-sum luminance, the formula the engine promises.
fn luma_of(r: u8, g: u8, b: u8) -> u8 {
    ((299 * (r as u32)) / 1000 + (587 * (g as u32)) / 1000 + (114 * (b as u32)) / 1000) as u8
}

#[test]
fn luminance_samples() {
    let cases: [([u8; 3], u8); 4] = [
        ([255, 0, 0], 76),
        ([0, 255, 0], 149),
        ([0, 0, 255], 29),
        ([255, 255, 255], 254),
    ];
    for (rgb, expected) in cases {
        let img = solid(1, 1, rgb);
        let gray = img.to_grayscale();
        assert_eq!(gray.format, PixelFormat::Gray8);
        assert_eq!(gray.pixels, vec![expected]);
    }
}

#[test]
fn grayscale_end_to_end() {
    // 4x4 filled with (100, 150, 200): floor(29.9)+floor(88.05)+floor(22.8) = 139
    let img = solid(4, 4, [100, 150, 200]);
    let gray = img.to_grayscale();
    assert_eq!(gray.width, 4);
    assert_eq!(gray.height, 4);
    assert_eq!(gray.pixels, vec![139u8; 16]);
}

#[test]
fn grayscale_rgb_replicates_luminance() {
    let img = rgb_image(2, 1, vec![255, 0, 0, 10, 20, 30]);
    let out = img.to_grayscale_rgb();
    assert_eq!(out.format, PixelFormat::Rgb8);
    let l = luma_of(10, 20, 30);
    assert_eq!(out.pixels, vec![76, 76, 76, l, l, l]);
}

#[test]
fn brightness_saturates_at_white() {
    let img = rgb_image(1, 1, vec![250, 100, 0]);
    let out = img.adjust_brightness(10);
    assert_eq!(out.pixels, vec![255, 110, 10]);
}

#[test]
fn contrast_scales_and_clamps() {
    let img = rgb_image(1, 2, vec![100, 50, 0, 200, 1, 128]);
    let out = img.adjust_contrast_2(2);
    assert_eq!(out.pixels, vec![200, 100, 0, 255, 2, 255]);
}

#[test]
fn contrast_factor_zero_blackens() {
    let img = rgb_image(1, 1, vec![17, 230, 99]);
    let out = img.adjust_contrast_2(0);
    assert_eq!(out.pixels, vec![0, 0, 0]);
}

#[test]
fn negative_inverts_channels() {
    let img = rgb_image(1, 1, vec![0, 255, 17]);
    let out = img.negative();
    assert_eq!(out.pixels, vec![255, 0, 238]);
    assert_eq!(out.negative().pixels, img.pixels);
}

#[test]
fn quantize_one_level_collapses_to_min() {
    // luminances 0, 76, 254; with a single level everything becomes the minimum
    let img = rgb_image(3, 1, vec![0, 0, 0, 255, 0, 0, 255, 255, 255]);
    let out = img.quantize_grayscale(1);
    assert_eq!(out.format, PixelFormat::Gray8);
    assert_eq!(out.pixels, vec![0, 0, 0]);
}

#[test]
fn quantize_bins_luminances() {
    // luminances 0 and 254: interval 255, five levels, bin size 51
    let img = rgb_image(2, 1, vec![0, 0, 0, 255, 255, 255]);
    let out = img.quantize_grayscale(5);
    assert_eq!(out.format, PixelFormat::Gray8);
    // 0 stays at the bottom bin, 254 maps to bin 4 whose floor is 204
    assert_eq!(out.pixels, vec![0, 204]);
    let mut distinct: Vec<u8> = out.pixels.clone();
    distinct.sort();
    distinct.dedup();
    assert!(distinct.len() <= 5);
}

#[test]
fn quantize_bin_size_one_keeps_values() {
    // luminances 0 and 8: interval 9, five levels, bin size 9 / 5 = 1,
    // so every luminance is its own bin floor and the image is unchanged
    let img = rgb_image(2, 1, vec![0, 0, 0, 0, 0, 71]);
    let gray = img.to_grayscale();
    assert_eq!(gray.pixels, vec![0, 8]);
    let out = img.quantize_grayscale(5);
    assert_eq!(out.pixels, vec![0, 8]);
}

#[test]
fn quantize_fallback_returns_grayscale_rgb() {
    // a uniform image has dynamic range 1; requesting 2 levels degrades
    let img = solid(3, 2, [90, 90, 90]);
    let out = img.quantize_grayscale(2);
    assert_eq!(out, img.to_grayscale_rgb());
    assert_eq!(out.format, PixelFormat::Rgb8);
}
