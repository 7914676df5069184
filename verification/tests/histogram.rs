use fpi::pixel::{PixelBuffer, PixelFormat};

fn rgb_image(width: u32, height: u32, pixels: Vec<u8>) -> PixelBuffer {
    PixelBuffer::new(width, height, PixelFormat::Rgb8, pixels).unwrap()
}

fn solid(width: u32, height: u32, rgb: [u8; 3]) -> PixelBuffer {
    let mut px: Vec<u8> = Vec::new();
    for _ in 0..(width * height) {
        px.extend_from_slice(&rgb);
    }
    rgb_image(width, height, px)
}

fn luma_of(r: u8, g: u8, b: u8) -> u8 {
    ((299 * (r as u32)) / 1000 + (587 * (g as u32)) / 1000 + (114 * (b as u32)) / 1000) as u8
}

#[test]
fn histogram_conserves_pixel_count() {
    let img = rgb_image(
        3,
        2,
        vec![
            0, 0, 0, 255, 255, 255, 255, 0, 0, 0, 255, 0, 0, 0, 255, 100, 150, 200,
        ],
    );
    let h = img.histogram();
    assert_eq!(h.counts.len(), 256);
    let total: u64 = h.counts.iter().map(|c| *c as u64).sum();
    assert_eq!(total, 6);
}

#[test]
fn histogram_all_black() {
    let img = solid(4, 4, [0, 0, 0]);
    let h = img.histogram();
    assert_eq!(h.counts[0], 16);
    for v in 1..256usize {
        assert_eq!(h.counts[v], 0);
    }
}

#[test]
fn histogram_counts_each_luminance() {
    // two pixels of luminance 76, one of luminance 0
    let img = rgb_image(3, 1, vec![255, 0, 0, 255, 0, 0, 0, 0, 0]);
    let h = img.histogram();
    assert_eq!(h.counts[76], 2);
    assert_eq!(h.counts[0], 1);
}

#[test]
fn render_histogram_uniform_column() {
    // every pixel has the same luminance; its column is drawn at full height,
    // all other columns stay white
    let img = solid(2, 2, [80, 120, 200]);
    let l = luma_of(80, 120, 200) as usize;
    let h = img.histogram();
    let chart = h.render();
    assert_eq!(chart.width, 256);
    assert_eq!(chart.height, 256);
    assert_eq!(chart.format, PixelFormat::Gray8);
    // bottom of the populated column is black, and the column height is
    // ceil(255 * 4 / 4) = 255, so rows 1..=255 are black and row 0 is white
    assert_eq!(chart.pixels[255 * 256 + l], 0);
    assert_eq!(chart.pixels[1 * 256 + l], 0);
    assert_eq!(chart.pixels[0 * 256 + l], 255);
    // an empty column is white everywhere
    let other = if l == 0 { 1 } else { l - 1 };
    assert_eq!(chart.pixels[255 * 256 + other], 255);
    assert_eq!(chart.pixels[0 * 256 + other], 255);
}

#[test]
fn render_histogram_half_column() {
    // three black pixels and one white: the black column is full height,
    // the white column is ceil(255 * 1 / 3) = 85 rows tall
    let img = rgb_image(
        2,
        2,
        vec![0, 0, 0, 0, 0, 0, 0, 0, 0, 255, 255, 255],
    );
    let h = img.histogram();
    assert_eq!(h.counts[0], 3);
    assert_eq!(h.counts[254], 1);
    let chart = h.render();
    // column 0: height ceil(255 * 3 / 3) = 255
    assert_eq!(chart.pixels[1 * 256 + 0], 0);
    assert_eq!(chart.pixels[0 * 256 + 0], 255);
    // column 254: height 85, so rows 171..=255 are black, row 170 is white
    assert_eq!(chart.pixels[171 * 256 + 254], 0);
    assert_eq!(chart.pixels[170 * 256 + 254], 255);
}

#[test]
fn test_render_histogram() {
    // one-step tally and render over a mixed image
    let img = rgb_image(2, 1, vec![10, 20, 30, 200, 210, 220]);
    let chart = img.render_grayscale_histogram();
    assert_eq!(chart.width, 256);
    assert_eq!(chart.height, 256);
    // both luminances occur once, so both columns reach full height
    let l1 = luma_of(10, 20, 30) as usize;
    let l2 = luma_of(200, 210, 220) as usize;
    assert_eq!(chart.pixels[255 * 256 + l1], 0);
    assert_eq!(chart.pixels[255 * 256 + l2], 0);
}
