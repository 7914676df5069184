use fpi::pixel::{PixelBuffer, PixelFormat};

fn rgb_image(width: u32, height: u32, pixels: Vec<u8>) -> PixelBuffer {
    PixelBuffer::new(width, height, PixelFormat::Rgb8, pixels).unwrap()
}

fn solid(width: u32, height: u32, rgb: [u8; 3]) -> PixelBuffer {
    let mut px: Vec<u8> = Vec::new();
    for _ in 0..(width * height) {
        px.extend_from_slice(&rgb);
    }
    rgb_image(width, height, px)
}

#[test]
fn zoom_out_dimensions_floor() {
    // 5x4 shrunk by 2x2 gives floor(5/2) x floor(4/2) = 2x2
    let img = solid(5, 4, [7, 8, 9]);
    let out = img.zoom_out(2, 2);
    assert_eq!(out.width, 2);
    assert_eq!(out.height, 2);
    assert_eq!(out.format, PixelFormat::Rgb8);
}

#[test]
fn zoom_out_uniform_color_is_kept() {
    let img = solid(6, 6, [13, 200, 77]);
    let out = img.zoom_out(3, 2);
    assert_eq!(out.width, 2);
    assert_eq!(out.height, 3);
    for p in out.pixels.chunks(3) {
        assert_eq!(p, [13, 200, 77]);
    }
}

#[test]
fn zoom_out_block_mean_truncates() {
    // one 2x1 block per channel: mean of 0 and 255 truncates to 127
    let img = rgb_image(2, 1, vec![0, 10, 255, 255, 11, 255]);
    let out = img.zoom_out(2, 1);
    assert_eq!(out.width, 1);
    assert_eq!(out.height, 1);
    assert_eq!(out.pixels, vec![127, 10, 255]);
}

#[test]
fn zoom_in_dimensions() {
    let img = solid(3, 3, [5, 5, 5]);
    let out = img.zoom_in();
    assert_eq!(out.width, 5);
    assert_eq!(out.height, 5);
    assert_eq!(out.format, PixelFormat::Rgb8);
}

#[test]
fn zoom_in_copies_source_at_even_positions() {
    let img = rgb_image(2, 2, vec![10, 11, 12, 20, 21, 22, 30, 31, 32, 40, 41, 42]);
    let out = img.zoom_in();
    // (0,0), (2,0), (0,2), (2,2) of the 3x3 output are the four sources
    let px = |x: usize, y: usize| &out.pixels[(y * 3 + x) * 3..(y * 3 + x) * 3 + 3];
    assert_eq!(px(0, 0), [10, 11, 12]);
    assert_eq!(px(2, 0), [20, 21, 22]);
    assert_eq!(px(0, 2), [30, 31, 32]);
    assert_eq!(px(2, 2), [40, 41, 42]);
}

#[test]
fn zoom_in_gradient_midpoints() {
    // a horizontally linear gradient: interpolated odd columns are midpoints
    let img = rgb_image(3, 1, vec![0, 0, 0, 100, 100, 100, 200, 200, 200]);
    let out = img.zoom_in();
    assert_eq!(out.width, 5);
    assert_eq!(out.height, 1);
    assert_eq!(out.pixels, vec![
        0, 0, 0, 50, 50, 50, 100, 100, 100, 150, 150, 150, 200, 200, 200,
    ]);
}

#[test]
fn zoom_in_center_averages_interpolations() {
    // corners 10, 20, 30, 40 on every channel; the odd/odd center averages
    // the horizontal interpolation of the vertical means with the vertical
    // interpolation of the horizontal means: both are 25, so the center is 25
    let img = rgb_image(2, 2, vec![10, 10, 10, 20, 20, 20, 30, 30, 30, 40, 40, 40]);
    let out = img.zoom_in();
    let center = &out.pixels[(1 * 3 + 1) * 3..(1 * 3 + 1) * 3 + 3];
    assert_eq!(center, [25, 25, 25]);
}
