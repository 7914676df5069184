use fpi::convolution::Kernel;
use fpi::pixel::{PixelBuffer, PixelFormat};

fn rgb_image(width: u32, height: u32, pixels: Vec<u8>) -> PixelBuffer {
    PixelBuffer::new(width, height, PixelFormat::Rgb8, pixels).unwrap()
}

fn solid(width: u32, height: u32, rgb: [u8; 3]) -> PixelBuffer {
    let mut px: Vec<u8> = Vec::new();
    for _ in 0..(width * height) {
        px.extend_from_slice(&rgb);
    }
    rgb_image(width, height, px)
}

fn luma_of(r: u8, g: u8, b: u8) -> u8 {
    ((299 * (r as u32)) / 1000 + (587 * (g as u32)) / 1000 + (114 * (b as u32)) / 1000) as u8
}

#[test]
fn convolution_identity_kernel_keeps_interior() {
    let mut px: Vec<u8> = Vec::new();
    for i in 0..27u8 {
        px.push(i * 9);
    }
    let img = rgb_image(3, 3, px);
    let identity = Kernel { num: [0, 0, 0, 0, 1, 0, 0, 0, 0], den: 1 };
    let out = img.convolution(identity);
    // the single interior pixel keeps its source channels
    let center = &out.pixels[(1 * 3 + 1) * 3..(1 * 3 + 1) * 3 + 3];
    let orig = &img.pixels[(1 * 3 + 1) * 3..(1 * 3 + 1) * 3 + 3];
    assert_eq!(center, orig);
}

#[test]
fn convolution_border_is_grayscale_base() {
    let img = solid(4, 4, [80, 120, 200]);
    let laplacian = Kernel { num: [0, 1, 0, 1, -4, 1, 0, 1, 0], den: 1 };
    let out = img.convolution(laplacian);
    let l = luma_of(80, 120, 200);
    for y in 0..4usize {
        for x in 0..4usize {
            let p = &out.pixels[(y * 4 + x) * 3..(y * 4 + x) * 3 + 3];
            if x == 0 || y == 0 || x == 3 || y == 3 {
                // border ring: untouched grayscale base
                assert_eq!(p, [l, l, l]);
            } else {
                // a zero-sum kernel on a uniform image yields black
                assert_eq!(p, [0, 0, 0]);
            }
        }
    }
}

#[test]
fn convolution_box_blur_keeps_uniform_value() {
    // all-ones kernel over nine identical pixels, divided by nine
    let img = solid(3, 3, [60, 90, 120]);
    let blur = Kernel { num: [1; 9], den: 9 };
    let out = img.convolution(blur);
    let center = &out.pixels[(1 * 3 + 1) * 3..(1 * 3 + 1) * 3 + 3];
    assert_eq!(center, [60, 90, 120]);
}

#[test]
fn convolution_clamps_negative_sums() {
    // a negating kernel drives every interior channel below zero
    let img = solid(3, 3, [200, 200, 200]);
    let neg = Kernel { num: [0, 0, 0, 0, -1, 0, 0, 0, 0], den: 1 };
    let out = img.convolution(neg);
    let center = &out.pixels[(1 * 3 + 1) * 3..(1 * 3 + 1) * 3 + 3];
    assert_eq!(center, [0, 0, 0]);
}

#[test]
fn convolution_clamps_large_sums() {
    let img = solid(3, 3, [200, 10, 10]);
    let amplify = Kernel { num: [0, 0, 0, 0, 3, 0, 0, 0, 0], den: 1 };
    let out = img.convolution(amplify);
    let center = &out.pixels[(1 * 3 + 1) * 3..(1 * 3 + 1) * 3 + 3];
    assert_eq!(center, [255, 30, 30]);
}

#[test]
fn convolution_truncates_toward_zero() {
    // sum 5 over denominator 2 truncates to 2
    let img = solid(3, 3, [5, 7, 9]);
    let half = Kernel { num: [0, 0, 0, 0, 1, 0, 0, 0, 0], den: 2 };
    let out = img.convolution(half);
    let center = &out.pixels[(1 * 3 + 1) * 3..(1 * 3 + 1) * 3 + 3];
    assert_eq!(center, [2, 3, 4]);
}
