use fpi::pixel::{PixelBuffer, PixelFormat};

fn rgb_image(width: u32, height: u32, pixels: Vec<u8>) -> PixelBuffer {
    PixelBuffer::new(width, height, PixelFormat::Rgb8, pixels).unwrap()
}

#[test]
fn flip_h_mirrors_pixels() {
    // 2x1: left pixel (1,2,3), right pixel (4,5,6)
    let img = rgb_image(2, 1, vec![1, 2, 3, 4, 5, 6]);
    let out = img.flip_h();
    assert_eq!(out.pixels, vec![4, 5, 6, 1, 2, 3]);
    assert_eq!(out.width, 2);
    assert_eq!(out.height, 1);
    assert_eq!(out.format, PixelFormat::Rgb8);
}

#[test]
fn flip_v_swaps_rows() {
    // 1x2: top pixel (1,2,3), bottom pixel (4,5,6)
    let img = rgb_image(1, 2, vec![1, 2, 3, 4, 5, 6]);
    let out = img.flip_v();
    assert_eq!(out.pixels, vec![4, 5, 6, 1, 2, 3]);
}

#[test]
fn flip_h_involution() {
    let img = rgb_image(3, 2, (0u8..18u8).collect());
    let twice = img.flip_h().flip_h();
    assert_eq!(twice, img);
}

#[test]
fn flip_v_involution() {
    let img = rgb_image(2, 3, (10u8..28u8).collect());
    let twice = img.flip_v().flip_v();
    assert_eq!(twice, img);
}

#[test]
fn flip_v_naive_eq() {
    // the optimized row-swapping flip must match a naive per-pixel re-index
    let img = rgb_image(4, 5, (0u8..60u8).collect());
    let fast = img.flip_v();
    let mut naive = vec![0u8; 60];
    for y in 0..5usize {
        for x in 0..4usize {
            for c in 0..3usize {
                naive[(y * 4 + x) * 3 + c] = img.pixels[((5 - 1 - y) * 4 + x) * 3 + c];
            }
        }
    }
    assert_eq!(fast.pixels, naive);
}

#[test]
fn flip_odd_height_keeps_middle_row() {
    let img = rgb_image(1, 3, vec![1, 1, 1, 2, 2, 2, 3, 3, 3]);
    let out = img.flip_v();
    assert_eq!(out.pixels, vec![3, 3, 3, 2, 2, 2, 1, 1, 1]);
}
