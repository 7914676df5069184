use fpi::convolution::Kernel;
use fpi::ops::{apply_operation, Operation};
use fpi::pixel::{EngineError, PixelBuffer, PixelFormat};

fn rgb_image(width: u32, height: u32, pixels: Vec<u8>) -> PixelBuffer {
    PixelBuffer::new(width, height, PixelFormat::Rgb8, pixels).unwrap()
}

#[test]
fn new_rejects_bad_length() {
    let r = PixelBuffer::new(2, 2, PixelFormat::Rgb8, vec![0u8; 11]);
    assert_eq!(r, Err(EngineError::BadLength));
    let ok = PixelBuffer::new(2, 2, PixelFormat::Rgb8, vec![0u8; 12]);
    assert!(ok.is_ok());
    let gray = PixelBuffer::new(2, 2, PixelFormat::Gray8, vec![0u8; 4]);
    assert!(gray.is_ok());
}

#[test]
fn get_dimensions_reports_size() {
    let img = rgb_image(3, 2, vec![0u8; 18]);
    assert_eq!(img.get_dimensions(), (3, 2));
}

#[test]
fn apply_dispatches_flips() {
    let img = rgb_image(2, 1, vec![1, 2, 3, 4, 5, 6]);
    let flipped = apply_operation(&img, Operation::FlipH).unwrap();
    assert_eq!(flipped.pixels, vec![4, 5, 6, 1, 2, 3]);
    let same = apply_operation(&img, Operation::FlipV).unwrap();
    assert_eq!(same.pixels, img.pixels);
}

#[test]
fn apply_dispatches_photometric() {
    let img = rgb_image(1, 1, vec![100, 150, 200]);
    let gray = apply_operation(&img, Operation::Grayscale).unwrap();
    assert_eq!(gray.pixels, vec![139]);
    let gray_rgb = apply_operation(&img, Operation::GrayscaleRgb).unwrap();
    assert_eq!(gray_rgb.pixels, vec![139, 139, 139]);
    let brighter = apply_operation(&img, Operation::AdjustBrightness { delta: 60 }).unwrap();
    assert_eq!(brighter.pixels, vec![160, 210, 255]);
    let scaled = apply_operation(&img, Operation::AdjustContrast { factor: 2 }).unwrap();
    assert_eq!(scaled.pixels, vec![200, 255, 255]);
    let neg = apply_operation(&img, Operation::Negative).unwrap();
    assert_eq!(neg.pixels, vec![155, 105, 55]);
}

#[test]
fn apply_dispatches_zoom_and_convolution() {
    let img = rgb_image(2, 2, vec![0, 0, 0, 2, 2, 2, 4, 4, 4, 6, 6, 6]);
    let small = apply_operation(&img, Operation::ZoomOut { sx: 2, sy: 2 }).unwrap();
    assert_eq!(small.pixels, vec![3, 3, 3]);
    let big = apply_operation(&img, Operation::ZoomIn).unwrap();
    assert_eq!(big.width, 3);
    assert_eq!(big.height, 3);
    let identity = Kernel { num: [0, 0, 0, 0, 1, 0, 0, 0, 0], den: 1 };
    let conv = apply_operation(&img, Operation::Convolution { kernel: identity }).unwrap();
    assert_eq!(conv.width, 2);
    let quant = apply_operation(&img, Operation::Quantize { levels: 1 }).unwrap();
    assert_eq!(quant.format, PixelFormat::Gray8);
    let kept = apply_operation(&img, Operation::Identity).unwrap();
    assert_eq!(kept, img);
}

#[test]
fn apply_rejects_empty_image() {
    let img = PixelBuffer::new(0, 3, PixelFormat::Rgb8, vec![]).unwrap();
    assert_eq!(apply_operation(&img, Operation::FlipH), Err(EngineError::EmptyImage));
    assert_eq!(
        apply_operation(&img, Operation::Quantize { levels: 0 }),
        Err(EngineError::EmptyImage)
    );
}

#[test]
fn apply_rejects_zero_parameters() {
    let img = rgb_image(1, 1, vec![1, 2, 3]);
    assert_eq!(
        apply_operation(&img, Operation::ZoomOut { sx: 0, sy: 2 }),
        Err(EngineError::ZeroScale)
    );
    assert_eq!(
        apply_operation(&img, Operation::ZoomOut { sx: 2, sy: 0 }),
        Err(EngineError::ZeroScale)
    );
    assert_eq!(
        apply_operation(&img, Operation::Quantize { levels: 0 }),
        Err(EngineError::ZeroLevels)
    );
    let bad = Kernel { num: [1; 9], den: 0 };
    assert_eq!(
        apply_operation(&img, Operation::Convolution { kernel: bad }),
        Err(EngineError::ZeroScale)
    );
}
