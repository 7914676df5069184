//! The operation dispatcher: a tagged request is mapped to the corresponding
//! transform, after its preconditions have been checked. This is the one
//! call surface that outside collaborators (user interface, file handling)
//! are expected to use.

use vstd::prelude::*;

verus! {

use crate::convolution::{Kernel, is_convolution};
use crate::geometry::{is_flip_h, is_flip_v};
use crate::photometric::{
    is_brightness,
    is_contrast,
    is_grayscale,
    is_grayscale_rgb,
    is_negative,
    is_quantized,
};
use crate::pixel::{EngineError, PixelBuffer, PixelFormat, clone_bytes};
use crate::zoom::{is_zoom_in, is_zoom_out};

/// A requested transform together with its parameters.
#[derive(Clone, Copy, Debug, PartialEq)]
pub enum Operation {
    /// Mirror left-to-right.
    FlipH,
    /// Mirror top-to-bottom.
    FlipV,
    /// Luminance grayscale, single-channel output.
    Grayscale,
    /// Luminance grayscale replicated into an RGB output.
    GrayscaleRgb,
    /// Posterize the luminance into `levels` bins.
    Quantize { levels: u8 },
    /// Raise every color channel by `delta`, saturating at white.
    AdjustBrightness { delta: u8 },
    /// Scale every color channel by `factor`, saturating at white.
    AdjustContrast { factor: u8 },
    /// Replace every color channel by its distance from white.
    Negative,
    /// Shrink by block-averaging with `sx`-by-`sy` blocks.
    ZoomOut { sx: u8, sy: u8 },
    /// Double to `(2 width - 1)`-by-`(2 height - 1)` with interpolation.
    ZoomIn,
    /// Filter with a 3x3 kernel.
    Convolution { kernel: Kernel },
    /// Return the image unchanged.
    Identity,
}

/// What `apply_operation` owes for image `img` and request `op` when every
/// precondition holds.
pub open spec fn op_post(img: PixelBuffer, op: Operation, out: PixelBuffer) -> bool {
    match op {
        Operation::FlipH => is_flip_h(img, out),
        Operation::FlipV => is_flip_v(img, out),
        Operation::Grayscale => is_grayscale(img, out),
        Operation::GrayscaleRgb => is_grayscale_rgb(img, out),
        Operation::Quantize { levels } => is_quantized(img, levels, out),
        Operation::AdjustBrightness { delta } => is_brightness(img, delta, out),
        Operation::AdjustContrast { factor } => is_contrast(img, factor, out),
        Operation::Negative => is_negative(img, out),
        Operation::ZoomOut { sx, sy } => is_zoom_out(img, sx, sy, out),
        Operation::ZoomIn => is_zoom_in(img, out),
        Operation::Convolution { kernel } => is_convolution(img, kernel, out),
        Operation::Identity => out.wf() && img.same_shape(out) && out.pixels@ == img.pixels@,
    }
}

/// Whether `img` and `op` meet every precondition of the requested transform:
/// the image is non-empty, parameters are nonzero where the transform divides
/// by them, and an enlarged image still fits in memory.
pub open spec fn op_ok(img: PixelBuffer, op: Operation) -> bool {
    &&& img.width >= 1
    &&& img.height >= 1
    &&& match op {
        Operation::Quantize { levels } => levels >= 1,
        Operation::ZoomOut { sx, sy } => sx >= 1 && sy >= 1,
        Operation::ZoomIn => img.width < 0x8000_0000 && img.height < 0x8000_0000 && (2 * img.width
            - 1) * (2 * img.height - 1) * 3 <= usize::MAX,
        Operation::Convolution { kernel } => kernel.den >= 1,
        _ => true,
    }
}

/// The error owed when a precondition fails: an empty image is reported
/// before any parameter fault.
pub open spec fn op_err(img: PixelBuffer, op: Operation) -> EngineError {
    if img.width == 0 || img.height == 0 {
        EngineError::EmptyImage
    } else {
        match op {
            Operation::Quantize { .. } => EngineError::ZeroLevels,
            Operation::ZoomOut { .. } => EngineError::ZeroScale,
            Operation::ZoomIn => EngineError::TooLarge,
            Operation::Convolution { .. } => EngineError::ZeroScale,
            _ => EngineError::EmptyImage,
        }
    }
}

/// Maps a requested operation to the corresponding transform. Fails fast
/// with a descriptive error on a precondition violation instead of producing
/// garbage or panicking.
pub fn apply_operation(img: &PixelBuffer, op: Operation) -> (r: Result<PixelBuffer, EngineError>)
    requires
        img.wf(),
        img.format == PixelFormat::Rgb8,
    ensures
        op_ok(*img, op) ==> (r matches Ok(out) && op_post(*img, op, out)),
        !op_ok(*img, op) ==> r == Err::<PixelBuffer, EngineError>(op_err(*img, op)),
{
    if img.width == 0 || img.height == 0 {
        return Err(EngineError::EmptyImage);
    }
    proof {
        assert(img.width * img.height >= 1) by (nonlinear_arith)
            requires
                img.width >= 1,
                img.height >= 1,
        ;
    }
    match op {
        Operation::FlipH => Ok(img.flip_h()),
        Operation::FlipV => Ok(img.flip_v()),
        Operation::Grayscale => Ok(img.to_grayscale()),
        Operation::GrayscaleRgb => Ok(img.to_grayscale_rgb()),
        Operation::Quantize { levels } => {
            if levels == 0 {
                Err(EngineError::ZeroLevels)
            } else {
                Ok(img.quantize_grayscale(levels))
            }
        },
        Operation::AdjustBrightness { delta } => Ok(img.adjust_brightness(delta)),
        Operation::AdjustContrast { factor } => Ok(img.adjust_contrast_2(factor)),
        Operation::Negative => Ok(img.negative()),
        Operation::ZoomOut { sx, sy } => {
            if sx == 0 || sy == 0 {
                Err(EngineError::ZeroScale)
            } else {
                Ok(img.zoom_out(sx, sy))
            }
        },
        Operation::ZoomIn => {
            if img.width >= 0x8000_0000 || img.height >= 0x8000_0000 {
                Err(EngineError::TooLarge)
            } else {
                let bw: u64 = 2 * (img.width as u64) - 1;
                let bh: u64 = 2 * (img.height as u64) - 1;
                proof {
                    assert((bw as int) * (bh as int) * 3 < 0x1_0000_0000_0000_0000_0000)
                        by (nonlinear_arith)
                        requires
                            0 <= bw < 0x1_0000_0000,
                            0 <= bh < 0x1_0000_0000,
                    ;
                }
                let need: u128 = (bw as u128) * (bh as u128) * 3;
                if need > (usize::MAX as u128) {
                    Err(EngineError::TooLarge)
                } else {
                    Ok(img.zoom_in())
                }
            }
        },
        Operation::Convolution { kernel } => {
            if kernel.den == 0 {
                Err(EngineError::ZeroScale)
            } else {
                Ok(img.convolution(kernel))
            }
        },
        Operation::Identity => {
            let copy = PixelBuffer {
                width: img.width,
                height: img.height,
                format: img.format,
                pixels: clone_bytes(&img.pixels),
            };
            Ok(copy)
        },
    }
}

} // verus!
