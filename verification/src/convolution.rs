//! Generic 3x3 convolution filtering: the kernel is applied to every interior
//! pixel of the unconverted source image, while the border ring keeps the RGB
//! grayscale base that the filtered values are written into.

use vstd::prelude::*;

verus! {

use crate::pixel::{
    PixelBuffer,
    PixelFormat,
    flat_index,
    lemma_flat_index_bounds,
    lemma_write_preserves_others,
};
use crate::photometric::lum_at;
use vstd::arithmetic::div_mod::lemma_div_of0;

/// A 3x3 convolution kernel: nine weights in row-major order over the
/// neighborhood offsets `(-1,-1)` to `(1,1)`, each the rational number
/// `num[i] / den` with one shared positive denominator.
#[derive(Clone, Copy, Debug, PartialEq)]
pub struct Kernel {
    pub num: [i32; 9],
    pub den: u32,
}

impl Kernel {
    /// The shared denominator is positive.
    pub open spec fn wf(self) -> bool {
        self.den >= 1
    }
}

/// Sum of the numerators of the first `i` kernel cells.
pub open spec fn num_sum(k: Kernel, i: int) -> int
    decreases i,
{
    if i <= 0 {
        0
    } else {
        num_sum(k, i - 1) + k.num[i - 1]
    }
}

/// Weighted sum (in numerator units) of the first `i` kernel cells over the
/// 3x3 neighborhood of `(x, y)` on channel `c` of the source image: cell
/// `i` reads the pixel at column offset `i % 3 - 1` and row offset
/// `i / 3 - 1`.
pub open spec fn conv_sum(src: PixelBuffer, k: Kernel, x: int, y: int, c: int, i: int) -> int
    decreases i,
{
    if i <= 0 {
        0
    } else {
        conv_sum(src, k, x, y, c, i - 1) + (k.num[i - 1]) * src.at(
            x + (i - 1) % 3 - 1,
            y + (i - 1) / 3 - 1,
            c,
        )
    }
}

/// The byte that convolution writes at an interior position: the weighted
/// neighborhood sum divided by the kernel denominator, truncated toward zero
/// and clamped to the byte range.
pub open spec fn conv_val(src: PixelBuffer, k: Kernel, x: int, y: int, c: int) -> int {
    let s = conv_sum(src, k, x, y, c, 9);
    if s < 0 {
        0
    } else if s / (k.den as int) > 255 {
        255
    } else {
        s / (k.den as int)
    }
}

/// A weighted sum of at most nine byte values with 32-bit weights stays well
/// inside the 64-bit range.
proof fn lemma_conv_sum_bounds(src: PixelBuffer, k: Kernel, x: int, y: int, c: int, i: int)
    requires
        0 <= i <= 9,
    ensures
        -i * 0x8000_0000 * 255 <= conv_sum(src, k, x, y, c, i) <= i * 0x8000_0000 * 255,
    decreases i,
{
    if i > 0 {
        lemma_conv_sum_bounds(src, k, x, y, c, i - 1);
        let a: int = k.num[i - 1] as int;
        let b: int = src.at(x + (i - 1) % 3 - 1, y + (i - 1) / 3 - 1, c) as int;
        assert(-0x8000_0000 * 255 <= a * b <= 0x8000_0000 * 255) by (nonlinear_arith)
            requires
                -0x8000_0000 <= a < 0x8000_0000,
                0 <= b <= 255,
        ;
        assert(-(i - 1) * 0x8000_0000 * 255 - 0x8000_0000 * 255 == -i * 0x8000_0000 * 255)
            by (nonlinear_arith);
        assert((i - 1) * 0x8000_0000 * 255 + 0x8000_0000 * 255 == i * 0x8000_0000 * 255)
            by (nonlinear_arith);
    } else {
        assert(i * 0x8000_0000 * 255 == 0) by (nonlinear_arith)
            requires
                i == 0,
        ;
    }
}

/// Over a channel that is uniformly `v`, the weighted neighborhood sum equals
/// the kernel's numerator sum times `v`.
proof fn lemma_conv_sum_uniform(
    src: PixelBuffer,
    k: Kernel,
    x: int,
    y: int,
    c: int,
    v: u8,
    i: int,
)
    requires
        0 <= i <= 9,
        0 < x < src.width - 1,
        0 < y < src.height - 1,
        forall|xx: int, yy: int|
            0 <= xx < src.width && 0 <= yy < src.height ==> #[trigger] src.at(xx, yy, c) == v,
    ensures
        conv_sum(src, k, x, y, c, i) == num_sum(k, i) * v,
    decreases i,
{
    if i > 0 {
        lemma_conv_sum_uniform(src, k, x, y, c, v, i - 1);
        assert(src.at(x + (i - 1) % 3 - 1, y + (i - 1) / 3 - 1, c) == v);
        assert(num_sum(k, i - 1) * v + k.num[i - 1] * v == num_sum(k, i) * v) by (nonlinear_arith)
            requires
                num_sum(k, i) == num_sum(k, i - 1) + k.num[i - 1],
        ;
    } else {
        assert(num_sum(k, i) * v == 0) by (nonlinear_arith)
            requires
                num_sum(k, i) == 0,
        ;
    }
}

/// A kernel whose weights sum to zero maps an image whose channel `c` is
/// uniformly `v` to black at every interior pixel; the border ring keeps the
/// grayscale base.
pub proof fn lemma_convolution_zero_sum_uniform(
    src: PixelBuffer,
    k: Kernel,
    dst: PixelBuffer,
    c: int,
    v: u8,
)
    requires
        src.wf(),
        src.format == PixelFormat::Rgb8,
        k.wf(),
        num_sum(k, 9) == 0,
        0 <= c < 3,
        forall|x: int, y: int|
            0 <= x < src.width && 0 <= y < src.height ==> #[trigger] src.at(x, y, c) == v,
        is_convolution(src, k, dst),
    ensures
        forall|x: int, y: int|
            0 < x < src.width - 1 && 0 < y < src.height - 1 ==> #[trigger] dst.at(x, y, c) == 0,
{
    assert forall|x: int, y: int|
        0 < x < src.width - 1 && 0 < y < src.height - 1 implies #[trigger] dst.at(x, y, c)
        == 0 by {
        lemma_conv_sum_uniform(src, k, x, y, c, v, 9);
        assert(num_sum(k, 9) * v == 0) by (nonlinear_arith)
            requires
                num_sum(k, 9) == 0,
        ;
        lemma_div_of0(k.den as int);
    }
}

/// `dst` is `src` filtered with kernel `k`: every interior pixel holds the
/// clamped weighted sum of its source 3x3 neighborhood, and the border ring
/// keeps the RGB grayscale of `src`.
pub open spec fn is_convolution(src: PixelBuffer, k: Kernel, dst: PixelBuffer) -> bool {
    &&& dst.wf()
    &&& dst.width == src.width
    &&& dst.height == src.height
    &&& dst.format == PixelFormat::Rgb8
    &&& forall|x: int, y: int, c: int|
        0 <= x < src.width && 0 <= y < src.height && 0 <= c < 3 && (x == 0 || y == 0 || x
            == src.width - 1 || y == src.height - 1) ==> #[trigger] dst.at(x, y, c) == lum_at(
            src,
            y * src.width + x,
        )
    &&& forall|x: int, y: int, c: int|
        0 < x < src.width - 1 && 0 < y < src.height - 1 && 0 <= c < 3 ==> #[trigger] dst.at(x, y, c)
            == conv_val(src, k, x, y, c)
}

impl PixelBuffer {
    /// Filters the image with a 3x3 kernel. Interior pixels get the clamped
    /// weighted sum of their source-image neighborhood; the border ring keeps the
    /// RGB grayscale base that the results are written into.
    #[verifier::loop_isolation(false)]
    #[verifier::rlimit(50)]
    pub fn convolution(&self, kernel: Kernel) -> (r: PixelBuffer)
        requires
            self.wf(),
            self.format == PixelFormat::Rgb8,
            self.width >= 1,
            self.height >= 1,
            kernel.wf(),
        ensures
            is_convolution(*self, kernel, r),
    {
        let w: u32 = self.width;
        let h: u32 = self.height;
        let base: PixelBuffer = self.to_grayscale_rgb();
        let mut buf: Vec<u8> = base.pixels;
        let total: usize = buf.len();
        proof {
            assert forall|x0: int, y0: int, c0: int|
                0 <= x0 < w && 0 <= y0 < h && 0 <= c0 < 3 implies #[trigger] buf@[(y0 * w + x0) * 3
                + c0] == lum_at(*self, y0 * w + x0) by {
                lemma_flat_index_bounds(w as int, h as int, 3, x0, y0, c0);
                assert(buf@[3 * (y0 * w + x0) + c0] == lum_at(*self, y0 * w + x0));
            }
        }
        let mut y: u32 = 1;
        while y < h - 1
            invariant
                1 <= y,
                y <= h - 1 || y == 1,
                buf@.len() == total,
                forall|x0: int, y0: int, c0: int|
                    0 <= x0 < w && 0 <= y0 < h && 0 <= c0 < 3 && !(0 < x0 < w - 1 && 0 < y0 < y)
                        ==> #[trigger] buf@[(y0 * w + x0) * 3 + c0] == lum_at(*self, y0 * w + x0),
                forall|x0: int, y0: int, c0: int|
                    0 < x0 < w - 1 && 0 < y0 < y && y0 < h - 1 && 0 <= c0 < 3 ==> #[trigger] buf@[(
                    y0 * w + x0) * 3 + c0] == conv_val(*self, kernel, x0, y0, c0),
            decreases h - y,
        {
            let mut x: u32 = 1;
            while x < w - 1
                invariant
                    1 <= y,
                    y + 1 < h,
                    1 <= x,
                    x <= w - 1 || x == 1,
                    buf@.len() == total,
                    forall|x0: int, y0: int, c0: int|
                        0 <= x0 < w && 0 <= y0 < h && 0 <= c0 < 3 && !(0 < x0 < w - 1 && 0 < y0 < y)
                            && !(y0 == y && 0 < x0 < x) ==> #[trigger] buf@[(y0 * w + x0) * 3 + c0]
                            == lum_at(*self, y0 * w + x0),
                    forall|x0: int, y0: int, c0: int|
                        ((0 < x0 < w - 1 && 0 < y0 < y) || (y0 == y && 0 < x0 < x)) && 0 <= c0 < 3
                            ==> #[trigger] buf@[(y0 * w + x0) * 3 + c0] == conv_val(
                            *self,
                            kernel,
                            x0,
                            y0,
                            c0,
                        ),
                decreases w - x,
            {
                let mut c: u32 = 0;
                while c < 3
                    invariant
                        1 <= y,
                        y + 1 < h,
                        1 <= x,
                        x + 1 < w,
                        c <= 3,
                        buf@.len() == total,
                        forall|x0: int, y0: int, c0: int|
                            0 <= x0 < w && 0 <= y0 < h && 0 <= c0 < 3 && !(0 < x0 < w - 1 && 0 < y0
                                < y) && !(y0 == y && 0 < x0 < x) && !(y0 == y && x0 == x && c0 < c)
                                ==> #[trigger] buf@[(y0 * w + x0) * 3 + c0] == lum_at(
                                *self,
                                y0 * w + x0,
                            ),
                        forall|x0: int, y0: int, c0: int|
                            ((0 < x0 < w - 1 && 0 < y0 < y) || (y0 == y && 0 < x0 < x) || (y0 == y
                                && x0 == x && c0 < c)) && 0 <= c0 < 3 ==> #[trigger] buf@[(y0 * w
                                + x0) * 3 + c0] == conv_val(*self, kernel, x0, y0, c0),
                    decreases 3 - c,
                {
                    let mut s: i64 = 0;
                    let mut i: usize = 0;
                    while i < 9
                        invariant
                            i <= 9,
                            s == conv_sum(*self, kernel, x as int, y as int, c as int, i as int),
                        decreases 9 - i,
                    {
                        proof {
                            lemma_conv_sum_bounds(
                                *self,
                                kernel,
                                x as int,
                                y as int,
                                c as int,
                                i as int,
                            );
                        }
                        let px: u32 = x - 1 + ((i as u32) % 3);
                        let py: u32 = y - 1 + ((i as u32) / 3);
                        let v: u8 = self.get(px, py, c);
                        let wgt: i32 = kernel.num[i];
                        proof {
                            assert(-0x8000_0000 * 255 <= (wgt as int) * (v as int) <= 0x8000_0000
                                * 255) by (nonlinear_arith)
                                requires
                                    -0x8000_0000 <= wgt < 0x8000_0000,
                                    0 <= v <= 255,
                            ;
                        }
                        s = s + (wgt as i64) * (v as i64);
                        i = i + 1;
                    }
                    let q: u8 = if s < 0 {
                        0
                    } else {
                        proof {
                            lemma_conv_sum_bounds(*self, kernel, x as int, y as int, c as int, 9);
                        }
                        let t: u64 = (s as u64) / (kernel.den as u64);
                        if t > 255 {
                            255
                        } else {
                            t as u8
                        }
                    };
                    assert(q == conv_val(*self, kernel, x as int, y as int, c as int));
                    let iw: usize = flat_index(w, h, 3, x, y, c as usize, total);
                    let ghost prev: Seq<u8> = buf@;
                    buf[iw] = q;
                    proof {
                        lemma_write_preserves_others(
                            prev,
                            buf@,
                            w as int,
                            h as int,
                            x as int,
                            y as int,
                            c as int,
                            q,
                        );
                    }
                    c = c + 1;
                }
                x = x + 1;
            }
            proof {
                assert forall|x0: int, y0: int, c0: int|
                    0 <= x0 < w && 0 <= y0 < h && 0 <= c0 < 3 && !(0 < x0 < w - 1 && 0 < y0 < y + 1)
                    implies #[trigger] buf@[(y0 * w + x0) * 3 + c0] == lum_at(
                    *self,
                    y0 * w + x0,
                ) by {
                    assert(!(0 < x0 < w - 1 && 0 < y0 < y));
                    assert(!(y0 == y && 0 < x0 < x));
                }
            }
            y = y + 1;
        }
        let r = PixelBuffer { width: w, height: h, format: PixelFormat::Rgb8, pixels: buf };
        proof {
            assert forall|x0: int, y0: int, c0: int|
                0 <= x0 < w && 0 <= y0 < h && 0 <= c0 < 3 && (x0 == 0 || y0 == 0 || x0 == w - 1
                    || y0 == h - 1) implies #[trigger] r.at(x0, y0, c0) == lum_at(
                *self,
                y0 * w + x0,
            ) by {
                lemma_flat_index_bounds(w as int, h as int, 3, x0, y0, c0);
                assert(buf@[(y0 * w + x0) * 3 + c0] == lum_at(*self, y0 * w + x0));
            }
            assert forall|x0: int, y0: int, c0: int|
                0 < x0 < w - 1 && 0 < y0 < h - 1 && 0 <= c0 < 3 implies #[trigger] r.at(x0, y0, c0)
                == conv_val(*self, kernel, x0, y0, c0) by {
                lemma_flat_index_bounds(w as int, h as int, 3, x0, y0, c0);
                assert(buf@[(y0 * w + x0) * 3 + c0] == conv_val(*self, kernel, x0, y0, c0));
            }
        }
        r
    }
}

} // verus!
