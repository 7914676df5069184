//! Photometric transforms that change pixel values in place: luminance
//! grayscale conversion, brightness, contrast, negative, and grayscale
//! quantization (posterization).

use vstd::prelude::*;

verus! {

use crate::pixel::{PixelBuffer, PixelFormat, lemma_flat_index_bounds, lemma_pixelwise_eq};
use vstd::arithmetic::div_mod::{
    lemma_fundamental_div_mod,
    lemma_mod_bound,
    lemma_div_pos_is_pos,
    lemma_basic_div,
    lemma_div_non_zero,
    lemma_mod_multiples_basic,
    lemma_multiply_divide_lt,
};
use vstd::arithmetic::mul::lemma_mul_inequality;
use vstd::set_lib::{lemma_int_range, lemma_len_subset, lemma_map_size_bound, set_int_range};

/// Integer luminance of an RGB triple: each weighted term is truncated toward
/// zero before the three are summed, i.e.
/// `floor(0.299 R) + floor(0.587 G) + floor(0.114 B)` with the weights taken
/// in thousandths.
pub open spec fn luma(r: u8, g: u8, b: u8) -> int {
    299 * r / 1000 + 587 * g / 1000 + 114 * b / 1000
}

/// Luminance always fits in a byte; the weights sum to slightly below one, so
/// the truncated terms can reach at most `76 + 149 + 29`.
pub proof fn lemma_luma_bounds(r: u8, g: u8, b: u8)
    ensures
        0 <= luma(r, g, b) <= 254,
{
    assert(299 * r / 1000 <= 76);
    assert(587 * g / 1000 <= 149);
    assert(114 * b / 1000 <= 29);
}

/// Luminance of source pixel number `p` (row-major) of an RGB image.
pub open spec fn lum_at(src: PixelBuffer, p: int) -> int {
    luma(src.pixels@[3 * p], src.pixels@[3 * p + 1], src.pixels@[3 * p + 2])
}

/// `dst` is the single-channel luminance image of the RGB image `src`.
pub open spec fn is_grayscale(src: PixelBuffer, dst: PixelBuffer) -> bool {
    &&& dst.wf()
    &&& dst.width == src.width
    &&& dst.height == src.height
    &&& dst.format == PixelFormat::Gray8
    &&& forall|p: int|
        0 <= p < src.width * src.height ==> #[trigger] dst.pixels@[p] == lum_at(src, p)
}

/// `dst` replicates the luminance of `src` into all three channels of an RGB
/// image.
pub open spec fn is_grayscale_rgb(src: PixelBuffer, dst: PixelBuffer) -> bool {
    &&& dst.wf()
    &&& dst.width == src.width
    &&& dst.height == src.height
    &&& dst.format == PixelFormat::Rgb8
    &&& forall|p: int, c: int|
        0 <= p < src.width * src.height && 0 <= c < 3 ==> #[trigger] dst.pixels@[3 * p + c]
            == lum_at(src, p)
}

/// Computes the luminance byte of one RGB pixel.
pub fn luma_byte(r: u8, g: u8, b: u8) -> (l: u8)
    ensures
        l == luma(r, g, b),
{
    proof {
        lemma_luma_bounds(r, g, b);
    }
    let t: u32 = (299 * (r as u32)) / 1000 + (587 * (g as u32)) / 1000 + (114 * (b as u32)) / 1000;
    t as u8
}

/// Smallest luminance among the first `n` pixels of `src`.
pub open spec fn min_lum_upto(src: PixelBuffer, n: int) -> int
    decreases n,
{
    if n <= 1 {
        lum_at(src, 0)
    } else if lum_at(src, n - 1) < min_lum_upto(src, n - 1) {
        lum_at(src, n - 1)
    } else {
        min_lum_upto(src, n - 1)
    }
}

/// Largest luminance among the first `n` pixels of `src`.
pub open spec fn max_lum_upto(src: PixelBuffer, n: int) -> int
    decreases n,
{
    if n <= 1 {
        lum_at(src, 0)
    } else if lum_at(src, n - 1) > max_lum_upto(src, n - 1) {
        lum_at(src, n - 1)
    } else {
        max_lum_upto(src, n - 1)
    }
}

/// Smallest luminance present in `src`.
pub open spec fn min_lum(src: PixelBuffer) -> int {
    min_lum_upto(src, src.width * src.height)
}

/// Largest luminance present in `src`.
pub open spec fn max_lum(src: PixelBuffer) -> int {
    max_lum_upto(src, src.width * src.height)
}

/// Dynamic range of `src`: how many luminance values lie between the smallest
/// and the largest one present, both included.
pub open spec fn lum_interval(src: PixelBuffer) -> int {
    max_lum(src) - min_lum(src) + 1
}

/// Every pixel's luminance lies between the running minimum and maximum.
pub proof fn lemma_lum_within_range(src: PixelBuffer, n: int, p: int)
    requires
        0 <= p < n,
    ensures
        min_lum_upto(src, n) <= lum_at(src, p) <= max_lum_upto(src, n),
    decreases n,
{
    if p < n - 1 {
        lemma_lum_within_range(src, n - 1, p);
    }
}

/// Bin representative of luminance `l`, for minimum `m` and bin size `bs`:
/// the lowest luminance of the bin that `l` falls into.
pub open spec fn quant_val(l: int, m: int, bs: int) -> int {
    m + (l - m) / bs * bs
}

/// A bin representative lies between the image minimum and the luminance it
/// stands for.
pub proof fn lemma_quant_val_le(l: int, m: int, bs: int)
    requires
        0 < bs,
        m <= l,
    ensures
        m <= quant_val(l, m, bs) <= l,
{
    lemma_fundamental_div_mod(l - m, bs);
    lemma_mod_bound(l - m, bs);
    lemma_div_pos_is_pos(l - m, bs);
    assert((l - m) / bs * bs == bs * ((l - m) / bs)) by (nonlinear_arith);
    assert((l - m) / bs * bs >= 0) by (nonlinear_arith)
        requires
            (l - m) / bs >= 0,
            bs > 0,
    ;
}

/// `dst` is the grayscale quantization of `src` into `levels` bins: when the
/// requested resolution exceeds the dynamic range the operation degrades to
/// the plain RGB grayscale of `src`; otherwise every luminance is replaced by
/// the representative of its bin in a single-channel output.
pub open spec fn is_quantized(src: PixelBuffer, levels: u8, dst: PixelBuffer) -> bool {
    if levels > lum_interval(src) {
        is_grayscale_rgb(src, dst)
    } else {
        &&& dst.wf()
        &&& dst.width == src.width
        &&& dst.height == src.height
        &&& dst.format == PixelFormat::Gray8
        &&& forall|p: int|
            0 <= p < src.width * src.height ==> #[trigger] dst.pixels@[p] == quant_val(
                lum_at(src, p),
                min_lum(src),
                lum_interval(src) / (levels as int),
            )
    }
}

/// Quantization uses at most `levels` distinct output values: every output
/// luminance is a bin representative, congruent to the image minimum modulo
/// the bin size and at most `levels - 1` bins above it. This holds whenever
/// `levels` divides the dynamic range exactly; with a remainder, the topmost
/// luminances spill into one extra bin.
pub proof fn lemma_quantize_bin_count(src: PixelBuffer, levels: u8, dst: PixelBuffer)
    requires
        src.wf(),
        src.width * src.height >= 1,
        1 <= levels <= lum_interval(src),
        lum_interval(src) % (levels as int) == 0,
        is_quantized(src, levels, dst),
    ensures
        forall|p: int|
            0 <= p < src.width * src.height ==> ((#[trigger] dst.pixels@[p] - min_lum(src)) % (
            lum_interval(src) / (levels as int)) == 0 && min_lum(src) <= dst.pixels@[p] <= min_lum(
                src,
            ) + (levels - 1) * (lum_interval(src) / (levels as int))),
{
    let m: int = min_lum(src);
    let iv: int = lum_interval(src);
    let lv: int = levels as int;
    let bs: int = iv / lv;
    lemma_div_non_zero(iv, lv);
    lemma_fundamental_div_mod(iv, lv);
    assert forall|p: int| 0 <= p < src.width * src.height implies ((#[trigger] dst.pixels@[p] - m)
        % bs == 0 && m <= dst.pixels@[p] <= m + (lv - 1) * bs) by {
        lemma_lum_within_range(src, src.width * src.height, p);
        let l: int = lum_at(src, p);
        assert(dst.pixels@[p] == quant_val(l, m, bs));
        let k: int = (l - m) / bs;
        lemma_div_pos_is_pos(l - m, bs);
        assert(l - m < bs * lv) by (nonlinear_arith)
            requires
                l - m <= iv - 1,
                iv == lv * bs,
        ;
        lemma_multiply_divide_lt(l - m, bs, lv);
        lemma_mod_multiples_basic(k, bs);
        lemma_mul_inequality(k, lv - 1, bs);
        lemma_quant_val_le(l, m, bs);
    }
}

/// Quantization with `levels` bins leaves at most `levels` distinct
/// luminance values in the output — again provided that `levels` divides the
/// dynamic range exactly.
pub proof fn lemma_quantize_distinct_bound(src: PixelBuffer, levels: u8, dst: PixelBuffer)
    requires
        src.wf(),
        src.width * src.height >= 1,
        1 <= levels <= lum_interval(src),
        lum_interval(src) % (levels as int) == 0,
        is_quantized(src, levels, dst),
    ensures
        dst.pixels@.to_set().len() <= levels,
{
    let m: int = min_lum(src);
    let iv: int = lum_interval(src);
    let lv: int = levels as int;
    let bs: int = iv / lv;
    lemma_div_non_zero(iv, lv);
    lemma_fundamental_div_mod(iv, lv);
    let f = |k: int| (m + k * bs) as u8;
    let dom = set_int_range(0, lv);
    let reps = dom.map(f);
    lemma_int_range(0, lv);
    lemma_map_size_bound(dom, reps, f);
    assert((src.width * src.height) * 1 == src.width * src.height) by (nonlinear_arith);
    assert forall|b: u8| dst.pixels@.to_set().contains(b) implies reps.contains(b) by {
        let i = choose|i: int| 0 <= i < dst.pixels@.len() && dst.pixels@[i] == b;
        lemma_lum_within_range(src, src.width * src.height, i);
        let l: int = lum_at(src, i);
        assert(dst.pixels@[i] == quant_val(l, m, bs));
        let k: int = (l - m) / bs;
        lemma_div_pos_is_pos(l - m, bs);
        assert(l - m < bs * lv) by (nonlinear_arith)
            requires
                l - m <= iv - 1,
                iv == lv * bs,
        ;
        lemma_multiply_divide_lt(l - m, bs, lv);
        lemma_quant_val_le(l, m, bs);
        assert(dom.contains(k) && b == f(k));
    }
    lemma_len_subset(dst.pixels@.to_set(), reps);
}

/// With a single level the whole image collapses to its minimum luminance.
pub proof fn lemma_quantize_one_level(src: PixelBuffer, dst: PixelBuffer)
    requires
        src.wf(),
        src.width * src.height >= 1,
        is_quantized(src, 1, dst),
    ensures
        forall|p: int|
            0 <= p < src.width * src.height ==> #[trigger] dst.pixels@[p] == min_lum(src),
{
    let m: int = min_lum(src);
    let iv: int = lum_interval(src);
    lemma_lum_within_range(src, src.width * src.height, 0);
    assert forall|p: int| 0 <= p < src.width * src.height implies #[trigger] dst.pixels@[p]
        == m by {
        lemma_lum_within_range(src, src.width * src.height, p);
        let l: int = lum_at(src, p);
        assert(dst.pixels@[p] == quant_val(l, m, iv / 1));
        assert(iv / 1 == iv);
        lemma_basic_div(l - m, iv);
        assert((l - m) / iv * iv == 0) by (nonlinear_arith)
            requires
                (l - m) / iv == 0,
        ;
    }
}

/// When the requested levels exceed the dynamic range, quantization returns
/// byte for byte the RGB grayscale image.
pub proof fn lemma_quantize_fallback(
    src: PixelBuffer,
    levels: u8,
    dst: PixelBuffer,
    g: PixelBuffer,
)
    requires
        src.wf(),
        levels > lum_interval(src),
        is_quantized(src, levels, dst),
        is_grayscale_rgb(src, g),
    ensures
        dst.same_shape(g),
        dst.pixels@ == g.pixels@,
{
    assert forall|x: int, y: int, c: int| dst.in_bounds(x, y, c) implies #[trigger] dst.at(x, y, c)
        == g.at(x, y, c) by {
        lemma_flat_index_bounds(src.width as int, src.height as int, 3, x, y, c);
        let p: int = y * src.width + x;
        assert(dst.pixels@[3 * p + c] == lum_at(src, p));
        assert(g.pixels@[3 * p + c] == lum_at(src, p));
    }
    lemma_pixelwise_eq(dst, g);
}

/// A channel value raised by `delta` and clamped to the byte range.
pub open spec fn bright_val(v: u8, delta: u8) -> int {
    if v + delta > 255 {
        255int
    } else {
        v + delta
    }
}

/// A channel value scaled by the whole-number factor `f` and clamped to the
/// byte range (multiplicative contrast, scaling away from black).
pub open spec fn contrast_val(v: u8, f: u8) -> int {
    if v * f > 255 {
        255int
    } else {
        v * f
    }
}

/// `dst` is `src` with every channel of every pixel brightened by `delta`.
pub open spec fn is_brightness(src: PixelBuffer, delta: u8, dst: PixelBuffer) -> bool {
    &&& dst.wf()
    &&& src.same_shape(dst)
    &&& forall|j: int|
        0 <= j < src.pixels@.len() ==> #[trigger] dst.pixels@[j] == bright_val(
            src.pixels@[j],
            delta,
        )
}

/// `dst` is `src` with every channel of every pixel scaled by `f`.
pub open spec fn is_contrast(src: PixelBuffer, f: u8, dst: PixelBuffer) -> bool {
    &&& dst.wf()
    &&& src.same_shape(dst)
    &&& forall|j: int|
        0 <= j < src.pixels@.len() ==> #[trigger] dst.pixels@[j] == contrast_val(
            src.pixels@[j],
            f,
        )
}

/// `dst` is the negative of `src`: every channel of every pixel is replaced by
/// its distance from white.
pub open spec fn is_negative(src: PixelBuffer, dst: PixelBuffer) -> bool {
    &&& dst.wf()
    &&& src.same_shape(dst)
    &&& forall|j: int|
        0 <= j < src.pixels@.len() ==> #[trigger] dst.pixels@[j] == 255 - src.pixels@[j]
}

impl PixelBuffer {
    /// Adds `delta` to every color channel, saturating at white.
    #[verifier::loop_isolation(false)]
    pub fn adjust_brightness(&self, delta: u8) -> (r: PixelBuffer)
        requires
            self.wf(),
            self.format == PixelFormat::Rgb8,
        ensures
            is_brightness(*self, delta, r),
    {
        let n: usize = self.pixels.len();
        let mut out: Vec<u8> = Vec::new();
        let mut j: usize = 0;
        while j < n
            invariant
                j <= n,
                out@.len() == j,
                forall|k: int|
                    0 <= k < j ==> #[trigger] out@[k] == bright_val(self.pixels@[k], delta),
            decreases n - j,
        {
            let s: u32 = (self.pixels[j] as u32) + (delta as u32);
            let v: u8 = if s > 255 {
                255
            } else {
                s as u8
            };
            out.push(v);
            j = j + 1;
        }
        PixelBuffer { width: self.width, height: self.height, format: self.format, pixels: out }
    }

    /// Multiplies every color channel by the whole-number factor `f`,
    /// saturating at white.
    #[verifier::loop_isolation(false)]
    pub fn adjust_contrast_2(&self, f: u8) -> (r: PixelBuffer)
        requires
            self.wf(),
            self.format == PixelFormat::Rgb8,
        ensures
            is_contrast(*self, f, r),
    {
        let n: usize = self.pixels.len();
        let mut out: Vec<u8> = Vec::new();
        let mut j: usize = 0;
        while j < n
            invariant
                j <= n,
                out@.len() == j,
                forall|k: int|
                    0 <= k < j ==> #[trigger] out@[k] == contrast_val(self.pixels@[k], f),
            decreases n - j,
        {
            let v0: u8 = self.pixels[j];
            proof {
                assert((v0 as int) * (f as int) <= 65025) by (nonlinear_arith)
                    requires
                        v0 <= 255,
                        f <= 255,
                ;
            }
            let s: u32 = (v0 as u32) * (f as u32);
            let v: u8 = if s > 255 {
                255
            } else {
                s as u8
            };
            out.push(v);
            j = j + 1;
        }
        PixelBuffer { width: self.width, height: self.height, format: self.format, pixels: out }
    }

    /// Replaces every color channel by its distance from white.
    #[verifier::loop_isolation(false)]
    pub fn negative(&self) -> (r: PixelBuffer)
        requires
            self.wf(),
            self.format == PixelFormat::Rgb8,
        ensures
            is_negative(*self, r),
    {
        let n: usize = self.pixels.len();
        let mut out: Vec<u8> = Vec::new();
        let mut j: usize = 0;
        while j < n
            invariant
                j <= n,
                out@.len() == j,
                forall|k: int| 0 <= k < j ==> #[trigger] out@[k] == 255 - self.pixels@[k],
            decreases n - j,
        {
            let v: u8 = 255 - self.pixels[j];
            out.push(v);
            j = j + 1;
        }
        PixelBuffer { width: self.width, height: self.height, format: self.format, pixels: out }
    }

    /// Posterizes the luminance of an RGB image into `levels` evenly spaced
    /// bins. When `levels` exceeds the image's dynamic range the quantization
    /// is a no-op and the RGB grayscale image is returned instead.
    #[verifier::loop_isolation(false)]
    pub fn quantize_grayscale(&self, levels: u8) -> (r: PixelBuffer)
        requires
            self.wf(),
            self.format == PixelFormat::Rgb8,
            self.width * self.height >= 1,
            levels >= 1,
        ensures
            is_quantized(*self, levels, r),
    {
        let gray: PixelBuffer = self.to_grayscale();
        let n_px: usize = gray.pixels.len();
        let mut mn: u8 = gray.pixels[0];
        let mut mx: u8 = gray.pixels[0];
        let mut p: usize = 1;
        while p < n_px
            invariant
                1 <= p <= n_px,
                mn == min_lum_upto(*self, p as int),
                mx == max_lum_upto(*self, p as int),
            decreases n_px - p,
        {
            let l: u8 = gray.pixels[p];
            if l < mn {
                mn = l;
            }
            if l > mx {
                mx = l;
            }
            p = p + 1;
        }
        let interval: u32 = (mx as u32) - (mn as u32) + 1;
        if (levels as u32) > interval {
            return self.to_grayscale_rgb();
        }
        let bin: u32 = interval / (levels as u32);
        proof {
            lemma_div_non_zero(interval as int, levels as int);
        }
        let mut out: Vec<u8> = Vec::new();
        let mut q: usize = 0;
        while q < n_px
            invariant
                q <= n_px,
                out@.len() == q,
                forall|k: int|
                    0 <= k < q ==> #[trigger] out@[k] == quant_val(
                        lum_at(*self, k),
                        mn as int,
                        bin as int,
                    ),
            decreases n_px - q,
        {
            let l: u8 = gray.pixels[q];
            proof {
                lemma_lum_within_range(*self, n_px as int, q as int);
                lemma_quant_val_le(l as int, mn as int, bin as int);
            }
            let bi: u32 = ((l - mn) as u32) / bin;
            let v32: u32 = (mn as u32) + bi * bin;
            out.push(v32 as u8);
            q = q + 1;
        }
        PixelBuffer {
            width: self.width,
            height: self.height,
            format: PixelFormat::Gray8,
            pixels: out,
        }
    }

    /// Converts an RGB image to its single-channel luminance image.
    #[verifier::loop_isolation(false)]
    pub fn to_grayscale(&self) -> (r: PixelBuffer)
        requires
            self.wf(),
            self.format == PixelFormat::Rgb8,
        ensures
            is_grayscale(*self, r),
    {
        let n_px: usize = self.pixels.len() / 3;
        proof {
            assert(((self.width * self.height) * 3) / 3 == self.width * self.height)
                by (nonlinear_arith);
        }
        assert(n_px == self.width * self.height);
        let mut out: Vec<u8> = Vec::new();
        let mut p: usize = 0;
        while p < n_px
            invariant
                p <= n_px,
                out@.len() == p,
                forall|q: int| 0 <= q < p ==> #[trigger] out@[q] == lum_at(*self, q),
            decreases n_px - p,
        {
            let r8: u8 = self.pixels[3 * p];
            let g8: u8 = self.pixels[3 * p + 1];
            let b8: u8 = self.pixels[3 * p + 2];
            let l: u8 = luma_byte(r8, g8, b8);
            out.push(l);
            p = p + 1;
        }
        PixelBuffer {
            width: self.width,
            height: self.height,
            format: PixelFormat::Gray8,
            pixels: out,
        }
    }

    /// Converts an RGB image to grayscale, replicating the luminance into the
    /// three channels of an RGB output.
    #[verifier::loop_isolation(false)]
    pub fn to_grayscale_rgb(&self) -> (r: PixelBuffer)
        requires
            self.wf(),
            self.format == PixelFormat::Rgb8,
        ensures
            is_grayscale_rgb(*self, r),
    {
        let n_px: usize = self.pixels.len() / 3;
        proof {
            assert(((self.width * self.height) * 3) / 3 == self.width * self.height)
                by (nonlinear_arith);
        }
        assert(n_px == self.width * self.height);
        let mut out: Vec<u8> = Vec::new();
        let mut p: usize = 0;
        while p < n_px
            invariant
                p <= n_px,
                out@.len() == 3 * p,
                forall|q: int, c: int|
                    0 <= q < p && 0 <= c < 3 ==> #[trigger] out@[3 * q + c] == lum_at(*self, q),
            decreases n_px - p,
        {
            let r8: u8 = self.pixels[3 * p];
            let g8: u8 = self.pixels[3 * p + 1];
            let b8: u8 = self.pixels[3 * p + 2];
            let l: u8 = luma_byte(r8, g8, b8);
            out.push(l);
            out.push(l);
            out.push(l);
            p = p + 1;
        }
        PixelBuffer {
            width: self.width,
            height: self.height,
            format: PixelFormat::Rgb8,
            pixels: out,
        }
    }
}

} // verus!
