//! Intensity histograms: tallying the luminance distribution of an image and
//! rendering it as a fixed 256-by-256 bar chart.

use vstd::prelude::*;

verus! {

use crate::pixel::{PixelBuffer, PixelFormat, lemma_flat_index_order};
use crate::photometric::{lemma_luma_bounds, lum_at};
use vstd::arithmetic::div_mod::lemma_multiply_divide_lt;

/// Intensity frequencies of an image: one counter per 8-bit luminance value.
#[derive(Clone, Debug, PartialEq, Eq)]
pub struct Histogram {
    pub counts: Vec<u32>,
}

impl Histogram {
    /// One counter for each of the 256 luminance values.
    pub open spec fn wf(self) -> bool {
        self.counts@.len() == 256
    }
}

/// Number of pixels among the first `n` of `src` whose luminance is `v`.
pub open spec fn count_lum_upto(src: PixelBuffer, v: int, n: int) -> int
    decreases n,
{
    if n <= 0 {
        0
    } else {
        count_lum_upto(src, v, n - 1) + if lum_at(src, n - 1) == v {
            1int
        } else {
            0int
        }
    }
}

/// Sum of the counters for the luminance values below `k`.
pub open spec fn counts_total(h: Seq<u32>, k: int) -> int
    decreases k,
{
    if k <= 0 {
        0
    } else {
        counts_total(h, k - 1) + h[k - 1]
    }
}

/// `h` tallies the luminance distribution of `src`.
pub open spec fn is_histogram(src: PixelBuffer, h: Histogram) -> bool {
    &&& h.wf()
    &&& forall|v: int|
        0 <= v < 256 ==> #[trigger] h.counts@[v] == count_lum_upto(
            src,
            v,
            src.width * src.height,
        )
}

/// A luminance occurs at most once per pixel.
proof fn lemma_count_lum_le(src: PixelBuffer, v: int, n: int)
    requires
        0 <= n,
    ensures
        0 <= count_lum_upto(src, v, n) <= n,
    decreases n,
{
    if n > 0 {
        lemma_count_lum_le(src, v, n - 1);
    }
}

/// Sum over `v < k` of `count_lum_upto(src, v, n)`.
spec fn sum_count(src: PixelBuffer, k: int, n: int) -> int
    decreases k,
{
    if k <= 0 {
        0
    } else {
        sum_count(src, k - 1, n) + count_lum_upto(src, k - 1, n)
    }
}

/// Taking one more pixel into account raises the total count by one exactly
/// when the pixel's luminance lies below `k`.
proof fn lemma_sum_count_step(src: PixelBuffer, k: int, n: int)
    requires
        n >= 1,
        k >= 0,
    ensures
        sum_count(src, k, n) == sum_count(src, k, n - 1) + if 0 <= lum_at(src, n - 1) < k {
            1int
        } else {
            0int
        },
    decreases k,
{
    if k > 0 {
        lemma_sum_count_step(src, k - 1, n);
    }
}

/// With no pixels taken into account, every counter sum is zero.
proof fn lemma_sum_count_zero(src: PixelBuffer, k: int)
    requires
        0 <= k,
    ensures
        sum_count(src, k, 0) == 0,
    decreases k,
{
    if k > 0 {
        lemma_sum_count_zero(src, k - 1);
    }
}

/// Every pixel's luminance falls into one of the 256 counters, so the
/// counters over the first `n` pixels sum to `n`.
proof fn lemma_sum_count_all(src: PixelBuffer, n: int)
    requires
        0 <= n,
    ensures
        sum_count(src, 256, n) == n,
    decreases n,
{
    if n > 0 {
        lemma_sum_count_all(src, n - 1);
        lemma_sum_count_step(src, 256, n);
        lemma_luma_bounds(
            src.pixels@[3 * (n - 1)],
            src.pixels@[3 * (n - 1) + 1],
            src.pixels@[3 * (n - 1) + 2],
        );
    } else {
        lemma_sum_count_zero(src, 256);
    }
}

/// A counter vector that matches the per-value counts sums, over its first
/// `k` entries, to the summed counts.
proof fn lemma_counts_total_matches(h: Seq<u32>, src: PixelBuffer, n: int, k: int)
    requires
        h.len() == 256,
        0 <= k <= 256,
        forall|v: int| 0 <= v < 256 ==> #[trigger] h[v] == count_lum_upto(src, v, n),
    ensures
        counts_total(h, k) == sum_count(src, k, n),
    decreases k,
{
    if k > 0 {
        lemma_counts_total_matches(h, src, n, k - 1);
    }
}

/// The histogram counters of an image sum to its pixel count.
pub proof fn lemma_histogram_conservation(src: PixelBuffer, h: Histogram)
    requires
        src.wf(),
        src.format == PixelFormat::Rgb8,
        is_histogram(src, h),
    ensures
        counts_total(h.counts@, 256) == src.width * src.height,
{
    let n: int = src.width * src.height;
    lemma_counts_total_matches(h.counts@, src, n, 256);
    lemma_sum_count_all(src, n);
}

/// Counting a luminance that every pixel has yields the pixel count; counting
/// any other luminance yields zero.
proof fn lemma_count_lum_uniform(src: PixelBuffer, v: int, v0: int, n: int)
    requires
        0 <= n,
        forall|p: int| 0 <= p < n ==> #[trigger] lum_at(src, p) == v0,
    ensures
        count_lum_upto(src, v, n) == if v == v0 {
            n
        } else {
            0int
        },
    decreases n,
{
    if n > 0 {
        lemma_count_lum_uniform(src, v, v0, n - 1);
    }
}

/// For an image whose every pixel has luminance `v0` the histogram holds the
/// whole pixel count at `v0` and zero everywhere else.
pub proof fn lemma_histogram_uniform(src: PixelBuffer, h: Histogram, v0: int)
    requires
        src.wf(),
        src.format == PixelFormat::Rgb8,
        is_histogram(src, h),
        0 <= v0 < 256,
        forall|p: int| 0 <= p < src.width * src.height ==> #[trigger] lum_at(src, p) == v0,
    ensures
        h.counts@[v0] == src.width * src.height,
        forall|v: int| 0 <= v < 256 && v != v0 ==> #[trigger] h.counts@[v] == 0,
{
    let n: int = src.width * src.height;
    lemma_count_lum_uniform(src, v0, v0, n);
    assert forall|v: int| 0 <= v < 256 && v != v0 implies #[trigger] h.counts@[v] == 0 by {
        lemma_count_lum_uniform(src, v, v0, n);
    }
}

impl PixelBuffer {
    /// Tallies the luminance distribution of an RGB image: one counter per
    /// 8-bit luminance value, and the counters sum to the pixel count.
    #[verifier::loop_isolation(false)]
    pub fn histogram(&self) -> (r: Histogram)
        requires
            self.wf(),
            self.format == PixelFormat::Rgb8,
            self.width * self.height <= u32::MAX,
        ensures
            is_histogram(*self, r),
            counts_total(r.counts@, 256) == self.width * self.height,
    {
        let gray: PixelBuffer = self.to_grayscale();
        let n_px: usize = gray.pixels.len();
        proof {
            assert((self.width * self.height) * 1 == self.width * self.height) by (nonlinear_arith);
        }
        assert(n_px == self.width * self.height);
        let mut counts: Vec<u32> = vec![0u32; 256];
        proof {
            assert forall|v: int| 0 <= v < 256 implies #[trigger] counts@[v] == count_lum_upto(
                *self,
                v,
                0,
            ) by {
                assert(cloned::<u32>(0u32, counts@[v]));
            }
        }
        let mut p: usize = 0;
        while p < n_px
            invariant
                p <= n_px,
                counts@.len() == 256,
                forall|v: int|
                    0 <= v < 256 ==> #[trigger] counts@[v] == count_lum_upto(*self, v, p as int),
            decreases n_px - p,
        {
            let l: u8 = gray.pixels[p];
            proof {
                lemma_count_lum_le(*self, l as int, p as int);
            }
            let cur: u32 = counts[l as usize];
            counts[l as usize] = cur + 1;
            p = p + 1;
        }
        let r = Histogram { counts };
        proof {
            lemma_histogram_conservation(*self, r);
        }
        r
    }
}

/// Largest counter among the first `k` of `h`.
pub open spec fn max_count_upto(h: Seq<u32>, k: int) -> int
    decreases k,
{
    if k <= 1 {
        h[0] as int
    } else if h[k - 1] > max_count_upto(h, k - 1) {
        h[k - 1] as int
    } else {
        max_count_upto(h, k - 1)
    }
}

/// The peak of a histogram: its largest counter.
pub open spec fn peak(h: Histogram) -> int {
    max_count_upto(h.counts@, 256)
}

/// Every counter is at most the maximum over a prefix that contains it.
proof fn lemma_count_le_max(h: Seq<u32>, k: int, v: int)
    requires
        0 <= v < k,
    ensures
        h[v] <= max_count_upto(h, k),
    decreases k,
{
    if v < k - 1 {
        lemma_count_le_max(h, k - 1, v);
    }
}

/// Height of histogram column `c` in the rendered chart: the counter scaled
/// so that the peak spans the full 255 rows, rounded up.
pub open spec fn column_height(h: Histogram, c: int) -> int {
    (255 * h.counts@[c] + peak(h) - 1) / peak(h)
}

/// `img` renders `h` as a 256-by-256 grayscale bar chart: column `x` is black
/// from the bottom row up `column_height` rows and white above them.
pub open spec fn is_histogram_render(h: Histogram, img: PixelBuffer) -> bool {
    &&& img.wf()
    &&& img.width == 256
    &&& img.height == 256
    &&& img.format == PixelFormat::Gray8
    &&& forall|x: int, y: int|
        0 <= x < 256 && 0 <= y < 256 ==> #[trigger] img.at(x, y, 0) == if y >= 256 - column_height(
            h,
            x,
        ) {
            0u8
        } else {
            255u8
        }
}

impl Histogram {
    /// Renders the histogram as a 256-by-256 grayscale bar chart, one column
    /// per luminance value, scaled so that the peak counter spans the full
    /// column. At least one counter must be nonzero.
    #[verifier::loop_isolation(false)]
    pub fn render(&self) -> (r: PixelBuffer)
        requires
            self.wf(),
            peak(*self) >= 1,
        ensures
            is_histogram_render(*self, r),
    {
        let mut mx: u32 = self.counts[0];
        let mut k: usize = 1;
        while k < 256
            invariant
                1 <= k <= 256,
                mx == max_count_upto(self.counts@, k as int),
            decreases 256 - k,
        {
            let v: u32 = self.counts[k];
            if v > mx {
                mx = v;
            }
            k = k + 1;
        }
        let mut heights: Vec<u32> = Vec::new();
        let mut c: usize = 0;
        while c < 256
            invariant
                c <= 256,
                heights@.len() == c,
                mx == peak(*self),
                forall|v: int| 0 <= v < c ==> #[trigger] heights@[v] == column_height(*self, v),
            decreases 256 - c,
        {
            let cnt: u32 = self.counts[c];
            proof {
                lemma_count_le_max(self.counts@, 256, c as int);
                assert(255 * (cnt as int) + mx - 1 < (mx as int) * 256) by (nonlinear_arith)
                    requires
                        cnt <= mx,
                        1 <= mx,
                ;
                lemma_multiply_divide_lt(255 * (cnt as int) + mx - 1, mx as int, 256);
            }
            let ch: u64 = (255 * (cnt as u64) + (mx as u64) - 1) / (mx as u64);
            heights.push(ch as u32);
            c = c + 1;
        }
        let mut out: Vec<u8> = Vec::new();
        let mut y: u32 = 0;
        while y < 256
            invariant
                y <= 256,
                out@.len() == y * 256,
                forall|x0: int, y0: int|
                    0 <= x0 < 256 && 0 <= y0 < y ==> #[trigger] out@[y0 * 256 + x0] == if y0 >= 256
                        - column_height(*self, x0) {
                        0u8
                    } else {
                        255u8
                    },
                heights@.len() == 256,
                forall|v: int| 0 <= v < 256 ==> #[trigger] heights@[v] == column_height(*self, v),
            decreases 256 - y,
        {
            let mut x: u32 = 0;
            while x < 256
                invariant
                    y < 256,
                    x <= 256,
                    out@.len() == y * 256 + x,
                    forall|x0: int, y0: int|
                        0 <= x0 < 256 && 0 <= y0 < 256 && (y0 < y || (y0 == y && x0 < x))
                            ==> #[trigger] out@[y0 * 256 + x0] == if y0 >= 256 - column_height(
                            *self,
                            x0,
                        ) {
                            0u8
                        } else {
                            255u8
                        },
                    heights@.len() == 256,
                    forall|v: int|
                        0 <= v < 256 ==> #[trigger] heights@[v] == column_height(*self, v),
                decreases 256 - x,
            {
                let hgt: u32 = heights[x as usize];
                let v: u8 = if 256 - (y as i64) <= (hgt as i64) {
                    0
                } else {
                    255
                };
                let ghost prev: Seq<u8> = out@;
                out.push(v);
                proof {
                    assert forall|x0: int, y0: int|
                        0 <= x0 < 256 && 0 <= y0 < 256 && (y0 < y || (y0 == y && x0 < x + 1))
                        implies #[trigger] out@[y0 * 256 + x0] == if y0 >= 256 - column_height(
                        *self,
                        x0,
                    ) {
                        0u8
                    } else {
                        255u8
                    } by {
                        if y0 < y || (y0 == y && x0 < x) {
                            lemma_flat_index_order(256, 1, x0, y0, 0, x as int, y as int, 0);
                            assert(out@[y0 * 256 + x0] == prev[y0 * 256 + x0]);
                        } else {
                            assert(y0 * 256 + x0 == prev.len());
                        }
                    }
                }
                x = x + 1;
            }
            y = y + 1;
        }
        let r = PixelBuffer { width: 256, height: 256, format: PixelFormat::Gray8, pixels: out };
        proof {
            assert forall|x0: int, y0: int| 0 <= x0 < 256 && 0 <= y0 < 256 implies #[trigger] r.at(
                x0,
                y0,
                0,
            ) == if y0 >= 256 - column_height(*self, x0) {
                0u8
            } else {
                255u8
            } by {
                assert(out@[y0 * 256 + x0] == if y0 >= 256 - column_height(*self, x0) {
                    0u8
                } else {
                    255u8
                });
            }
        }
        r
    }
}

impl PixelBuffer {
    /// Tallies the luminance distribution of an RGB image and renders it as a
    /// 256-by-256 grayscale bar chart in one step.
    pub fn render_grayscale_histogram(&self) -> (r: PixelBuffer)
        requires
            self.wf(),
            self.format == PixelFormat::Rgb8,
            1 <= self.width * self.height <= u32::MAX,
        ensures
            forall|h: Histogram| is_histogram(*self, h) ==> is_histogram_render(h, r),
    {
        let hist: Histogram = self.histogram();
        proof {
            let l0: int = lum_at(*self, 0);
            lemma_luma_bounds(self.pixels@[0], self.pixels@[1], self.pixels@[2]);
            assert(hist.counts@[l0] == count_lum_upto(*self, l0, self.width * self.height));
            assert(count_lum_upto(*self, l0, 0) == 0);
            assert(count_lum_upto(*self, l0, 1) == 1);
            lemma_count_lum_monotone(*self, l0, 1, self.width * self.height);
            lemma_count_le_max(hist.counts@, 256, l0);
        }
        let r = hist.render();
        proof {
            assert forall|h: Histogram| is_histogram(*self, h) implies is_histogram_render(
                h,
                r,
            ) by {
                assert(h.counts@ =~= hist.counts@);
            }
        }
        r
    }
}

/// Counting over more pixels never lowers a counter.
proof fn lemma_count_lum_monotone(src: PixelBuffer, v: int, m: int, n: int)
    requires
        0 <= m <= n,
    ensures
        count_lum_upto(src, v, m) <= count_lum_upto(src, v, n),
    decreases n,
{
    if m < n {
        lemma_count_lum_monotone(src, v, m, n - 1);
        lemma_count_lum_le(src, v, n - 1);
    }
}

} // verus!
