//! Nearest-neighbor resampling: block-averaging zoom-out and pixel-doubling
//! zoom-in with two interpolation passes.

use vstd::prelude::*;

verus! {

use crate::pixel::{
    PixelBuffer,
    PixelFormat,
    flat_index,
    lemma_flat_index_bounds,
    lemma_flat_index_order,
    lemma_mul_step,
    lemma_write_preserves_others,
};
use vstd::arithmetic::div_mod::{
    lemma_fundamental_div_mod,
    lemma_mod_bound,
    lemma_multiply_divide_le,
    lemma_div_multiples_vanish,
};
use vstd::arithmetic::mul::lemma_mul_inequality;

/// Sum over channel `c` of `k` consecutive pixels of row `y`, starting at
/// column `x0`.
pub open spec fn row_sum(src: PixelBuffer, x0: int, y: int, c: int, k: int) -> int
    decreases k,
{
    if k <= 0 {
        0
    } else {
        row_sum(src, x0, y, c, k - 1) + src.at(x0 + k - 1, y, c)
    }
}

/// Sum over channel `c` of the `sx`-pixel-wide, `j`-pixel-tall block whose
/// top-left pixel is `(x0, y0)`.
pub open spec fn block_sum(src: PixelBuffer, x0: int, y0: int, c: int, sx: int, j: int) -> int
    decreases j,
{
    if j <= 0 {
        0
    } else {
        block_sum(src, x0, y0, c, sx, j - 1) + row_sum(src, x0, y0 + j - 1, c, sx)
    }
}

/// For `b < d / s`, every offset `b * s + i` with `i < s` stays below `d`:
/// a complete block never reaches past the source edge.
proof fn lemma_block_offset_in_range(d: int, s: int, b: int, i: int)
    requires
        s >= 1,
        0 <= b < d / s,
        0 <= i < s,
    ensures
        0 <= b * s,
        b * s + i < d,
{
    lemma_fundamental_div_mod(d, s);
    lemma_mod_bound(d, s);
    lemma_mul_inequality(b + 1, d / s, s);
    assert(b * s >= 0 && b * s + s == (b + 1) * s) by (nonlinear_arith)
        requires
            b >= 0,
            s >= 0,
    ;
    assert((d / s) * s == s * (d / s)) by (nonlinear_arith);
}

/// A run of pixels that all hold `v` sums to `k * v`.
proof fn lemma_row_sum_uniform(src: PixelBuffer, x0: int, y: int, c: int, k: int, v: u8)
    requires
        0 <= k,
        0 <= x0,
        0 <= y < src.height,
        x0 + k <= src.width,
        forall|x: int, yy: int|
            0 <= x < src.width && 0 <= yy < src.height ==> #[trigger] src.at(x, yy, c) == v,
    ensures
        row_sum(src, x0, y, c, k) == k * v,
    decreases k,
{
    if k > 0 {
        lemma_row_sum_uniform(src, x0, y, c, k - 1, v);
        assert(src.at(x0 + k - 1, y, c) == v);
        assert((k - 1) * v + v == k * v) by (nonlinear_arith);
    } else {
        assert(k * v == 0) by (nonlinear_arith)
            requires
                k == 0,
        ;
    }
}

/// A block of pixels that all hold `v` sums to `j * sx * v`.
proof fn lemma_block_sum_uniform(
    src: PixelBuffer,
    x0: int,
    y0: int,
    c: int,
    sx: int,
    j: int,
    v: u8,
)
    requires
        0 <= j,
        0 <= sx,
        0 <= x0,
        0 <= y0,
        x0 + sx <= src.width,
        y0 + j <= src.height,
        forall|x: int, yy: int|
            0 <= x < src.width && 0 <= yy < src.height ==> #[trigger] src.at(x, yy, c) == v,
    ensures
        block_sum(src, x0, y0, c, sx, j) == (j * sx) * v,
    decreases j,
{
    if j > 0 {
        lemma_block_sum_uniform(src, x0, y0, c, sx, j - 1, v);
        lemma_row_sum_uniform(src, x0, y0 + j - 1, c, sx, v);
        assert(((j - 1) * sx) * v + sx * v == (j * sx) * v) by (nonlinear_arith);
    } else {
        assert((j * sx) * v == 0) by (nonlinear_arith)
            requires
                j == 0,
        ;
    }
}

/// Zooming out an image whose channel `c` is uniformly `v` leaves channel `c`
/// uniformly `v`: the truncated mean of identical values is that value.
pub proof fn lemma_zoom_out_uniform(
    src: PixelBuffer,
    sx: u8,
    sy: u8,
    dst: PixelBuffer,
    c: int,
    v: u8,
)
    requires
        src.wf(),
        src.format == PixelFormat::Rgb8,
        sx >= 1,
        sy >= 1,
        is_zoom_out(src, sx, sy, dst),
        0 <= c < 3,
        forall|x: int, y: int|
            0 <= x < src.width && 0 <= y < src.height ==> #[trigger] src.at(x, y, c) == v,
    ensures
        forall|bx: int, by: int|
            0 <= bx < dst.width && 0 <= by < dst.height ==> #[trigger] dst.at(bx, by, c) == v,
{
    assert forall|bx: int, by: int| 0 <= bx < dst.width && 0 <= by < dst.height implies #[trigger] dst.at(
        bx,
        by,
        c,
    ) == v by {
        lemma_block_offset_in_range(src.width as int, sx as int, bx, sx - 1);
        lemma_block_offset_in_range(src.height as int, sy as int, by, sy - 1);
        lemma_block_sum_uniform(src, bx * sx, by * sy, c, sx as int, sy as int, v);
        assert((sy as int * sx) * v == (sx as int * sy) * (v as int) && sx as int * sy >= 1)
            by (nonlinear_arith)
            requires
                sx >= 1,
                sy >= 1,
        ;
        lemma_div_multiples_vanish(v as int, sx as int * sy);
    }
}

/// `dst` is `src` shrunk by integer factors `sx` and `sy`: the source is cut
/// into non-overlapping `sx`-by-`sy` blocks (excess pixels at the right and
/// bottom edges are dropped) and each output channel is the truncated mean of
/// that channel over its block.
pub open spec fn is_zoom_out(src: PixelBuffer, sx: u8, sy: u8, dst: PixelBuffer) -> bool {
    &&& dst.wf()
    &&& dst.width == src.width as int / sx as int
    &&& dst.height == src.height as int / sy as int
    &&& dst.format == PixelFormat::Rgb8
    &&& forall|bx: int, by: int, c: int|
        0 <= bx < dst.width && 0 <= by < dst.height && 0 <= c < 3 ==> #[trigger] dst.at(bx, by, c)
            == block_sum(src, bx * sx, by * sy, c, sx as int, sy as int) / (sx * sy)
}

impl PixelBuffer {
    /// Shrinks the image by block-averaging: each `sx`-by-`sy` block of source
    /// pixels becomes one output pixel holding the truncated channel means.
    /// Excess rows and columns that do not fill a whole block are dropped.
    #[verifier::loop_isolation(false)]
    pub fn zoom_out(&self, sx: u8, sy: u8) -> (r: PixelBuffer)
        requires
            self.wf(),
            self.format == PixelFormat::Rgb8,
            sx >= 1,
            sy >= 1,
        ensures
            is_zoom_out(*self, sx, sy, r),
    {
        let w: u32 = self.width;
        let h: u32 = self.height;
        let new_w: u32 = w / (sx as u32);
        let new_h: u32 = h / (sy as u32);
        proof {
            assert(1 <= (sx as int) * (sy as int) <= 65025) by (nonlinear_arith)
                requires
                    1 <= sx <= 255,
                    1 <= sy <= 255,
            ;
        }
        let block_n: u32 = (sx as u32) * (sy as u32);
        let mut out: Vec<u8> = Vec::new();
        let mut by: u32 = 0;
        while by < new_h
            invariant
                by <= new_h,
                out@.len() == (by * new_w) * 3,
                forall|x0: int, y0: int, c0: int|
                    0 <= x0 < new_w && 0 <= y0 < by && 0 <= c0 < 3 ==> #[trigger] out@[(y0 * new_w
                        + x0) * 3 + c0] == block_sum(
                        *self,
                        x0 * sx,
                        y0 * sy,
                        c0,
                        sx as int,
                        sy as int,
                    ) / (sx * sy),
            decreases new_h - by,
        {
            let mut bx: u32 = 0;
            while bx < new_w
                invariant
                    by < new_h,
                    bx <= new_w,
                    out@.len() == (by * new_w + bx) * 3,
                    forall|x0: int, y0: int, c0: int|
                        0 <= x0 < new_w && 0 <= y0 < new_h && 0 <= c0 < 3 && (y0 < by || (y0 == by
                            && x0 < bx)) ==> #[trigger] out@[(y0 * new_w + x0) * 3 + c0]
                            == block_sum(*self, x0 * sx, y0 * sy, c0, sx as int, sy as int) / (sx
                            * sy),
                decreases new_w - bx,
            {
                let mut c: u32 = 0;
                while c < 3
                    invariant
                        bx < new_w,
                        c <= 3,
                        out@.len() == (by * new_w + bx) * 3 + c,
                        forall|x0: int, y0: int, c0: int|
                            0 <= x0 < new_w && 0 <= y0 < new_h && 0 <= c0 < 3 && (y0 < by || (y0
                                == by && (x0 < bx || (x0 == bx && c0 < c)))) ==> #[trigger] out@[(y0
                                * new_w + x0) * 3 + c0] == block_sum(
                                *self,
                                x0 * sx,
                                y0 * sy,
                                c0,
                                sx as int,
                                sy as int,
                            ) / (sx * sy),
                    decreases 3 - c,
                {
                    proof {
                        lemma_block_offset_in_range(w as int, sx as int, bx as int, 0);
                        lemma_block_offset_in_range(h as int, sy as int, by as int, 0);
                    }
                    let bx0: u32 = bx * (sx as u32);
                    let by0: u32 = by * (sy as u32);
                    let mut sum: u32 = 0;
                    let mut j: u8 = 0;
                    while j < sy
                        invariant
                            j <= sy,
                            sum == block_sum(
                                *self,
                                bx0 as int,
                                by0 as int,
                                c as int,
                                sx as int,
                                j as int,
                            ),
                            sum <= (j * sx) * 255,
                        decreases sy - j,
                    {
                        let mut i: u8 = 0;
                        while i < sx
                            invariant
                                j < sy,
                                i <= sx,
                                sum == block_sum(
                                    *self,
                                    bx0 as int,
                                    by0 as int,
                                    c as int,
                                    sx as int,
                                    j as int,
                                ) + row_sum(
                                    *self,
                                    bx0 as int,
                                    (by0 + j) as int,
                                    c as int,
                                    i as int,
                                ),
                                sum <= (j * sx + i) * 255,
                            decreases sx - i,
                        {
                            proof {
                                lemma_block_offset_in_range(
                                    w as int,
                                    sx as int,
                                    bx as int,
                                    i as int,
                                );
                                lemma_block_offset_in_range(
                                    h as int,
                                    sy as int,
                                    by as int,
                                    j as int,
                                );
                                assert((j * sx + i) * 255 + 255 == (j * sx + (i + 1)) * 255);
                                assert((j * sx + i) * 255 <= 16646400) by (nonlinear_arith)
                                    requires
                                        0 <= j <= 255,
                                        0 <= sx <= 255,
                                        0 <= i <= 255,
                                ;
                            }
                            let v: u8 = self.get(bx0 + (i as u32), by0 + (j as u32), c);
                            sum = sum + (v as u32);
                            i = i + 1;
                        }
                        proof {
                            assert((j * sx + sx) * 255 == ((j + 1) * sx) * 255) by (nonlinear_arith);
                        }
                        j = j + 1;
                    }
                    let mean: u32 = sum / block_n;
                    proof {
                        assert((sy * sx) * 255 == (block_n as int) * 255) by (nonlinear_arith)
                            requires
                                block_n == (sx as int) * (sy as int),
                        ;
                        lemma_multiply_divide_le(sum as int, block_n as int, 255);
                        assert((sx as int) * (sy as int) == block_n as int);
                    }
                    let ghost prev: Seq<u8> = out@;
                    out.push(mean as u8);
                    proof {
                        assert forall|x0: int, y0: int, c0: int|
                            0 <= x0 < new_w && 0 <= y0 < new_h && 0 <= c0 < 3 && (y0 < by || (y0
                                == by && (x0 < bx || (x0 == bx && c0 < c + 1))))
                            implies #[trigger] out@[(y0 * new_w + x0) * 3 + c0] == block_sum(
                            *self,
                            x0 * sx,
                            y0 * sy,
                            c0,
                            sx as int,
                            sy as int,
                        ) / (sx * sy) by {
                            if y0 < by || (y0 == by && (x0 < bx || (x0 == bx && c0 < c))) {
                                lemma_flat_index_order(
                                    new_w as int,
                                    3,
                                    x0,
                                    y0,
                                    c0,
                                    bx as int,
                                    by as int,
                                    c as int,
                                );
                                lemma_flat_index_bounds(
                                    new_w as int,
                                    new_h as int,
                                    3,
                                    bx as int,
                                    by as int,
                                    c as int,
                                );
                                assert(out@[(y0 * new_w + x0) * 3 + c0] == prev[(y0 * new_w + x0) * 3
                                    + c0]);
                            } else {
                                assert((y0 * new_w + x0) * 3 + c0 == prev.len());
                            }
                        }
                    }
                    c = c + 1;
                }
                proof {
                    lemma_mul_step((by * new_w + bx) as int, 3);
                }
                bx = bx + 1;
            }
            proof {
                lemma_mul_step(by as int, new_w as int);
            }
            by = by + 1;
        }
        let r = PixelBuffer { width: new_w, height: new_h, format: PixelFormat::Rgb8, pixels: out };
        proof {
            assert((new_h * new_w) * 3 == new_w * new_h * 3) by (nonlinear_arith);
            assert forall|bx: int, by: int, c: int|
                0 <= bx < new_w && 0 <= by < new_h && 0 <= c < 3 implies #[trigger] r.at(bx, by, c)
                == block_sum(*self, bx * sx, by * sy, c, sx as int, sy as int) / (sx * sy) by {
                assert(out@[(by * new_w + bx) * 3 + c] == block_sum(
                    *self,
                    bx * sx,
                    by * sy,
                    c,
                    sx as int,
                    sy as int,
                ) / (sx * sy));
            }
        }
        r
    }

}


/// Mean of the two copied horizontal neighbors of an odd-column, even-row
/// position of the doubled image.
pub open spec fn h_mid(src: PixelBuffer, x: int, y: int, c: int) -> int {
    (src.at((x - 1) / 2, y / 2, c) + src.at((x + 1) / 2, y / 2, c)) / 2
}

/// Mean of the two copied vertical neighbors of an even-column, odd-row
/// position of the doubled image.
pub open spec fn v_mid(src: PixelBuffer, x: int, y: int, c: int) -> int {
    (src.at(x / 2, (y - 1) / 2, c) + src.at(x / 2, (y + 1) / 2, c)) / 2
}

/// Channel `c` of the pixel that doubling places at `(x, y)` of the enlarged
/// image: even/even positions copy the source pixel; the remaining positions
/// of an even row or column take the mean of their two copied axis-aligned
/// neighbors; an odd/odd position averages the horizontal interpolation of
/// the vertical means beside it with the vertical interpolation of the
/// horizontal means above and below it.
pub open spec fn zoom_in_val(src: PixelBuffer, x: int, y: int, c: int) -> int {
    if x % 2 == 0 && y % 2 == 0 {
        src.at(x / 2, y / 2, c) as int
    } else if y % 2 == 0 {
        h_mid(src, x, y, c)
    } else if x % 2 == 0 {
        v_mid(src, x, y, c)
    } else {
        ((v_mid(src, x + 1, y, c) + v_mid(src, x - 1, y, c)) / 2 + (h_mid(src, x, y - 1, c)
            + h_mid(src, x, y + 1, c)) / 2) / 2
    }
}

/// `dst` doubles `src` to `(2 width - 1)`-by-`(2 height - 1)` pixels:
/// source pixels at even/even positions, interpolated values elsewhere.
pub open spec fn is_zoom_in(src: PixelBuffer, dst: PixelBuffer) -> bool {
    &&& dst.wf()
    &&& dst.width == 2 * src.width - 1
    &&& dst.height == 2 * src.height - 1
    &&& dst.format == PixelFormat::Rgb8
    &&& forall|x: int, y: int, c: int|
        dst.in_bounds(x, y, c) ==> #[trigger] dst.at(x, y, c) == zoom_in_val(src, x, y, c)
}

/// `(x, y)` is a position that the first interpolation pass fills: exactly
/// one of its coordinates is odd.
spec fn pass_one_pos(x: int, y: int) -> bool {
    (x % 2 == 1 && y % 2 == 0) || (x % 2 == 0 && y % 2 == 1)
}

/// Every even/even position of the doubled buffer `s` holds its doubled-image
/// value for source `src`.
spec fn copies_filled(src: PixelBuffer, s: Seq<u8>) -> bool {
    forall|bx: int, by: int, c0: int|
        0 <= bx < 2 * src.width - 1 && 0 <= by < 2 * src.height - 1 && 0 <= c0 < 3 && bx % 2 == 0
            && by % 2 == 0 ==> #[trigger] s[(by * (2 * src.width - 1) + bx) * 3 + c0]
            == zoom_in_val(src, bx, by, c0)
}

/// Every position of the doubled buffer `s` with exactly one odd coordinate
/// holds its doubled-image value for source `src`.
spec fn axis_filled(src: PixelBuffer, s: Seq<u8>) -> bool {
    forall|bx: int, by: int, c0: int|
        0 <= bx < 2 * src.width - 1 && 0 <= by < 2 * src.height - 1 && 0 <= c0 < 3 && pass_one_pos(
            bx,
            by,
        ) ==> #[trigger] s[(by * (2 * src.width - 1) + bx) * 3 + c0] == zoom_in_val(src, bx, by, c0)
}

/// Every odd/odd position of the doubled buffer `s` holds its doubled-image
/// value for source `src`.
spec fn diag_filled(src: PixelBuffer, s: Seq<u8>) -> bool {
    forall|bx: int, by: int, c0: int|
        0 <= bx < 2 * src.width - 1 && 0 <= by < 2 * src.height - 1 && 0 <= c0 < 3 && bx % 2 == 1
            && by % 2 == 1 ==> #[trigger] s[(by * (2 * src.width - 1) + bx) * 3 + c0]
            == zoom_in_val(src, bx, by, c0)
}

/// First doubling pass: copies every source pixel to its even/even position.
#[verifier::loop_isolation(false)]
fn fill_copies(src: &PixelBuffer, buf: &mut Vec<u8>)
    requires
        src.wf(),
        src.format == PixelFormat::Rgb8,
        1 <= src.width < 0x8000_0000,
        1 <= src.height < 0x8000_0000,
        old(buf)@.len() == (2 * src.width - 1) * (2 * src.height - 1) * 3,
    ensures
        final(buf)@.len() == old(buf)@.len(),
        copies_filled(*src, final(buf)@),
{
    let w: u32 = src.width;
    let h: u32 = src.height;
    let bw: u32 = 2 * w - 1;
    let bh: u32 = 2 * h - 1;
    let total: usize = buf.len();
    let mut y: u32 = 0;
    while y < h
        invariant
            y <= h,
            buf@.len() == total,
            forall|x0: int, y0: int, c0: int|
                0 <= x0 < w && 0 <= y0 < y && 0 <= c0 < 3 ==> #[trigger] buf@[((2 * y0) * bw + 2
                    * x0) * 3 + c0] == src.at(x0, y0, c0),
        decreases h - y,
    {
        let mut x: u32 = 0;
        while x < w
            invariant
                y < h,
                x <= w,
                buf@.len() == total,
                forall|x0: int, y0: int, c0: int|
                    0 <= x0 < w && 0 <= y0 < h && 0 <= c0 < 3 && (y0 < y || (y0 == y && x0 < x))
                        ==> #[trigger] buf@[((2 * y0) * bw + 2 * x0) * 3 + c0] == src.at(
                        x0,
                        y0,
                        c0,
                    ),
            decreases w - x,
        {
            let mut c: u32 = 0;
            while c < 3
                invariant
                    x < w,
                    c <= 3,
                    buf@.len() == total,
                    forall|x0: int, y0: int, c0: int|
                        0 <= x0 < w && 0 <= y0 < h && 0 <= c0 < 3 && (y0 < y || (y0 == y && (x0
                            < x || (x0 == x && c0 < c)))) ==> #[trigger] buf@[((2 * y0) * bw + 2
                            * x0) * 3 + c0] == src.at(x0, y0, c0),
                decreases 3 - c,
            {
                let iw: usize = flat_index(bw, bh, 3, 2 * x, 2 * y, c as usize, total);
                let ghost prev: Seq<u8> = buf@;
                let v: u8 = src.get(x, y, c);
                buf[iw] = v;
                proof {
                    lemma_write_preserves_others(
                        prev,
                        buf@,
                        bw as int,
                        bh as int,
                        2 * x as int,
                        2 * y as int,
                        c as int,
                        v,
                    );
                    assert forall|x0: int, y0: int, c0: int|
                        0 <= x0 < w && 0 <= y0 < h && 0 <= c0 < 3 && (y0 < y || (y0 == y && (x0
                            < x || (x0 == x && c0 < c + 1))))
                        implies #[trigger] buf@[((2 * y0) * bw + 2 * x0) * 3 + c0] == src.at(
                        x0,
                        y0,
                        c0,
                    ) by {
                        if x0 == x && y0 == y && c0 == c {
                        } else {
                            assert(buf@[((2 * y0) * bw + 2 * x0) * 3 + c0] == prev[((2 * y0)
                                * bw + 2 * x0) * 3 + c0]);
                        }
                    }
                }
                c = c + 1;
            }
            x = x + 1;
        }
        y = y + 1;
    }
    proof {
        assert forall|bx: int, by: int, c0: int|
            0 <= bx < bw && 0 <= by < bh && 0 <= c0 < 3 && bx % 2 == 0 && by % 2 == 0
            implies #[trigger] buf@[(by * bw + bx) * 3 + c0] == zoom_in_val(
            *src,
            bx,
            by,
            c0,
        ) by {
            assert(bx == 2 * (bx / 2) && by == 2 * (by / 2));
            assert(buf@[((2 * (by / 2)) * bw + 2 * (bx / 2)) * 3 + c0] == src.at(
                bx / 2,
                by / 2,
                c0,
            ));
        }
    }
}

/// Second doubling pass: fills every position with exactly one odd coordinate
/// from its two copied axis-aligned neighbors.
#[verifier::loop_isolation(false)]
fn fill_axis(src: &PixelBuffer, buf: &mut Vec<u8>)
    requires
        src.wf(),
        src.format == PixelFormat::Rgb8,
        1 <= src.width < 0x8000_0000,
        1 <= src.height < 0x8000_0000,
        old(buf)@.len() == (2 * src.width - 1) * (2 * src.height - 1) * 3,
        copies_filled(*src, old(buf)@),
    ensures
        final(buf)@.len() == old(buf)@.len(),
        copies_filled(*src, final(buf)@),
        axis_filled(*src, final(buf)@),
{
    let w: u32 = src.width;
    let h: u32 = src.height;
    let bw: u32 = 2 * w - 1;
    let bh: u32 = 2 * h - 1;
    let total: usize = buf.len();
    let mut yy: u32 = 0;
    while yy < bh
        invariant
            yy <= bh,
            buf@.len() == total,
            forall|bx: int, by: int, c0: int|
                0 <= bx < bw && 0 <= by < bh && 0 <= c0 < 3 && bx % 2 == 0 && by % 2 == 0
                    ==> #[trigger] buf@[(by * bw + bx) * 3 + c0] == zoom_in_val(
                    *src,
                    bx,
                    by,
                    c0,
                ),
            forall|bx: int, by: int, c0: int|
                0 <= bx < bw && 0 <= by < bh && 0 <= c0 < 3 && pass_one_pos(bx, by) && by < yy
                    ==> #[trigger] buf@[(by * bw + bx) * 3 + c0] == zoom_in_val(
                    *src,
                    bx,
                    by,
                    c0,
                ),
        decreases bh - yy,
    {
        let mut xx: u32 = 0;
        while xx < bw
            invariant
                yy < bh,
                xx <= bw,
                buf@.len() == total,
                forall|bx: int, by: int, c0: int|
                    0 <= bx < bw && 0 <= by < bh && 0 <= c0 < 3 && bx % 2 == 0 && by % 2 == 0
                        ==> #[trigger] buf@[(by * bw + bx) * 3 + c0] == zoom_in_val(
                        *src,
                        bx,
                        by,
                        c0,
                    ),
                forall|bx: int, by: int, c0: int|
                    0 <= bx < bw && 0 <= by < bh && 0 <= c0 < 3 && pass_one_pos(bx, by) && (by
                        < yy || (by == yy && bx < xx)) ==> #[trigger] buf@[(by * bw + bx) * 3
                        + c0] == zoom_in_val(*src, bx, by, c0),
            decreases bw - xx,
        {
            if xx % 2 == 1 && yy % 2 == 0 {
                let mut c: u32 = 0;
                while c < 3
                    invariant
                        xx < bw,
                        xx % 2 == 1,
                        yy % 2 == 0,
                        c <= 3,
                        buf@.len() == total,
                        forall|bx: int, by: int, c0: int|
                            0 <= bx < bw && 0 <= by < bh && 0 <= c0 < 3 && bx % 2 == 0 && by % 2
                                == 0 ==> #[trigger] buf@[(by * bw + bx) * 3 + c0]
                                == zoom_in_val(*src, bx, by, c0),
                        forall|bx: int, by: int, c0: int|
                            0 <= bx < bw && 0 <= by < bh && 0 <= c0 < 3 && pass_one_pos(bx, by)
                                && (by < yy || (by == yy && (bx < xx || (bx == xx && c0 < c))))
                                ==> #[trigger] buf@[(by * bw + bx) * 3 + c0] == zoom_in_val(
                                *src,
                                bx,
                                by,
                                c0,
                            ),
                    decreases 3 - c,
                {
                    let il: usize = flat_index(bw, bh, 3, xx - 1, yy, c as usize, total);
                    let ir: usize = flat_index(bw, bh, 3, xx + 1, yy, c as usize, total);
                    let iw: usize = flat_index(bw, bh, 3, xx, yy, c as usize, total);
                    let a: u8 = buf[il];
                    let b: u8 = buf[ir];
                    proof {
                        assert(buf@[((yy as int) * bw + (xx - 1)) * 3 + c] == zoom_in_val(
                            *src,
                            xx - 1,
                            yy as int,
                            c as int,
                        ));
                        assert(buf@[((yy as int) * bw + (xx + 1)) * 3 + c] == zoom_in_val(
                            *src,
                            xx + 1,
                            yy as int,
                            c as int,
                        ));
                    }
                    let v: u8 = (((a as u32) + (b as u32)) / 2) as u8;
                    assert(v == h_mid(*src, xx as int, yy as int, c as int));
                    let ghost prev: Seq<u8> = buf@;
                    buf[iw] = v;
                    proof {
                        lemma_write_preserves_others(
                            prev,
                            buf@,
                            bw as int,
                            bh as int,
                            xx as int,
                            yy as int,
                            c as int,
                            v,
                        );
                    }
                    c = c + 1;
                }
            }
            if xx % 2 == 0 && yy % 2 == 1 {
                let mut c: u32 = 0;
                while c < 3
                    invariant
                        xx < bw,
                        xx % 2 == 0,
                        yy % 2 == 1,
                        c <= 3,
                        buf@.len() == total,
                        forall|bx: int, by: int, c0: int|
                            0 <= bx < bw && 0 <= by < bh && 0 <= c0 < 3 && bx % 2 == 0 && by % 2
                                == 0 ==> #[trigger] buf@[(by * bw + bx) * 3 + c0]
                                == zoom_in_val(*src, bx, by, c0),
                        forall|bx: int, by: int, c0: int|
                            0 <= bx < bw && 0 <= by < bh && 0 <= c0 < 3 && pass_one_pos(bx, by)
                                && (by < yy || (by == yy && (bx < xx || (bx == xx && c0 < c))))
                                ==> #[trigger] buf@[(by * bw + bx) * 3 + c0] == zoom_in_val(
                                *src,
                                bx,
                                by,
                                c0,
                            ),
                    decreases 3 - c,
                {
                    let iu: usize = flat_index(bw, bh, 3, xx, yy - 1, c as usize, total);
                    let id: usize = flat_index(bw, bh, 3, xx, yy + 1, c as usize, total);
                    let iw: usize = flat_index(bw, bh, 3, xx, yy, c as usize, total);
                    let a: u8 = buf[iu];
                    let b: u8 = buf[id];
                    proof {
                        assert(buf@[((yy - 1) * bw + (xx as int)) * 3 + c] == zoom_in_val(
                            *src,
                            xx as int,
                            yy - 1,
                            c as int,
                        ));
                        assert(buf@[((yy + 1) * bw + (xx as int)) * 3 + c] == zoom_in_val(
                            *src,
                            xx as int,
                            yy + 1,
                            c as int,
                        ));
                    }
                    let v: u8 = (((a as u32) + (b as u32)) / 2) as u8;
                    assert(v == v_mid(*src, xx as int, yy as int, c as int));
                    let ghost prev: Seq<u8> = buf@;
                    buf[iw] = v;
                    proof {
                        lemma_write_preserves_others(
                            prev,
                            buf@,
                            bw as int,
                            bh as int,
                            xx as int,
                            yy as int,
                            c as int,
                            v,
                        );
                    }
                    c = c + 1;
                }
            }
            xx = xx + 1;
        }
        yy = yy + 1;
    }
}

/// Third doubling pass: fills the odd/odd positions from the results of the
/// second pass.
#[verifier::loop_isolation(false)]
#[verifier::rlimit(50)]
fn fill_diag(src: &PixelBuffer, buf: &mut Vec<u8>)
    requires
        src.wf(),
        src.format == PixelFormat::Rgb8,
        1 <= src.width < 0x8000_0000,
        1 <= src.height < 0x8000_0000,
        old(buf)@.len() == (2 * src.width - 1) * (2 * src.height - 1) * 3,
        copies_filled(*src, old(buf)@),
        axis_filled(*src, old(buf)@),
    ensures
        final(buf)@.len() == old(buf)@.len(),
        copies_filled(*src, final(buf)@),
        axis_filled(*src, final(buf)@),
        diag_filled(*src, final(buf)@),
{
    let w: u32 = src.width;
    let h: u32 = src.height;
    let bw: u32 = 2 * w - 1;
    let bh: u32 = 2 * h - 1;
    let total: usize = buf.len();
    let mut oy: u32 = 0;
    while oy < bh
        invariant
            oy <= bh,
            buf@.len() == total,
            forall|bx: int, by: int, c0: int|
                0 <= bx < bw && 0 <= by < bh && 0 <= c0 < 3 && !(bx % 2 == 1 && by % 2 == 1)
                    ==> #[trigger] buf@[(by * bw + bx) * 3 + c0] == zoom_in_val(
                    *src,
                    bx,
                    by,
                    c0,
                ),
            forall|bx: int, by: int, c0: int|
                0 <= bx < bw && 0 <= by < bh && 0 <= c0 < 3 && bx % 2 == 1 && by % 2 == 1 && by
                    < oy ==> #[trigger] buf@[(by * bw + bx) * 3 + c0] == zoom_in_val(
                    *src,
                    bx,
                    by,
                    c0,
                ),
        decreases bh - oy,
    {
        let mut ox: u32 = 0;
        while ox < bw
            invariant
                oy < bh,
                ox <= bw,
                buf@.len() == total,
                forall|bx: int, by: int, c0: int|
                    0 <= bx < bw && 0 <= by < bh && 0 <= c0 < 3 && !(bx % 2 == 1 && by % 2 == 1)
                        ==> #[trigger] buf@[(by * bw + bx) * 3 + c0] == zoom_in_val(
                        *src,
                        bx,
                        by,
                        c0,
                    ),
                forall|bx: int, by: int, c0: int|
                    0 <= bx < bw && 0 <= by < bh && 0 <= c0 < 3 && bx % 2 == 1 && by % 2 == 1
                        && (by < oy || (by == oy && bx < ox)) ==> #[trigger] buf@[(by * bw + bx)
                        * 3 + c0] == zoom_in_val(*src, bx, by, c0),
            decreases bw - ox,
        {
            if ox % 2 == 1 && oy % 2 == 1 {
                let mut c: u32 = 0;
                while c < 3
                    invariant
                        ox < bw,
                        ox % 2 == 1,
                        oy % 2 == 1,
                        c <= 3,
                        buf@.len() == total,
                        forall|bx: int, by: int, c0: int|
                            0 <= bx < bw && 0 <= by < bh && 0 <= c0 < 3 && !(bx % 2 == 1 && by
                                % 2 == 1) ==> #[trigger] buf@[(by * bw + bx) * 3 + c0]
                                == zoom_in_val(*src, bx, by, c0),
                        forall|bx: int, by: int, c0: int|
                            0 <= bx < bw && 0 <= by < bh && 0 <= c0 < 3 && bx % 2 == 1 && by % 2
                                == 1 && (by < oy || (by == oy && (bx < ox || (bx == ox && c0
                                < c)))) ==> #[trigger] buf@[(by * bw + bx) * 3 + c0]
                                == zoom_in_val(*src, bx, by, c0),
                    decreases 3 - c,
                {
                    let iu: usize = flat_index(bw, bh, 3, ox, oy - 1, c as usize, total);
                    let id: usize = flat_index(bw, bh, 3, ox, oy + 1, c as usize, total);
                    let il: usize = flat_index(bw, bh, 3, ox - 1, oy, c as usize, total);
                    let ir: usize = flat_index(bw, bh, 3, ox + 1, oy, c as usize, total);
                    let iw: usize = flat_index(bw, bh, 3, ox, oy, c as usize, total);
                    let up: u8 = buf[iu];
                    let dn: u8 = buf[id];
                    let lf: u8 = buf[il];
                    let rg: u8 = buf[ir];
                    proof {
                        assert(buf@[((oy - 1) * bw + (ox as int)) * 3 + c] == zoom_in_val(
                            *src,
                            ox as int,
                            oy - 1,
                            c as int,
                        ));
                        assert(buf@[((oy + 1) * bw + (ox as int)) * 3 + c] == zoom_in_val(
                            *src,
                            ox as int,
                            oy + 1,
                            c as int,
                        ));
                        assert(buf@[((oy as int) * bw + (ox - 1)) * 3 + c] == zoom_in_val(
                            *src,
                            ox - 1,
                            oy as int,
                            c as int,
                        ));
                        assert(buf@[((oy as int) * bw + (ox + 1)) * 3 + c] == zoom_in_val(
                            *src,
                            ox + 1,
                            oy as int,
                            c as int,
                        ));
                    }
                    let x_int: u32 = ((rg as u32) + (lf as u32)) / 2;
                    let y_int: u32 = ((up as u32) + (dn as u32)) / 2;
                    let v: u8 = ((x_int + y_int) / 2) as u8;
                    assert(v == zoom_in_val(*src, ox as int, oy as int, c as int));
                    let ghost prev: Seq<u8> = buf@;
                    buf[iw] = v;
                    proof {
                        lemma_write_preserves_others(
                            prev,
                            buf@,
                            bw as int,
                            bh as int,
                            ox as int,
                            oy as int,
                            c as int,
                            v,
                        );
                    }
                    c = c + 1;
                }
            }
            ox = ox + 1;
        }
        oy = oy + 1;
    }
}

impl PixelBuffer {
    /// Doubles the image to `(2 width - 1)`-by-`(2 height - 1)` pixels.
    /// Source pixels land on even/even positions; a first interpolation pass
    /// fills every position with exactly one odd coordinate from its two
    /// copied neighbors; a second interpolation pass fills the odd/odd
    /// positions from the first pass's results.
    #[verifier::loop_isolation(false)]
    pub fn zoom_in(&self) -> (r: PixelBuffer)
        requires
            self.wf(),
            self.format == PixelFormat::Rgb8,
            1 <= self.width < 0x8000_0000,
            1 <= self.height < 0x8000_0000,
            (2 * self.width - 1) * (2 * self.height - 1) * 3 <= usize::MAX,
        ensures
            is_zoom_in(*self, r),
    {
        let w: u32 = self.width;
        let h: u32 = self.height;
        let bw: u32 = 2 * w - 1;
        let bh: u32 = 2 * h - 1;
        proof {
            assert((bw as int) * (bh as int) >= 0) by (nonlinear_arith);
        }
        let total: usize = ((bw as usize) * (bh as usize)) * 3;
        let mut buf: Vec<u8> = vec![0u8; total];
        fill_copies(self, &mut buf);
        fill_axis(self, &mut buf);
        fill_diag(self, &mut buf);
        let r = PixelBuffer { width: bw, height: bh, format: PixelFormat::Rgb8, pixels: buf };
        proof {
            assert forall|x0: int, y0: int, c0: int| r.in_bounds(x0, y0, c0) implies #[trigger] r.at(
                x0,
                y0,
                c0,
            ) == zoom_in_val(*self, x0, y0, c0) by {
                assert(r.pixels@[(y0 * bw + x0) * 3 + c0] == zoom_in_val(*self, x0, y0, c0));
            }
        }
        r
    }
}

} // verus!
