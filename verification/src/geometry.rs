//! Geometric transforms that move pixels without changing their values:
//! horizontal and vertical mirroring.

use vstd::prelude::*;

verus! {

use crate::pixel::{
    PixelBuffer,
    clone_bytes,
    flat_index,
    lemma_flat_index_bounds,
    lemma_flat_index_ne,
    lemma_flat_index_order,
    lemma_mul_step,
    lemma_pixelwise_eq,
};

/// Value that exchanging the first `k` rows with their mirror rows (and
/// nothing else) leaves at `(x, y, c)`: rows nearer than `k` to the top or
/// bottom edge already hold their mirror row, the middle band is untouched.
spec fn swapped_upto(src: PixelBuffer, k: int, x: int, y: int, c: int) -> u8 {
    if y < k || y > src.height - 1 - k {
        src.at(x, src.height - 1 - y, c)
    } else {
        src.at(x, y, c)
    }
}

/// Value present at `(x0, y0, c0)` while the row pair `k` and
/// `height - 1 - k` is being exchanged and the exchange has reached column
/// `x`, channel `c`.
spec fn pair_progress(
    src: PixelBuffer,
    k: int,
    x: int,
    c: int,
    x0: int,
    y0: int,
    c0: int,
) -> u8 {
    if (y0 == k || y0 == src.height - 1 - k) && (x0 < x || (x0 == x && c0 < c)) {
        src.at(x0, src.height - 1 - y0, c0)
    } else {
        swapped_upto(src, k, x0, y0, c0)
    }
}

/// `dst` is `src` mirrored left-to-right: the pixel at column `x` comes from
/// column `width - 1 - x` of the same row.
pub open spec fn is_flip_h(src: PixelBuffer, dst: PixelBuffer) -> bool {
    &&& dst.wf()
    &&& src.same_shape(dst)
    &&& forall|x: int, y: int, c: int|
        src.in_bounds(x, y, c) ==> #[trigger] dst.at(x, y, c) == src.at(
            src.width - 1 - x,
            y,
            c,
        )
}

/// `dst` is `src` mirrored top-to-bottom: row `y` comes from row
/// `height - 1 - y`, column and channel unchanged.
pub open spec fn is_flip_v(src: PixelBuffer, dst: PixelBuffer) -> bool {
    &&& dst.wf()
    &&& src.same_shape(dst)
    &&& forall|x: int, y: int, c: int|
        src.in_bounds(x, y, c) ==> #[trigger] dst.at(x, y, c) == src.at(
            x,
            src.height - 1 - y,
            c,
        )
}

impl PixelBuffer {
    /// Mirrors the image left-to-right. Dimensions and format are kept.
    #[verifier::loop_isolation(false)]
    pub fn flip_h(&self) -> (r: PixelBuffer)
        requires
            self.wf(),
        ensures
            is_flip_h(*self, r),
    {
        let w: u32 = self.width;
        let h: u32 = self.height;
        let ch: usize = self.format.channel_count();
        let mut out: Vec<u8> = Vec::new();
        let mut y: u32 = 0;
        while y < h
            invariant
                y <= h,
                out@.len() == (y * w) * ch,
                forall|x0: int, y0: int, c0: int|
                    self.in_bounds(x0, y0, c0) && y0 < y ==> #[trigger] out@[self.flat(
                        x0,
                        y0,
                        c0,
                    )] == self.at(w - 1 - x0, y0, c0),
            decreases h - y,
        {
            let mut x: u32 = 0;
            while x < w
                invariant
                    y < h,
                    x <= w,
                    out@.len() == (y * w + x) * ch,
                    forall|x0: int, y0: int, c0: int|
                        self.in_bounds(x0, y0, c0) && (y0 < y || (y0 == y && x0 < x))
                            ==> #[trigger] out@[self.flat(x0, y0, c0)] == self.at(
                            w - 1 - x0,
                            y0,
                            c0,
                        ),
                decreases w - x,
            {
                let mut c: usize = 0;
                while c < ch
                    invariant
                        x < w,
                        c <= ch,
                        out@.len() == (y * w + x) * ch + c,
                        forall|x0: int, y0: int, c0: int|
                            self.in_bounds(x0, y0, c0) && (y0 < y || (y0 == y && (x0 < x || (x0 == x
                                && c0 < c)))) ==> #[trigger] out@[self.flat(x0, y0, c0)] == self.at(
                                w - 1 - x0,
                                y0,
                                c0,
                            ),
                    decreases ch - c,
                {
                    let ghost prev: Seq<u8> = out@;
                    let v: u8 = self.get(w - 1 - x, y, c as u32);
                    out.push(v);
                    proof {
                        assert forall|x0: int, y0: int, c0: int|
                            self.in_bounds(x0, y0, c0) && (y0 < y || (y0 == y && (x0 < x || (x0 == x
                                && c0 < c + 1)))) implies #[trigger] out@[self.flat(x0, y0, c0)]
                            == self.at(w - 1 - x0, y0, c0) by {
                            if y0 < y || (y0 == y && (x0 < x || (x0 == x && c0 < c))) {
                                lemma_flat_index_order(
                                    w as int,
                                    ch as int,
                                    x0,
                                    y0,
                                    c0,
                                    x as int,
                                    y as int,
                                    c as int,
                                );
                                assert(out@[self.flat(x0, y0, c0)] == prev[self.flat(x0, y0, c0)]);
                            } else {
                                assert(self.flat(x0, y0, c0) == prev.len());
                            }
                        }
                    }
                    c = c + 1;
                }
                proof {
                    lemma_mul_step((y * w + x) as int, ch as int);
                }
                x = x + 1;
            }
            proof {
                lemma_mul_step(y as int, w as int);
            }
            y = y + 1;
        }
        let r = PixelBuffer { width: w, height: h, format: self.format, pixels: out };
        proof {
            assert((h * w) * ch == w * h * ch) by (nonlinear_arith);
            assert forall|x0: int, y0: int, c0: int| r.in_bounds(x0, y0, c0) implies #[trigger] r.at(
                x0,
                y0,
                c0,
            ) == self.at(w - 1 - x0, y0, c0) by {
                assert(out@[self.flat(x0, y0, c0)] == self.at(w - 1 - x0, y0, c0));
            }
        }
        r
    }

    /// Mirrors the image top-to-bottom. The output must look as if every
    /// pixel had been re-addressed individually, but the body only exchanges
    /// whole row pairs on a copy of the buffer, walking from both edges
    /// towards the middle.
    #[verifier::loop_isolation(false)]
    pub fn flip_v(&self) -> (r: PixelBuffer)
        requires
            self.wf(),
        ensures
            is_flip_v(*self, r),
    {
        let w: u32 = self.width;
        let h: u32 = self.height;
        let ch: usize = self.format.channel_count();
        let mut buf: Vec<u8> = clone_bytes(&self.pixels);
        let n: usize = buf.len();
        let mut idx: u32 = 0;
        while idx < h / 2
            invariant
                idx <= h / 2,
                buf@.len() == n,
                forall|x0: int, y0: int, c0: int|
                    self.in_bounds(x0, y0, c0) ==> #[trigger] buf@[self.flat(x0, y0, c0)]
                        == swapped_upto(*self, idx as int, x0, y0, c0),
            decreases h / 2 - idx,
        {
            let bt: u32 = h - 1 - idx;
            let mut x: u32 = 0;
            while x < w
                invariant
                    x <= w,
                    buf@.len() == n,
                    forall|x0: int, y0: int, c0: int|
                        self.in_bounds(x0, y0, c0) ==> #[trigger] buf@[self.flat(x0, y0, c0)]
                            == pair_progress(*self, idx as int, x as int, 0, x0, y0, c0),
                decreases w - x,
            {
                let mut c: usize = 0;
                while c < ch
                    invariant
                        x < w,
                        c <= ch,
                        buf@.len() == n,
                        forall|x0: int, y0: int, c0: int|
                            self.in_bounds(x0, y0, c0) ==> #[trigger] buf@[self.flat(x0, y0, c0)]
                                == pair_progress(
                                *self,
                                idx as int,
                                x as int,
                                c as int,
                                x0,
                                y0,
                                c0,
                            ),
                    decreases ch - c,
                {
                    let a_i: usize = flat_index(w, h, ch, x, idx, c, n);
                    let b_i: usize = flat_index(w, h, ch, x, bt, c, n);
                    let ghost prev: Seq<u8> = buf@;
                    let va: u8 = buf[a_i];
                    let vb: u8 = buf[b_i];
                    buf[a_i] = vb;
                    buf[b_i] = va;
                    proof {
                        lemma_flat_index_ne(
                            w as int,
                            ch as int,
                            x as int,
                            idx as int,
                            c as int,
                            x as int,
                            bt as int,
                            c as int,
                        );
                        assert forall|x0: int, y0: int, c0: int|
                            self.in_bounds(x0, y0, c0) implies #[trigger] buf@[self.flat(
                            x0,
                            y0,
                            c0,
                        )] == pair_progress(
                            *self,
                            idx as int,
                            x as int,
                            c as int + 1,
                            x0,
                            y0,
                            c0,
                        ) by {
                            lemma_flat_index_bounds(
                                w as int,
                                h as int,
                                ch as int,
                                x0,
                                y0,
                                c0,
                            );
                            if x0 == x && y0 == idx && c0 == c {
                            } else if x0 == x && y0 == bt && c0 == c {
                            } else {
                                lemma_flat_index_ne(
                                    w as int,
                                    ch as int,
                                    x0,
                                    y0,
                                    c0,
                                    x as int,
                                    idx as int,
                                    c as int,
                                );
                                lemma_flat_index_ne(
                                    w as int,
                                    ch as int,
                                    x0,
                                    y0,
                                    c0,
                                    x as int,
                                    bt as int,
                                    c as int,
                                );
                                assert(buf@[self.flat(x0, y0, c0)] == prev[self.flat(x0, y0, c0)]);
                            }
                        }
                    }
                    c = c + 1;
                }
                x = x + 1;
            }
            idx = idx + 1;
        }
        let r = PixelBuffer { width: w, height: h, format: self.format, pixels: buf };
        proof {
            assert forall|x0: int, y0: int, c0: int| r.in_bounds(x0, y0, c0) implies #[trigger] r.at(
                x0,
                y0,
                c0,
            ) == self.at(x0, h - 1 - y0, c0) by {
                lemma_flat_index_bounds(w as int, h as int, ch as int, x0, y0, c0);
                assert(buf@[self.flat(x0, y0, c0)] == swapped_upto(*self, (h / 2) as int, x0, y0, c0));
            }
        }
        r
    }
}

/// Mirroring left-to-right twice restores the starting image.
pub proof fn lemma_flip_h_involution(a: PixelBuffer, b: PixelBuffer, c: PixelBuffer)
    requires
        a.wf(),
        is_flip_h(a, b),
        is_flip_h(b, c),
    ensures
        c.same_shape(a),
        c.pixels@ == a.pixels@,
{
    assert forall|x: int, y: int, k: int| a.in_bounds(x, y, k) implies #[trigger] a.at(x, y, k)
        == c.at(x, y, k) by {
        assert(c.at(x, y, k) == b.at(a.width - 1 - x, y, k));
        assert(b.at(a.width - 1 - x, y, k) == a.at(x, y, k));
    }
    lemma_pixelwise_eq(a, c);
}

/// Mirroring top-to-bottom twice restores the starting image.
pub proof fn lemma_flip_v_involution(a: PixelBuffer, b: PixelBuffer, c: PixelBuffer)
    requires
        a.wf(),
        is_flip_v(a, b),
        is_flip_v(b, c),
    ensures
        c.same_shape(a),
        c.pixels@ == a.pixels@,
{
    assert forall|x: int, y: int, k: int| a.in_bounds(x, y, k) implies #[trigger] a.at(x, y, k)
        == c.at(x, y, k) by {
        assert(c.at(x, y, k) == b.at(x, a.height - 1 - y, k));
        assert(b.at(x, a.height - 1 - y, k) == a.at(x, y, k));
    }
    lemma_pixelwise_eq(a, c);
}

} // verus!
