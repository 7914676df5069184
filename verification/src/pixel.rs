//! The raster data model: an 8-bit image as a flat, row-major byte buffer
//! together with its dimensions and channel layout, and the indexing lemmas
//! that relate flat buffer positions to (column, row, channel) coordinates.

use vstd::prelude::*;

verus! {

use vstd::arithmetic::div_mod::{
    lemma_fundamental_div_mod,
    lemma_mod_bound,
    lemma_div_pos_is_pos,
    lemma_multiply_divide_lt,
};

/// Pixel layouts the engine understands: 8-bit RGB (three bytes per pixel) and
/// 8-bit grayscale (one byte per pixel), row-major, top-left origin, no row
/// padding.
#[derive(Clone, Copy, Debug, PartialEq, Eq, Structural)]
pub enum PixelFormat {
    Rgb8,
    Gray8,
}

impl PixelFormat {
    /// Bytes (channels) per pixel.
    pub open spec fn channels(self) -> int {
        match self {
            PixelFormat::Rgb8 => 3,
            PixelFormat::Gray8 => 1,
        }
    }

    /// Executable counterpart of `channels`.
    pub fn channel_count(&self) -> (n: usize)
        ensures
            n == self.channels(),
    {
        match self {
            PixelFormat::Rgb8 => 3,
            PixelFormat::Gray8 => 1,
        }
    }
}

/// How a call into the engine can fail; every failure is a precondition
/// violation reported to the caller instead of a panic.
#[derive(Clone, Copy, Debug, PartialEq, Eq, Structural)]
pub enum EngineError {
    /// The byte buffer's length does not equal `width * height * channels`.
    BadLength,
    /// The image has zero width or zero height.
    EmptyImage,
    /// A zoom-out scaling factor is zero.
    ZeroScale,
    /// Quantization was requested with zero levels.
    ZeroLevels,
    /// The requested output buffer would exceed the machine's address space.
    TooLarge,
}

/// An owned raster image: `pixels` holds `width * height * channels(format)`
/// bytes, row-major from the top-left corner, with no padding between rows.
#[derive(Clone, Debug, PartialEq, Eq)]
pub struct PixelBuffer {
    pub width: u32,
    pub height: u32,
    pub format: PixelFormat,
    pub pixels: Vec<u8>,
}

impl PixelBuffer {
    /// Bytes per pixel of this image.
    pub open spec fn chans(self) -> int {
        self.format.channels()
    }

    /// The buffer length is exactly one byte per channel per pixel.
    pub open spec fn wf(self) -> bool {
        self.pixels@.len() == self.width * self.height * self.chans()
    }

    /// Flat buffer position of channel `c` of the pixel at column `x`, row `y`.
    pub open spec fn flat(self, x: int, y: int, c: int) -> int {
        (y * self.width + x) * self.chans() + c
    }

    /// The byte at channel `c` of the pixel at column `x`, row `y`.
    pub open spec fn at(self, x: int, y: int, c: int) -> u8 {
        self.pixels@[self.flat(x, y, c)]
    }

    /// `(x, y, c)` addresses a channel of some pixel of this image.
    pub open spec fn in_bounds(self, x: int, y: int, c: int) -> bool {
        0 <= x < self.width && 0 <= y < self.height && 0 <= c < self.chans()
    }

    /// Same dimensions and same channel layout.
    pub open spec fn same_shape(self, other: PixelBuffer) -> bool {
        self.width == other.width && self.height == other.height && self.format == other.format
    }

    /// Wraps a decoded byte buffer, rejecting one whose length does not match
    /// the stated dimensions and format.
    pub fn new(width: u32, height: u32, format: PixelFormat, pixels: Vec<u8>) -> (r: Result<
        PixelBuffer,
        EngineError,
    >)
        ensures
            pixels@.len() == width * height * format.channels() ==> (r matches Ok(img)
                && img.width == width && img.height == height && img.format == format
                && img.pixels@ == pixels@ && img.wf()),
            pixels@.len() != width * height * format.channels() ==> r == Err::<
                PixelBuffer,
                EngineError,
            >(EngineError::BadLength),
    {
        let ch: usize = format.channel_count();
        proof {
            lemma_image_size_bound(width as int, height as int, ch as int);
        }
        let expected: u128 = (width as u128) * (height as u128) * (ch as u128);
        if (pixels.len() as u128) == expected {
            Ok(PixelBuffer { width, height, format, pixels })
        } else {
            Err(EngineError::BadLength)
        }
    }

    /// The image's `(width, height)` pair.
    pub fn get_dimensions(&self) -> (r: (u32, u32))
        ensures
            r.0 == self.width,
            r.1 == self.height,
    {
        (self.width, self.height)
    }

    /// Reads channel `c` of the pixel at column `x`, row `y`.
    pub fn get(&self, x: u32, y: u32, c: u32) -> (v: u8)
        requires
            self.wf(),
            self.in_bounds(x as int, y as int, c as int),
        ensures
            v == self.at(x as int, y as int, c as int),
    {
        let n: usize = self.pixels.len();
        proof {
            lemma_flat_index_bounds(
                self.width as int,
                self.height as int,
                self.chans(),
                x as int,
                y as int,
                c as int,
            );
        }
        let ch: usize = self.format.channel_count();
        let i: usize = ((y as usize) * (self.width as usize) + (x as usize)) * ch + (c as usize);
        self.pixels[i]
    }
}

/// The byte count of an image with 32-bit dimensions and at most three
/// channels stays far below the 128-bit range.
pub proof fn lemma_image_size_bound(w: int, h: int, ch: int)
    by (nonlinear_arith)
    requires
        0 <= w < 0x1_0000_0000,
        0 <= h < 0x1_0000_0000,
        0 <= ch <= 3,
    ensures
        0 <= w * h * ch < 0x1_0000_0000_0000_0000_0000_0000,
{
}

/// An in-bounds coordinate triple has its flat position inside the buffer;
/// the row-start and pixel-start prefixes of that position are in range too.
pub proof fn lemma_flat_index_bounds(w: int, h: int, ch: int, x: int, y: int, c: int)
    by (nonlinear_arith)
    requires
        0 <= x < w,
        0 <= y < h,
        0 <= c < ch,
    ensures
        0 <= y * w + x < w * h,
        0 <= (y * w + x) * ch + c < w * h * ch,
        w * h <= w * h * ch,
{
}

/// Flat positions respect row-major order: a triple that comes earlier in
/// (row, column, channel) order sits at a strictly smaller flat position.
pub proof fn lemma_flat_index_order(
    w: int,
    ch: int,
    x1: int,
    y1: int,
    c1: int,
    x2: int,
    y2: int,
    c2: int,
)
    by (nonlinear_arith)
    requires
        0 <= x1 < w,
        0 <= c1 < ch,
        0 <= x2 < w,
        0 <= c2 < ch,
        0 <= y1,
        0 <= y2,
        y1 < y2 || (y1 == y2 && x1 < x2) || (y1 == y2 && x1 == x2 && c1 < c2),
    ensures
        (y1 * w + x1) * ch + c1 < (y2 * w + x2) * ch + c2,
{
}

/// Computes the flat buffer position of channel `c` of the pixel at `(x, y)`
/// inside a buffer of `n` bytes that holds a `w`-by-`h` image with `ch`
/// channels per pixel.
pub fn flat_index(w: u32, h: u32, ch: usize, x: u32, y: u32, c: usize, n: usize) -> (i: usize)
    requires
        x < w,
        y < h,
        c < ch,
        n == (w as int) * (h as int) * (ch as int),
    ensures
        i == ((y as int) * (w as int) + (x as int)) * (ch as int) + (c as int),
        i < n,
{
    proof {
        lemma_flat_index_bounds(w as int, h as int, ch as int, x as int, y as int, c as int);
    }
    ((y as usize) * (w as usize) + (x as usize)) * ch + c
}

/// Copies a byte buffer.
pub fn clone_bytes(v: &Vec<u8>) -> (r: Vec<u8>)
    ensures
        r@ == v@,
{
    let r = v.clone();
    proof {
        assert forall|i: int| 0 <= i < v@.len() implies r@[i] == v@[i] by {
            assert(cloned::<u8>(v[i], r[i]));
        }
        assert(r@ =~= v@);
    }
    r
}

/// Distinct in-bounds coordinate triples sit at distinct flat positions.
pub proof fn lemma_flat_index_ne(
    w: int,
    ch: int,
    x1: int,
    y1: int,
    c1: int,
    x2: int,
    y2: int,
    c2: int,
)
    requires
        0 <= x1 < w,
        0 <= c1 < ch,
        0 <= x2 < w,
        0 <= c2 < ch,
        0 <= y1,
        0 <= y2,
        !(x1 == x2 && y1 == y2 && c1 == c2),
    ensures
        (y1 * w + x1) * ch + c1 != (y2 * w + x2) * ch + c2,
{
    if y1 < y2 || (y1 == y2 && x1 < x2) || (y1 == y2 && x1 == x2 && c1 < c2) {
        lemma_flat_index_order(w, ch, x1, y1, c1, x2, y2, c2);
    } else {
        lemma_flat_index_order(w, ch, x2, y2, c2, x1, y1, c1);
    }
}

/// Stepping one pixel (or one row) forward moves the flat position by exactly
/// one stride: `(a + 1) * b == a * b + b`.
pub proof fn lemma_mul_step(a: int, b: int)
    by (nonlinear_arith)
    ensures
        (a + 1) * b == a * b + b,
{
}

/// Column of the pixel whose channel sits at flat buffer position `j`.
pub open spec fn coord_x(w: int, ch: int, j: int) -> int {
    (j / ch) % w
}

/// Row of the pixel whose channel sits at flat buffer position `j`.
pub open spec fn coord_y(w: int, ch: int, j: int) -> int {
    (j / ch) / w
}

/// Channel index addressed by flat buffer position `j`.
pub open spec fn coord_c(ch: int, j: int) -> int {
    j % ch
}

/// Every flat buffer position addresses exactly one in-bounds
/// (column, row, channel) triple.
pub proof fn lemma_flat_index_decompose(w: int, h: int, ch: int, j: int)
    requires
        1 <= ch,
        0 <= w,
        0 <= h,
        0 <= j < w * h * ch,
    ensures
        0 <= coord_x(w, ch, j) < w,
        0 <= coord_y(w, ch, j) < h,
        0 <= coord_c(ch, j) < ch,
        j == (coord_y(w, ch, j) * w + coord_x(w, ch, j)) * ch + coord_c(ch, j),
{
    assert(1 <= w && 1 <= h && j < ch * (w * h)) by (nonlinear_arith)
        requires
            0 <= j < w * h * ch,
            1 <= ch,
            0 <= w,
            0 <= h,
    ;
    let q: int = j / ch;
    let c: int = j % ch;
    lemma_fundamental_div_mod(j, ch);
    lemma_mod_bound(j, ch);
    lemma_div_pos_is_pos(j, ch);
    lemma_multiply_divide_lt(j, ch, w * h);
    let x: int = q % w;
    let y: int = q / w;
    lemma_fundamental_div_mod(q, w);
    lemma_mod_bound(q, w);
    lemma_div_pos_is_pos(q, w);
    lemma_multiply_divide_lt(q, w, h);
    assert(j == (y * w + x) * ch + c) by (nonlinear_arith)
        requires
            j == ch * q + c,
            q == w * y + x,
    ;
}

/// Two well-formed images of the same shape whose corresponding channels all
/// agree hold identical byte buffers.
pub proof fn lemma_pixelwise_eq(a: PixelBuffer, b: PixelBuffer)
    requires
        a.wf(),
        b.wf(),
        a.same_shape(b),
        forall|x: int, y: int, c: int|
            a.in_bounds(x, y, c) ==> #[trigger] a.at(x, y, c) == b.at(x, y, c),
    ensures
        a.pixels@ == b.pixels@,
{
    let w: int = a.width as int;
    let h: int = a.height as int;
    let ch: int = a.chans();
    assert forall|j: int| 0 <= j < a.pixels@.len() implies a.pixels@[j] == b.pixels@[j] by {
        lemma_flat_index_decompose(w, h, ch, j);
        let x: int = coord_x(w, ch, j);
        let y: int = coord_y(w, ch, j);
        let c: int = coord_c(ch, j);
        assert(a.at(x, y, c) == b.at(x, y, c));
    }
    assert(a.pixels@ =~= b.pixels@);
}

/// A single byte write at one coordinate triple of a `bw`-by-`bh` image
/// buffer leaves every other in-bounds position untouched.
pub proof fn lemma_write_preserves_others(
    prev: Seq<u8>,
    cur: Seq<u8>,
    bw: int,
    bh: int,
    wx: int,
    wy: int,
    wc: int,
    v: u8,
)
    requires
        prev.len() == bw * bh * 3,
        cur == prev.update((wy * bw + wx) * 3 + wc, v),
        0 <= wx < bw,
        0 <= wy < bh,
        0 <= wc < 3,
    ensures
        cur.len() == prev.len(),
        cur[(wy * bw + wx) * 3 + wc] == v,
        forall|x: int, y: int, c: int|
            0 <= x < bw && 0 <= y < bh && 0 <= c < 3 && !(x == wx && y == wy && c == wc)
                ==> #[trigger] cur[(y * bw + x) * 3 + c] == prev[(y * bw + x) * 3 + c],
{
    lemma_flat_index_bounds(bw, bh, 3, wx, wy, wc);
    assert forall|x: int, y: int, c: int|
        0 <= x < bw && 0 <= y < bh && 0 <= c < 3 && !(x == wx && y == wy && c == wc)
        implies #[trigger] cur[(y * bw + x) * 3 + c] == prev[(y * bw + x) * 3 + c] by {
        lemma_flat_index_ne(bw, 3, x, y, c, wx, wy, wc);
        lemma_flat_index_bounds(bw, bh, 3, x, y, c);
    }
}

} // verus!
