//! Rectangles of RGBA pixels inside a row-major image buffer.
use vstd::arithmetic::div_mod::{
    lemma_fundamental_div_mod, lemma_fundamental_div_mod_converse, lemma_multiply_divide_lt,
};
use vstd::prelude::*;

verus! {

/// Bytes per pixel: red, green, blue and alpha.
pub const CHANNELS: u32 = 4;

/// A rectangle of pixels: origin and size.
#[derive(Clone, Copy, Debug, PartialEq, Eq, Structural)]
pub struct Rect {
    pub x: u32,
    pub y: u32,
    pub width: u32,
    pub height: u32,
}

impl Rect {
    /// Number of bytes an RGBA copy of this rectangle holds.
    pub open spec fn byte_len(self) -> nat {
        (self.width * self.height * 4) as nat
    }

    /// The rectangle lies inside an image of `w` by `h` pixels.
    pub open spec fn fits_in(self, w: int, h: int) -> bool {
        self.x + self.width <= w && self.y + self.height <= h
    }

    /// The two rectangles share no pixel.
    pub open spec fn disjoint(self, o: Rect) -> bool {
        self.x + self.width <= o.x || o.x + o.width <= self.x || self.y + self.height <= o.y
            || o.y + o.height <= self.y
    }
}

/// Where the `k`-th byte of a row-major RGBA copy of `r` lies in an image `img_w` pixels wide.
pub open spec fn byte_index(img_w: int, r: Rect, k: int) -> int {
    let p = k / 4;
    ((r.y + p / (r.width as int)) * img_w + r.x + p % (r.width as int)) * 4 + k % 4
}

/// The bytes of rectangle `r` of an image `img_w` pixels wide, row by row.
pub open spec fn region(pixels: Seq<u8>, img_w: int, r: Rect) -> Seq<u8> {
    Seq::new(r.byte_len(), |k: int| pixels[byte_index(img_w, r, k)])
}

/// Byte `j` of an image `img_w` pixels wide belongs to a pixel of `r`.
pub open spec fn in_rect(j: int, img_w: int, r: Rect) -> bool {
    let p = j / 4;
    r.x <= p % img_w < r.x + r.width && r.y <= p / img_w < r.y + r.height
}

/// The byte index of a rectangle's `k`-th byte lies in the image, inside the
/// rectangle, and tells the pixel column, row and channel it came from.
pub proof fn lemma_byte_index(img_w: int, img_h: int, r: Rect, k: int)
    requires
        r.width > 0,
        r.fits_in(img_w, img_h),
        0 <= k < r.byte_len(),
    ensures
        0 <= byte_index(img_w, r, k) < img_w * img_h * 4,
        byte_index(img_w, r, k) % 4 == k % 4,
        (byte_index(img_w, r, k) / 4) % img_w == r.x + (k / 4) % (r.width as int),
        (byte_index(img_w, r, k) / 4) / img_w == r.y + (k / 4) / (r.width as int),
        in_rect(byte_index(img_w, r, k), img_w, r),
{
    let w = r.width as int;
    let h = r.height as int;
    let p = k / 4;
    let ch = k % 4;
    let c = p % w;
    let row = p / w;
    assert(p < w * h) by {
        assert(k < (w * h) * 4) by (nonlinear_arith)
            requires k < r.byte_len(), r.byte_len() == w * h * 4;
        lemma_multiply_divide_lt(k, 4, w * h);
    }
    assert(row < h) by {
        assert(p < w * h);
        lemma_multiply_divide_lt(p, w, h);
    }
    assert(0 <= row);
    assert(0 <= c < w);
    let xx = r.x + c;
    let yy = r.y + row;
    let q = yy * img_w + xx;
    assert(0 <= q < img_w * img_h) by (nonlinear_arith)
        requires 0 <= xx < img_w, 0 <= yy < img_h, q == yy * img_w + xx;
    let b = q * 4 + ch;
    assert(b == byte_index(img_w, r, k));
    lemma_fundamental_div_mod_converse(b, 4, q, ch);
    lemma_fundamental_div_mod_converse(q, img_w, yy, xx);
    assert(b < img_w * img_h * 4) by (nonlinear_arith)
        requires q < img_w * img_h, b == q * 4 + ch, ch < 4;
}

/// Two bytes of one rectangle that land on the same image byte are the same byte.
pub proof fn lemma_byte_index_injective(img_w: int, img_h: int, r: Rect, k1: int, k2: int)
    requires
        r.width > 0,
        r.fits_in(img_w, img_h),
        0 <= k1 < r.byte_len(),
        0 <= k2 < r.byte_len(),
        byte_index(img_w, r, k1) == byte_index(img_w, r, k2),
    ensures
        k1 == k2,
{
    lemma_byte_index(img_w, img_h, r, k1);
    lemma_byte_index(img_w, img_h, r, k2);
    let w = r.width as int;
    lemma_fundamental_div_mod(k1, 4);
    lemma_fundamental_div_mod(k2, 4);
    lemma_fundamental_div_mod(k1 / 4, w);
    lemma_fundamental_div_mod(k2 / 4, w);
}

/// Every byte of an image inside rectangle `r` is the byte index of some byte of `r`.
pub proof fn lemma_in_rect_covered(img_w: int, img_h: int, r: Rect, j: int) -> (k: int)
    requires
        r.width > 0,
        r.fits_in(img_w, img_h),
        0 <= j,
        in_rect(j, img_w, r),
    ensures
        0 <= k < r.byte_len(),
        byte_index(img_w, r, k) == j,
{
    let rw = r.width as int;
    let rh = r.height as int;
    let p = j / 4;
    let ch = j % 4;
    assert(img_w > 0);
    let xx = p % img_w;
    let yy = p / img_w;
    let dx = xx - r.x;
    let dy = yy - r.y;
    let q = dy * rw + dx;
    let k = q * 4 + ch;
    assert(0 <= q < rw * rh) by (nonlinear_arith)
        requires 0 <= dx < rw, 0 <= dy < rh, q == dy * rw + dx;
    lemma_fundamental_div_mod_converse(k, 4, q, ch);
    lemma_fundamental_div_mod_converse(q, rw, dy, dx);
    lemma_fundamental_div_mod(j, 4);
    lemma_fundamental_div_mod(p, img_w);
    assert(byte_index(img_w, r, k) == (yy * img_w + xx) * 4 + ch);
    assert((yy * img_w + xx) * 4 + ch == j) by (nonlinear_arith)
        requires j == 4 * p + ch, p == img_w * yy + xx;
    assert(k < r.byte_len()) by (nonlinear_arith)
        requires q < rw * rh, k == q * 4 + ch, ch < 4, r.byte_len() == rw * rh * 4;
    k
}

/// A byte inside one of two disjoint rectangles is not inside the other.
pub proof fn lemma_disjoint_exclusive(j: int, img_w: int, a: Rect, b: Rect)
    requires
        a.disjoint(b),
        in_rect(j, img_w, a),
    ensures
        !in_rect(j, img_w, b),
{
}

/// Copies rectangle `r` out of an RGBA image `img_w` by `img_h` pixels large, row by row.
pub fn copy_region(pixels: &Vec<u8>, img_w: u32, img_h: u32, r: Rect) -> (out: Vec<u8>)
    requires
        pixels@.len() == img_w * img_h * 4,
        r.width > 0,
        r.fits_in(img_w as int, img_h as int),
    ensures
        out@ == region(pixels@, img_w as int, r),
{
    let w = r.width as usize;
    let plen = pixels.len();
    assert(r.byte_len() <= pixels@.len()) by (nonlinear_arith)
        requires
            r.width <= img_w,
            r.height <= img_h,
            r.byte_len() == r.width * r.height * 4,
            pixels@.len() == img_w * img_h * 4,
    ;
    assert(r.width * r.height <= r.byte_len()) by (nonlinear_arith)
        requires r.byte_len() == r.width * r.height * 4, r.width * r.height >= 0;
    let len = w * (r.height as usize) * 4;
    let mut out: Vec<u8> = Vec::with_capacity(len);
    let mut k: usize = 0;
    while k < len
        invariant
            len == r.byte_len(),
            len <= pixels@.len(),
            plen == pixels@.len(),
            w == r.width,
            w > 0,
            pixels@.len() == img_w * img_h * 4,
            r.fits_in(img_w as int, img_h as int),
            k <= len,
            out@.len() == k,
            forall|i: int| 0 <= i < k ==> out@[i] == pixels@[byte_index(img_w as int, r, i)],
        decreases len - k,
    {
        proof {
            lemma_byte_index(img_w as int, img_h as int, r, k as int);
        }
        let p = k / 4;
        let row = (r.y as usize) + p / w;
        let col = (r.x as usize) + p % w;
        let ghost b = byte_index(img_w as int, r, k as int);
        assert(b == (row * img_w + col) * 4 + k % 4);
        assert(b < pixels@.len());
        assert(row * img_w + col <= b && row * img_w <= b) by (nonlinear_arith)
            requires
                b == (row * img_w + col) * 4 + k % 4,
                row >= 0, col >= 0, img_w >= 0, k % 4 >= 0,
        ;
        let idx = (row * (img_w as usize) + col) * 4 + k % 4;
        out.push(pixels[idx]);
        k = k + 1;
    }
    assert(out@ =~= region(pixels@, img_w as int, r));
    out
}

} // verus!
