//! Layout of an RGBA8 image buffer: `width * height` pixels in row-major
//! order, four bytes (red, green, blue, alpha) per pixel.

use vstd::prelude::*;
use vstd::arithmetic::div_mod::lemma_fundamental_div_mod_converse;

verus! {

/// Offset of channel `c` of the pixel at column `x` and row `y` in the buffer
/// of an image `w` pixels wide.
pub open spec fn pixel_index(w: int, x: int, y: int, c: int) -> int {
    (y * w + x) * 4 + c
}

/// Every channel of every pixel lies inside the buffer of `w * h * 4` bytes.
pub proof fn lemma_pixel_index_in_bounds(w: int, h: int, x: int, y: int, c: int)
    requires
        0 <= x < w,
        0 <= y < h,
        0 <= c < 4,
    ensures
        0 <= y * w + x < w * h,
        0 <= pixel_index(w, x, y, c) < w * h * 4,
        pixel_index(w, x, y, c) + 4 - c <= w * h * 4,
{
    assert(0 <= y * w + x < w * h) by (nonlinear_arith)
        requires
            0 <= x < w,
            0 <= y < h,
    ;
}

/// Every offset inside the buffer is the offset of exactly one channel of one
/// pixel: the one given by division by four and by the width.
pub proof fn lemma_pixel_coords(w: int, h: int, i: int)
    requires
        w > 0,
        0 <= i < w * h * 4,
    ensures
        0 <= (i / 4) % w < w,
        0 <= (i / 4) / w < h,
        0 <= i % 4 < 4,
        i == pixel_index(w, (i / 4) % w, (i / 4) / w, i % 4),
{
    let p = i / 4;
    assert(i == p * 4 + i % 4);
    assert(0 <= p < w * h);
    assert(p == (p / w) * w + p % w) by {
        vstd::arithmetic::div_mod::lemma_fundamental_div_mod(p, w);
        vstd::arithmetic::mul::lemma_mul_is_commutative(w, p / w);
    }
    assert(0 <= p % w < w) by {
        vstd::arithmetic::div_mod::lemma_mod_bound(p, w);
    }
    let q = p / w;
    let r = p % w;
    assert(0 <= q < h) by (nonlinear_arith)
        requires
            p == q * w + r,
            0 <= r < w,
            0 <= p < w * h,
    ;
}

/// Two pixels of one image share a channel offset only if they are the same
/// pixel and channel.
pub proof fn lemma_pixel_index_injective(w: int, x1: int, y1: int, c1: int, x2: int, y2: int, c2: int)
    requires
        0 <= x1 < w,
        0 <= x2 < w,
        0 <= y1,
        0 <= y2,
        0 <= c1 < 4,
        0 <= c2 < 4,
        pixel_index(w, x1, y1, c1) == pixel_index(w, x2, y2, c2),
    ensures
        x1 == x2,
        y1 == y2,
        c1 == c2,
{
    let p1 = y1 * w + x1;
    let p2 = y2 * w + x2;
    lemma_fundamental_div_mod_converse(pixel_index(w, x1, y1, c1), 4, p1, c1);
    lemma_fundamental_div_mod_converse(pixel_index(w, x2, y2, c2), 4, p2, c2);
    lemma_fundamental_div_mod_converse(p1, w, y1, x1);
    lemma_fundamental_div_mod_converse(p2, w, y2, x2);
}

/// The offsets of the four channels of pixel `(x0, y0)` are the offsets
/// `pixel_index(w, x0, y0, 0) + k` for `k` in `0..4`, and no other pixel has one of them.
pub proof fn lemma_pixel_block(w: int, x: int, y: int, c: int, x0: int, y0: int)
    requires
        0 <= x < w,
        0 <= x0 < w,
        0 <= y,
        0 <= y0,
        0 <= c < 4,
    ensures
        (pixel_index(w, x0, y0, 0) <= pixel_index(w, x, y, c) < pixel_index(w, x0, y0, 0) + 4)
            <==> (x == x0 && y == y0),
{
    let a = pixel_index(w, x0, y0, 0);
    let i = pixel_index(w, x, y, c);
    if a <= i < a + 4 {
        lemma_pixel_index_injective(w, x, y, c, x0, y0, i - a);
    }
}

/// Offset of the first channel of pixel `(x, y)`, computed without overflow.
pub(crate) fn pixel_start(width: usize, height: usize, len: usize, x: usize, y: usize) -> (r: usize)
    requires
        len == width * height * 4,
        x < width,
        y < height,
    ensures
        r == pixel_index(width as int, x as int, y as int, 0),
        r + 4 <= len,
{
    proof {
        lemma_pixel_index_in_bounds(width as int, height as int, x as int, y as int, 0);
    }
    (y * width + x) * 4
}

/// Number of bytes of the RGBA buffer of a `width` by `height` image, or
/// `None` when that number does not fit in a `usize`.
pub fn rgba_len(width: usize, height: usize) -> (r: Option<usize>)
    ensures
        r == if width * height * 4 <= usize::MAX {
            Some((width * height * 4) as usize)
        } else {
            None
        },
{
    match width.checked_mul(height) {
        Some(pixels) => pixels.checked_mul(4),
        None => {
            proof {
                assert(width * height * 4 >= width * height) by (nonlinear_arith)
                    requires
                        width * height > usize::MAX,
                ;
            }
            None
        },
    }
}

} // verus!
