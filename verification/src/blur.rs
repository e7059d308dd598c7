//! The blur filter: replaces each pixel of an RGBA image by a weighted mean
//! of the pixels around it, in place and in row-major order, for a number of
//! passes.
//!
//! A neighbour at offset `(ox, oy)` weighs `1000 / (ox² + oy²)` (rounded
//! down), the pixel itself `1000`: the inverse of the squared distance, scaled
//! to integers. Neighbours farther than 31 pixels along either axis therefore
//! weigh nothing, whatever the radius. Pixels are updated one after the other,
//! so a pixel's mean already sees the new values of the pixels before it.

use vstd::prelude::*;
use vstd::arithmetic::div_mod::lemma_fundamental_div_mod_converse;
use vstd::utf8::{decode_utf8, encode_utf8_decode_utf8, valid_utf8};
use crate::params::{json_accepts, json_member_u64, json_u64_member, utf8_text};
use crate::rgba::{pixel_index, pixel_start, rgba_len, lemma_pixel_index_in_bounds};

verus! {

/// Weight, scaled by 1000, of a neighbour at offset `(ox, oy)`.
pub open spec fn weight(ox: int, oy: int) -> int {
    let d: int = ox * ox + oy * oy;
    if d == 0 {
        1000
    } else {
        1000int / d
    }
}

/// First row (or column) of the window of radius `r` around `v`: `v - r`,
/// stopped at 0.
pub open spec fn window_lo(v: int, r: int) -> int {
    if v >= r {
        v - r
    } else {
        0
    }
}

/// End (exclusive) of the window of radius `r` around `v` on a line of `n`
/// pixels: `v + r + 1`, stopped at `n`.
pub open spec fn window_hi(v: int, r: int, n: int) -> int {
    if v + r + 1 <= n {
        v + r + 1
    } else {
        n
    }
}

/// Sum of `f(dx, dy)` over the columns `dx` in `lo..hi` of row `dy`.
pub open spec fn row_total(f: spec_fn(int, int) -> int, dy: int, lo: int, hi: int) -> int
    decreases hi - lo,
{
    if hi <= lo {
        0
    } else {
        row_total(f, dy, lo, hi - 1) + f(hi - 1, dy)
    }
}

/// Sum of `f(dx, dy)` over the rows `dy` in `ylo..yhi` and the columns `dx` in `xlo..xhi`.
pub open spec fn window_total(f: spec_fn(int, int) -> int, ylo: int, yhi: int, xlo: int, xhi: int) -> int
    decreases yhi - ylo,
{
    if yhi <= ylo {
        0
    } else {
        window_total(f, ylo, yhi - 1, xlo, xhi) + row_total(f, yhi - 1, xlo, xhi)
    }
}

/// The weight of pixel `(dx, dy)` as a neighbour of pixel `(x, y)`.
pub open spec fn weight_term(x: int, y: int) -> spec_fn(int, int) -> int {
    |dx: int, dy: int| weight(dx - x, dy - y)
}

/// Channel `c` of pixel `(dx, dy)` of the image `s`, times its weight as a
/// neighbour of pixel `(x, y)`.
pub open spec fn channel_term(s: Seq<u8>, w: int, x: int, y: int, c: int) -> spec_fn(int, int) -> int {
    |dx: int, dy: int| s[pixel_index(w, dx, dy, c)] * weight(dx - x, dy - y)
}

/// Weighted mean of channel `c` over the window of radius `r` around pixel
/// `(x, y)` of the `w` by `h` image `s`, rounded down.
pub open spec fn window_mean(s: Seq<u8>, w: int, h: int, r: int, x: int, y: int, c: int) -> u8 {
    let ylo = window_lo(y, r);
    let yhi = window_hi(y, r, h);
    let xlo = window_lo(x, r);
    let xhi = window_hi(x, r, w);
    (window_total(channel_term(s, w, x, y, c), ylo, yhi, xlo, xhi) / window_total(
        weight_term(x, y),
        ylo,
        yhi,
        xlo,
        xhi,
    )) as u8
}

/// The image `s` with pixel `(x, y)` replaced by the weighted means of its
/// window of radius `r`, all four means taken from `s` (the window always
/// holds the pixel itself, so its total weight is never zero).
pub open spec fn blur_pixel(s: Seq<u8>, w: int, h: int, r: int, x: int, y: int) -> Seq<u8> {
    s.update(pixel_index(w, x, y, 0), window_mean(s, w, h, r, x, y, 0)).update(
        pixel_index(w, x, y, 1),
        window_mean(s, w, h, r, x, y, 1),
    ).update(pixel_index(w, x, y, 2), window_mean(s, w, h, r, x, y, 2)).update(
        pixel_index(w, x, y, 3),
        window_mean(s, w, h, r, x, y, 3),
    )
}

/// The image `s` after the first `k` pixels in row-major order have been
/// blurred, one after the other.
pub open spec fn blur_prefix(s: Seq<u8>, w: int, h: int, r: int, k: nat) -> Seq<u8>
    decreases k,
{
    if k == 0 {
        s
    } else {
        let k1 = (k - 1) as nat;
        blur_pixel(blur_prefix(s, w, h, r, k1), w, h, r, (k1 as int) % w, (k1 as int) / w)
    }
}

/// One blur pass over all the pixels of the image.
pub open spec fn blur_pass(s: Seq<u8>, w: int, h: int, r: int) -> Seq<u8> {
    blur_prefix(s, w, h, r, (w * h) as nat)
}

/// The image `s` after `n` blur passes of radius `r`.
pub open spec fn blurred(s: Seq<u8>, w: int, h: int, r: int, n: nat) -> Seq<u8>
    decreases n,
{
    if n == 0 {
        s
    } else {
        blur_pass(blurred(s, w, h, r, (n - 1) as nat), w, h, r)
    }
}

// ----- sums over windows -----

proof fn lemma_row_split(f: spec_fn(int, int) -> int, dy: int, lo: int, mid: int, hi: int)
    requires
        lo <= mid <= hi,
    ensures
        row_total(f, dy, lo, hi) == row_total(f, dy, lo, mid) + row_total(f, dy, mid, hi),
    decreases hi - mid,
{
    if hi > mid {
        lemma_row_split(f, dy, lo, mid, hi - 1);
    }
}

proof fn lemma_row_zero(f: spec_fn(int, int) -> int, dy: int, lo: int, hi: int)
    requires
        forall|dx: int| lo <= dx < hi ==> #[trigger] f(dx, dy) == 0,
    ensures
        row_total(f, dy, lo, hi) == 0,
    decreases hi - lo,
{
    if hi > lo {
        lemma_row_zero(f, dy, lo, hi - 1);
    }
}

proof fn lemma_window_split(f: spec_fn(int, int) -> int, ylo: int, ymid: int, yhi: int, xlo: int, xhi: int)
    requires
        ylo <= ymid <= yhi,
    ensures
        window_total(f, ylo, yhi, xlo, xhi) == window_total(f, ylo, ymid, xlo, xhi) + window_total(
            f,
            ymid,
            yhi,
            xlo,
            xhi,
        ),
    decreases yhi - ymid,
{
    if yhi > ymid {
        lemma_window_split(f, ylo, ymid, yhi - 1, xlo, xhi);
    }
}

proof fn lemma_window_zero(f: spec_fn(int, int) -> int, ylo: int, yhi: int, xlo: int, xhi: int)
    requires
        forall|dx: int, dy: int| ylo <= dy < yhi && xlo <= dx < xhi ==> #[trigger] f(dx, dy) == 0,
    ensures
        window_total(f, ylo, yhi, xlo, xhi) == 0,
    decreases yhi - ylo,
{
    if yhi > ylo {
        lemma_window_zero(f, ylo, yhi - 1, xlo, xhi);
        lemma_row_zero(f, yhi - 1, xlo, xhi);
    }
}

/// Changing the columns of a window changes nothing when each row keeps its sum.
proof fn lemma_window_same_rows(
    f: spec_fn(int, int) -> int,
    ylo: int,
    yhi: int,
    xlo1: int,
    xhi1: int,
    xlo2: int,
    xhi2: int,
)
    requires
        forall|dy: int| ylo <= dy < yhi ==> #[trigger] row_total(f, dy, xlo1, xhi1) == row_total(f, dy, xlo2, xhi2),
    ensures
        window_total(f, ylo, yhi, xlo1, xhi1) == window_total(f, ylo, yhi, xlo2, xhi2),
    decreases yhi - ylo,
{
    if yhi > ylo {
        lemma_window_same_rows(f, ylo, yhi - 1, xlo1, xhi1, xlo2, xhi2);
    }
}

/// The farthest offset, along either axis, at which a neighbour still weighs something.
pub open spec fn reach() -> int {
    31
}

/// A neighbour 32 or more pixels away along an axis weighs nothing, and no
/// neighbour weighs more than the pixel itself.
pub proof fn lemma_weight_range(ox: int, oy: int)
    ensures
        0 <= weight(ox, oy) <= 1000,
        (ox > reach() || ox < -reach() || oy > reach() || oy < -reach()) ==> weight(ox, oy) == 0,
        (ox == 0 && oy == 0) ==> weight(ox, oy) == 1000,
{
    let d: int = ox * ox + oy * oy;
    assert(ox * ox >= 0 && oy * oy >= 0) by (nonlinear_arith);
    assert((ox > 31 || ox < -31) ==> ox * ox >= 1024) by (nonlinear_arith);
    assert((oy > 31 || oy < -31) ==> oy * oy >= 1024) by (nonlinear_arith);
    assert(ox * ox == 0 ==> ox == 0) by (nonlinear_arith);
    assert(oy * oy == 0 ==> oy == 0) by (nonlinear_arith);
    if d != 0 {
        assert(1000int / d <= 1000) by (nonlinear_arith)
            requires
                d >= 1,
        ;
        assert(1000int / d >= 0) by (nonlinear_arith)
            requires
                d >= 1,
        ;
        if d >= 1024 {
            assert(1000int / d == 0) by (nonlinear_arith)
                requires
                    d >= 1024,
            ;
        }
    }
}

/// A term that carries a weight vanishes wherever the weight does.
pub open spec fn vanishes_beyond_reach(f: spec_fn(int, int) -> int, x: int, y: int) -> bool {
    forall|dx: int, dy: int|
        (dx - x > reach() || x - dx > reach() || dy - y > reach() || y - dy > reach()) ==> #[trigger] f(dx, dy) == 0
}

/// Smaller of `r` and the reach of the weights.
pub open spec fn clipped(r: int) -> int {
    if r <= reach() {
        r
    } else {
        reach()
    }
}

/// Summing a term that vanishes beyond the reach of the weights over the
/// window of radius `r` gives the same as over the window of radius `clipped(r)`.
pub proof fn lemma_window_clip(f: spec_fn(int, int) -> int, w: int, h: int, r: int, x: int, y: int)
    requires
        0 <= x < w,
        0 <= y < h,
        r >= 0,
        vanishes_beyond_reach(f, x, y),
    ensures
        window_total(f, window_lo(y, r), window_hi(y, r, h), window_lo(x, r), window_hi(x, r, w))
            == window_total(
            f,
            window_lo(y, clipped(r)),
            window_hi(y, clipped(r), h),
            window_lo(x, clipped(r)),
            window_hi(x, clipped(r), w),
        ),
{
    if r > reach() {
        let c = clipped(r);
        let (ylo, yhi, xlo, xhi) = (window_lo(y, r), window_hi(y, r, h), window_lo(x, r), window_hi(x, r, w));
        let (ylo2, yhi2, xlo2, xhi2) = (window_lo(y, c), window_hi(y, c, h), window_lo(x, c), window_hi(x, c, w));
        // Each row: the columns outside the clipped window add nothing.
        assert forall|dy: int| ylo <= dy < yhi implies #[trigger] row_total(f, dy, xlo, xhi) == row_total(f, dy, xlo2, xhi2) by {
            lemma_row_split(f, dy, xlo, xlo2, xhi);
            lemma_row_split(f, dy, xlo2, xhi2, xhi);
            lemma_row_zero(f, dy, xlo, xlo2);
            lemma_row_zero(f, dy, xhi2, xhi);
        }
        lemma_window_same_rows(f, ylo, yhi, xlo, xhi, xlo2, xhi2);
        // The rows outside the clipped window add nothing.
        lemma_window_split(f, ylo, ylo2, yhi, xlo2, xhi2);
        lemma_window_split(f, ylo2, yhi2, yhi, xlo2, xhi2);
        lemma_window_zero(f, ylo, ylo2, xlo2, xhi2);
        lemma_window_zero(f, yhi2, yhi, xlo2, xhi2);
    }
}

/// Both kinds of terms vanish beyond the reach of the weights.
pub proof fn lemma_terms_vanish(s: Seq<u8>, w: int, x: int, y: int, c: int)
    ensures
        vanishes_beyond_reach(weight_term(x, y), x, y),
        vanishes_beyond_reach(channel_term(s, w, x, y, c), x, y),
{
    assert forall|dx: int, dy: int|
        (dx - x > reach() || x - dx > reach() || dy - y > reach() || y - dy > reach()) implies #[trigger] weight_term(x, y)(dx, dy) == 0 by {
        lemma_weight_range(dx - x, dy - y);
    }
    assert forall|dx: int, dy: int|
        (dx - x > reach() || x - dx > reach() || dy - y > reach() || y - dy > reach()) implies #[trigger] channel_term(s, w, x, y, c)(dx, dy) == 0 by {
        lemma_weight_range(dx - x, dy - y);
        let wt = weight(dx - x, dy - y);
        let v = s[pixel_index(w, dx, dy, c)] as int;
        assert(v * wt == 0) by (nonlinear_arith)
            requires
                wt == 0,
        ;
    }
}

proof fn lemma_row_nonneg(f: spec_fn(int, int) -> int, dy: int, lo: int, hi: int)
    requires
        forall|dx: int| lo <= dx < hi ==> #[trigger] f(dx, dy) >= 0,
    ensures
        row_total(f, dy, lo, hi) >= 0,
    decreases hi - lo,
{
    if hi > lo {
        lemma_row_nonneg(f, dy, lo, hi - 1);
    }
}

proof fn lemma_window_nonneg(f: spec_fn(int, int) -> int, ylo: int, yhi: int, xlo: int, xhi: int)
    requires
        forall|dx: int, dy: int| ylo <= dy < yhi && xlo <= dx < xhi ==> #[trigger] f(dx, dy) >= 0,
    ensures
        window_total(f, ylo, yhi, xlo, xhi) >= 0,
    decreases yhi - ylo,
{
    if yhi > ylo {
        lemma_window_nonneg(f, ylo, yhi - 1, xlo, xhi);
        lemma_row_nonneg(f, yhi - 1, xlo, xhi);
    }
}

/// A window that holds the pixel itself weighs at least as much as that pixel.
proof fn lemma_window_weight_positive(x: int, y: int, ylo: int, yhi: int, xlo: int, xhi: int)
    requires
        ylo <= y < yhi,
        xlo <= x < xhi,
    ensures
        window_total(weight_term(x, y), ylo, yhi, xlo, xhi) >= 1000,
{
    let f = weight_term(x, y);
    assert forall|dx: int, dy: int| true implies #[trigger] f(dx, dy) >= 0 by {
        lemma_weight_range(dx - x, dy - y);
    }
    lemma_weight_range(0, 0);
    lemma_window_split(f, ylo, y, yhi, xlo, xhi);
    lemma_window_split(f, y, y + 1, yhi, xlo, xhi);
    lemma_window_nonneg(f, ylo, y, xlo, xhi);
    lemma_window_nonneg(f, y + 1, yhi, xlo, xhi);
    assert(window_total(f, y, y, xlo, xhi) == 0);
    assert(window_total(f, y, y + 1, xlo, xhi) == row_total(f, y, xlo, xhi));
    lemma_row_split(f, y, xlo, x, xhi);
    lemma_row_split(f, y, x, x + 1, xhi);
    lemma_row_nonneg(f, y, xlo, x);
    lemma_row_nonneg(f, y, x + 1, xhi);
    assert(row_total(f, y, x, x) == 0);
    assert(row_total(f, y, x, x + 1) == f(x, y));
}

/// The weight of neighbour `(dx, dy)` of pixel `(x, y)`, for a neighbour
/// within the reach of the weights.
fn neighbour_weight(x: usize, y: usize, dx: usize, dy: usize) -> (wt: u32)
    requires
        -reach() <= dx - x <= reach(),
        -reach() <= dy - y <= reach(),
    ensures
        wt == weight(dx - x, dy - y),
        wt <= 1000,
{
    let ox: u32 = if dx >= x { (dx - x) as u32 } else { (x - dx) as u32 };
    let oy: u32 = if dy >= y { (dy - y) as u32 } else { (y - dy) as u32 };
    proof {
        lemma_weight_range(dx - x, dy - y);
        let sx: int = dx - x;
        let sy: int = dy - y;
        assert(ox * ox == sx * sx) by (nonlinear_arith)
            requires
                ox == sx || ox == -sx,
        ;
        assert(oy * oy == sy * sy) by (nonlinear_arith)
            requires
                oy == sy || oy == -sy,
        ;
        assert(ox * ox <= 961 && oy * oy <= 961) by (nonlinear_arith)
            requires
                ox <= 31,
                oy <= 31,
        ;
    }
    let d = ox * ox + oy * oy;
    if d == 0 {
        1000
    } else {
        1000 / d
    }
}

/// Replaces pixel `(x, y)` by the weighted means of its window, reading the
/// buffer as it stands.
fn blur_one_pixel(
    width: usize,
    height: usize,
    len: usize,
    data: &mut Vec<u8>,
    radius: usize,
    x: usize,
    y: usize,
)
    requires
        len == width * height * 4,
        old(data)@.len() == len,
        x < width,
        y < height,
    ensures
        final(data)@ == blur_pixel(
            old(data)@,
            width as int,
            height as int,
            radius as int,
            x as int,
            y as int,
        ),
        final(data)@.len() == len,
{
    let ghost s = data@;
    let ghost w = width as int;
    let ghost h = height as int;
    // Neighbours beyond the reach of the weights add nothing to the sums, so
    // the sums run over the window clipped to that reach.
    let rc: usize = if radius <= 31 { radius } else { 31 };
    let ylo: usize = if y >= rc { y - rc } else { 0 };
    let yhi: usize = if rc < height - y { y + rc + 1 } else { height };
    let xlo: usize = if x >= rc { x - rc } else { 0 };
    let xhi: usize = if rc < width - x { x + rc + 1 } else { width };
    assert(rc == clipped(radius as int));
    assert(ylo == window_lo(y as int, rc as int));
    assert(yhi == window_hi(y as int, rc as int, h));
    assert(xlo == window_lo(x as int, rc as int));
    assert(xhi == window_hi(x as int, rc as int, w));
    let ghost fw = weight_term(x as int, y as int);
    let ghost f0 = channel_term(s, w, x as int, y as int, 0);
    let ghost f1 = channel_term(s, w, x as int, y as int, 1);
    let ghost f2 = channel_term(s, w, x as int, y as int, 2);
    let ghost f3 = channel_term(s, w, x as int, y as int, 3);
    let mut r: u32 = 0;
    let mut g: u32 = 0;
    let mut b: u32 = 0;
    let mut a: u32 = 0;
    let mut total_weight: u32 = 0;
    let mut dy: usize = ylo;
    while dy < yhi
        invariant
            data@ == s,
            len == width * height * 4,
            s.len() == len,
            w == width,
            h == height,
            ylo <= dy <= yhi,
            yhi <= height,
            xhi <= width,
            xlo <= x < xhi,
            ylo + 31 >= y,
            yhi <= y + 32,
            xlo + 31 >= x,
            xhi <= x + 32,
            fw == weight_term(x as int, y as int),
            f0 == channel_term(s, w, x as int, y as int, 0),
            f1 == channel_term(s, w, x as int, y as int, 1),
            f2 == channel_term(s, w, x as int, y as int, 2),
            f3 == channel_term(s, w, x as int, y as int, 3),
            total_weight == window_total(fw, ylo as int, dy as int, xlo as int, xhi as int),
            r == window_total(f0, ylo as int, dy as int, xlo as int, xhi as int),
            g == window_total(f1, ylo as int, dy as int, xlo as int, xhi as int),
            b == window_total(f2, ylo as int, dy as int, xlo as int, xhi as int),
            a == window_total(f3, ylo as int, dy as int, xlo as int, xhi as int),
            total_weight <= 63000 * (dy - ylo),
            r <= 255 * total_weight,
            g <= 255 * total_weight,
            b <= 255 * total_weight,
            a <= 255 * total_weight,
        decreases yhi - dy,
    {
        let mut dx: usize = xlo;
        while dx < xhi
            invariant
                data@ == s,
                len == width * height * 4,
                s.len() == len,
                w == width,
                h == height,
                ylo <= dy < yhi,
                xlo <= dx <= xhi,
                yhi <= height,
                xhi <= width,
                ylo + 31 >= y,
                yhi <= y + 32,
                xlo + 31 >= x,
                xhi <= x + 32,
                fw == weight_term(x as int, y as int),
                f0 == channel_term(s, w, x as int, y as int, 0),
                f1 == channel_term(s, w, x as int, y as int, 1),
                f2 == channel_term(s, w, x as int, y as int, 2),
                f3 == channel_term(s, w, x as int, y as int, 3),
                total_weight == window_total(fw, ylo as int, dy as int, xlo as int, xhi as int)
                    + row_total(fw, dy as int, xlo as int, dx as int),
                r == window_total(f0, ylo as int, dy as int, xlo as int, xhi as int) + row_total(
                    f0,
                    dy as int,
                    xlo as int,
                    dx as int,
                ),
                g == window_total(f1, ylo as int, dy as int, xlo as int, xhi as int) + row_total(
                    f1,
                    dy as int,
                    xlo as int,
                    dx as int,
                ),
                b == window_total(f2, ylo as int, dy as int, xlo as int, xhi as int) + row_total(
                    f2,
                    dy as int,
                    xlo as int,
                    dx as int,
                ),
                a == window_total(f3, ylo as int, dy as int, xlo as int, xhi as int) + row_total(
                    f3,
                    dy as int,
                    xlo as int,
                    dx as int,
                ),
                total_weight <= 63000 * (dy - ylo) + 1000 * (dx - xlo),
                r <= 255 * total_weight,
                g <= 255 * total_weight,
                b <= 255 * total_weight,
                a <= 255 * total_weight,
            decreases xhi - dx,
        {
            let wt = neighbour_weight(x, y, dx, dy);
            let idx = pixel_start(width, height, len, dx, dy);
            let pr = data[idx] as u32;
            let pg = data[idx + 1] as u32;
            let pb = data[idx + 2] as u32;
            let pa = data[idx + 3] as u32;
            proof {
                assert(pr * wt <= 255 * wt) by (nonlinear_arith)
                    requires
                        pr <= 255,
                ;
                assert(pg * wt <= 255 * wt) by (nonlinear_arith)
                    requires
                        pg <= 255,
                ;
                assert(pb * wt <= 255 * wt) by (nonlinear_arith)
                    requires
                        pb <= 255,
                ;
                assert(pa * wt <= 255 * wt) by (nonlinear_arith)
                    requires
                        pa <= 255,
                ;
                assert(fw(dx as int, dy as int) == wt);
                assert(f0(dx as int, dy as int) == pr * wt);
                assert(f1(dx as int, dy as int) == pg * wt);
                assert(f2(dx as int, dy as int) == pb * wt);
                assert(f3(dx as int, dy as int) == pa * wt);
            }
            r = r + pr * wt;
            g = g + pg * wt;
            b = b + pb * wt;
            a = a + pa * wt;
            total_weight = total_weight + wt;
            dx = dx + 1;
        }
        dy = dy + 1;
    }
    proof {
        lemma_terms_vanish(s, w, x as int, y as int, 0);
        lemma_terms_vanish(s, w, x as int, y as int, 1);
        lemma_terms_vanish(s, w, x as int, y as int, 2);
        lemma_terms_vanish(s, w, x as int, y as int, 3);
        lemma_window_clip(fw, w, h, radius as int, x as int, y as int);
        lemma_window_clip(f0, w, h, radius as int, x as int, y as int);
        lemma_window_clip(f1, w, h, radius as int, x as int, y as int);
        lemma_window_clip(f2, w, h, radius as int, x as int, y as int);
        lemma_window_clip(f3, w, h, radius as int, x as int, y as int);
        lemma_window_weight_positive(x as int, y as int, ylo as int, yhi as int, xlo as int, xhi as int);
    }
    let idx = pixel_start(width, height, len, x, y);
    if total_weight > 0 {
        proof {
            assert(r / total_weight <= 255 && g / total_weight <= 255 && b / total_weight <= 255
                && a / total_weight <= 255) by (nonlinear_arith)
                requires
                    r <= 255 * total_weight,
                    g <= 255 * total_weight,
                    b <= 255 * total_weight,
                    a <= 255 * total_weight,
                    total_weight > 0,
            ;
        }
        data[idx] = (r / total_weight) as u8;
        data[idx + 1] = (g / total_weight) as u8;
        data[idx + 2] = (b / total_weight) as u8;
        data[idx + 3] = (a / total_weight) as u8;
    }
}

/// One blur pass: every pixel in row-major order, each seeing the new values
/// of the pixels before it.
fn blur_pass_in_place(width: usize, height: usize, len: usize, data: &mut Vec<u8>, radius: usize)
    requires
        len == width * height * 4,
        old(data)@.len() == len,
    ensures
        final(data)@ == blur_pass(old(data)@, width as int, height as int, radius as int),
        final(data)@.len() == len,
{
    let ghost s = data@;
    let ghost w = width as int;
    let ghost h = height as int;
    let ghost r = radius as int;
    let mut y: usize = 0;
    while y < height
        invariant
            len == width * height * 4,
            data@.len() == len,
            w == width,
            h == height,
            r == radius,
            y <= height,
            data@ == blur_prefix(s, w, h, r, (y * w) as nat),
        decreases height - y,
    {
        let mut x: usize = 0;
        while x < width
            invariant
                len == width * height * 4,
                data@.len() == len,
                w == width,
                h == height,
                r == radius,
                y < height,
                x <= width,
                data@ == blur_prefix(s, w, h, r, (y * w + x) as nat),
            decreases width - x,
        {
            proof {
                lemma_fundamental_div_mod_converse(y * w + x, w, y as int, x as int);
                assert(y * w + x >= 0) by (nonlinear_arith)
                    requires
                        y >= 0,
                        w >= 0,
                        x >= 0,
                ;
            }
            blur_one_pixel(width, height, len, data, radius, x, y);
            x = x + 1;
        }
        proof {
            assert(y * w + w == (y + 1) * w) by (nonlinear_arith);
        }
        y = y + 1;
    }
    proof {
        assert(h * w == w * h) by (nonlinear_arith);
    }
}

/// Which blur the filter applies.
#[derive(Clone, Copy, Debug, PartialEq, Eq)]
pub struct BlurParams {
    /// How far, in pixels along each axis, the window around a pixel reaches.
    pub radius: usize,
    /// How many passes over the whole image.
    pub iterations: usize,
}

/// Blurs the `width` by `height` RGBA image in `data` in place:
/// `params.iterations` passes, each replacing every pixel in row-major order
/// by the weighted means (alpha included) of the window of radius
/// `params.radius` around it.
pub fn blur_image(width: usize, height: usize, data: &mut Vec<u8>, params: BlurParams)
    requires
        old(data)@.len() == width * height * 4,
    ensures
        final(data)@ == blurred(
            old(data)@,
            width as int,
            height as int,
            params.radius as int,
            params.iterations as nat,
        ),
{
    let ghost s = data@;
    let len = data.len();
    let mut i: usize = 0;
    while i < params.iterations
        invariant
            len == width * height * 4,
            data@.len() == len,
            i <= params.iterations,
            data@ == blurred(s, width as int, height as int, params.radius as int, i as nat),
        decreases params.iterations - i,
    {
        blur_pass_in_place(width, height, len, data, params.radius);
        i = i + 1;
    }
}

/// Status: the image was blurred.
pub const SUCCESS: i32 = 0;
/// Status: the parameters are not UTF-8 text.
pub const INVALID_STRING: i32 = -1;
/// Status: the image or the parameters are missing.
pub const NULL_PTR: i32 = -2;
/// Status: the parameters are not a JSON document.
pub const INVALID_JSON: i32 = -3;
/// Status: the image has no pixels.
pub const INVALID_PARAMS: i32 = -4;
/// Status: the image's buffer size does not fit in a `usize`.
pub const TO_BIG_IMAGE: i32 = -5;

/// The blur asked for by the JSON text `text`: members `"radius"` and
/// `"iterations"`, each 1 when absent or not a number that fits in a `u64`
/// (and truncated to the width of a `usize`).
pub open spec fn blur_params_from(text: Seq<char>) -> BlurParams {
    BlurParams {
        radius: json_member_u64(text, "radius"@).unwrap_or(1) as usize,
        iterations: json_member_u64(text, "iterations"@).unwrap_or(1) as usize,
    }
}

/// Reads the blur parameters from the JSON text `text`; `None` when the text
/// is not a JSON document.
pub fn parse_blur_params(text: &str) -> (r: Option<BlurParams>)
    ensures
        r is Some <==> json_accepts(text@),
        r matches Some(p) ==> p == blur_params_from(text@),
        r matches Some(p) ==> p.radius == match json_member_u64(text@, "radius"@) {
            Some(v) => v as usize,
            None => 1usize,
        },
        r matches Some(p) ==> p.iterations == match json_member_u64(text@, "iterations"@) {
            Some(v) => v as usize,
            None => 1usize,
        },
{
    let radius = match json_u64_member(text, "radius") {
        Ok(v) => v,
        Err(_) => {
            return None;
        },
    };
    let iterations = match json_u64_member(text, "iterations") {
        Ok(v) => v,
        Err(_) => {
            return None;
        },
    };
    Some(BlurParams { radius: radius.unwrap_or(1) as usize, iterations: iterations.unwrap_or(1) as usize })
}

/// The bytes of a byte string that may be missing.
pub open spec fn bytes_of(params: Option<&[u8]>) -> Option<Seq<u8>> {
    match params {
        Some(b) => Some(b@),
        None => None,
    }
}

/// What a request to blur a `width` by `height` image with the parameter
/// bytes `params` comes to, the checks taken in order: a missing image or
/// missing parameters, an image without pixels, parameters that are not UTF-8,
/// parameters that are not JSON, an image too large to address; otherwise
/// the blur parameters and the size of the image's buffer.
pub open spec fn blur_request(width: int, height: int, data_is_null: bool, params: Option<Seq<u8>>) -> Result<(BlurParams, usize), i32> {
    if data_is_null || params is None {
        Err(NULL_PTR)
    } else if width == 0 || height == 0 {
        Err(INVALID_PARAMS)
    } else if !valid_utf8(params->0) {
        Err(INVALID_STRING)
    } else if !json_accepts(decode_utf8(params->0)) {
        Err(INVALID_JSON)
    } else if width * height * 4 > usize::MAX {
        Err(TO_BIG_IMAGE)
    } else {
        Ok((blur_params_from(decode_utf8(params->0)), (width * height * 4) as usize))
    }
}

/// Checks a request to blur a `width` by `height` image whose buffer is
/// missing when `data_is_null` holds, with the parameter bytes `params`
/// (`None` when missing): the status code of the first check that fails, or
/// the blur parameters and the size of the image's buffer.
pub fn check_blur_request(width: usize, height: usize, data_is_null: bool, params: Option<&[u8]>) -> (r: Result<(BlurParams, usize), i32>)
    ensures
        r == blur_request(width as int, height as int, data_is_null, bytes_of(params)),
{
    let bytes = match params {
        Some(b) => b,
        None => {
            return Err(NULL_PTR);
        },
    };
    if data_is_null {
        return Err(NULL_PTR);
    }
    if width == 0 || height == 0 {
        return Err(INVALID_PARAMS);
    }
    let text = match utf8_text(bytes) {
        Some(t) => t,
        None => {
            return Err(INVALID_STRING);
        },
    };
    proof {
        encode_utf8_decode_utf8(text@);
    }
    let blur = match parse_blur_params(text) {
        Some(p) => p,
        None => {
            return Err(INVALID_JSON);
        },
    };
    match rgba_len(width, height) {
        Some(len) => Ok((blur, len)),
        None => Err(TO_BIG_IMAGE),
    }
}

/// Blurs the `width` by `height` RGBA image in `data` as the parameter bytes
/// `params` ask (`None` when missing), and reports the outcome: `SUCCESS`
/// with the image blurred, or the status code of the first check that fails
/// with the image untouched.
pub fn process_image(width: usize, height: usize, data: &mut Vec<u8>, params: Option<&[u8]>) -> (status: i32)
    requires
        width > 0 && height > 0 && width * height * 4 <= usize::MAX ==> old(data)@.len() == width
            * height * 4,
    ensures
        match blur_request(width as int, height as int, false, bytes_of(params)) {
            Ok((p, _)) => status == SUCCESS && final(data)@ == blurred(
                old(data)@,
                width as int,
                height as int,
                p.radius as int,
                p.iterations as nat,
            ),
            Err(code) => status == code && final(data)@ == old(data)@,
        },
{
    match check_blur_request(width, height, false, params) {
        Ok((blur, _)) => {
            blur_image(width, height, data, blur);
            SUCCESS
        },
        Err(code) => code,
    }
}

/// Every pixel of the `w` by `h` image `s` has the colour `color` (four channels).
pub open spec fn uniform(s: Seq<u8>, w: int, h: int, color: Seq<u8>) -> bool {
    &&& color.len() == 4
    &&& s.len() == w * h * 4
    &&& forall|x: int, y: int, c: int|
        0 <= x < w && 0 <= y < h && 0 <= c < 4 ==> #[trigger] s[pixel_index(w, x, y, c)] == color[c]
}

proof fn lemma_row_uniform(s: Seq<u8>, w: int, h: int, color: Seq<u8>, x: int, y: int, c: int, dy: int, lo: int, hi: int)
    requires
        uniform(s, w, h, color),
        0 <= c < 4,
        0 <= dy < h,
        0 <= lo,
        hi <= w,
    ensures
        row_total(channel_term(s, w, x, y, c), dy, lo, hi) == color[c] * row_total(weight_term(x, y), dy, lo, hi),
    decreases hi - lo,
{
    if hi > lo {
        lemma_row_uniform(s, w, h, color, x, y, c, dy, lo, hi - 1);
        let v = color[c] as int;
        let a = row_total(weight_term(x, y), dy, lo, hi - 1);
        let t = weight(hi - 1 - x, dy - y);
        assert(s[pixel_index(w, hi - 1, dy, c)] == color[c]);
        assert(v * a + v * t == v * (a + t)) by (nonlinear_arith);
    }
}

proof fn lemma_window_uniform(s: Seq<u8>, w: int, h: int, color: Seq<u8>, x: int, y: int, c: int, ylo: int, yhi: int, xlo: int, xhi: int)
    requires
        uniform(s, w, h, color),
        0 <= c < 4,
        0 <= ylo,
        yhi <= h,
        0 <= xlo,
        xhi <= w,
    ensures
        window_total(channel_term(s, w, x, y, c), ylo, yhi, xlo, xhi) == color[c] * window_total(
            weight_term(x, y),
            ylo,
            yhi,
            xlo,
            xhi,
        ),
    decreases yhi - ylo,
{
    if yhi > ylo {
        lemma_window_uniform(s, w, h, color, x, y, c, ylo, yhi - 1, xlo, xhi);
        lemma_row_uniform(s, w, h, color, x, y, c, yhi - 1, xlo, xhi);
        let v = color[c] as int;
        let a = window_total(weight_term(x, y), ylo, yhi - 1, xlo, xhi);
        let t = row_total(weight_term(x, y), yhi - 1, xlo, xhi);
        assert(v * a + v * t == v * (a + t)) by (nonlinear_arith);
    }
}

/// A pixel whose four weighted means are its own channels stays as it is.
proof fn lemma_blur_pixel_unchanged(s: Seq<u8>, w: int, h: int, r: int, x: int, y: int)
    requires
        s.len() == w * h * 4,
        0 <= x < w,
        0 <= y < h,
        forall|c: int| 0 <= c < 4 ==> #[trigger] window_mean(s, w, h, r, x, y, c) == s[pixel_index(w, x, y, c)],
    ensures
        blur_pixel(s, w, h, r, x, y) == s,
{
    lemma_pixel_index_in_bounds(w, h, x, y, 0);
    assert(window_mean(s, w, h, r, x, y, 0) == s[pixel_index(w, x, y, 0)]);
    assert(window_mean(s, w, h, r, x, y, 1) == s[pixel_index(w, x, y, 1)]);
    assert(window_mean(s, w, h, r, x, y, 2) == s[pixel_index(w, x, y, 2)]);
    assert(window_mean(s, w, h, r, x, y, 3) == s[pixel_index(w, x, y, 3)]);
    assert(blur_pixel(s, w, h, r, x, y) =~= s);
}

/// When blurring any single pixel leaves the image `s` as it is, so do any
/// number of passes.
proof fn lemma_blurred_fixed(s: Seq<u8>, w: int, h: int, r: int, n: nat)
    requires
        w > 0,
        h >= 0,
        forall|x: int, y: int| 0 <= x < w && 0 <= y < h ==> #[trigger] blur_pixel(s, w, h, r, x, y) == s,
    ensures
        blurred(s, w, h, r, n) == s,
    decreases n,
{
    if n > 0 {
        lemma_blurred_fixed(s, w, h, r, (n - 1) as nat);
        lemma_prefix_fixed(s, w, h, r, (w * h) as nat);
    }
}

proof fn lemma_prefix_fixed(s: Seq<u8>, w: int, h: int, r: int, k: nat)
    requires
        w > 0,
        h >= 0,
        k <= w * h,
        forall|x: int, y: int| 0 <= x < w && 0 <= y < h ==> #[trigger] blur_pixel(s, w, h, r, x, y) == s,
    ensures
        blur_prefix(s, w, h, r, k) == s,
    decreases k,
{
    if k > 0 {
        let k1 = (k - 1) as nat;
        lemma_prefix_fixed(s, w, h, r, k1);
        let x = (k1 as int) % w;
        let y = (k1 as int) / w;
        assert(0 <= x < w) by {
            vstd::arithmetic::div_mod::lemma_mod_bound(k1 as int, w);
        }
        assert(0 <= y < h) by {
            vstd::arithmetic::div_mod::lemma_fundamental_div_mod(k1 as int, w);
            assert(0 <= y < h) by (nonlinear_arith)
                requires
                    k1 == w * y + x,
                    0 <= x < w,
                    0 <= k1 < w * h,
                    w > 0,
            ;
        }
        assert(blur_pixel(s, w, h, r, x, y) == s);
    }
}

/// Blurring an image of a single colour changes nothing, whatever the radius
/// and the number of passes: a weighted mean of equal values is that value.
pub proof fn lemma_blur_uniform_unchanged(s: Seq<u8>, w: int, h: int, color: Seq<u8>, r: int, n: nat)
    requires
        w > 0,
        h > 0,
        r >= 0,
        uniform(s, w, h, color),
    ensures
        blurred(s, w, h, r, n) == s,
{
    assert forall|x: int, y: int| 0 <= x < w && 0 <= y < h implies #[trigger] blur_pixel(s, w, h, r, x, y) == s by {
        let ylo = window_lo(y, r);
        let yhi = window_hi(y, r, h);
        let xlo = window_lo(x, r);
        let xhi = window_hi(x, r, w);
        lemma_window_weight_positive(x, y, ylo, yhi, xlo, xhi);
        let t = window_total(weight_term(x, y), ylo, yhi, xlo, xhi);
        assert forall|c: int| 0 <= c < 4 implies #[trigger] window_mean(s, w, h, r, x, y, c) == s[pixel_index(w, x, y, c)] by {
            lemma_window_uniform(s, w, h, color, x, y, c, ylo, yhi, xlo, xhi);
            let v = color[c] as int;
            assert((v * t) / t == v) by (nonlinear_arith)
                requires
                    t > 0,
            ;
        }
        lemma_blur_pixel_unchanged(s, w, h, r, x, y);
    }
    lemma_blurred_fixed(s, w, h, r, n);
}

/// Blurring with radius 0 changes nothing: each pixel's window is the pixel alone.
pub proof fn lemma_blur_radius_zero_unchanged(s: Seq<u8>, w: int, h: int, n: nat)
    requires
        w > 0,
        h > 0,
        s.len() == w * h * 4,
    ensures
        blurred(s, w, h, 0, n) == s,
{
    assert forall|x: int, y: int| 0 <= x < w && 0 <= y < h implies #[trigger] blur_pixel(s, w, h, 0, x, y) == s by {
        assert forall|c: int| 0 <= c < 4 implies #[trigger] window_mean(s, w, h, 0, x, y, c) == s[pixel_index(w, x, y, c)] by {
            let f = channel_term(s, w, x, y, c);
            let g = weight_term(x, y);
            assert(window_lo(y, 0) == y && window_hi(y, 0, h) == y + 1);
            assert(window_lo(x, 0) == x && window_hi(x, 0, w) == x + 1);
            assert(window_total(f, y, y, x, x + 1) == 0);
            assert(window_total(g, y, y, x, x + 1) == 0);
            assert(row_total(f, y, x, x) == 0);
            assert(row_total(g, y, x, x) == 0);
            lemma_weight_range(0, 0);
            let v = s[pixel_index(w, x, y, c)] as int;
            assert(window_total(f, y, y + 1, x, x + 1) == v * 1000);
            assert(window_total(g, y, y + 1, x, x + 1) == 1000);
            assert((v * 1000) / 1000 == v) by (nonlinear_arith);
        }
        lemma_blur_pixel_unchanged(s, w, h, 0, x, y);
    }
    lemma_blurred_fixed(s, w, h, 0, n);
}

/// Each pass is one full blur pass over the image that the passes before it
/// left: the image after `n + 1` passes is `blur_pass` applied to the image
/// after `n` passes, for every `n`, with no cap on the number of passes.
pub proof fn lemma_blurred_step(s: Seq<u8>, w: int, h: int, r: int, n: nat)
    ensures
        blurred(s, w, h, r, n + 1) == blur_pass(blurred(s, w, h, r, n), w, h, r),
        blurred(s, w, h, r, 0) == s,
{
}

/// Passes add up: `m` passes after `n` passes are `n + m` passes.
pub proof fn lemma_blurred_add(s: Seq<u8>, w: int, h: int, r: int, n: nat, m: nat)
    ensures
        blurred(blurred(s, w, h, r, n), w, h, r, m) == blurred(s, w, h, r, n + m),
    decreases m,
{
    if m > 0 {
        lemma_blurred_add(s, w, h, r, n, (m - 1) as nat);
        lemma_blurred_step(s, w, h, r, (n + m - 1) as nat);
        lemma_blurred_step(blurred(s, w, h, r, n), w, h, r, (m - 1) as nat);
        assert((n + (m - 1)) as nat + 1 == n + m);
    }
}

/// The radius read from the parameters is the `"radius"` member whenever it
/// is an unsigned integer that fits in a `u64`, whatever its size, and 1
/// only when the member is absent or is not such an integer; likewise for the
/// number of passes and `"iterations"`. Neither depends on the other member.
pub proof fn lemma_blur_params_from_members(text: Seq<char>)
    ensures
        json_member_u64(text, "radius"@) matches Some(v) ==> blur_params_from(text).radius == v as usize,
        json_member_u64(text, "radius"@) is None ==> blur_params_from(text).radius == 1,
        json_member_u64(text, "iterations"@) matches Some(v) ==> blur_params_from(text).iterations == v as usize,
        json_member_u64(text, "iterations"@) is None ==> blur_params_from(text).iterations == 1,
{
}

proof fn lemma_row_bounds(s: Seq<u8>, w: int, x: int, y: int, c: int, dy: int, xlo: int, xhi: int, lo: int, hi: int)
    requires
        forall|dx: int| xlo <= dx < xhi ==> lo <= #[trigger] s[pixel_index(w, dx, dy, c)] <= hi,
    ensures
        lo * row_total(weight_term(x, y), dy, xlo, xhi) <= row_total(channel_term(s, w, x, y, c), dy, xlo, xhi),
        row_total(channel_term(s, w, x, y, c), dy, xlo, xhi) <= hi * row_total(weight_term(x, y), dy, xlo, xhi),
    decreases xhi - xlo,
{
    if xhi > xlo {
        lemma_row_bounds(s, w, x, y, c, dy, xlo, xhi - 1, lo, hi);
        let a = row_total(weight_term(x, y), dy, xlo, xhi - 1);
        let b = row_total(channel_term(s, w, x, y, c), dy, xlo, xhi - 1);
        let t = weight(xhi - 1 - x, dy - y);
        let v = s[pixel_index(w, xhi - 1, dy, c)] as int;
        lemma_weight_range(xhi - 1 - x, dy - y);
        assert(lo * (a + t) <= b + v * t && b + v * t <= hi * (a + t)) by (nonlinear_arith)
            requires
                lo * a <= b,
                b <= hi * a,
                lo <= v <= hi,
                t >= 0,
        ;
    }
}

proof fn lemma_window_bounds(
    s: Seq<u8>,
    w: int,
    x: int,
    y: int,
    c: int,
    ylo: int,
    yhi: int,
    xlo: int,
    xhi: int,
    lo: int,
    hi: int,
)
    requires
        forall|dx: int, dy: int|
            ylo <= dy < yhi && xlo <= dx < xhi ==> lo <= #[trigger] s[pixel_index(w, dx, dy, c)] <= hi,
    ensures
        lo * window_total(weight_term(x, y), ylo, yhi, xlo, xhi) <= window_total(channel_term(s, w, x, y, c), ylo, yhi, xlo, xhi),
        window_total(channel_term(s, w, x, y, c), ylo, yhi, xlo, xhi) <= hi * window_total(weight_term(x, y), ylo, yhi, xlo, xhi),
    decreases yhi - ylo,
{
    if yhi > ylo {
        lemma_window_bounds(s, w, x, y, c, ylo, yhi - 1, xlo, xhi, lo, hi);
        lemma_row_bounds(s, w, x, y, c, yhi - 1, xlo, xhi, lo, hi);
        let a = window_total(weight_term(x, y), ylo, yhi - 1, xlo, xhi);
        let b = window_total(channel_term(s, w, x, y, c), ylo, yhi - 1, xlo, xhi);
        let a2 = row_total(weight_term(x, y), yhi - 1, xlo, xhi);
        let b2 = row_total(channel_term(s, w, x, y, c), yhi - 1, xlo, xhi);
        assert(lo * (a + a2) <= b + b2 && b + b2 <= hi * (a + a2)) by (nonlinear_arith)
            requires
                lo * a <= b,
                b <= hi * a,
                lo * a2 <= b2,
                b2 <= hi * a2,
        ;
    }
}

/// A blurred channel is a mean of its window: when every pixel of the window
/// of radius `r` around `(x, y)` has channel `c` between `lo` and `hi`, so
/// does the new value of channel `c` of pixel `(x, y)`.
pub proof fn lemma_window_mean_between(s: Seq<u8>, w: int, h: int, r: int, x: int, y: int, c: int, lo: int, hi: int)
    requires
        0 <= x < w,
        0 <= y < h,
        r >= 0,
        0 <= c < 4,
        0 <= lo,
        hi <= 255,
        s.len() == w * h * 4,
        forall|dx: int, dy: int|
            window_lo(y, r) <= dy < window_hi(y, r, h) && window_lo(x, r) <= dx < window_hi(x, r, w)
                ==> lo <= #[trigger] s[pixel_index(w, dx, dy, c)] <= hi,
    ensures
        lo <= window_mean(s, w, h, r, x, y, c) <= hi,
{
    let ylo = window_lo(y, r);
    let yhi = window_hi(y, r, h);
    let xlo = window_lo(x, r);
    let xhi = window_hi(x, r, w);
    lemma_window_bounds(s, w, x, y, c, ylo, yhi, xlo, xhi, lo, hi);
    lemma_window_weight_positive(x, y, ylo, yhi, xlo, xhi);
    let t = window_total(weight_term(x, y), ylo, yhi, xlo, xhi);
    let sum = window_total(channel_term(s, w, x, y, c), ylo, yhi, xlo, xhi);
    assert(lo <= sum / t <= hi) by (nonlinear_arith)
        requires
            lo * t <= sum,
            sum <= hi * t,
            t > 0,
    ;
}

} // verus!
