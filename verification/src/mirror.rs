//! The mirror filter: reflects an RGBA image left to right, top to bottom, or
//! both (a half turn), in place, by exchanging pixels pairwise.

use vstd::prelude::*;
use vstd::arithmetic::div_mod::lemma_fundamental_div_mod_converse;
use vstd::utf8::{decode_utf8, encode_utf8_decode_utf8, valid_utf8};
use crate::params::{json_accepts, json_bool_member, json_member_bool, utf8_text};
use crate::rgba::{pixel_index, pixel_start, lemma_pixel_index_in_bounds, lemma_pixel_coords, lemma_pixel_block};

verus! {

/// Which axes the mirror filter reflects the image across.
#[derive(Clone, Copy, Debug, PartialEq, Eq)]
pub struct MirrorParams {
    /// Reflect each row left to right.
    pub horizontal: bool,
    /// Reflect the order of the rows top to bottom.
    pub vertical: bool,
}

/// Coordinate `v` of a line of `n` pixels, reflected when `on` holds.
pub open spec fn flip(n: int, v: int, on: bool) -> int {
    if on { n - 1 - v } else { v }
}

/// The image `s` (`w` by `h` RGBA pixels) reflected as asked: the pixel at
/// `(x, y)` of the result is the pixel of `s` at `(flip(w, x, horizontal), flip(h, y, vertical))`,
/// channel by channel.
pub open spec fn mirrored(s: Seq<u8>, w: int, h: int, horizontal: bool, vertical: bool) -> Seq<u8> {
    Seq::new(
        s.len(),
        |i: int|
            s[pixel_index(
                w,
                flip(w, (i / 4) % w, horizontal),
                flip(h, (i / 4) / w, vertical),
                i % 4,
            )],
    )
}

/// Reading the mirrored image at pixel coordinates.
pub proof fn lemma_mirrored_at(
    s: Seq<u8>,
    w: int,
    h: int,
    horizontal: bool,
    vertical: bool,
    x: int,
    y: int,
    c: int,
)
    requires
        s.len() == w * h * 4,
        0 <= x < w,
        0 <= y < h,
        0 <= c < 4,
    ensures
        mirrored(s, w, h, horizontal, vertical)[pixel_index(w, x, y, c)] == s[pixel_index(
            w,
            flip(w, x, horizontal),
            flip(h, y, vertical),
            c,
        )],
{
    let i = pixel_index(w, x, y, c);
    lemma_pixel_index_in_bounds(w, h, x, y, c);
    lemma_fundamental_div_mod_converse(i, 4, y * w + x, c);
    lemma_fundamental_div_mod_converse(y * w + x, w, y, x);
}

/// The buffer `d` holds the image `s` with the pixels for which `done` holds
/// already reflected and the others still in place.
spec fn partly_mirrored(
    d: Seq<u8>,
    s: Seq<u8>,
    w: int,
    h: int,
    horizontal: bool,
    vertical: bool,
    done: spec_fn(int, int) -> bool,
) -> bool {
    &&& d.len() == s.len()
    &&& forall|x: int, y: int, c: int|
        0 <= x < w && 0 <= y < h && 0 <= c < 4 ==> #[trigger] d[pixel_index(w, x, y, c)] == if done(
            x,
            y,
        ) {
            s[pixel_index(w, flip(w, x, horizontal), flip(h, y, vertical), c)]
        } else {
            s[pixel_index(w, x, y, c)]
        }
}

/// The buffer `d` with the four bytes at `a` and the four bytes at `b` exchanged.
spec fn pixels_swapped(d: Seq<u8>, a: int, b: int) -> Seq<u8> {
    Seq::new(
        d.len(),
        |i: int|
            if a <= i < a + 4 {
                d[i - a + b]
            } else if b <= i < b + 4 {
                d[i - b + a]
            } else {
                d[i]
            },
    )
}

/// Exchanges the pixel whose channels start at offset `a` with the one whose
/// channels start at offset `b`, one channel at a time.
fn swap_pixels(data: &mut Vec<u8>, a: usize, b: usize)
    requires
        a + 4 <= old(data)@.len(),
        b + 4 <= old(data)@.len(),
        a == b || a + 4 <= b || b + 4 <= a,
    ensures
        final(data)@ == pixels_swapped(old(data)@, a as int, b as int),
{
    let ghost d = data@;
    let n: usize = data.len();
    let mut k: usize = 0;
    while k < 4
        invariant
            0 <= k <= 4,
            d.len() == n,
            a + 4 <= d.len(),
            b + 4 <= d.len(),
            a == b || a + 4 <= b || b + 4 <= a,
            data@.len() == d.len(),
            forall|i: int|
                0 <= i < d.len() ==> #[trigger] data@[i] == if a <= i < a + k {
                    d[i - a + b]
                } else if b <= i < b + k {
                    d[i - b + a]
                } else {
                    d[i]
                },
        decreases 4 - k,
    {
        let t = data[a + k];
        let u = data[b + k];
        data[a + k] = u;
        data[b + k] = t;
        k = k + 1;
    }
    assert(data@ =~= pixels_swapped(d, a as int, b as int));
}

/// Reflecting one more pair of pixels, `(x0, y0)` and its mirror image, keeps
/// the buffer a partly mirrored copy of the image.
proof fn lemma_swap_step(
    d1: Seq<u8>,
    d2: Seq<u8>,
    s: Seq<u8>,
    w: int,
    h: int,
    horizontal: bool,
    vertical: bool,
    done1: spec_fn(int, int) -> bool,
    done2: spec_fn(int, int) -> bool,
    x0: int,
    y0: int,
)
    requires
        s.len() == w * h * 4,
        partly_mirrored(d1, s, w, h, horizontal, vertical, done1),
        0 <= x0 < w,
        0 <= y0 < h,
        !done1(x0, y0),
        !done1(flip(w, x0, horizontal), flip(h, y0, vertical)),
        d2 == pixels_swapped(
            d1,
            pixel_index(w, x0, y0, 0),
            pixel_index(w, flip(w, x0, horizontal), flip(h, y0, vertical), 0),
        ),
        forall|x: int, y: int|
            0 <= x < w && 0 <= y < h ==> #[trigger] done2(x, y) == (done1(x, y) || (x == x0 && y
                == y0) || (x == flip(w, x0, horizontal) && y == flip(h, y0, vertical))),
    ensures
        partly_mirrored(d2, s, w, h, horizontal, vertical, done2),
{
    let x1 = flip(w, x0, horizontal);
    let y1 = flip(h, y0, vertical);
    let a = pixel_index(w, x0, y0, 0);
    let b = pixel_index(w, x1, y1, 0);
    assert forall|x: int, y: int, c: int| 0 <= x < w && 0 <= y < h && 0 <= c < 4 implies #[trigger] d2[pixel_index(w, x, y, c)]
        == if done2(x, y) {
        s[pixel_index(w, flip(w, x, horizontal), flip(h, y, vertical), c)]
    } else {
        s[pixel_index(w, x, y, c)]
    } by {
        lemma_pixel_index_in_bounds(w, h, x, y, c);
        lemma_pixel_index_in_bounds(w, h, x0, y0, c);
        lemma_pixel_index_in_bounds(w, h, x1, y1, c);
        lemma_pixel_block(w, x, y, c, x0, y0);
        lemma_pixel_block(w, x, y, c, x1, y1);
        assert(pixel_index(w, x0, y0, c) == a + c);
        assert(pixel_index(w, x1, y1, c) == b + c);
        if x == x0 && y == y0 {
            assert(d2[pixel_index(w, x, y, c)] == d1[pixel_index(w, x1, y1, c)]);
        } else if x == x1 && y == y1 {
            assert(d2[pixel_index(w, x, y, c)] == d1[pixel_index(w, x0, y0, c)]);
        } else {
            assert(d2[pixel_index(w, x, y, c)] == d1[pixel_index(w, x, y, c)]);
        }
    }
}

/// Whether the pixel at `(x, y)` is its own mirror image.
spec fn fixed_point(w: int, h: int, horizontal: bool, vertical: bool, x: int, y: int) -> bool {
    flip(w, x, horizontal) == x && flip(h, y, vertical) == y
}

/// Pixels that are their own mirror image may be counted as reflected or not.
proof fn lemma_done_up_to_fixed_points(
    d: Seq<u8>,
    s: Seq<u8>,
    w: int,
    h: int,
    horizontal: bool,
    vertical: bool,
    done1: spec_fn(int, int) -> bool,
    done2: spec_fn(int, int) -> bool,
)
    requires
        partly_mirrored(d, s, w, h, horizontal, vertical, done1),
        forall|x: int, y: int|
            0 <= x < w && 0 <= y < h && #[trigger] done1(x, y) != #[trigger] done2(x, y)
                ==> fixed_point(w, h, horizontal, vertical, x, y),
    ensures
        partly_mirrored(d, s, w, h, horizontal, vertical, done2),
{
    assert forall|x: int, y: int, c: int| 0 <= x < w && 0 <= y < h && 0 <= c < 4 implies #[trigger] d[pixel_index(w, x, y, c)]
        == if done2(x, y) {
        s[pixel_index(w, flip(w, x, horizontal), flip(h, y, vertical), c)]
    } else {
        s[pixel_index(w, x, y, c)]
    } by {
        assert(d[pixel_index(w, x, y, c)] == if done1(x, y) {
            s[pixel_index(w, flip(w, x, horizontal), flip(h, y, vertical), c)]
        } else {
            s[pixel_index(w, x, y, c)]
        });
    }
}

/// Once every pixel is reflected, or is its own mirror image, the buffer is the mirrored image.
proof fn lemma_all_done(
    d: Seq<u8>,
    s: Seq<u8>,
    w: int,
    h: int,
    horizontal: bool,
    vertical: bool,
    done: spec_fn(int, int) -> bool,
)
    requires
        w >= 0,
        h >= 0,
        s.len() == w * h * 4,
        partly_mirrored(d, s, w, h, horizontal, vertical, done),
        forall|x: int, y: int|
            0 <= x < w && 0 <= y < h ==> #[trigger] done(x, y) || fixed_point(
                w,
                h,
                horizontal,
                vertical,
                x,
                y,
            ),
    ensures
        d == mirrored(s, w, h, horizontal, vertical),
{
    let all = |x: int, y: int| true;
    lemma_done_up_to_fixed_points(d, s, w, h, horizontal, vertical, done, all);
    let m = mirrored(s, w, h, horizontal, vertical);
    if w == 0 {
        assert(s.len() == 0) by (nonlinear_arith)
            requires
                s.len() == w * h * 4,
                w == 0,
        ;
    } else {
        assert forall|i: int| 0 <= i < d.len() implies d[i] == m[i] by {
            lemma_pixel_coords(w, h, i);
            let x = (i / 4) % w;
            let y = (i / 4) / w;
            let c = i % 4;
            lemma_mirrored_at(s, w, h, horizontal, vertical, x, y, c);
            assert(all(x, y));
            assert(d[pixel_index(w, x, y, c)] == s[pixel_index(
                w,
                flip(w, x, horizontal),
                flip(h, y, vertical),
                c,
            )]);
        }
    }
    assert(d =~= m);
}

/// Reflects the `width` by `height` RGBA image in `data` in place: each row
/// left to right when `params.horizontal` holds, the order of the rows when
/// `params.vertical` holds, both at once (a half turn) when both hold, and
/// nothing when neither does.
pub fn mirror_image(width: usize, height: usize, data: &mut Vec<u8>, params: MirrorParams)
    requires
        old(data)@.len() == width * height * 4,
    ensures
        final(data)@ == mirrored(
            old(data)@,
            width as int,
            height as int,
            params.horizontal,
            params.vertical,
        ),
{
    let ghost s = data@;
    let ghost w = width as int;
    let ghost h = height as int;
    let len = data.len();
    let hz = params.horizontal;
    let vt = params.vertical;
    if hz && vt {
        // Both reflections: each pixel of the upper half trades places with
        // its image in the lower half.
        let mut y: usize = 0;
        while y < height / 2
            invariant
                len == width * height * 4,
                s.len() == len,
                w == width,
                h == height,
                y <= height / 2,
                partly_mirrored(data@, s, w, h, true, true, |px: int, py: int| py < y || py > h - 1 - y),
            decreases height / 2 - y,
        {
            let mut x: usize = 0;
            while x < width
                invariant
                    len == width * height * 4,
                    s.len() == len,
                    w == width,
                    h == height,
                    y < height / 2,
                    x <= width,
                    partly_mirrored(
                        data@,
                        s,
                        w,
                        h,
                        true,
                        true,
                        |px: int, py: int|
                            py < y || py > h - 1 - y || (py == y && px < x) || (py == h - 1 - y
                                && px > w - 1 - x),
                    ),
                decreases width - x,
            {
                let src_idx = pixel_start(width, height, len, x, y);
                let dst_idx = pixel_start(width, height, len, width - 1 - x, height - 1 - y);
                let ghost d1 = data@;
                proof {
                    lemma_pixel_block(w, (width - 1 - x) as int, (height - 1 - y) as int, 0, x as int, y as int);
                    lemma_pixel_block(w, x as int, y as int, 0, (width - 1 - x) as int, (height - 1 - y) as int);
                }
                swap_pixels(data, src_idx, dst_idx);
                proof {
                    lemma_swap_step(
                        d1,
                        data@,
                        s,
                        w,
                        h,
                        true,
                        true,
                        |px: int, py: int|
                            py < y || py > h - 1 - y || (py == y && px < x) || (py == h - 1 - y
                                && px > w - 1 - x),
                        |px: int, py: int|
                            py < y || py > h - 1 - y || (py == y && px < x + 1) || (py == h - 1
                                - y && px > w - 1 - (x + 1)),
                        x as int,
                        y as int,
                    );
                }
                x = x + 1;
            }
            y = y + 1;
        }
        if height % 2 == 1 {
            // The middle row of an odd height is its own image: reflect it left to right.
            let mid_y = height / 2;
            let mut x: usize = 0;
            while x < width / 2
                invariant
                    len == width * height * 4,
                    s.len() == len,
                    w == width,
                    h == height,
                    height % 2 == 1,
                    mid_y == height / 2,
                    x <= width / 2,
                    partly_mirrored(
                        data@,
                        s,
                        w,
                        h,
                        true,
                        true,
                        |px: int, py: int| py != mid_y || px < x || px > w - 1 - x,
                    ),
                decreases width / 2 - x,
            {
                let src_idx = pixel_start(width, height, len, x, mid_y);
                let dst_idx = pixel_start(width, height, len, width - 1 - x, mid_y);
                let ghost d1 = data@;
                proof {
                    lemma_pixel_block(w, (width - 1 - x) as int, mid_y as int, 0, x as int, mid_y as int);
                    lemma_pixel_block(w, x as int, mid_y as int, 0, (width - 1 - x) as int, mid_y as int);
                }
                swap_pixels(data, src_idx, dst_idx);
                proof {
                    lemma_swap_step(
                        d1,
                        data@,
                        s,
                        w,
                        h,
                        true,
                        true,
                        |px: int, py: int| py != mid_y || px < x || px > w - 1 - x,
                        |px: int, py: int| py != mid_y || px < x + 1 || px > w - 1 - (x + 1),
                        x as int,
                        mid_y as int,
                    );
                }
                x = x + 1;
            }
            proof {
                lemma_all_done(
                    data@,
                    s,
                    w,
                    h,
                    true,
                    true,
                    |px: int, py: int| py != mid_y || px < x || px > w - 1 - x,
                );
            }
        } else {
            proof {
                lemma_all_done(data@, s, w, h, true, true, |px: int, py: int| py < y || py > h - 1 - y);
            }
        }
    } else if hz {
        // Left to right: in every row, each pixel of the left half trades
        // places with its image in the right half.
        let mut y: usize = 0;
        while y < height
            invariant
                len == width * height * 4,
                s.len() == len,
                w == width,
                h == height,
                y <= height,
                partly_mirrored(data@, s, w, h, true, false, |px: int, py: int| py < y),
            decreases height - y,
        {
            let mut x: usize = 0;
            while x < width / 2
                invariant
                    len == width * height * 4,
                    s.len() == len,
                    w == width,
                    h == height,
                    y < height,
                    x <= width / 2,
                    partly_mirrored(
                        data@,
                        s,
                        w,
                        h,
                        true,
                        false,
                        |px: int, py: int| py < y || (py == y && (px < x || px > w - 1 - x)),
                    ),
                decreases width / 2 - x,
            {
                let src_idx = pixel_start(width, height, len, x, y);
                let dst_idx = pixel_start(width, height, len, width - 1 - x, y);
                let ghost d1 = data@;
                proof {
                    lemma_pixel_block(w, (width - 1 - x) as int, y as int, 0, x as int, y as int);
                    lemma_pixel_block(w, x as int, y as int, 0, (width - 1 - x) as int, y as int);
                }
                swap_pixels(data, src_idx, dst_idx);
                proof {
                    lemma_swap_step(
                        d1,
                        data@,
                        s,
                        w,
                        h,
                        true,
                        false,
                        |px: int, py: int| py < y || (py == y && (px < x || px > w - 1 - x)),
                        |px: int, py: int|
                            py < y || (py == y && (px < x + 1 || px > w - 1 - (x + 1))),
                        x as int,
                        y as int,
                    );
                }
                x = x + 1;
            }
            proof {
                lemma_done_up_to_fixed_points(
                    data@,
                    s,
                    w,
                    h,
                    true,
                    false,
                    |px: int, py: int| py < y || (py == y && (px < x || px > w - 1 - x)),
                    |px: int, py: int| py < y + 1,
                );
            }
            y = y + 1;
        }
        proof {
            lemma_all_done(data@, s, w, h, true, false, |px: int, py: int| py < y);
        }
    } else if vt {
        // Top to bottom: each pixel of the upper half trades places with the
        // pixel of the same column in the mirrored row.
        let mut y: usize = 0;
        while y < height / 2
            invariant
                len == width * height * 4,
                s.len() == len,
                w == width,
                h == height,
                y <= height / 2,
                partly_mirrored(data@, s, w, h, false, true, |px: int, py: int| py < y || py > h - 1 - y),
            decreases height / 2 - y,
        {
            let mut x: usize = 0;
            while x < width
                invariant
                    len == width * height * 4,
                    s.len() == len,
                    w == width,
                    h == height,
                    y < height / 2,
                    x <= width,
                    partly_mirrored(
                        data@,
                        s,
                        w,
                        h,
                        false,
                        true,
                        |px: int, py: int|
                            py < y || py > h - 1 - y || ((py == y || py == h - 1 - y) && px < x),
                    ),
                decreases width - x,
            {
                let src_idx = pixel_start(width, height, len, x, y);
                let dst_idx = pixel_start(width, height, len, x, height - 1 - y);
                let ghost d1 = data@;
                proof {
                    lemma_pixel_block(w, x as int, (height - 1 - y) as int, 0, x as int, y as int);
                    lemma_pixel_block(w, x as int, y as int, 0, x as int, (height - 1 - y) as int);
                }
                swap_pixels(data, src_idx, dst_idx);
                proof {
                    lemma_swap_step(
                        d1,
                        data@,
                        s,
                        w,
                        h,
                        false,
                        true,
                        |px: int, py: int|
                            py < y || py > h - 1 - y || ((py == y || py == h - 1 - y) && px < x),
                        |px: int, py: int|
                            py < y || py > h - 1 - y || ((py == y || py == h - 1 - y) && px < x
                                + 1),
                        x as int,
                        y as int,
                    );
                }
                x = x + 1;
            }
            y = y + 1;
        }
        proof {
            lemma_all_done(data@, s, w, h, false, true, |px: int, py: int| py < y || py > h - 1 - y);
        }
    } else {
        proof {
            lemma_all_done(data@, s, w, h, false, false, |px: int, py: int| false);
        }
    }
}

/// Mirroring with neither axis leaves the image unchanged.
pub proof fn lemma_mirror_none_is_identity(s: Seq<u8>, w: int, h: int)
    requires
        w >= 0,
        h >= 0,
        s.len() == w * h * 4,
    ensures
        mirrored(s, w, h, false, false) == s,
{
    let m = mirrored(s, w, h, false, false);
    if w == 0 {
        assert(s.len() == 0) by (nonlinear_arith)
            requires
                s.len() == w * h * 4,
                w == 0,
        ;
    } else {
        assert forall|i: int| 0 <= i < s.len() implies m[i] == s[i] by {
            lemma_pixel_coords(w, h, i);
        }
    }
    assert(m =~= s);
}

/// Mirroring twice composes the reflections: reflecting across an axis
/// twice cancels out, and reflections across different axes add up.
pub proof fn lemma_mirror_compose(
    s: Seq<u8>,
    w: int,
    h: int,
    horizontal1: bool,
    vertical1: bool,
    horizontal2: bool,
    vertical2: bool,
)
    requires
        w >= 0,
        h >= 0,
        s.len() == w * h * 4,
    ensures
        mirrored(mirrored(s, w, h, horizontal1, vertical1), w, h, horizontal2, vertical2)
            == mirrored(s, w, h, horizontal1 != horizontal2, vertical1 != vertical2),
{
    let m1 = mirrored(s, w, h, horizontal1, vertical1);
    let m2 = mirrored(m1, w, h, horizontal2, vertical2);
    let m = mirrored(s, w, h, horizontal1 != horizontal2, vertical1 != vertical2);
    if w == 0 {
        assert(s.len() == 0) by (nonlinear_arith)
            requires
                s.len() == w * h * 4,
                w == 0,
        ;
    } else {
        assert forall|i: int| 0 <= i < s.len() implies m2[i] == m[i] by {
            lemma_pixel_coords(w, h, i);
            let x = (i / 4) % w;
            let y = (i / 4) / w;
            let c = i % 4;
            lemma_mirrored_at(m1, w, h, horizontal2, vertical2, x, y, c);
            lemma_mirrored_at(
                s,
                w,
                h,
                horizontal1,
                vertical1,
                flip(w, x, horizontal2),
                flip(h, y, vertical2),
                c,
            );
            lemma_mirrored_at(s, w, h, horizontal1 != horizontal2, vertical1 != vertical2, x, y, c);
        }
    }
    assert(m2 =~= m);
}

/// Mirroring an image twice the same way gives back the image.
pub proof fn lemma_mirror_involution(s: Seq<u8>, w: int, h: int, horizontal: bool, vertical: bool)
    requires
        w >= 0,
        h >= 0,
        s.len() == w * h * 4,
    ensures
        mirrored(mirrored(s, w, h, horizontal, vertical), w, h, horizontal, vertical) == s,
{
    lemma_mirror_compose(s, w, h, horizontal, vertical, horizontal, vertical);
    lemma_mirror_none_is_identity(s, w, h);
}

/// Mirroring across both axes at once is the same as mirroring left to right
/// and then top to bottom, in either order.
pub proof fn lemma_mirror_both_is_half_turn(s: Seq<u8>, w: int, h: int)
    requires
        w >= 0,
        h >= 0,
        s.len() == w * h * 4,
    ensures
        mirrored(mirrored(s, w, h, true, false), w, h, false, true) == mirrored(s, w, h, true, true),
        mirrored(mirrored(s, w, h, false, true), w, h, true, false) == mirrored(s, w, h, true, true),
{
    lemma_mirror_compose(s, w, h, true, false, false, true);
    lemma_mirror_compose(s, w, h, false, true, true, false);
}

/// The reflection asked for by the JSON text `text`: members `"horizontal"`
/// and `"vertical"`, each `false` when absent or not a boolean.
pub open spec fn mirror_params_from(text: Seq<char>) -> MirrorParams {
    MirrorParams {
        horizontal: json_member_bool(text, "horizontal"@).unwrap_or(false),
        vertical: json_member_bool(text, "vertical"@).unwrap_or(false),
    }
}

/// Reads the mirror parameters from the JSON text `text`; `None` when the
/// text is not a JSON document.
pub fn parse_mirror_params(text: &str) -> (r: Option<MirrorParams>)
    ensures
        r is Some <==> json_accepts(text@),
        r matches Some(p) ==> p == mirror_params_from(text@),
        r matches Some(p) ==> p.horizontal == (json_member_bool(text@, "horizontal"@) == Some(true)),
        r matches Some(p) ==> p.vertical == (json_member_bool(text@, "vertical"@) == Some(true)),
{
    let horizontal = match json_bool_member(text, "horizontal") {
        Ok(v) => v,
        Err(_) => {
            return None;
        },
    };
    let vertical = match json_bool_member(text, "vertical") {
        Ok(v) => v,
        Err(_) => {
            return None;
        },
    };
    Some(MirrorParams { horizontal: horizontal.unwrap_or(false), vertical: vertical.unwrap_or(false) })
}

/// Mirrors the `width` by `height` RGBA image in `data` as the parameter
/// bytes `params` ask. Returns whether the parameters could be read (UTF-8
/// text holding a JSON document); when they cannot, the image is untouched
/// and the caller is to treat the request as a fatal error.
pub fn process_image(width: usize, height: usize, data: &mut Vec<u8>, params: &[u8]) -> (applied: bool)
    requires
        old(data)@.len() == width * height * 4,
    ensures
        applied <==> valid_utf8(params@) && json_accepts(decode_utf8(params@)),
        applied ==> final(data)@ == mirrored(
            old(data)@,
            width as int,
            height as int,
            mirror_params_from(decode_utf8(params@)).horizontal,
            mirror_params_from(decode_utf8(params@)).vertical,
        ),
        !applied ==> final(data)@ == old(data)@,
{
    let text = match utf8_text(params) {
        Some(t) => t,
        None => {
            return false;
        },
    };
    proof {
        encode_utf8_decode_utf8(text@);
    }
    match parse_mirror_params(text) {
        Some(p) => {
            mirror_image(width, height, data, p);
            true
        },
        None => false,
    }
}

/// Each flag read from the parameters depends only on its own member: it
/// holds exactly when that member is the boolean `true`, whatever the other
/// member holds, and is `false` when the member is absent or not a boolean.
pub proof fn lemma_mirror_params_from_members(text: Seq<char>)
    ensures
        mirror_params_from(text).horizontal == (json_member_bool(text, "horizontal"@) == Some(true)),
        mirror_params_from(text).vertical == (json_member_bool(text, "vertical"@) == Some(true)),
{
}

} // verus!
