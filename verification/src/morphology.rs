//! Binary images for line detection: the foreground of a painted mask, and
//! openings along rows or columns that keep only long straight runs.
use vstd::prelude::*;
use crate::pixels::{is_masked_fg, is_bg_color, pixel_in_buffer};

verus! {

/// The foreground image: 255 where the pixel is painted, inside the buffer
/// and not background coloured, 0 elsewhere.
pub open spec fn foreground_spec(rgba: Seq<u8>, mask: Seq<bool>, bg: [u8; 3], n: nat) -> Seq<u8> {
    Seq::new(n, |i: int| if is_masked_fg(rgba, mask, bg, i) {
        255u8
    } else {
        0u8
    })
}

/// Builds the foreground image of a `w` x `h` RGBA image under a mask.
pub fn build_foreground_image(rgba: &[u8], mask: &[bool], w: u32, h: u32, bg_color: [u8; 3]) -> (img: Vec<u8>)
    requires
        mask@.len() >= w as int * h as int,
    ensures
        img@ == foreground_spec(rgba@, mask@, bg_color, (w as int * h as int) as nat),
{
    let ml = mask.len();
    assert(ml == mask@.len());
    let n: usize = (w as usize) * (h as usize);
    let mut img: Vec<u8> = Vec::new();
    let mut i: usize = 0;
    while i < n
        invariant
            n == w as int * h as int,
            n <= mask@.len(),
            i <= n,
            img@ == foreground_spec(rgba@, mask@, bg_color, i as nat),
        decreases n - i,
    {
        let mut v: u8 = 0;
        if mask[i] && pixel_in_buffer(i, rgba.len()) {
            let off = i * 4;
            let px = [rgba[off], rgba[off + 1], rgba[off + 2]];
            if !is_bg_color(px, bg_color) {
                v = 255;
            }
        }
        img.push(v);
        proof {
            assert(img@ =~= foreground_spec(rgba@, mask@, bg_color, (i + 1) as nat));
        }
        i = i + 1;
    }
    img
}

/// The nonzero pixels of the first `n` pixels of a `w`-wide image, in
/// row-major order.
pub open spec fn active_prefix(img: Seq<u8>, w: u32, n: nat) -> Seq<(u32, u32)>
    decreases n,
{
    if n == 0 {
        Seq::empty()
    } else {
        let prev = active_prefix(img, w, (n - 1) as nat);
        let i = n - 1;
        if img[i] != 0 {
            prev.push(((i % w as int) as u32, (i / w as int) as u32))
        } else {
            prev
        }
    }
}

/// The coordinates of the nonzero pixels of a `w` x `h` image, row by row.
pub fn collect_active_pixels(img: &Vec<u8>, w: u32, h: u32) -> (r: Vec<(u32, u32)>)
    requires
        img@.len() == w as int * h as int,
    ensures
        r@ == active_prefix(img@, w, img@.len()),
{
    let n = img.len();
    let mut r: Vec<(u32, u32)> = Vec::new();
    let mut i: usize = 0;
    let mut x: u32 = 0;
    let mut y: u32 = 0;
    while i < n
        invariant
            n == img@.len(),
            n == w as int * h as int,
            i <= n,
            w > 0 ==> x < w,
            w > 0 ==> i == y as int * w as int + x as int,
            i < n ==> y < h,
            r@ == active_prefix(img@, w, i as nat),
        decreases n - i,
    {
        assert(w > 0) by (nonlinear_arith)
            requires
                i < n,
                n == w as int * h as int,
        ;
        proof {
            vstd::arithmetic::div_mod::lemma_fundamental_div_mod_converse(i as int, w as int, y as int, x as int);
        }
        if img[i] != 0 {
            r.push((x, y));
        }
        i = i + 1;
        if x + 1 < w {
            x = x + 1;
        } else {
            x = 0;
            proof {
                assert((y + 1) * w == y * w + w) by (nonlinear_arith);
                if i < n {
                    assert(y + 1 < h) by (nonlinear_arith)
                        requires
                            i == (y + 1) * w,
                            i < n,
                            n == w * h,
                    ;
                }
            }
            y = y + 1;
        }
    }
    r
}

/// Pixel `t` of the line starting at `base` with step `stride`.
pub open spec fn step_at(img: Seq<u8>, base: int, stride: int, t: int) -> u8 {
    img[base + t * stride]
}

/// Some pixel `lo..=hi` of the line is set.
pub open spec fn window_any(img: Seq<u8>, base: int, stride: int, lo: int, hi: int) -> bool {
    exists|t: int| lo <= t <= hi && #[trigger] step_at(img, base, stride, t) != 0
}

/// Every pixel `lo..=hi` of the line is set.
pub open spec fn window_full(img: Seq<u8>, base: int, stride: int, lo: int, hi: int) -> bool {
    forall|t: int| lo <= t <= hi ==> #[trigger] step_at(img, base, stride, t) != 0
}

/// Start of the window of half-width `half` around position `p`, clamped at 0.
pub open spec fn window_lo(p: int, half: int) -> int {
    if p >= half {
        p - half
    } else {
        0
    }
}

/// End of the window around position `p`, clamped at the last position `n - 1`.
pub open spec fn window_hi(p: int, half: int, n: int) -> int {
    if p + half < n - 1 {
        p + half
    } else {
        n - 1
    }
}

/// The value at `(x, y)` after eroding (`erode`) or dilating with a window of
/// `k / 2` pixels each side along rows (`horizontal`) or columns.
pub open spec fn morph_pixel(img: Seq<u8>, w: int, h: int, k: u32, horizontal: bool, erode: bool, x: int, y: int) -> u8 {
    let half = (k / 2) as int;
    let on = if horizontal {
        let lo = window_lo(x, half);
        let hi = window_hi(x, half, w);
        if erode {
            window_full(img, y * w, 1, lo, hi)
        } else {
            window_any(img, y * w, 1, lo, hi)
        }
    } else {
        let lo = window_lo(y, half);
        let hi = window_hi(y, half, h);
        if erode {
            window_full(img, x, w, lo, hi)
        } else {
            window_any(img, x, w, lo, hi)
        }
    };
    if on {
        255
    } else {
        0
    }
}

/// The whole image after one erosion or dilation.
pub open spec fn morph_image(img: Seq<u8>, w: u32, h: u32, k: u32, horizontal: bool, erode: bool) -> Seq<u8> {
    Seq::new(
        (w as int * h as int) as nat,
        |i: int| morph_pixel(img, w as int, h as int, k, horizontal, erode, i % w as int, i / w as int),
    )
}

proof fn lemma_index_in_image(w: int, h: int, x: int, y: int)
    requires
        0 <= x < w,
        0 <= y < h,
    ensures
        0 <= y * w + x < w * h,
        0 <= x * 1 + 0,
{
    assert(0 <= y * w + x < w * h) by (nonlinear_arith)
        requires
            0 <= x < w,
            0 <= y < h,
    ;
}

/// Whether the window `lo..=hi` of the line at `base` with step `stride`
/// has every pixel set (`full`) or some pixel set.
fn scan_window(img: &Vec<u8>, base: usize, stride: usize, lo: usize, hi: usize, full: bool) -> (r: bool)
    requires
        lo <= hi,
        base + hi * stride < img@.len(),
    ensures
        r == if full {
            window_full(img@, base as int, stride as int, lo as int, hi as int)
        } else {
            window_any(img@, base as int, stride as int, lo as int, hi as int)
        },
{
    let len = img.len();
    let mut t = lo;
    while t <= hi
        invariant
            len == img@.len(),
            lo <= t <= hi + 1,
            base + hi * stride < img@.len(),
            full ==> forall|q: int| lo <= q < t ==> #[trigger] step_at(img@, base as int, stride as int, q) != 0,
            !full ==> forall|q: int| lo <= q < t ==> #[trigger] step_at(img@, base as int, stride as int, q) == 0,
        decreases hi + 1 - t,
    {
        assert(base + t * stride < len && t * stride >= 0) by (nonlinear_arith)
            requires
                t <= hi,
                base + hi * stride < len,
                len == img@.len(),
        ;
        let v = img[base + t * stride];
        assert(v == step_at(img@, base as int, stride as int, t as int));
        if full && v == 0 {
            return false;
        }
        if !full && v != 0 {
            return true;
        }
        if t == hi {
            return full;
        }
        t = t + 1;
    }
    full
}

/// One erosion or dilation of a `w` x `h` binary image along rows
/// (`horizontal`) or columns, with a window of `k / 2` pixels each side
/// clamped to the image: erosion keeps a pixel when its whole window is
/// set, dilation sets it when any pixel of the window is.
fn morph(img: &Vec<u8>, w: u32, h: u32, k: u32, horizontal: bool, erode: bool) -> (r: Vec<u8>)
    requires
        img@.len() == w as int * h as int,
    ensures
        r@ == morph_image(img@, w, h, k, horizontal, erode),
{
    let wu = w as usize;
    let hu = h as usize;
    let half = (k / 2) as usize;
    let n = img.len();
    let mut r: Vec<u8> = Vec::new();
    let mut y: usize = 0;
    while y < hu
        invariant
            n == img@.len(),
            n == wu as int * hu as int,
            wu == w,
            hu == h,
            half == k / 2,
            y <= hu,
            r@.len() == y * wu,
            forall|i: int| 0 <= i < r@.len() ==> #[trigger] r@[i] == morph_image(img@, w, h, k, horizontal, erode)[i],
        decreases hu - y,
    {
        let mut x: usize = 0;
        while x < wu
            invariant
                n == img@.len(),
                n == wu as int * hu as int,
                wu == w,
                hu == h,
                half == k / 2,
                y < hu,
                x <= wu,
                r@.len() == y * wu + x,
                forall|i: int| 0 <= i < r@.len() ==> #[trigger] r@[i] == morph_image(img@, w, h, k, horizontal, erode)[i],
            decreases wu - x,
        {
            proof {
                lemma_index_in_image(wu as int, hu as int, x as int, y as int);
            }
            let on = if horizontal {
                let lo = if x >= half {
                    x - half
                } else {
                    0
                };
                let hi = if half < wu - 1 - x {
                    x + half
                } else {
                    wu - 1
                };
                proof {
                    lemma_index_in_image(wu as int, hu as int, hi as int, y as int);
                }
                scan_window(img, y * wu, 1, lo, hi, erode)
            } else {
                let lo = if y >= half {
                    y - half
                } else {
                    0
                };
                let hi = if half < hu - 1 - y {
                    y + half
                } else {
                    hu - 1
                };
                proof {
                    lemma_index_in_image(wu as int, hu as int, x as int, hi as int);
                    assert(x + hi * wu == hi * wu + x) by (nonlinear_arith);
                }
                scan_window(img, x, wu, lo, hi, erode)
            };
            let ghost i = y * wu + x;
            proof {
                vstd::arithmetic::div_mod::lemma_fundamental_div_mod_converse(i, wu as int, y as int, x as int);
                if !horizontal {
                    assert(x as int == x * 1 + 0);
                }
            }
            r.push(if on {
                255
            } else {
                0
            });
            proof {
                assert(r@[i] == morph_image(img@, w, h, k, horizontal, erode)[i]);
            }
            x = x + 1;
        }
        proof {
            assert((y + 1) * wu == y * wu + wu) by (nonlinear_arith);
        }
        y = y + 1;
    }
    proof {
        assert(hu * wu == wu * hu) by (nonlinear_arith);
        assert(r@ =~= morph_image(img@, w, h, k, horizontal, erode));
    }
    r
}

/// Erosion along rows: a pixel stays set when every pixel within `k / 2`
/// of it in its row is set.
pub fn erode_rows(img: &Vec<u8>, w: u32, h: u32, k: u32) -> (r: Vec<u8>)
    requires
        img@.len() == w as int * h as int,
    ensures
        r@ == morph_image(img@, w, h, k, true, true),
{
    morph(img, w, h, k, true, true)
}

/// Dilation along rows: a pixel is set when any pixel within `k / 2` of it
/// in its row is set.
pub fn dilate_rows(img: &Vec<u8>, w: u32, h: u32, k: u32) -> (r: Vec<u8>)
    requires
        img@.len() == w as int * h as int,
    ensures
        r@ == morph_image(img@, w, h, k, true, false),
{
    morph(img, w, h, k, true, false)
}

/// Erosion along columns.
pub fn erode_cols(img: &Vec<u8>, w: u32, h: u32, k: u32) -> (r: Vec<u8>)
    requires
        img@.len() == w as int * h as int,
    ensures
        r@ == morph_image(img@, w, h, k, false, true),
{
    morph(img, w, h, k, false, true)
}

/// Dilation along columns.
pub fn dilate_cols(img: &Vec<u8>, w: u32, h: u32, k: u32) -> (r: Vec<u8>)
    requires
        img@.len() == w as int * h as int,
    ensures
        r@ == morph_image(img@, w, h, k, false, false),
{
    morph(img, w, h, k, false, false)
}

/// The opening of the image along rows with window `kw` and along columns
/// with window `kh`; a window of 1 or less leaves its direction unchanged.
pub open spec fn opened_image(img: Seq<u8>, w: u32, h: u32, kw: u32, kh: u32) -> Seq<u8> {
    let a = if kw > 1 {
        morph_image(morph_image(img, w, h, kw, true, true), w, h, kw, true, false)
    } else {
        img
    };
    if kh > 1 {
        morph_image(morph_image(a, w, h, kh, false, true), w, h, kh, false, false)
    } else {
        a
    }
}

/// Opening (erosion then dilation) along rows and along columns: keeps the
/// parts of the image that contain straight runs at least `kw` wide or `kh`
/// tall.
pub fn directional_open(img: &Vec<u8>, w: u32, h: u32, kw: u32, kh: u32) -> (r: Vec<u8>)
    requires
        img@.len() == w as int * h as int,
    ensures
        r@ == opened_image(img@, w, h, kw, kh),
{
    let mut r: Vec<u8> = Vec::new();
    let mut i: usize = 0;
    while i < img.len()
        invariant
            i <= img@.len(),
            r@ == img@.take(i as int),
        decreases img@.len() - i,
    {
        r.push(img[i]);
        proof {
            assert(r@ =~= img@.take(i + 1));
        }
        i = i + 1;
    }
    proof {
        assert(img@.take(img@.len() as int) =~= img@);
    }
    if kw > 1 {
        r = erode_rows(&r, w, h, kw);
        r = dilate_rows(&r, w, h, kw);
    }
    if kh > 1 {
        r = erode_cols(&r, w, h, kh);
        r = dilate_cols(&r, w, h, kh);
    }
    r
}

/// The image at half resolution: pixel `(x, y)` of the result is pixel
/// `(2x, 2y)` of the image.
pub open spec fn halved_image(img: Seq<u8>, w: u32, h: u32) -> Seq<u8> {
    let nw = (w / 2) as int;
    let nh = (h / 2) as int;
    Seq::new((nw * nh) as nat, |i: int| img[(2 * (i / nw)) * w as int + 2 * (i % nw)])
}

/// Halves a `w` x `h` image by keeping every other pixel of every other row;
/// images less than two pixels wide or tall are kept as they are.  Returns
/// the image, its size, and the scale factor (2, or 1 when kept).
pub fn downscale_2x(img: &Vec<u8>, w: u32, h: u32) -> (r: (Vec<u8>, u32, u32, u32))
    requires
        img@.len() == w as int * h as int,
    ensures
        w < 2 || h < 2 ==> r.0@ == img@ && r.1 == w && r.2 == h && r.3 == 1,
        w >= 2 && h >= 2 ==> r.0@ == halved_image(img@, w, h) && r.1 == w / 2 && r.2 == h / 2 && r.3 == 2,
{
    if w < 2 || h < 2 {
        let mut c: Vec<u8> = Vec::new();
        let mut i: usize = 0;
        while i < img.len()
            invariant
                i <= img@.len(),
                c@ == img@.take(i as int),
            decreases img@.len() - i,
        {
            c.push(img[i]);
            proof {
                assert(c@ =~= img@.take(i + 1));
            }
            i = i + 1;
        }
        proof {
            assert(img@.take(img@.len() as int) =~= img@);
        }
        return (c, w, h, 1);
    }
    let nw = w / 2;
    let nh = h / 2;
    let wu = w as usize;
    let n = img.len();
    let mut dst: Vec<u8> = Vec::new();
    let mut y: u32 = 0;
    while y < nh
        invariant
            n == img@.len(),
            n == w as int * h as int,
            wu == w,
            nw == w / 2,
            nh == h / 2,
            w >= 2,
            y <= nh,
            dst@.len() == y * nw,
            forall|i: int| 0 <= i < dst@.len() ==> #[trigger] dst@[i] == halved_image(img@, w, h)[i],
        decreases nh - y,
    {
        let mut x: u32 = 0;
        while x < nw
            invariant
                n == img@.len(),
                n == w as int * h as int,
                wu == w,
                nw == w / 2,
                nh == h / 2,
                w >= 2,
                y < nh,
                x <= nw,
                dst@.len() == y * nw + x,
                forall|i: int| 0 <= i < dst@.len() ==> #[trigger] dst@[i] == halved_image(img@, w, h)[i],
            decreases nw - x,
        {
            let ghost i = y * nw + x;
            proof {
                lemma_index_in_image(w as int, h as int, 2 * x, 2 * y);
                vstd::arithmetic::div_mod::lemma_fundamental_div_mod_converse(i, nw as int, y as int, x as int);
                assert(i < nw * nh) by (nonlinear_arith)
                    requires
                        i == y * nw + x,
                        x < nw,
                        y < nh,
                ;
            }
            let src = (2 * y as usize) * wu + 2 * x as usize;
            dst.push(img[src]);
            x = x + 1;
        }
        proof {
            assert((y + 1) * nw == y * nw + nw) by (nonlinear_arith);
        }
        y = y + 1;
    }
    proof {
        assert(nh * nw == nw * nh) by (nonlinear_arith);
        assert(dst@ =~= halved_image(img@, w, h));
    }
    (dst, nw, nh, 2)
}


/// Every pixel of column `x` within `half` rows of row `t` is set.
pub open spec fn column_window_set(img: Seq<u8>, w: int, h: int, half: int, x: int, t: int) -> bool {
    forall|r: int| 0 <= r < h && t - half <= r <= t + half ==> #[trigger] img[r * w + x] != 0
}

/// Every pixel of row `y` within `half` columns of column `t` is set.
pub open spec fn row_window_set(img: Seq<u8>, w: int, half: int, y: int, t: int) -> bool {
    forall|c: int| 0 <= c < w && t - half <= c <= t + half ==> #[trigger] img[y * w + c] != 0
}

proof fn lemma_morph_at(img: Seq<u8>, w: u32, h: u32, k: u32, horizontal: bool, erode: bool, x: int, y: int)
    requires
        0 <= x < w,
        0 <= y < h,
    ensures
        0 <= y * w + x < w * h,
        morph_image(img, w, h, k, horizontal, erode)[y * w + x] == morph_pixel(
            img,
            w as int,
            h as int,
            k,
            horizontal,
            erode,
            x,
            y,
        ),
{
    lemma_index_in_image(w as int, h as int, x, y);
    vstd::arithmetic::div_mod::lemma_fundamental_div_mod_converse(y * w + x, w as int, y, x);
}

/// One opening pass along columns at `(x, y)`: set exactly when some row `t`
/// within `k / 2` of `y` has its whole column window around it set.
proof fn lemma_column_pass_at(img: Seq<u8>, w: u32, h: u32, k: u32, x: int, y: int)
    requires
        img.len() == w * h,
        0 <= x < w,
        0 <= y < h,
    ensures
        morph_image(morph_image(img, w, h, k, false, true), w, h, k, false, false)[y * w + x] != 0
            <==> exists|t: int|
            0 <= t < h && y - k / 2 <= t <= y + k / 2 && #[trigger] column_window_set(
                img,
                w as int,
                h as int,
                (k / 2) as int,
                x,
                t,
            ),
{
    let half = (k / 2) as int;
    let e = morph_image(img, w, h, k, false, true);
    let o = morph_image(e, w, h, k, false, false);
    lemma_morph_at(e, w, h, k, false, false, x, y);
    let lo = window_lo(y, half);
    let hi = window_hi(y, half, h as int);
    if o[y * w + x] != 0 {
        let t = choose|t: int| lo <= t <= hi && #[trigger] step_at(e, x, w as int, t) != 0;
        lemma_morph_at(img, w, h, k, false, true, x, t);
        assert(x + t * w == t * w + x);
        assert forall|r: int| 0 <= r < h && t - half <= r <= t + half implies #[trigger] img[r * w + x] != 0 by {
            assert(window_lo(t, half) <= r <= window_hi(t, half, h as int));
            assert(step_at(img, x, w as int, r) != 0);
        }
        assert(column_window_set(img, w as int, h as int, half, x, t));
    }
    if exists|t: int|
        0 <= t < h && y - k / 2 <= t <= y + k / 2 && #[trigger] column_window_set(
            img,
            w as int,
            h as int,
            half,
            x,
            t,
        ) {
        let t = choose|t: int|
            0 <= t < h && y - k / 2 <= t <= y + k / 2 && #[trigger] column_window_set(
                img,
                w as int,
                h as int,
                half,
                x,
                t,
            );
        lemma_morph_at(img, w, h, k, false, true, x, t);
        assert forall|r: int| window_lo(t, half) <= r <= window_hi(t, half, h as int) implies #[trigger] step_at(
            img,
            x,
            w as int,
            r,
        ) != 0 by {
            assert(img[r * w + x] != 0);
        }
        assert(x + t * w == t * w + x);
        assert(step_at(e, x, w as int, t) != 0);
        assert(lo <= t <= hi);
    }
}

/// One opening pass along rows at `(x, y)`: set exactly when some column `t`
/// within `k / 2` of `x` has its whole row window around it set.
proof fn lemma_row_pass_at(img: Seq<u8>, w: u32, h: u32, k: u32, x: int, y: int)
    requires
        img.len() == w * h,
        0 <= x < w,
        0 <= y < h,
    ensures
        morph_image(morph_image(img, w, h, k, true, true), w, h, k, true, false)[y * w + x] != 0
            <==> exists|t: int|
            0 <= t < w && x - k / 2 <= t <= x + k / 2 && #[trigger] row_window_set(
                img,
                w as int,
                (k / 2) as int,
                y,
                t,
            ),
{
    let half = (k / 2) as int;
    let e = morph_image(img, w, h, k, true, true);
    let o = morph_image(e, w, h, k, true, false);
    lemma_morph_at(e, w, h, k, true, false, x, y);
    let lo = window_lo(x, half);
    let hi = window_hi(x, half, w as int);
    if o[y * w + x] != 0 {
        let t = choose|t: int| lo <= t <= hi && #[trigger] step_at(e, y * w, 1, t) != 0;
        lemma_morph_at(img, w, h, k, true, true, t, y);
        assert(y * w + t * 1 == y * w + t);
        assert forall|c: int| 0 <= c < w && t - half <= c <= t + half implies #[trigger] img[y * w + c] != 0 by {
            assert(window_lo(t, half) <= c <= window_hi(t, half, w as int));
            assert(step_at(img, y * w, 1, c) != 0);
            assert(y * w + c * 1 == y * w + c);
        }
        assert(row_window_set(img, w as int, half, y, t));
    }
    if exists|t: int|
        0 <= t < w && x - k / 2 <= t <= x + k / 2 && #[trigger] row_window_set(img, w as int, half, y, t) {
        let t = choose|t: int|
            0 <= t < w && x - k / 2 <= t <= x + k / 2 && #[trigger] row_window_set(img, w as int, half, y, t);
        lemma_morph_at(img, w, h, k, true, true, t, y);
        assert forall|c: int| window_lo(t, half) <= c <= window_hi(t, half, w as int) implies #[trigger] step_at(
            img,
            y * w,
            1,
            c,
        ) != 0 by {
            assert(y * w + c * 1 == y * w + c);
            assert(img[y * w + c] != 0);
        }
        assert(y * w + t * 1 == y * w + t);
        assert(step_at(e, y * w, 1, t) != 0);
        assert(lo <= t <= hi);
    }
}

/// Opening along columns with a window of `kh` pixels (rows left alone): the
/// pixel at `(x, y)` stays set exactly when some row `t` within `kh / 2` of
/// `y` has every pixel of column `x` within `kh / 2` rows of `t` set, so a
/// vertical run shorter than the window is removed unless it meets the edge.
pub proof fn lemma_column_opening(img: Seq<u8>, w: u32, h: u32, kw: u32, kh: u32, x: int, y: int)
    requires
        img.len() == w * h,
        kw <= 1,
        0 <= x < w,
        0 <= y < h,
    ensures
        opened_image(img, w, h, kw, kh)[y * w + x] != 0 <==> exists|t: int|
            0 <= t < h && y - kh / 2 <= t <= y + kh / 2 && #[trigger] column_window_set(
                img,
                w as int,
                h as int,
                (kh / 2) as int,
                x,
                t,
            ),
{
    lemma_index_in_image(w as int, h as int, x, y);
    if kh > 1 {
        lemma_column_pass_at(img, w, h, kh, x, y);
    } else {
        if img[y * w + x] != 0 {
            assert(column_window_set(img, w as int, h as int, (kh / 2) as int, x, y));
        }
    }
}

/// Opening along rows with a window of `kw` pixels (columns left alone): the
/// pixel at `(x, y)` stays set exactly when some column `t` within `kw / 2`
/// of `x` has every pixel of row `y` within `kw / 2` columns of `t` set.
pub proof fn lemma_row_opening(img: Seq<u8>, w: u32, h: u32, kw: u32, kh: u32, x: int, y: int)
    requires
        img.len() == w * h,
        kh <= 1,
        0 <= x < w,
        0 <= y < h,
    ensures
        opened_image(img, w, h, kw, kh)[y * w + x] != 0 <==> exists|t: int|
            0 <= t < w && x - kw / 2 <= t <= x + kw / 2 && #[trigger] row_window_set(
                img,
                w as int,
                (kw / 2) as int,
                y,
                t,
            ),
{
    lemma_index_in_image(w as int, h as int, x, y);
    if kw > 1 {
        lemma_row_pass_at(img, w, h, kw, x, y);
    } else {
        if img[y * w + x] != 0 {
            assert(row_window_set(img, w as int, (kw / 2) as int, y, x));
        }
    }
}

/// Opening in both directions is the column opening of the row opening.
pub proof fn lemma_opening_rows_then_columns(img: Seq<u8>, w: u32, h: u32, kw: u32, kh: u32)
    ensures
        opened_image(img, w, h, kw, kh) == opened_image(opened_image(img, w, h, kw, 1), w, h, 1, kh),
{
}

/// One opening pass, along either direction, only clears pixels.
proof fn lemma_pass_within(img: Seq<u8>, w: u32, h: u32, k: u32, horizontal: bool, i: int)
    requires
        img.len() == w * h,
        0 <= i < w * h,
    ensures
        morph_image(morph_image(img, w, h, k, horizontal, true), w, h, k, horizontal, false)[i] != 0 ==> img[i]
            != 0,
{
    let wi = w as int;
    assert(wi > 0) by (nonlinear_arith)
        requires
            0 <= i < w * h,
            wi == w,
    ;
    let x = i % wi;
    let y = i / wi;
    vstd::arithmetic::div_mod::lemma_fundamental_div_mod(i, wi);
    assert(i == y * wi + x) by (nonlinear_arith)
        requires
            i == wi * (i / wi) + i % wi,
            x == i % wi,
            y == i / wi,
    ;
    assert(0 <= x < wi);
    assert(0 <= y < h) by (nonlinear_arith)
        requires
            i == y * wi + x,
            0 <= x < wi,
            0 <= i < wi * h,
    ;
    let half = (k / 2) as int;
    if horizontal {
        lemma_row_pass_at(img, w, h, k, x, y);
        if morph_image(morph_image(img, w, h, k, true, true), w, h, k, true, false)[i] != 0 {
            let t = choose|t: int| 0 <= t < w && x - half <= t <= x + half && #[trigger] row_window_set(img, wi, half, y, t);
            assert(img[y * wi + x] != 0);
        }
    } else {
        lemma_column_pass_at(img, w, h, k, x, y);
        if morph_image(morph_image(img, w, h, k, false, true), w, h, k, false, false)[i] != 0 {
            let t = choose|t: int|
                0 <= t < h && y - half <= t <= y + half && #[trigger] column_window_set(img, wi, h as int, half, x, t);
            assert(img[y * wi + x] != 0);
        }
    }
}

/// The opening only removes pixels: every pixel set in the opened image is
/// set in the image.
pub proof fn lemma_opening_within_image(img: Seq<u8>, w: u32, h: u32, kw: u32, kh: u32, i: int)
    requires
        img.len() == w * h,
        0 <= i < w * h,
    ensures
        opened_image(img, w, h, kw, kh)[i] != 0 ==> img[i] != 0,
{
    let a = if kw > 1 {
        morph_image(morph_image(img, w, h, kw, true, true), w, h, kw, true, false)
    } else {
        img
    };
    if kw > 1 {
        lemma_pass_within(img, w, h, kw, true, i);
    }
    assert(a.len() == w * h);
    if kh > 1 {
        lemma_pass_within(a, w, h, kh, false, i);
    }
}

/// Erosion and dilation at `(x, y)` in plain terms: erosion keeps the pixel
/// when every pixel of its row (or column) within `k / 2` of it is set;
/// dilation sets it when some such pixel is set.
pub proof fn lemma_erosion_dilation(img: Seq<u8>, w: u32, h: u32, k: u32, x: int, y: int)
    requires
        img.len() == w * h,
        0 <= x < w,
        0 <= y < h,
    ensures
        morph_image(img, w, h, k, true, true)[y * w + x] != 0 <==> row_window_set(img, w as int, (k / 2) as int, y, x),
        morph_image(img, w, h, k, false, true)[y * w + x] != 0 <==> column_window_set(
            img,
            w as int,
            h as int,
            (k / 2) as int,
            x,
            y,
        ),
        morph_image(img, w, h, k, true, false)[y * w + x] != 0 <==> exists|c: int|
            0 <= c < w && x - k / 2 <= c <= x + k / 2 && #[trigger] img[y * w + c] != 0,
        morph_image(img, w, h, k, false, false)[y * w + x] != 0 <==> exists|r: int|
            0 <= r < h && y - k / 2 <= r <= y + k / 2 && #[trigger] img[r * w + x] != 0,
{
    let half = (k / 2) as int;
    lemma_morph_at(img, w, h, k, true, true, x, y);
    lemma_morph_at(img, w, h, k, false, true, x, y);
    lemma_morph_at(img, w, h, k, true, false, x, y);
    lemma_morph_at(img, w, h, k, false, false, x, y);
    let lox = window_lo(x, half);
    let hix = window_hi(x, half, w as int);
    let loy = window_lo(y, half);
    let hiy = window_hi(y, half, h as int);
    if window_full(img, y * w, 1, lox, hix) {
        assert forall|c: int| 0 <= c < w && x - half <= c <= x + half implies #[trigger] img[y * w + c] != 0 by {
            assert(step_at(img, y * w, 1, c) != 0);
            assert(y * w + c * 1 == y * w + c);
        }
    }
    if row_window_set(img, w as int, half, y, x) {
        assert forall|c: int| lox <= c <= hix implies #[trigger] step_at(img, y * w, 1, c) != 0 by {
            assert(y * w + c * 1 == y * w + c);
            assert(img[y * w + c] != 0);
        }
    }
    if window_full(img, x, w as int, loy, hiy) {
        assert forall|r: int| 0 <= r < h && y - half <= r <= y + half implies #[trigger] img[r * w + x] != 0 by {
            assert(step_at(img, x, w as int, r) != 0);
        }
    }
    if column_window_set(img, w as int, h as int, half, x, y) {
        assert forall|r: int| loy <= r <= hiy implies #[trigger] step_at(img, x, w as int, r) != 0 by {
            assert(img[r * w + x] != 0);
        }
    }
    if window_any(img, y * w, 1, lox, hix) {
        let c = choose|c: int| lox <= c <= hix && #[trigger] step_at(img, y * w, 1, c) != 0;
        assert(y * w + c * 1 == y * w + c);
        assert(img[y * w + c] != 0);
    }
    if exists|c: int| 0 <= c < w && x - half <= c <= x + half && #[trigger] img[y * w + c] != 0 {
        let c = choose|c: int| 0 <= c < w && x - half <= c <= x + half && #[trigger] img[y * w + c] != 0;
        assert(y * w + c * 1 == y * w + c);
        assert(step_at(img, y * w, 1, c) != 0);
    }
    if window_any(img, x, w as int, loy, hiy) {
        let r = choose|r: int| loy <= r <= hiy && #[trigger] step_at(img, x, w as int, r) != 0;
        assert(img[r * w + x] != 0);
    }
    if exists|r: int| 0 <= r < h && y - half <= r <= y + half && #[trigger] img[r * w + x] != 0 {
        let r = choose|r: int| 0 <= r < h && y - half <= r <= y + half && #[trigger] img[r * w + x] != 0;
        assert(step_at(img, x, w as int, r) != 0);
    }
}

} // verus!
