//! Colour classification of RGBA image buffers: background colour
//! detection, background tests and collection of masked foreground pixels.
use vstd::prelude::*;

verus! {

/// Squared Euclidean distance between two RGB colours, as a mathematical integer.
pub open spec fn color_dist_sq_spec(a: [u8; 3], b: [u8; 3]) -> int {
    (a[0] - b[0]) * (a[0] - b[0]) + (a[1] - b[1]) * (a[1] - b[1]) + (a[2] - b[2]) * (a[2] - b[2])
}

/// A colour is background when it lies within distance 30 per channel
/// (squared distance below 30 * 30 * 3) of the background colour.
pub open spec fn is_bg_spec(pixel: [u8; 3], bg: [u8; 3]) -> bool {
    color_dist_sq_spec(pixel, bg) < 30 * 30 * 3
}

/// Pixel `idx` of an RGBA buffer of length `len` has its three colour bytes in range.
pub open spec fn pixel_in_buffer_spec(idx: int, len: int) -> bool {
    4 * idx + 2 < len
}

/// The RGB triple of pixel `idx`.
pub open spec fn rgb_at(rgba: Seq<u8>, idx: int) -> [u8; 3] {
    [rgba[4 * idx], rgba[4 * idx + 1], rgba[4 * idx + 2]]
}

/// Squared Euclidean distance between two RGB colours.
pub fn color_distance_sq(a: [u8; 3], b: [u8; 3]) -> (d: u32)
    ensures
        d == color_dist_sq_spec(a, b),
{
    let dr: i32 = a[0] as i32 - b[0] as i32;
    let dg: i32 = a[1] as i32 - b[1] as i32;
    let db: i32 = a[2] as i32 - b[2] as i32;
    assert(0 <= dr * dr <= 65025) by (nonlinear_arith)
        requires
            -255 <= dr <= 255,
    ;
    assert(0 <= dg * dg <= 65025) by (nonlinear_arith)
        requires
            -255 <= dg <= 255,
    ;
    assert(0 <= db * db <= 65025) by (nonlinear_arith)
        requires
            -255 <= db <= 255,
    ;
    (dr * dr + dg * dg + db * db) as u32
}

/// Whether `pixel` is close enough to `bg` to count as background.
pub fn is_bg_color(pixel: [u8; 3], bg: [u8; 3]) -> (r: bool)
    ensures
        r == is_bg_spec(pixel, bg),
{
    color_distance_sq(pixel, bg) < 2700
}

/// Whether the three colour bytes of pixel `idx` lie inside a buffer of length `len`.
pub fn pixel_in_buffer(idx: usize, len: usize) -> (r: bool)
    ensures
        r == pixel_in_buffer_spec(idx as int, len as int),
{
    if len < 3 {
        false
    } else {
        idx <= (len - 3) / 4
    }
}

/// Colour histogram bin of a pixel: each channel quantised to its top 3 bits.
pub open spec fn bin_of(rgba: Seq<u8>, i: int) -> int {
    (rgba[4 * i] / 32) * 64 + (rgba[4 * i + 1] / 32) * 8 + rgba[4 * i + 2] / 32
}

/// Number of the first `n` pixels that fall into histogram bin `q`.
pub open spec fn bin_count(rgba: Seq<u8>, n: nat, q: int) -> nat
    decreases n,
{
    if n == 0 {
        0
    } else {
        bin_count(rgba, (n - 1) as nat, q) + if bin_of(rgba, n - 1) == q {
            1nat
        } else {
            0nat
        }
    }
}

/// Number of pixels that take part in background detection: those among the
/// first `w * h` whose colour bytes lie inside the buffer.
pub open spec fn counted_pixels(len: int, w: u32, h: u32) -> nat {
    let total = w as int * h as int;
    let avail = (len + 1) / 4;
    if total < avail {
        total as nat
    } else {
        avail as nat
    }
}

/// The representative colour of a histogram bin: the centre of its cube.
pub open spec fn bin_color(q: int) -> [u8; 3] {
    [((q / 64) * 32 + 16) as u8, (((q / 8) % 8) * 32 + 16) as u8, ((q % 8) * 32 + 16) as u8]
}

proof fn lemma_bin_count_bound(rgba: Seq<u8>, n: nat, q: int)
    ensures
        bin_count(rgba, n, q) <= n,
    decreases n,
{
    if n > 0 {
        lemma_bin_count_bound(rgba, (n - 1) as nat, q);
    }
}

/// Detects the background colour as the centre of the most populated colour
/// bin (channels quantised to 3 bits).  Among equally populated bins the one
/// with the smallest index wins; an image without countable pixels yields
/// the colour of the brightest bin.
pub fn detect_background_color(rgba: &[u8], w: u32, h: u32) -> (c: [u8; 3])
    ensures
        counted_pixels(rgba@.len() as int, w, h) == 0 ==> c == bin_color(511),
        counted_pixels(rgba@.len() as int, w, h) > 0 ==> exists|q: int|
            0 <= q < 512 && c == bin_color(q) && bin_count(
                rgba@,
                counted_pixels(rgba@.len() as int, w, h),
                q,
            ) > 0 && (forall|p: int|
                0 <= p < 512 ==> #[trigger] bin_count(
                    rgba@,
                    counted_pixels(rgba@.len() as int, w, h),
                    p,
                ) <= bin_count(rgba@, counted_pixels(rgba@.len() as int, w, h), q)) && (forall|
                p: int,
            |
                0 <= p < q ==> #[trigger] bin_count(
                    rgba@,
                    counted_pixels(rgba@.len() as int, w, h),
                    p,
                ) < bin_count(rgba@, counted_pixels(rgba@.len() as int, w, h), q)),
{
    let len = rgba.len();
    assert((w as int) * (h as int) <= 0xFFFF_FFFF * 0xFFFF_FFFF) by (nonlinear_arith)
        requires
            w <= 0xFFFF_FFFF,
            h <= 0xFFFF_FFFF,
    ;
    let total: u64 = (w as u64) * (h as u64);
    let avail: usize = len / 4 + if len % 4 == 3 {
        1
    } else {
        0
    };
    let n: usize = if total < avail as u64 {
        total as usize
    } else {
        avail
    };
    assert(n == counted_pixels(len as int, w, h));
    let mut hist: Vec<u64> = Vec::new();
    let mut q: usize = 0;
    while q < 512
        invariant
            q <= 512,
            hist.len() == q,
            forall|p: int| 0 <= p < q ==> hist@[p] == 0,
        decreases 512 - q,
    {
        hist.push(0);
        q = q + 1;
    }
    let mut i: usize = 0;
    while i < n
        invariant
            n == counted_pixels(len as int, w, h),
            len == rgba@.len(),
            i <= n,
            hist.len() == 512,
            forall|p: int| 0 <= p < 512 ==> hist@[p] == bin_count(rgba@, i as nat, p),
        decreases n - i,
    {
        let off = i * 4;
        let b: usize = (rgba[off] / 32) as usize * 64 + (rgba[off + 1] / 32) as usize * 8 + (rgba[
            off + 2] / 32) as usize;
        assert(b == bin_of(rgba@, i as int));
        proof {
            lemma_bin_count_bound(rgba@, i as nat, b as int);
        }
        let old_count = hist[b];
        hist.set(b, old_count + 1);
        i = i + 1;
    }
    if n == 0 {
        return [0xF0, 0xF0, 0xF0];
    }
    let mut best: usize = 0;
    let mut p: usize = 1;
    while p < 512
        invariant
            hist.len() == 512,
            1 <= p <= 512,
            best < p,
            forall|k: int| 0 <= k < p ==> hist@[k] <= hist@[best as int],
            forall|k: int| 0 <= k < best ==> hist@[k] < hist@[best as int],
        decreases 512 - p,
    {
        if hist[p] > hist[best] {
            best = p;
        }
        p = p + 1;
    }
    proof {
        // Some bin holds the first pixel, so the fullest bin is not empty.
        let b0 = bin_of(rgba@, 0);
        assert(bin_count(rgba@, 0, b0) == 0);
        assert(bin_count(rgba@, 1, b0) == 1);
        lemma_bin_count_monotone(rgba@, 1, n as nat, b0);
        assert(0 <= b0 < 512) by {
            assert(rgba@[0] / 32 < 8);
            assert(rgba@[1] / 32 < 8);
            assert(rgba@[2] / 32 < 8);
        }
        assert(hist@[b0] > 0);
        let nn = counted_pixels(rgba@.len() as int, w, h);
        assert(bin_count(rgba@, nn, best as int) > 0);
        assert forall|p: int| 0 <= p < 512 implies #[trigger] bin_count(rgba@, nn, p) <= bin_count(rgba@, nn, best as int) by {
            assert(hist@[p] == bin_count(rgba@, nn, p));
        }
        assert forall|p: int| 0 <= p < best implies #[trigger] bin_count(rgba@, nn, p) < bin_count(rgba@, nn, best as int) by {
            assert(hist@[p] == bin_count(rgba@, nn, p));
        }
    }
    let r: u8 = ((best / 64) * 32 + 16) as u8;
    let g: u8 = (((best / 8) % 8) * 32 + 16) as u8;
    let bl: u8 = ((best % 8) * 32 + 16) as u8;
    let c = [r, g, bl];
    assert(c == bin_color(best as int));
    c
}

proof fn lemma_bin_count_monotone(rgba: Seq<u8>, m: nat, n: nat, q: int)
    requires
        m <= n,
    ensures
        bin_count(rgba, m, q) <= bin_count(rgba, n, q),
    decreases n,
{
    if n > m {
        lemma_bin_count_monotone(rgba, m, (n - 1) as nat, q);
    }
}

/// Whether pixel `idx` of the mask is painted (indices past the mask's end are not).
pub open spec fn mask_at(mask: Seq<bool>, idx: int) -> bool {
    0 <= idx < mask.len() && mask[idx]
}

/// Whether pixel `idx` is a painted, in-buffer, non-background pixel.
pub open spec fn is_masked_fg(rgba: Seq<u8>, mask: Seq<bool>, bg: [u8; 3], idx: int) -> bool {
    mask_at(mask, idx) && pixel_in_buffer_spec(idx, rgba.len() as int) && !is_bg_spec(
        rgb_at(rgba, idx),
        bg,
    )
}

/// The painted non-background pixels among the first `n` pixels (row-major
/// order, row width `w`), each with its colour and coordinates.
pub open spec fn masked_fg_pixels(rgba: Seq<u8>, mask: Seq<bool>, w: u32, bg: [u8; 3], n: nat) -> Seq<
    ([u8; 3], u32, u32),
>
    decreases n,
{
    if n == 0 {
        Seq::empty()
    } else {
        let prev = masked_fg_pixels(rgba, mask, w, bg, (n - 1) as nat);
        let idx = n - 1;
        if is_masked_fg(rgba, mask, bg, idx) {
            prev.push((rgb_at(rgba, idx), (idx % w as int) as u32, (idx / w as int) as u32))
        } else {
            prev
        }
    }
}

/// Collects, in row-major order, every pixel inside the `w` x `h` image that
/// is painted in `mask`, lies inside `rgba`, and is not background coloured.
pub fn collect_masked_non_bg_pixels(rgba: &[u8], mask: &[bool], w: u32, h: u32, bg_color: [u8; 3]) -> (r:
    Vec<([u8; 3], u32, u32)>)
    requires
        w as int * h as int <= usize::MAX,
    ensures
        r@ == masked_fg_pixels(rgba@, mask@, w, bg_color, (w as int * h as int) as nat),
{
    let n: usize = (w as usize) * (h as usize);
    let mut pixels: Vec<([u8; 3], u32, u32)> = Vec::new();
    let mut idx: usize = 0;
    let mut x: u32 = 0;
    let mut y: u32 = 0;
    while idx < n
        invariant
            n == w as int * h as int,
            idx <= n,
            w > 0 ==> x < w,
            idx < n ==> y < h,
            w > 0 ==> idx == y as int * w as int + x as int,
            pixels@ == masked_fg_pixels(rgba@, mask@, w, bg_color, idx as nat),
        decreases n - idx,
    {
        assert(w > 0) by (nonlinear_arith)
            requires
                idx < n,
                n == w as int * h as int,
        ;
        proof {
            vstd::arithmetic::div_mod::lemma_fundamental_div_mod_converse(
                idx as int,
                w as int,
                y as int,
                x as int,
            );
        }
        let painted = idx < mask.len() && mask[idx];
        if painted && pixel_in_buffer(idx, rgba.len()) {
            let off = idx * 4;
            let pixel = [rgba[off], rgba[off + 1], rgba[off + 2]];
            assert(pixel == rgb_at(rgba@, idx as int));
            if !is_bg_color(pixel, bg_color) {
                pixels.push((pixel, x, y));
            }
        }
        idx = idx + 1;
        if x + 1 < w {
            x = x + 1;
        } else {
            x = 0;
            proof {
                assert((y + 1) * w == y * w + w) by (nonlinear_arith);
                if idx < n {
                    assert(y + 1 < h) by (nonlinear_arith)
                        requires
                            idx == (y + 1) * w,
                            idx < n,
                            n == w * h,
                    ;
                }
            }
            y = y + 1;
        }
    }
    pixels
}

} // verus!
