//! Morphological closing of a painted mask: small gaps between painted
//! regions are bridged.
use vstd::prelude::*;

verus! {

/// The distance at which imageproc's chessboard distance transform
/// saturates for a `w` by `h` image.
pub open spec fn distance_cap(w: u32, h: u32) -> int {
    if w + h < 255 {
        w + h
    } else {
        255
    }
}

/// Pixel `(x, y)` of a `w`-wide image lies within chessboard distance `k`
/// of a non-zero pixel.
pub open spec fn near_foreground(img: Seq<u8>, w: u32, h: u32, k: int, x: int, y: int) -> bool {
    exists|qx: int, qy: int|
        0 <= qx < w && 0 <= qy < h && x - k <= qx <= x + k && y - k <= qy <= y + k
            && #[trigger] img[qy * w + qx] != 0
}

/// Pixel `(x, y)` survives closing with radius `k`: every pixel within
/// chessboard distance `k` of it lies within distance `k` of a non-zero
/// pixel (and the radius is below the distance cap, beyond which closing
/// clears the whole image).
pub open spec fn closed_at(img: Seq<u8>, w: u32, h: u32, k: int, x: int, y: int) -> bool {
    &&& k < distance_cap(w, h)
    &&& forall|qx: int, qy: int|
        0 <= qx < w && 0 <= qy < h && x - k <= qx <= x + k && y - k <= qy <= y + k
            ==> #[trigger] near_foreground(img, w, h, k, qx, qy)
}

/// `imageproc::morphology::close` with the chessboard (`LInf`) norm on a
/// `w` by `h` grey image: dilation (pixels within distance `k` of a
/// non-zero pixel become 255, the others 0) followed by erosion (pixels
/// within distance `k` of a zero pixel become 0, the others 255), with
/// distances saturating at `distance_cap(w, h)`.
#[verifier::external_body]
fn close_image(buf: &[u8], w: u32, h: u32, k: u8) -> (r: Vec<u8>)
    requires
        buf@.len() == w as int * h as int,
        w > 0,
        h > 0,
        w as int + h as int <= u32::MAX,
    ensures
        r@.len() == buf@.len(),
        forall|i: int|
            0 <= i < r@.len() ==> #[trigger] r@[i] == (if closed_at(buf@, w, h, k as int, i % (w as int), i / (w as int)) {
                255u8
            } else {
                0u8
            }),
{
    let img = image::GrayImage::from_raw(w, h, buf.to_vec()).unwrap();
    imageproc::morphology::close(&img, imageproc::distance_transform::Norm::LInf, k).into_raw()
}

/// The grey image of a mask: 255 where the mask is set, 0 elsewhere and
/// past its end, over `n` pixels.
pub open spec fn mask_image(mask: Seq<bool>, n: nat) -> Seq<u8> {
    Seq::new(n, |i: int| if i < mask.len() && mask[i] { 255u8 } else { 0u8 })
}

/// Closes a painted mask with a square of the given radius (dilation then
/// erosion), bridging gaps up to twice the radius.  The result has one
/// entry per pixel of the `w` by `h` image; a set entry past the image
/// would not fit it.
pub fn close_mask(buffer: &[bool], w: u32, h: u32, radius: u8) -> (r: Vec<bool>)
    requires
        w as int * h as int <= usize::MAX,
        w as int + h as int <= u32::MAX,
        forall|i: int| w as int * h as int <= i < buffer@.len() ==> !buffer@[i],
    ensures
        r@.len() == w as int * h as int,
        forall|i: int|
            0 <= i < r@.len() ==> #[trigger] r@[i] == closed_at(
                mask_image(buffer@, (w as int * h as int) as nat),
                w,
                h,
                radius as int,
                i % (w as int),
                i / (w as int),
            ),
{
    let n: usize = (w as usize) * (h as usize);
    let ghost img_spec = mask_image(buffer@, n as nat);
    let mut img: Vec<u8> = Vec::new();
    let mut i: usize = 0;
    while i < n
        invariant
            i <= n,
            img@ == mask_image(buffer@, n as nat).take(i as int),
        decreases n - i,
    {
        let v: u8 = if i < buffer.len() && buffer[i] {
            255
        } else {
            0
        };
        img.push(v);
        proof {
            assert(img@ =~= mask_image(buffer@, n as nat).take(i + 1));
        }
        i = i + 1;
    }
    proof {
        assert(img@ =~= img_spec);
    }
    let mut r: Vec<bool> = Vec::new();
    if n == 0 {
        return r;
    }
    assert(w > 0 && h > 0) by (nonlinear_arith)
        requires
            n == w as int * h as int,
            n != 0,
    ;
    let closed = close_image(img.as_slice(), w, h, radius);
    let mut j: usize = 0;
    while j < n
        invariant
            j <= n,
            closed@.len() == n,
            r@.len() == j,
            forall|k: int|
                0 <= k < closed@.len() ==> #[trigger] closed@[k] == (if closed_at(img_spec, w, h, radius as int, k % (w as int), k / (w as int)) {
                    255u8
                } else {
                    0u8
                }),
            forall|k: int|
                0 <= k < j ==> #[trigger] r@[k] == closed_at(img_spec, w, h, radius as int, k % (w as int), k / (w as int)),
        decreases n - j,
    {
        r.push(closed[j] > 128);
        j = j + 1;
    }
    r
}

/// Closing keeps every painted pixel (for radii below the distance cap).
pub proof fn lemma_close_keeps_painted(img: Seq<u8>, w: u32, h: u32, k: int, x: int, y: int)
    requires
        0 <= k < distance_cap(w, h),
        0 <= x < w,
        0 <= y < h,
        img[y * w + x] != 0,
    ensures
        closed_at(img, w, h, k, x, y),
{
    assert forall|qx: int, qy: int|
        0 <= qx < w && 0 <= qy < h && x - k <= qx <= x + k && y - k <= qy <= y + k implies #[trigger] near_foreground(
        img,
        w,
        h,
        k,
        qx,
        qy,
    ) by {
        assert(img[y * w + x] != 0);
    }
}

/// Closing bridges a gap of up to twice the radius between two painted
/// pixels of a row: every pixel between them is set afterwards.
pub proof fn lemma_close_bridges_row_gap(img: Seq<u8>, w: u32, h: u32, k: int, y: int, a: int, b: int, x: int)
    requires
        0 <= k < distance_cap(w, h),
        0 <= a <= x <= b < w,
        b - a - 1 <= 2 * k,
        0 <= y < h,
        img[y * w + a] != 0,
        img[y * w + b] != 0,
    ensures
        closed_at(img, w, h, k, x, y),
{
    assert forall|qx: int, qy: int|
        0 <= qx < w && 0 <= qy < h && x - k <= qx <= x + k && y - k <= qy <= y + k implies #[trigger] near_foreground(
        img,
        w,
        h,
        k,
        qx,
        qy,
    ) by {
        if qx <= a + k {
            assert(img[y * w + a] != 0);
        } else {
            assert(img[y * w + b] != 0);
        }
    }
}

/// Closing bridges a gap of up to twice the radius between two painted
/// pixels of a column: every pixel between them is set afterwards.
pub proof fn lemma_close_bridges_column_gap(img: Seq<u8>, w: u32, h: u32, k: int, x: int, a: int, b: int, y: int)
    requires
        0 <= k < distance_cap(w, h),
        0 <= a <= y <= b < h,
        b - a - 1 <= 2 * k,
        0 <= x < w,
        img[a * w + x] != 0,
        img[b * w + x] != 0,
    ensures
        closed_at(img, w, h, k, x, y),
{
    assert forall|qx: int, qy: int|
        0 <= qx < w && 0 <= qy < h && x - k <= qx <= x + k && y - k <= qy <= y + k implies #[trigger] near_foreground(
        img,
        w,
        h,
        k,
        qx,
        qy,
    ) by {
        if qy <= a + k {
            assert(img[a * w + x] != 0);
        } else {
            assert(img[b * w + x] != 0);
        }
    }
}

} // verus!
