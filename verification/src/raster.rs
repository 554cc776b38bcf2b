//! Pixel-buffer writing for the flat front-view preview (RGBA, row-major).

use vstd::prelude::*;

verus! {

/// Colour of the lead backing that shows wherever no glass is drawn.
pub open spec fn lead_rgba() -> Seq<u8> {
    seq![28u8, 28u8, 32u8, 255u8]
}

/// A `w` by `h` RGBA image filled with the lead backing colour.
pub fn lead_background(w: u32, h: u32) -> (buf: Vec<u8>)
    requires
        w * h * 4 <= u32::MAX,
    ensures
        buf@.len() == w * h * 4,
        forall|k: int| 0 <= k < buf@.len() ==> #[trigger] buf@[k] == lead_rgba()[k % 4],
        forall|p: int|
            0 <= p < w * h ==> {
                &&& #[trigger] buf@[4 * p] == 28
                &&& buf@[4 * p + 1] == 28
                &&& buf@[4 * p + 2] == 32
                &&& buf@[4 * p + 3] == 255
            },
{
    let n = (w * h * 4) as usize;
    let mut buf: Vec<u8> = Vec::new();
    let mut k: usize = 0;
    while k < n
        invariant
            n == w * h * 4,
            n % 4 == 0,
            k % 4 == 0,
            k <= n,
            buf@.len() == k,
            forall|j: int| 0 <= j < k ==> #[trigger] buf@[j] == lead_rgba()[j % 4],
        decreases n - k,
    {
        buf.push(28);
        buf.push(28);
        buf.push(32);
        buf.push(255);
        k = k + 4;
    }
    assert forall|p: int| 0 <= p < w * h implies {
        &&& #[trigger] buf@[4 * p] == 28
        &&& buf@[4 * p + 1] == 28
        &&& buf@[4 * p + 2] == 32
        &&& buf@[4 * p + 3] == 255
    } by {
        assert((4 * p) % 4 == 0 && (4 * p + 1) % 4 == 1 && (4 * p + 2) % 4 == 2 && (4 * p + 3) % 4 == 3);
        assert(buf@[4 * p + 3] == lead_rgba()[(4 * p + 3) % 4]);
    }
    buf
}

/// The byte `k` of an RGBA image `w` pixels wide lies in the run of pixels
/// `xa..=xb` of row `y`.
pub open spec fn in_span(w: u32, y: int, xa: int, xb: int, k: int) -> bool {
    let row_start = 4 * (y * w + xa);
    let row_end = 4 * (y * w + xb + 1);
    row_start <= k < row_end
}

/// Paint pixels `xa..=xb` of row `y` of an RGBA image `w` pixels wide with
/// an opaque colour; byte offsets are computed in `u32`.
pub fn paint_span(buf: &mut Vec<u8>, w: u32, y: i32, xa: i32, xb: i32, color: [u8; 3])
    requires
        0 <= y,
        0 <= xa,
        xa <= xb ==> (y * w + xb) * 4 + 3 <= u32::MAX,
        xa <= xb ==> (y * w + xb) * 4 + 3 < old(buf)@.len(),
    ensures
        final(buf)@.len() == old(buf)@.len(),
        forall|k: int|
            0 <= k < old(buf)@.len() ==> #[trigger] final(buf)@[k] == if in_span(
                w,
                y as int,
                xa as int,
                xb as int,
                k,
            ) {
                if k % 4 == 3 {
                    255u8
                } else {
                    color[k % 4]
                }
            } else {
                old(buf)@[k]
            },
        forall|x: int|
            xa <= x <= xb ==> {
                &&& #[trigger] final(buf)@[4 * (y * w + x)] == color[0]
                &&& final(buf)@[4 * (y * w + x) + 1] == color[1]
                &&& final(buf)@[4 * (y * w + x) + 2] == color[2]
                &&& final(buf)@[4 * (y * w + x) + 3] == 255
            },
        forall|k: int|
            0 <= k < old(buf)@.len() && (k < 4 * (y * w + xa) || 4 * (y * w + xb + 1) <= k)
                ==> #[trigger] final(buf)@[k] == old(buf)@[k],
{
    paint_run(buf, w, y, xa, xb, color);
    assert forall|x: int| xa <= x <= xb implies {
        &&& #[trigger] buf@[4 * (y * w + x)] == color[0]
        &&& buf@[4 * (y * w + x) + 1] == color[1]
        &&& buf@[4 * (y * w + x) + 2] == color[2]
        &&& buf@[4 * (y * w + x) + 3] == 255
    } by {
        let b = 4 * (y * w + x);
        assert(0 <= y * w) by (nonlinear_arith)
            requires
                0 <= y,
                0 <= w,
        ;
        assert(b % 4 == 0 && (b + 1) % 4 == 1 && (b + 2) % 4 == 2 && (b + 3) % 4 == 3);
        assert(in_span(w, y as int, xa as int, xb as int, b));
        assert(in_span(w, y as int, xa as int, xb as int, b + 1));
        assert(in_span(w, y as int, xa as int, xb as int, b + 2));
        assert(in_span(w, y as int, xa as int, xb as int, b + 3));
        assert(b + 3 <= 4 * (y * w + xb) + 3);
    }
}

fn paint_run(buf: &mut Vec<u8>, w: u32, y: i32, xa: i32, xb: i32, color: [u8; 3])
    requires
        0 <= y,
        0 <= xa,
        xa <= xb ==> (y * w + xb) * 4 + 3 <= u32::MAX,
        xa <= xb ==> (y * w + xb) * 4 + 3 < old(buf)@.len(),
    ensures
        final(buf)@.len() == old(buf)@.len(),
        forall|k: int|
            0 <= k < old(buf)@.len() ==> #[trigger] final(buf)@[k] == if in_span(
                w,
                y as int,
                xa as int,
                xb as int,
                k,
            ) {
                if k % 4 == 3 {
                    255u8
                } else {
                    color[k % 4]
                }
            } else {
                old(buf)@[k]
            },
{
    if xa > xb {
        return;
    }
    let mut x: i64 = xa as i64;
    while x <= xb as i64
        invariant
            0 <= y,
            0 <= xa <= x,
            x <= xb + 1,
            (y * w + xb) * 4 + 3 <= u32::MAX,
            (y * w + xb) * 4 + 3 < old(buf)@.len(),
            buf@.len() == old(buf)@.len(),
            forall|k: int|
                0 <= k < old(buf)@.len() ==> #[trigger] buf@[k] == if in_span(
                    w,
                    y as int,
                    xa as int,
                    x - 1,
                    k,
                ) {
                    if k % 4 == 3 {
                        255u8
                    } else {
                        color[k % 4]
                    }
                } else {
                    old(buf)@[k]
                },
        decreases xb + 1 - x,
    {
        assert(y * w <= y * w + x);
        let ghost prev = buf@;
        let idx = ((y as u32 * w + x as u32) * 4) as usize;
        buf.set(idx, color[0]);
        buf.set(idx + 1, color[1]);
        buf.set(idx + 2, color[2]);
        buf.set(idx + 3, 255);
        assert forall|k: int| 0 <= k < old(buf)@.len() implies #[trigger] buf@[k] == if in_span(
            w,
            y as int,
            xa as int,
            x as int,
            k,
        ) {
            if k % 4 == 3 {
                255u8
            } else {
                color[k % 4]
            }
        } else {
            old(buf)@[k]
        } by {
            if idx <= k < idx + 4 {
                assert(k % 4 == k - idx);
            } else {
                assert(buf@[k] == prev[k]);
            }
        }
        x = x + 1;
    }
}


/// The span covers exactly the four bytes of each pixel `x` of row `y` with
/// `xa <= x <= xb`: byte `k` is in it when its pixel `k / 4` is one of them.
pub proof fn lemma_span_pixels(w: u32, y: int, xa: int, xb: int, k: int)
    requires
        0 <= k,
    ensures
        in_span(w, y, xa, xb, k) <==> xa <= k / 4 - y * w <= xb,
{
}

} // verus!
