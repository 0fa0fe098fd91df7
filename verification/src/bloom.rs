//! Separable 7-tap box blur used for the bloom glow. Edges clamp.

use vstd::prelude::*;
use crate::bits::lemma_u32_shr;
use crate::{BH, BW, H, W};
use crate::grid::{clamp_index, lemma_index_in_area, lemma_row_in_area, lemma_row_major};

verus! {

/// Radius of the box: the window spans `2 * R + 1` cells.
pub const R: usize = 3;

/// Tap `k` of the horizontal window around column `x` of the row starting at `start`.
pub open spec fn row_tap(src: Seq<u16>, w: int, start: int, x: int, k: int) -> int {
    src[start + clamp_index(x + k, w)] as int
}

/// Sum of the seven horizontal taps around column `x`, columns clamped to the row.
pub open spec fn row_window(src: Seq<u16>, w: int, start: int, x: int) -> int {
    row_tap(src, w, start, x, -3) + row_tap(src, w, start, x, -2) + row_tap(src, w, start, x, -1)
        + row_tap(src, w, start, x, 0) + row_tap(src, w, start, x, 1) + row_tap(
        src,
        w,
        start,
        x,
        2,
    ) + row_tap(src, w, start, x, 3)
}

/// The horizontal blur of cell `i` of a `w`-wide buffer: the mean (rounded
/// down) of the seven cells of its row centred on it.
pub open spec fn blur_h_cell(src: Seq<u16>, w: int, i: int) -> u16 {
    (row_window(src, w, i - i % w, i % w) / 7) as u16
}

/// Separable 7-tap box blur, horizontal pass. Edges clamp.
pub fn blur_h(src: &[u16], dst: &mut [u16], w: usize, h: usize)
    requires
        h > 0 ==> 0 < w <= usize::MAX - R,
        w * h <= src@.len(),
        w * h <= old(dst)@.len(),
    ensures
        final(dst)@.len() == old(dst)@.len(),
        forall|i: int| 0 <= i < w * h ==> final(dst)@[i] == blur_h_cell(src@, w as int, i),
        forall|i: int| w * h <= i < old(dst)@.len() ==> final(dst)@[i] == old(dst)@[i],
{
    let src_len = src.len();
    let dst_len = dst.len();
    for y in 0..h
        invariant
            src_len == src@.len(),
            dst_len == dst@.len(),
            h > 0 ==> 0 < w <= usize::MAX - R,
            w * h <= src@.len(),
            w * h <= old(dst)@.len(),
            dst@.len() == old(dst)@.len(),
            0 <= y * w,
            y <= h,
            y * w <= w * h,
            forall|i: int| 0 <= i < y * w ==> dst@[i] == blur_h_cell(src@, w as int, i),
            forall|i: int| y * w <= i < dst@.len() ==> dst@[i] == old(dst)@[i],
    {
        proof {
            lemma_row_in_area(y as int, w as int, h as int);
            assert((y + 1) * w == y * w + w) by (nonlinear_arith);
        }
        let start = y * w;
        let mut sum: u32 = src[start] as u32 * R as u32;
        for k in 0..R + 1
            invariant
                0 < w,
                src_len == src@.len(),
                start + w <= src@.len(),
                sum == 3 * src@[start as int] + (if k > 0 { src@[start + clamp_index(0, w as int)] as int } else { 0 })
                    + (if k > 1 { src@[start + clamp_index(1, w as int)] as int } else { 0 })
                    + (if k > 2 { src@[start + clamp_index(2, w as int)] as int } else { 0 })
                    + (if k > 3 { src@[start + clamp_index(3, w as int)] as int } else { 0 }),
        {
            sum += src[start + k.min(w - 1)] as u32;
        }
        for x in 0..w
            invariant
                0 < w <= usize::MAX - R,
                src_len == src@.len(),
                dst_len == dst@.len(),
                start == y * w,
                start + w <= src@.len(),
                start + w <= dst@.len(),
                start + w == (y + 1) * w,
                dst@.len() == old(dst)@.len(),
                sum == row_window(src@, w as int, start as int, x as int),
                forall|i: int| 0 <= i < start + x ==> dst@[i] == blur_h_cell(src@, w as int, i),
                forall|i: int| start + x <= i < dst@.len() ==> dst@[i] == old(dst)@[i],
        {
            proof {
                lemma_row_major(y as int, x as int, w as int);
            }
            dst[start + x] = (sum / (2 * R as u32 + 1)) as u16;
            sum += src[start + (x + R + 1).min(w - 1)] as u32;
            sum -= src[start + x.saturating_sub(R)] as u32;
        }
    }
    proof {
        assert(h * w == w * h) by (nonlinear_arith);
    }
}

/// Tap `k` of the vertical window around row `y` of column `x`, rows clamped.
pub open spec fn col_tap(src: Seq<u16>, w: int, h: int, y: int, x: int, k: int) -> int {
    src[clamp_index(y + k, h) * w + x] as int
}

/// Sum of the seven vertical taps around row `y` of column `x`.
pub open spec fn col_window(src: Seq<u16>, w: int, h: int, y: int, x: int) -> int {
    col_tap(src, w, h, y, x, -3) + col_tap(src, w, h, y, x, -2) + col_tap(src, w, h, y, x, -1)
        + col_tap(src, w, h, y, x, 0) + col_tap(src, w, h, y, x, 1) + col_tap(src, w, h, y, x, 2)
        + col_tap(src, w, h, y, x, 3)
}

/// The vertical blur of cell `i` of a `w` by `h` buffer: the mean (rounded
/// down) of the seven cells of its column centred on it.
pub open spec fn blur_v_cell(src: Seq<u16>, w: int, h: int, i: int) -> u16 {
    (col_window(src, w, h, i / w, i % w) / 7) as u16
}

/// Separable 7-tap box blur, vertical pass. Edges clamp.
pub fn blur_v(src: &[u16], dst: &mut [u16], w: usize, h: usize)
    requires
        w > 0 ==> 0 < h <= usize::MAX - R,
        w * h <= src@.len(),
        w * h <= old(dst)@.len(),
    ensures
        final(dst)@.len() == old(dst)@.len(),
        forall|i: int| 0 <= i < w * h ==> final(dst)@[i] == blur_v_cell(src@, w as int, h as int, i),
        forall|i: int| w * h <= i < old(dst)@.len() ==> final(dst)@[i] == old(dst)@[i],
{
    let src_len = src.len();
    let dst_len = dst.len();
    proof {
        assert(w == 0 ==> w * h == 0);
    }
    for x in 0..w
        invariant
            src_len == src@.len(),
            dst_len == dst@.len(),
            w == 0 ==> w * h == 0,
            w > 0 ==> 0 < h <= usize::MAX - R,
            w * h <= src@.len(),
            w * h <= old(dst)@.len(),
            dst@.len() == old(dst)@.len(),
            forall|i: int|
                0 <= i < w * h && i % (w as int) < x ==> dst@[i] == blur_v_cell(
                    src@,
                    w as int,
                    h as int,
                    i,
                ),
            forall|i: int|
                0 <= i < dst@.len() && !(i < w * h && i % (w as int) < x) ==> dst@[i] == old(
                    dst,
                )@[i],
    {
        proof {
            lemma_row_in_area(0, w as int, h as int);
        }
        let mut sum: u32 = src[x] as u32 * R as u32;
        for k in 0..R + 1
            invariant
                0 < w,
                0 < h,
                x < w,
                src_len == src@.len(),
                w * h <= src@.len(),
                sum == 3 * src@[x as int] + (if k > 0 { src@[clamp_index(0, h as int) * w + x] as int } else { 0 })
                    + (if k > 1 { src@[clamp_index(1, h as int) * w + x] as int } else { 0 })
                    + (if k > 2 { src@[clamp_index(2, h as int) * w + x] as int } else { 0 })
                    + (if k > 3 { src@[clamp_index(3, h as int) * w + x] as int } else { 0 }),
        {
            let c = k.min(h - 1);
            proof {
                lemma_row_in_area(c as int, w as int, h as int);
            }
            sum += src[c * w + x] as u32;
        }
        proof {
            assert(0 * w == 0);
        }
        for y in 0..h
            invariant
                0 < w,
                0 < h <= usize::MAX - R,
                x < w,
                src_len == src@.len(),
                dst_len == dst@.len(),
                w * h <= src@.len(),
                w * h <= dst@.len(),
                dst@.len() == old(dst)@.len(),
                sum == col_window(src@, w as int, h as int, y as int, x as int),
                forall|i: int|
                    0 <= i < w * h && (i % (w as int) < x || (i % (w as int) == x && i / (w as int)
                        < y)) ==> dst@[i] == blur_v_cell(src@, w as int, h as int, i),
                forall|i: int|
                    0 <= i < dst@.len() && !(i < w * h && (i % (w as int) < x || (i % (w as int)
                        == x && i / (w as int) < y))) ==> dst@[i] == old(dst)@[i],
        {
            proof {
                lemma_row_in_area(y as int, w as int, h as int);
                lemma_row_major(y as int, x as int, w as int);
            }
            let j = y * w + x;
            dst[j] = (sum / (2 * R as u32 + 1)) as u16;
            proof {
                assert forall|i: int|
                    0 <= i < w * h && (i % (w as int) < x || (i % (w as int) == x && i / (w as int)
                        < y + 1)) implies dst@[i] == blur_v_cell(src@, w as int, h as int, i) by {
                    lemma_index_in_area(i, w as int, h as int);
                }
            }
            let lo = (y + R + 1).min(h - 1);
            let hi = y.saturating_sub(R);
            proof {
                lemma_row_in_area(lo as int, w as int, h as int);
                lemma_row_in_area(hi as int, w as int, h as int);
            }
            sum += src[lo * w + x] as u32;
            sum -= src[hi * w + x] as u32;
        }
        proof {
            assert forall|i: int|
                0 <= i < w * h && i % (w as int) < x + 1 implies dst@[i] == blur_v_cell(
                    src@,
                    w as int,
                    h as int,
                    i,
                ) by {
                lemma_index_in_area(i, w as int, h as int);
            }
            assert forall|i: int|
                0 <= i < dst@.len() && !(i < w * h && i % (w as int) < x + 1) implies dst@[i]
                == old(dst)@[i] by {
                if i < w * h {
                    lemma_index_in_area(i, w as int, h as int);
                }
            }
        }
    }
    proof {
        assert forall|i: int| 0 <= i < w * h implies dst@[i] == blur_v_cell(
            src@,
            w as int,
            h as int,
            i,
        ) by {
            lemma_index_in_area(i, w as int, h as int);
        }
    }
}

/// A horizontal blur stays within the range of the row it reads: if every
/// cell of the row holding cell `i` lies in `[lo, hi]`, so does the blurred
/// cell. A uniform row therefore comes out unchanged.
pub proof fn lemma_blur_h_within(src: Seq<u16>, w: int, i: int, lo: int, hi: int)
    requires
        0 < w,
        0 <= i,
        i - i % w + w <= src.len(),
        forall|k: int| 0 <= k < w ==> lo <= #[trigger] src[i - i % w + k] <= hi,
    ensures
        lo <= blur_h_cell(src, w, i) <= hi,
{
    let start = i - i % w;
    let x = i % w;
    assert forall|k: int| -3 <= k <= 3 implies lo <= #[trigger] row_tap(src, w, start, x, k) <= hi by {
        let c = clamp_index(x + k, w);
        assert(lo <= src[start + c] <= hi);
    }
    assert(row_tap(src, w, start, x, -3) >= lo);
    assert(row_tap(src, w, start, x, -2) >= lo);
    assert(row_tap(src, w, start, x, -1) >= lo);
    assert(row_tap(src, w, start, x, 0) >= lo);
    assert(row_tap(src, w, start, x, 1) >= lo);
    assert(row_tap(src, w, start, x, 2) >= lo);
    assert(row_tap(src, w, start, x, 3) >= lo);
}

/// A vertical blur stays within the range of the column it reads: if every
/// cell of the column holding cell `i` lies in `[lo, hi]`, so does the
/// blurred cell. A uniform column therefore comes out unchanged.
pub proof fn lemma_blur_v_within(src: Seq<u16>, w: int, h: int, i: int, lo: int, hi: int)
    requires
        0 < w,
        0 <= i < w * h,
        w * h <= src.len(),
        forall|r: int| 0 <= r < h ==> lo <= #[trigger] src[r * w + i % w] <= hi,
    ensures
        lo <= blur_v_cell(src, w, h, i) <= hi,
{
    lemma_index_in_area(i, w, h);
    let y = i / w;
    let x = i % w;
    assert forall|k: int| -3 <= k <= 3 implies lo <= #[trigger] col_tap(src, w, h, y, x, k) <= hi by {
        let c = clamp_index(y + k, h);
        assert(lo <= src[c * w + x] <= hi);
    }
    assert(col_tap(src, w, h, y, x, -3) >= lo);
    assert(col_tap(src, w, h, y, x, -2) >= lo);
    assert(col_tap(src, w, h, y, x, -1) >= lo);
    assert(col_tap(src, w, h, y, x, 0) >= lo);
    assert(col_tap(src, w, h, y, x, 1) >= lo);
    assert(col_tap(src, w, h, y, x, 2) >= lo);
    assert(col_tap(src, w, h, y, x, 3) >= lo);
}

/// The horizontal pass over a whole `w` by `h` buffer.
pub open spec fn blurred_h(src: Seq<u16>, w: int, h: int) -> Seq<u16> {
    Seq::new((w * h) as nat, |i: int| blur_h_cell(src, w, i))
}

/// The vertical pass over a whole `w` by `h` buffer.
pub open spec fn blurred_v(src: Seq<u16>, w: int, h: int) -> Seq<u16> {
    Seq::new((w * h) as nat, |i: int| blur_v_cell(src, w, h, i))
}

/// One box-blur iteration: the horizontal pass, then the vertical pass.
pub open spec fn box_blur(src: Seq<u16>, w: int, h: int) -> Seq<u16> {
    blurred_v(blurred_h(src, w, h), w, h)
}

/// Heat above the bloom threshold `0xA000`, or nothing.
pub open spec fn bright(v: u16) -> int {
    if v > 0xA000 {
        v - 0xA000
    } else {
        0
    }
}

/// Bloom cell `(by, bx)`: the mean over the matching 2x2 block of the
/// display field of the heat above the threshold.
pub open spec fn bright_cell(disp: Seq<u16>, by: int, bx: int) -> int {
    let i = by * 2 * W + bx * 2;
    (bright(disp[i]) + bright(disp[i + 1]) + bright(disp[i + W]) + bright(disp[i + W + 1])) / 4
}

/// Bright-pass and 2x2 downsample of the display field into the bloom buffer.
pub fn bright_pass(disp: &[u16], bloom: &mut [u16])
    requires
        disp@.len() == W * H,
        old(bloom)@.len() == BW * BH,
    ensures
        final(bloom)@.len() == BW * BH,
        forall|by: int, bx: int|
            0 <= by < BH && 0 <= bx < BW ==> #[trigger] final(bloom)@[by * BW + bx] as int
                == bright_cell(disp@, by, bx),
{
    for by in 0..BH
        invariant
            disp@.len() == W * H,
            bloom@.len() == BW * BH,
            forall|yy: int, xx: int|
                0 <= yy < by && 0 <= xx < BW ==> #[trigger] bloom@[yy * BW + xx] as int
                    == bright_cell(disp@, yy, xx),
    {
        for bx in 0..BW
            invariant
                disp@.len() == W * H,
                bloom@.len() == BW * BH,
                by < BH,
                forall|yy: int, xx: int|
                    (0 <= yy < by && 0 <= xx < BW) || (yy == by && 0 <= xx < bx) ==> #[trigger] bloom@[yy
                        * BW + xx] as int == bright_cell(disp@, yy, xx),
        {
            let i = by * 2 * W + bx * 2;
            let s = disp[i].saturating_sub(0xA000) as u32 + disp[i + 1].saturating_sub(0xA000) as u32
                + disp[i + W].saturating_sub(0xA000) as u32 + disp[i + W + 1].saturating_sub(
                0xA000,
            ) as u32;
            proof {
                lemma_u32_shr(s);
            }
            bloom[by * BW + bx] = (s >> 2) as u16;
        }
    }
}

/// Two box-blur iterations over the bloom buffer, `btmp` holding the
/// horizontal passes (together close to a gaussian of radius ~2.4 cells).
pub fn soften(bloom: &mut [u16], btmp: &mut [u16])
    requires
        old(bloom)@.len() == BW * BH,
        old(btmp)@.len() == BW * BH,
    ensures
        final(bloom)@ == box_blur(box_blur(old(bloom)@, BW as int, BH as int), BW as int, BH as int),
        final(btmp)@ == blurred_h(box_blur(old(bloom)@, BW as int, BH as int), BW as int, BH as int),
{
    let ghost start = bloom@;
    for pass in 0..2
        invariant
            bloom@.len() == BW * BH,
            btmp@.len() == BW * BH,
            pass == 0 ==> bloom@ == start,
            pass == 1 ==> bloom@ == box_blur(start, BW as int, BH as int),
            pass == 2 ==> bloom@ == box_blur(box_blur(start, BW as int, BH as int), BW as int, BH as int),
            pass == 2 ==> btmp@ == blurred_h(box_blur(start, BW as int, BH as int), BW as int, BH as int),
    {
        let ghost before = bloom@;
        blur_h(bloom, btmp, BW, BH);
        assert(btmp@ =~= blurred_h(before, BW as int, BH as int));
        blur_v(btmp, bloom, BW, BH);
        assert(bloom@ =~= box_blur(before, BW as int, BH as int));
    }
}

} // verus!
