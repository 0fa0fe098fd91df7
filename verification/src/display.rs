//! From heat field to screen: a 3x bilinear upscale of the heat itself,
//! then an ordered dither, the palette lookup and the additive bloom glow.

use vstd::prelude::*;
use crate::bits::{lemma_u32_mask, lemma_u32_shr, lemma_usize_bits};
use crate::grid::clamp_index;
use crate::{BH, BW, H, OH, OW, SCALE, W};
use crate::color::{add_glow, blue, glow_pixel, green, red};

verus! {

/// Bilinear weights (/256) of the three output columns or rows that one cell spans.
pub const W3: [u32; 3] = [0, 85, 171];

/// The weight `W3[k]`.
pub open spec fn w3(k: int) -> int {
    if k == 0 {
        0
    } else if k == 1 {
        85
    } else {
        171
    }
}

/// `a * (256 - t) + b * t` stays within 256 times the larger of `a` and `b`.
proof fn lemma_lerp_bound(a: int, b: int, t: int, m: int)
    by (nonlinear_arith)
    requires
        0 <= a <= m,
        0 <= b <= m,
        0 <= t <= 256,
    ensures
        0 <= a * (256 - t) + b * t <= m * 256,
{
}

/// Output pixel `ox` of row `y` of the horizontal stretch: the heat of
/// cell `ox / 3` blended towards its right neighbour (clamped) by `W3[ox % 3] / 256`.
pub open spec fn stretched(disp: Seq<u16>, y: int, ox: int) -> int {
    let sx = ox / 3;
    let t = w3(ox % 3);
    (disp[y * W + sx] as int * (256 - t) + disp[y * W + clamp_index(sx + 1, W as int)] as int * t)
        / 256
}

/// Horizontal pass of the upscale: every row of the heat field stretched
/// threefold into `hstretch`.
pub fn stretch_rows(disp: &[u16], hstretch: &mut [u16])
    requires
        disp@.len() == W * H,
        old(hstretch)@.len() == OW * H,
    ensures
        final(hstretch)@.len() == OW * H,
        forall|y: int, ox: int|
            0 <= y < H && 0 <= ox < OW ==> #[trigger] final(hstretch)@[y * OW + ox] as int
                == stretched(disp@, y, ox),
{
    for y in 0..H
        invariant
            disp@.len() == W * H,
            hstretch@.len() == OW * H,
            forall|yy: int, xx: int|
                0 <= yy < y && 0 <= xx < OW ==> #[trigger] hstretch@[yy * OW + xx] as int
                    == stretched(disp@, yy, xx),
    {
        let srow = y * W;
        let drow = y * OW;
        for ox in 0..OW
            invariant
                disp@.len() == W * H,
                hstretch@.len() == OW * H,
                y < H,
                srow == y * W,
                drow == y * OW,
                forall|yy: int, xx: int|
                    (0 <= yy < y && 0 <= xx < OW) || (yy == y && 0 <= xx < ox) ==> #[trigger] hstretch@[yy
                        * OW + xx] as int == stretched(disp@, yy, xx),
        {
            let sx = ox / 3;
            let wx = W3[ox % 3];
            assert(wx == w3(ox as int % 3));
            let a = disp[srow + sx] as u32;
            let b = disp[srow + (sx + 1).min(W - 1)] as u32;
            proof {
                lemma_lerp_bound(a as int, b as int, wx as int, 65535);
                lemma_u32_shr((a * (256 - wx) + b * wx) as u32);
            }
            hstretch[drow + ox] = ((a * (256 - wx) + b * wx) >> 8) as u16;
        }
    }
}

/// The stretch hits the heat field exactly on every third column.
pub proof fn lemma_stretch_exact(disp: Seq<u16>, y: int, sx: int)
    requires
        disp.len() == W * H,
        0 <= y < H,
        0 <= sx < W,
    ensures
        stretched(disp, y, 3 * sx) == disp[y * W + sx],
{
    assert((3 * sx) / 3 == sx);
    assert((3 * sx) % 3 == 0);
    let a = disp[y * W + sx] as int;
    let b = disp[y * W + clamp_index(sx + 1, W as int)] as int;
    assert(a * (256 - 0) + b * 0 == a * 256) by (nonlinear_arith);
    assert((a * 256) / 256 == a);
}

/// Bilinear weights (/256) of the six output columns or rows that one bloom cell spans.
pub const W6: [u32; 6] = [0, 43, 85, 128, 171, 213];

/// 4x4 ordered-dither matrix.
pub const BAYER: [i32; 16] = [0, 8, 2, 10, 12, 4, 14, 6, 3, 11, 1, 9, 15, 7, 13, 5];

/// The heat at output pixel `(oy, ox)`: the stretched rows `oy / 3` and the
/// next one (clamped) blended by `W3[oy % 3] / 256`.
pub open spec fn upscaled(hs: Seq<u16>, oy: int, ox: int) -> int {
    let t = w3(oy % 3);
    let r0 = (oy / 3) * OW;
    let r1 = clamp_index(oy / 3 + 1, H as int) * OW;
    (hs[r0 + ox] as int * (256 - t) + hs[r1 + ox] as int * t) / 256
}

/// Ordered-dither offset of pixel `(oy, ox)`: a Bayer entry scaled to
/// `[-120, 120]` heat units, its position in the matrix XORed with the low
/// four bits of the frame number so the pattern rotates over time.
pub open spec fn dither(oy: int, ox: int, frame: u32) -> int {
    let cell = (((oy % 4) * 4 + ox % 4) as usize) ^ ((frame % 16) as usize);
    BAYER@[cell as int] * 16 - 120
}

/// The palette entry for heat `h` dithered by `d`: `h + d` clamped to the palette.
pub open spec fn palette_index(h: int, d: int) -> int {
    if h + d < 0 {
        0
    } else if h + d > 65535 {
        65535
    } else {
        h + d
    }
}

/// Strength of the bloom glow at pixel `(oy, ox)`: the half-resolution
/// bloom buffer upscaled sixfold bilinearly, scaled down by `2^23 / 256`
/// and capped at 80.
pub open spec fn glow(bloom: Seq<u16>, oy: int, ox: int) -> int {
    let wby = W6@[oy % 6] as int;
    let b0 = (oy / 6) * BW;
    let b1 = clamp_index(oy / 6 + 1, BH as int) * BW;
    let bx = ox / 6;
    let bx1 = clamp_index(bx + 1, BW as int);
    let wbx = W6@[(ox % 6) as int] as int;
    let top = bloom[b0 + bx] as int * (256 - wbx) + bloom[b0 + bx1] as int * wbx;
    let bot = bloom[b1 + bx] as int * (256 - wbx) + bloom[b1 + bx1] as int * wbx;
    let g = (top * (256 - wby) + bot * wby) / 8388608;
    if g < 80 {
        g
    } else {
        80
    }
}

/// Screen pixel `(oy, ox)`: the palette colour of the dithered, upscaled
/// heat, brightened by the bloom glow.
pub open spec fn screen_pixel(
    hs: Seq<u16>,
    bloom: Seq<u16>,
    palette: Seq<u32>,
    frame: u32,
    oy: int,
    ox: int,
) -> int {
    glow_pixel(
        palette[palette_index(upscaled(hs, oy, ox), dither(oy, ox, frame))],
        glow(bloom, oy, ox),
    )
}

proof fn lemma_dither_bits(oy: usize, ox: usize, f: usize)
    by (bit_vector)
    requires
        f < 16,
    ensures
        ((oy & 3) << 2) | (ox & 3) == (oy % 4) * 4 + ox % 4,
        (((oy & 3) << 2) | (ox & 3)) ^ f < 16,
{
}

/// The glow strength for pixel column `ox` of a screen row whose bloom rows
/// start at `b0` and `b1` and blend by `wby`.
fn glow_at(bloom: &[u16], b0: usize, b1: usize, wby: u32, ox: usize) -> (g: u32)
    requires
        bloom@.len() == BW * BH,
        b0 % BW == 0,
        b1 % BW == 0,
        b0 < BW * BH,
        b1 < BW * BH,
        wby <= 256,
        ox < OW,
    ensures
        g <= 80,
        ({
            let bx = ox / 6;
            let bx1 = clamp_index(bx + 1, BW as int);
            let wbx = W6@[(ox % 6) as int] as int;
            let top = bloom@[b0 + bx] as int * (256 - wbx) + bloom@[b0 + bx1] as int * wbx;
            let bot = bloom@[b1 + bx] as int * (256 - wbx) + bloom@[b1 + bx1] as int * wbx;
            let v = (top * (256 - wby) + bot * wby) / 8388608;
            g == if v < 80 {
                v
            } else {
                80
            }
        }),
{
    let bx = ox / (2 * SCALE);
    let bx1 = (bx + 1).min(BW - 1);
    let wbx = W6[ox % (2 * SCALE)];
    let p = bloom[b0 + bx] as u32;
    let q = bloom[b0 + bx1] as u32;
    let u = bloom[b1 + bx] as u32;
    let v = bloom[b1 + bx1] as u32;
    proof {
        lemma_lerp_bound(p as int, q as int, wbx as int, 65535);
        lemma_lerp_bound(u as int, v as int, wbx as int, 65535);
    }
    let top = p * (256 - wbx) + q * wbx;
    let bot = u * (256 - wbx) + v * wbx;
    proof {
        lemma_lerp_bound(top as int, bot as int, wby as int, 65535int * 256);
        lemma_u32_shr((top * (256 - wby) + bot * wby) as u32);
    }
    ((top * (256 - wby) + bot * wby) >> 23).min(80)
}

/// Offsets and weights shared by every pixel of screen row `oy`.
struct RowSetup {
    wy: u32,
    r0: usize,
    r1: usize,
    wby: u32,
    b0: usize,
    b1: usize,
}

impl RowSetup {
    /// The setup that screen row `oy` needs.
    spec fn fits(&self, oy: int) -> bool {
        &&& self.wy as int == w3(oy % 3)
        &&& self.r0 as int == (oy / 3) * OW
        &&& self.r1 as int == clamp_index(oy / 3 + 1, H as int) * OW
        &&& self.wby == W6@[oy % 6]
        &&& self.b0 as int == (oy / 6) * BW
        &&& self.b1 as int == clamp_index(oy / 6 + 1, BH as int) * BW
    }
}

/// The offsets and weights of screen row `oy`: the two stretched rows it
/// blends and their weight, and the two bloom rows and theirs.
fn row_setup(oy: usize) -> (s: RowSetup)
    requires
        oy < OH,
    ensures
        s.fits(oy as int),
{
    RowSetup {
        wy: W3[oy % SCALE],
        r0: oy / SCALE * OW,
        r1: (oy / SCALE + 1).min(H - 1) * OW,
        wby: W6[oy % (2 * SCALE)],
        b0: oy / (2 * SCALE) * BW,
        b1: (oy / (2 * SCALE) + 1).min(BH - 1) * BW,
    }
}

/// The screen colour of pixel `(oy, ox)`, given its row's setup.
fn shade(
    hstretch: &[u16],
    bloom: &[u16],
    palette: &[u32],
    frame: u32,
    row: &RowSetup,
    oy: usize,
    ox: usize,
) -> (c: u32)
    requires
        hstretch@.len() == OW * H,
        bloom@.len() == BW * BH,
        palette@.len() >= 65536,
        oy < OH,
        ox < OW,
        row.fits(oy as int),
    ensures
        c as int == screen_pixel(hstretch@, bloom@, palette@, frame, oy as int, ox as int),
{
    let wy = row.wy;
    let a = hstretch[row.r0 + ox] as u32;
    let b = hstretch[row.r1 + ox] as u32;
    proof {
        lemma_lerp_bound(a as int, b as int, wy as int, 65535);
        lemma_u32_shr((a * (256 - wy) + b * wy) as u32);
    }
    let h = (a * (256 - wy) + b * wy) >> 8;
    assert(h as int == upscaled(hstretch@, oy as int, ox as int));
    let fxor = (frame & 15) as usize;
    proof {
        lemma_u32_mask(frame);
        lemma_dither_bits(oy, ox, fxor);
    }
    let d = BAYER[(((oy & 3) << 2) | (ox & 3)) ^ fxor] * 16 - 120;
    assert(d as int == dither(oy as int, ox as int, frame));
    let c = palette[(h as i32 + d).max(0).min(65535) as usize];
    let g = glow_at(bloom, row.b0, row.b1, row.wby, ox);
    assert(g as int == glow(bloom@, oy as int, ox as int));
    add_glow(c, g)
}

/// The fused vertical pass: each screen pixel takes the stretched heat
/// blended between two rows, adds an ordered dither of +-120 heat units that
/// rotates with the frame, looks the result up in the palette and adds the
/// warm bloom glow.
pub fn compose(
    hstretch: &[u16],
    bloom: &[u16],
    palette: &[u32],
    frame: u32,
    screen: &mut [u32],
)
    requires
        hstretch@.len() == OW * H,
        bloom@.len() == BW * BH,
        palette@.len() >= 65536,
        old(screen)@.len() == OW * OH,
    ensures
        final(screen)@.len() == OW * OH,
        forall|oy: int, ox: int|
            0 <= oy < OH && 0 <= ox < OW ==> #[trigger] final(screen)@[oy * OW + ox] as int
                == screen_pixel(hstretch@, bloom@, palette@, frame, oy, ox),
{
    for oy in 0..OH
        invariant
            hstretch@.len() == OW * H,
            bloom@.len() == BW * BH,
            palette@.len() >= 65536,
            screen@.len() == OW * OH,
            forall|yy: int, xx: int|
                0 <= yy < oy && 0 <= xx < OW ==> #[trigger] screen@[yy * OW + xx] as int
                    == screen_pixel(hstretch@, bloom@, palette@, frame, yy, xx),
    {
        let row = row_setup(oy);
        let drow = oy * OW;
        for ox in 0..OW
            invariant
                hstretch@.len() == OW * H,
                bloom@.len() == BW * BH,
                palette@.len() >= 65536,
                screen@.len() == OW * OH,
                oy < OH,
                row.fits(oy as int),
                drow == oy * OW,
                forall|yy: int, xx: int|
                    (0 <= yy < oy && 0 <= xx < OW) || (yy == oy && 0 <= xx < ox) ==> #[trigger] screen@[yy
                        * OW + xx] as int == screen_pixel(hstretch@, bloom@, palette@, frame, yy, xx),
        {
            screen[drow + ox] = shade(hstretch, bloom, palette, frame, &row, oy, ox);
        }
    }
}

/// The dither never moves the heat by more than 120 units either way.
pub proof fn lemma_dither_range(oy: int, ox: int, frame: u32)
    requires
        0 <= oy,
        0 <= ox,
    ensures
        -120 <= dither(oy, ox, frame) <= 120,
{
    let a = ((oy % 4) * 4 + ox % 4) as usize;
    let f = (frame % 16) as usize;
    assert(a ^ f < 16) by (bit_vector)
        requires
            a < 16,
            f < 16,
    ;
}

/// The vertical blend hits the stretched rows exactly on every third screen row.
pub proof fn lemma_upscale_exact(hs: Seq<u16>, y: int, ox: int)
    requires
        hs.len() == OW * H,
        0 <= y < H,
        0 <= ox < OW,
    ensures
        upscaled(hs, 3 * y, ox) == hs[y * OW + ox],
{
    assert((3 * y) / 3 == y);
    assert((3 * y) % 3 == 0);
    let a = hs[y * OW + ox] as int;
    let b = hs[clamp_index(y + 1, H as int) * OW + ox] as int;
    assert(a * (256 - 0) + b * 0 == a * 256) by (nonlinear_arith);
}

/// The frame number only moves the dither: with a palette that gives the
/// same colour for every heat, every frame draws the same screen, glow
/// included.
pub proof fn lemma_frame_only_dithers(
    hs: Seq<u16>,
    bloom: Seq<u16>,
    palette: Seq<u32>,
    f1: u32,
    f2: u32,
    oy: int,
    ox: int,
)
    requires
        palette.len() >= 65536,
        forall|i: int| 0 <= i < palette.len() ==> #[trigger] palette[i] == palette[0],
    ensures
        screen_pixel(hs, bloom, palette, f1, oy, ox) == screen_pixel(hs, bloom, palette, f2, oy, ox),
{
    let i1 = palette_index(upscaled(hs, oy, ox), dither(oy, ox, f1));
    let i2 = palette_index(upscaled(hs, oy, ox), dither(oy, ox, f2));
    assert(palette[i1] == palette[0]);
    assert(palette[i2] == palette[0]);
}

/// Under a uniform bloom buffer of level `b` and a black palette, every
/// screen pixel, on every frame, is the warm glow of strength
/// `g = min(b / 128, 80)`: red `g`, green `g * 190 / 256`, blue `g * 110 / 256`.
pub proof fn lemma_uniform_bloom_glow(
    hs: Seq<u16>,
    bloom: Seq<u16>,
    palette: Seq<u32>,
    b: u16,
    frame: u32,
    oy: int,
    ox: int,
)
    requires
        hs.len() == OW * H,
        bloom.len() == BW * BH,
        palette.len() >= 65536,
        forall|i: int| 0 <= i < palette.len() ==> #[trigger] palette[i] == 0,
        forall|i: int| 0 <= i < bloom.len() ==> #[trigger] bloom[i] == b,
        0 <= oy < OH,
        0 <= ox < OW,
    ensures
        screen_pixel(hs, bloom, palette, frame, oy, ox) == ({
            let g = if b / 128 < 80 {
                b / 128
            } else {
                80
            };
            g * 65536 + (g * 190 / 256) * 256 + g * 110 / 256
        }),
{
    let wby = W6@[oy % 6] as int;
    let b0 = (oy / 6) * BW;
    let b1 = clamp_index(oy / 6 + 1, BH as int) * BW;
    let bx = ox / 6;
    let bx1 = clamp_index(bx + 1, BW as int);
    let wbx = W6@[ox % 6] as int;
    assert(bloom[b0 + bx] == b);
    assert(bloom[b0 + bx1] == b);
    assert(bloom[b1 + bx] == b);
    assert(bloom[b1 + bx1] == b);
    let bb = b as int;
    assert(bb * (256 - wbx) + bb * wbx == 256 * bb) by (nonlinear_arith);
    assert((256 * bb) * (256 - wby) + (256 * bb) * wby == 65536 * bb) by (nonlinear_arith);
    assert(glow(bloom, oy, ox) == if bb / 128 < 80 { bb / 128 } else { 80 });
    let i = palette_index(upscaled(hs, oy, ox), dither(oy, ox, frame));
    assert(palette[i] == 0);
    let c = 0u32;
    assert(red(c) == 0 && green(c) == 0 && blue(c) == 0);
}

/// Without bloom, every screen pixel is the palette entry of its heat: the
/// stretched rows `oy / 3` and `min(oy / 3 + 1, H - 1)` blended by
/// `W3[oy % 3] / 256`, moved by the Bayer entry at
/// `((oy % 4) * 4 + ox % 4) XOR (frame % 16)` times 16, less 120, and
/// clamped to `[0, 65535]`.
pub proof fn lemma_pixel_without_bloom(
    hs: Seq<u16>,
    bloom: Seq<u16>,
    palette: Seq<u32>,
    frame: u32,
    oy: int,
    ox: int,
)
    requires
        hs.len() == OW * H,
        bloom.len() == BW * BH,
        palette.len() >= 65536,
        forall|i: int| 0 <= i < bloom.len() ==> #[trigger] bloom[i] == 0,
        0 <= oy < OH,
        0 <= ox < OW,
    ensures
        screen_pixel(hs, bloom, palette, frame, oy, ox) == ({
            let t = W3@[oy % 3] as int;
            let next = if oy / 3 + 1 < H {
                oy / 3 + 1
            } else {
                H - 1
            };
            let heat = (hs[(oy / 3) * OW + ox] as int * (256 - t) + hs[next * OW + ox] as int * t)
                / 256;
            let cell = (((oy % 4) * 4 + ox % 4) as usize) ^ ((frame % 16) as usize);
            let idx = heat + BAYER@[cell as int] * 16 - 120;
            palette[if idx < 0 {
                0
            } else if idx > 65535 {
                65535
            } else {
                idx
            }] as int
        }),
{
    let wby = W6@[oy % 6] as int;
    let b0 = (oy / 6) * BW;
    let b1 = clamp_index(oy / 6 + 1, BH as int) * BW;
    let bx = ox / 6;
    let bx1 = clamp_index(bx + 1, BW as int);
    assert(bloom[b0 + bx] == 0);
    assert(bloom[b0 + bx1] == 0);
    assert(bloom[b1 + bx] == 0);
    assert(bloom[b1 + bx1] == 0);
    let wbx = W6@[ox % 6] as int;
    assert(0 * (256 - wbx) + 0 * wbx == 0);
    assert(0 * (256 - wby) + 0 * wby == 0);
    assert(glow(bloom, oy, ox) == 0);
    assert(W3@[oy % 3] as int == w3(oy % 3));
}

} // verus!
