//! The heat field: a noisy bed of coals along the bottom rows, a bottom-up
//! cascade that carries heat upwards while cooling it, and the display copy
//! that eases towards the simulation.

use vstd::prelude::*;
use crate::bits::{lemma_i32_shr, lemma_u32_mask, lemma_u32_shr, lemma_usize_bits};
use crate::grid::clamp_index;
use vstd::arithmetic::div_mod::lemma_mod_add_multiples_vanish;
use crate::rng::{Rng, lcg_draw, lcg_iter};
use crate::{H, NOISE, W};

verus! {

/// Scroll offsets of the two noise reads and the frame counter. The offsets
/// are 24.8 fixed point: the noise tile moves by `offset / 256` cells.
pub struct Scroll {
    pub frame: u32,
    pub cool_y_fp: u32,
    pub cool_x_fp: i32,
    pub src_y_fp: u32,
    pub src_x_fp: i32,
}

impl Scroll {
    /// Everything at rest: frame 0, no offset.
    pub fn new() -> (s: Scroll)
        ensures
            s.frame == 0,
            s.cool_y_fp == 0,
            s.cool_x_fp == 0,
            s.src_y_fp == 0,
            s.src_x_fp == 0,
    {
        Scroll { frame: 0, cool_y_fp: 0, cool_x_fp: 0, src_y_fp: 0, src_x_fp: 0 }
    }

    /// One frame on: the counter ticks, the cooling map rises 300/256 cells
    /// and drifts sideways by the wind (`cool_wind`, in 1/256 cells) plus a
    /// slow drift of 13/256 cells, the source rises 170/256 cells and moves
    /// sideways by `src_wind`. Everything wraps.
    pub fn advance(&mut self, cool_wind: i32, src_wind: i32)
        requires
            cool_wind >= i32::MIN + 13,
        ensures
            final(self).frame == old(self).frame.wrapping_add(1),
            final(self).cool_x_fp == old(self).cool_x_fp.wrapping_sub((cool_wind - 13) as i32),
            final(self).src_x_fp == old(self).src_x_fp.wrapping_sub(src_wind),
            final(self).src_y_fp == old(self).src_y_fp.wrapping_add(170),
            final(self).cool_y_fp == old(self).cool_y_fp.wrapping_add(300),
    {
        self.frame = self.frame.wrapping_add(1);
        self.cool_x_fp = self.cool_x_fp.wrapping_sub(cool_wind - 13);
        self.src_x_fp = self.src_x_fp.wrapping_sub(src_wind);
        self.src_y_fp = self.src_y_fp.wrapping_add(170);
        self.cool_y_fp = self.cool_y_fp.wrapping_add(300);
    }
}

/// Start of row `r` of the noise tile, the tile repeating vertically.
pub open spec fn tile_row(r: int) -> int {
    (r % 256) * 256
}

/// The noise texel in row `r`, column `c`, the tile repeating both ways.
pub open spec fn texel(noise: Seq<u8>, r: int, c: int) -> int {
    noise[tile_row(r) + c % 256] as int
}

/// A 24.8 fixed-point horizontal offset reduced to a column of the tile.
pub open spec fn tile_column(fp: i32) -> int {
    (fp as int / 256) % 256
}

/// `v` modulo the tile side, in `[0, NOISE)`.
fn tile_wrap(v: i32) -> (r: usize)
    ensures
        r as int == v as int % 256,
        r < NOISE,
{
    match v.checked_rem_euclid(NOISE as i32) {
        Some(m) => m as usize,
        None => 0,
    }
}

/// Heat of one bed cell before smoothing, from the base noise `n`, the coal
/// noise `c` and the random draw `r`: a base level raised by the noise and
/// capped below the white-hot zone, scaled by the coal pattern, lowered by a
/// fine flicker, halved in the darkest noise (ember dips) and halved again
/// for one draw in 64 (sparkle holes).
pub open spec fn bed_heat(n: int, c: int, r: int) -> int {
    let raised = 42000 + n * 23535 / 256;
    let capped = if raised < 63500 {
        raised
    } else {
        63500
    };
    let coaled = capped * (224 + c * 31 / 256) / 256;
    let flickered = coaled - (r / 8192) % 1024;
    let dipped = if n < 24 {
        flickered / 2
    } else {
        flickered
    };
    if (r / 67108864) % 64 == 0 {
        dipped / 2
    } else {
        dipped
    }
}

/// Bed column `x` for a frame whose generator starts in state `s`: the base
/// noise comes from a scrolling row of the tile, the coal noise from a
/// slower-scrolling row read five times faster along it, and column `x`
/// uses draw number `x`.
pub open spec fn bed_column(noise: Seq<u8>, s: u64, src_y_fp: u32, src_x_fp: i32, x: int) -> int {
    bed_heat(
        texel(noise, src_y_fp as int / 256, x + tile_column(src_x_fp)),
        texel(noise, src_y_fp as int / 1024 + 97, x * 5 + 31),
        lcg_draw(s, x as nat) as int,
    )
}

/// The bed after horizontal smoothing with weights `[1, 2, 1] / 4`, ends clamped.
#[verifier::opaque]
pub open spec fn bed_smoothed(noise: Seq<u8>, s: u64, src_y_fp: u32, src_x_fp: i32, x: int) -> int {
    (bed_column(noise, s, src_y_fp, src_x_fp, clamp_index(x - 1, W as int)) + 2 * bed_column(
        noise,
        s,
        src_y_fp,
        src_x_fp,
        x,
    ) + bed_column(noise, s, src_y_fp, src_x_fp, clamp_index(x + 1, W as int))) / 4
}

/// Every bed cell stays between the dips and the cap.
proof fn lemma_bed_heat_range(n: int, c: int, r: int)
    requires
        0 <= n < 256,
        0 <= c < 256,
        0 <= r,
    ensures
        8000 <= bed_heat(n, c, r) <= 63500,
{
    let raised = 42000 + n * 23535 / 256;
    let capped = if raised < 63500 {
        raised
    } else {
        63500
    };
    let f = 224 + c * 31 / 256;
    assert(224 <= f <= 254);
    assert(42000 * 224 <= capped * f <= 63500 * 254) by (nonlinear_arith)
        requires
            42000 <= capped <= 63500,
            224 <= f <= 254,
    ;
}

/// Heat source: a bed along the bottom three rows that surges and subsides.
/// A scrolling slice of the noise tile gives bright regions and dim lulls
/// that travel along the base, a second noise read adds coal structure, and
/// the bed is smoothed horizontally before it is laid down. Uses `W` draws.
pub fn feed_bed(sim: &mut [u16], rng: &mut Rng, noise: &[u8], src_y_fp: u32, src_x_fp: i32)
    requires
        old(sim)@.len() == W * H,
        noise@.len() >= NOISE * NOISE,
    ensures
        final(sim)@.len() == W * H,
        forall|i: int| 0 <= i < (H - 3) * W ==> final(sim)@[i] == old(sim)@[i],
        forall|r: int, x: int|
            H - 3 <= r < H && 0 <= x < W ==> #[trigger] final(sim)@[r * W + x] as int
                == bed_smoothed(noise@, old(rng).0, src_y_fp, src_x_fp, x),
        forall|r: int, x: int|
            H - 3 <= r < H && 0 <= x < W ==> #[trigger] final(sim)@[r * W + x] <= 63500,
        final(rng).0 == lcg_iter(old(rng).0, W as nat),
{
    let ghost s0 = rng.0;
    proof {
        lemma_u32_shr(src_y_fp);
        lemma_i32_shr(src_x_fp);
    }
    let base_y = (src_y_fp >> 8) as usize;
    let coal_y = ((src_y_fp >> 10) as usize).wrapping_add(97);
    proof {
        lemma_usize_bits(base_y);
        lemma_usize_bits(coal_y);
        lemma_usize_bits(base_y & ((NOISE - 1) as usize));
        lemma_usize_bits(coal_y & ((NOISE - 1) as usize));
    }
    let src_row = (base_y & (NOISE - 1)) << 8;
    let coal_row = (coal_y & (NOISE - 1)) << 8;
    let src_x = tile_wrap(src_x_fp >> 8);
    assert(src_row == tile_row(src_y_fp as int / 256));
    assert(coal_row == tile_row(src_y_fp as int / 1024 + 97));
    let mut bed: Vec<u32> = Vec::new();
    for x in 0..W
        invariant
            noise@.len() >= NOISE * NOISE,
            src_row == tile_row(src_y_fp as int / 256),
            coal_row == tile_row(src_y_fp as int / 1024 + 97),
            src_x as int == tile_column(src_x_fp),
            src_x < NOISE,
            bed@.len() == x,
            rng.0 == lcg_iter(s0, x as nat),
            forall|k: int|
                0 <= k < x ==> #[trigger] bed@[k] as int == bed_column(
                    noise@,
                    s0,
                    src_y_fp,
                    src_x_fp,
                    k,
                ),
            forall|k: int| 0 <= k < x ==> 8000 <= #[trigger] bed@[k] <= 63500,
    {
        let r = rng.next();
        let col = x + src_x;
        let coal_col = x * 5 + 31;
        proof {
            lemma_usize_bits(col);
            lemma_usize_bits(coal_col);
        }
        let n = noise[src_row + (col & (NOISE - 1))] as u32;
        proof {
            lemma_u32_shr((n * 23535) as u32);
        }
        let mut heat = (42000 + ((n * 23535) >> 8)).min(63500);
        let coal = noise[coal_row + (coal_col & (NOISE - 1))] as u32;
        proof {
            lemma_u32_shr((coal * 31) as u32);
            assert(heat * (224 + coal * 31 / 256) <= 63500 * 254) by (nonlinear_arith)
                requires
                    heat <= 63500,
                    coal * 31 / 256 <= 30,
            ;
            lemma_u32_shr((heat * (224 + (((coal * 31) as u32) >> 8))) as u32);
            lemma_u32_shr(r);
            lemma_u32_mask(r >> 13);
            lemma_u32_mask(r >> 26);
            lemma_bed_heat_range(
                n as int,
                coal as int,
                r as int,
            );
        }
        heat = (heat * (224 + ((coal * 31) >> 8))) >> 8;
        heat -= (r >> 13) & 1023;
        if n < 24 {
            heat /= 2;
        }
        if (r >> 26) & 63 == 0 {
            heat /= 2;
        }
        assert(heat as int == bed_column(noise@, s0, src_y_fp, src_x_fp, x as int));
        bed.push(heat);
    }
    for x in 0..W
        invariant
            sim@.len() == W * H,
            bed@.len() == W,
            forall|k: int|
                0 <= k < W ==> #[trigger] bed@[k] as int == bed_column(
                    noise@,
                    s0,
                    src_y_fp,
                    src_x_fp,
                    k,
                ),
            forall|k: int| 0 <= k < W ==> 8000 <= #[trigger] bed@[k] <= 63500,
            forall|i: int| 0 <= i < (H - 3) * W ==> sim@[i] == old(sim)@[i],
            forall|r: int, k: int|
                H - 3 <= r < H && 0 <= k < x ==> #[trigger] sim@[r * W + k] as int == bed_smoothed(
                    noise@,
                    s0,
                    src_y_fp,
                    src_x_fp,
                    k,
                ) && sim@[r * W + k] <= 63500,
    {
        let left = x.saturating_sub(1);
        let right = (x + 1).min(W - 1);
        let total = bed[left] + 2 * bed[x] + bed[right];
        let heat = total >> 2;
        proof {
            lemma_u32_shr(total);
        }
        assert(heat as int == bed_smoothed(noise@, s0, src_y_fp, src_x_fp, x as int)) by {
            reveal(bed_smoothed);
        }
        for row in H - 3..H
            invariant
                sim@.len() == W * H,
                x < W,
                heat <= 63500,
                heat as int == bed_smoothed(noise@, s0, src_y_fp, src_x_fp, x as int),
                forall|i: int| 0 <= i < (H - 3) * W ==> sim@[i] == old(sim)@[i],
                forall|r: int, k: int|
                    H - 3 <= r < H && 0 <= k < x ==> #[trigger] sim@[r * W + k] as int
                        == bed_smoothed(noise@, s0, src_y_fp, src_x_fp, k) && sim@[r * W + k]
                        <= 63500,
                forall|r: int|
                    H - 3 <= r < row ==> #[trigger] sim@[r * W + x] as int == bed_smoothed(
                        noise@,
                        s0,
                        src_y_fp,
                        src_x_fp,
                        x as int,
                    ) && sim@[r * W + x] <= 63500,
        {
            sim[row * W + x] = heat as u16;
        }
    }
}

/// Which way draw `r` shifts the source column: left when its top five bits
/// fall below `left`, straight up for the next twelve values, right above.
pub open spec fn drift(r: u32, left: int) -> int {
    let v = r as int / 134217728;
    if v < left {
        -1
    } else if v < left + 12 {
        0
    } else {
        1
    }
}

/// `[1, 6, 1] / 8` weighted average of the cells around column `cx` of row
/// `row`, ends clamped.
pub open spec fn kernel(field: Seq<u16>, row: int, cx: int) -> int {
    (field[row * W + clamp_index(cx - 1, W as int)] as int + 6 * field[row * W + cx] as int
        + field[row * W + clamp_index(cx + 1, W as int)] as int) / 8
}

/// Domain warp of a texel: `(n - 128) * 3 / 16` columns, rounded down.
pub open spec fn warp(n: int) -> int {
    (n - 128) * 3 / 16
}

/// The cooling texel for cell `(y, x)`: the cooling map is read with `y`
/// halved (stretching its features vertically), scrolled by `cool_y` rows
/// and `cool_x` columns, and bent sideways by a half-speed second read.
pub open spec fn cooling(noise: Seq<u8>, y: int, x: int, cool_y: int, cool_x: int) -> int {
    let bend = warp(texel(noise, y / 2 + cool_y / 2, x + 191));
    texel(noise, y / 2 + cool_y, x + cool_x + bend)
}

/// How strongly the cooling map bites in row `y`: faded in over the bottom rows.
pub open spec fn gain(y: int) -> int {
    let g = (H - 4 - y) * 8;
    if g < 48 {
        48
    } else if g > 256 {
        256
    } else {
        g
    }
}

/// Amplitude of the per-cell jitter in row `y`: it grows with height.
pub open spec fn jitter(y: int) -> int {
    96 + (H - 4 - y) * 352 / (H - 4)
}

/// Distance of column `x` from the nearer side edge.
pub open spec fn border(x: int) -> int {
    if x < W - 1 - x {
        x
    } else {
        W - 1 - x
    }
}

/// Heat lost by a cell: a base loss, the cooling map, a jitter from the top
/// two bits of the draw, extra extinction for faint heat, and melting next
/// to the side edges.
pub open spec fn decay(src: int, cool: int, r: u32, y: int, x: int) -> int {
    let faint: int = if src < 8192 {
        200
    } else {
        0
    };
    let melt: int = if border(x) < 3 {
        180 - 60 * border(x)
    } else {
        0
    };
    40 + (cool * 600 / 256) * gain(y) / 256 + (r as int / 1073741824) * jitter(y) / 4 + faint
        + melt
}

/// The new heat of cell `(y, x)`: the weighted average of the row below,
/// taken around a column shifted by the drift of draw `r`, less the decay,
/// never below zero.
#[verifier::opaque]
pub open spec fn flame_cell(
    field: Seq<u16>,
    noise: Seq<u8>,
    y: int,
    x: int,
    r: u32,
    left: int,
    cool_y: int,
    cool_x: int,
) -> int {
    let src = kernel(field, y + 1, clamp_index(x + drift(r, left), W as int));
    let d = decay(src, cooling(noise, y, x, cool_y, cool_x), r, y, x);
    if src > d {
        src - d
    } else {
        0
    }
}

/// Index of the draw that cell `(y, x)` uses: rows are cascaded from the
/// one just above the bed upwards, left to right.
pub open spec fn cascade_draw(y: int, x: int) -> int {
    (H - 4 - y) * W + x
}

/// A cell reads only the row below it.
proof fn lemma_flame_cell_frame(
    f1: Seq<u16>,
    f2: Seq<u16>,
    noise: Seq<u8>,
    y: int,
    x: int,
    r: u32,
    left: int,
    cool_y: int,
    cool_x: int,
)
    requires
        0 <= y < H - 3,
        0 <= x < W,
        f1.len() == W * H,
        f2.len() == W * H,
        forall|k: int| 0 <= k < W ==> #[trigger] f1[(y + 1) * W + k] == f2[(y + 1) * W + k],
    ensures
        flame_cell(f1, noise, y, x, r, left, cool_y, cool_x) == flame_cell(
            f2,
            noise,
            y,
            x,
            r,
            left,
            cool_y,
            cool_x,
        ),
{
    reveal(flame_cell);
    let cx = clamp_index(x + drift(r, left), W as int);
    assert(f1[(y + 1) * W + clamp_index(cx - 1, W as int)] == f2[(y + 1) * W + clamp_index(
        cx - 1,
        W as int,
    )]);
    assert(f1[(y + 1) * W + cx] == f2[(y + 1) * W + cx]);
    assert(f1[(y + 1) * W + clamp_index(cx + 1, W as int)] == f2[(y + 1) * W + clamp_index(
        cx + 1,
        W as int,
    )]);
}

/// The column the cell in column `x` draws its heat from: shifted one step
/// left, kept, or shifted one step right, by the drift of draw `r`.
fn source_column(x: usize, r: u32, left: u32) -> (cx: usize)
    requires
        x < W,
        left <= u32::MAX - 12,
    ensures
        cx as int == clamp_index(x + drift(r, left as int), W as int),
        cx < W,
{
    proof {
        lemma_u32_shr(r);
    }
    let v = r >> 27;
    let dir: i32 = if v < left {
        -1
    } else if v < left + 12 {
        0
    } else {
        1
    };
    (x as i32 + dir).max(0).min(W as i32 - 1) as usize
}

/// The `[1, 6, 1] / 8` average of the row below, around column `cx`.
fn below_average(sim: &[u16], y: usize, cx: usize) -> (src: u32)
    requires
        sim@.len() == W * H,
        y < H - 3,
        cx < W,
    ensures
        src as int == kernel(sim@, y + 1, cx as int),
        src <= 65535,
{
    let below = (y + 1) * W;
    let a = sim[below + cx.saturating_sub(1)] as u32;
    let b = sim[below + cx] as u32;
    let c = sim[below + (cx + 1).min(W - 1)] as u32;
    let sum = a + 6 * b + c;
    proof {
        lemma_u32_shr(sum);
    }
    sum >> 3
}

/// The cooling texel of cell `(y, x)`.
fn cooling_texel(noise: &[u8], y: usize, x: usize, cool_y: usize, cool_x: usize) -> (cool: u32)
    requires
        noise@.len() >= NOISE * NOISE,
        y < H - 3,
        x < W,
        cool_y < 0x100_0000,
        cool_x < NOISE,
    ensures
        cool as int == cooling(noise@, y as int, x as int, cool_y as int, cool_x as int),
        cool < 256,
{
    proof {
        lemma_usize_bits(y);
        lemma_usize_bits(cool_y);
    }
    let nrow_y = (y >> 1) + cool_y;
    let wrow_y = (y >> 1) + (cool_y >> 1);
    proof {
        lemma_usize_bits(nrow_y);
        lemma_usize_bits(wrow_y);
        lemma_usize_bits(nrow_y & ((NOISE - 1) as usize));
        lemma_usize_bits(wrow_y & ((NOISE - 1) as usize));
        lemma_usize_bits((x + 191) as usize);
    }
    let nrow = (nrow_y & (NOISE - 1)) << 8;
    let wrow = (wrow_y & (NOISE - 1)) << 8;
    assert(nrow == tile_row(y / 2 + cool_y));
    assert(wrow == tile_row(y / 2 + cool_y / 2));
    let n = noise[wrow + ((x + 191) & (NOISE - 1))];
    assert(n as int == texel(noise@, y / 2 + cool_y / 2, x + 191));
    let t = (n as i32 - 128) * 3;
    proof {
        lemma_i32_shr(t);
    }
    let warp = t >> 4;
    assert(warp as int == self::warp(n as int));
    let wsum = (x + cool_x + NOISE) as i32 + warp;
    proof {
        lemma_usize_bits(wsum as usize);
        lemma_mod_add_multiples_vanish(x + cool_x + warp as int, 256);
    }
    let wx = wsum as usize & (NOISE - 1);
    assert(wx as int == (x + cool_x + warp as int) % 256);
    noise[nrow + wx] as u32
}

/// The heat lost by cell `(y, x)` with average `src` and cooling texel `cool`.
fn cell_decay(src: u32, cool: u32, r: u32, y: usize, x: usize) -> (d: u32)
    requires
        cool < 256,
        y < H - 3,
        x < W,
    ensures
        d as int == decay(src as int, cool as int, r, y as int, x as int),
{
    let gain = ((H - 4 - y) as u32 * 8).max(48).min(256);
    let jamp = 96 + ((H - 4 - y) as u32 * 352) / (H as u32 - 4);
    proof {
        lemma_u32_shr(r);
        lemma_u32_shr((cool * 600) as u32);
        assert(((cool * 600) as u32 >> 8) * gain <= 597 * 256) by (nonlinear_arith)
            requires
                ((cool * 600) as u32 >> 8) <= 597,
                gain <= 256,
        ;
        lemma_u32_shr((((cool * 600) as u32 >> 8) * gain) as u32);
        assert((r >> 30) * jamp <= 3 * 448) by (nonlinear_arith)
            requires
                r >> 30 <= 3,
                jamp <= 448,
        ;
        lemma_u32_shr(((r >> 30) * jamp) as u32);
    }
    let mut decay = 40 + ((((cool * 600) >> 8) * gain) >> 8) + (((r >> 30) * jamp) >> 2);
    if src < 8192 {
        decay += 200;
    }
    let border = x.min(W - 1 - x);
    if border < 3 {
        decay += 180 - 60 * border as u32;
    }
    decay
}

/// One cell of the cascade, from the row below in `sim` and draw `r`.
fn cascade_cell(
    sim: &[u16],
    noise: &[u8],
    y: usize,
    x: usize,
    r: u32,
    left: u32,
    cool_y: usize,
    cool_x: usize,
) -> (heat: u16)
    requires
        sim@.len() == W * H,
        noise@.len() >= NOISE * NOISE,
        y < H - 3,
        x < W,
        left <= u32::MAX - 12,
        cool_y < 0x100_0000,
        cool_x < NOISE,
    ensures
        heat as int == flame_cell(
            sim@,
            noise@,
            y as int,
            x as int,
            r,
            left as int,
            cool_y as int,
            cool_x as int,
        ),
{
    let cx = source_column(x, r, left);
    let src = below_average(sim, y, cx);
    let cool = cooling_texel(noise, y, x, cool_y, cool_x);
    let decay = cell_decay(src, cool, r, y, x);
    proof {
        reveal(flame_cell);
    }
    src.saturating_sub(decay) as u16
}

/// Propagation: an in-place bottom-up cascade over every row above the bed.
/// Each cell pulls a `[1, 6, 1]`-weighted average of the row below through a
/// randomly wind-shifted kernel (`lshift[y]` sets how often it leans left),
/// and loses heat to a smooth scrolling cooling map plus fine jitter. Uses
/// one draw per cell, `(H - 3) * W` in all.
pub fn propagate(
    sim: &mut [u16],
    rng: &mut Rng,
    noise: &[u8],
    lshift: &[u32],
    cool_y_fp: u32,
    cool_x_fp: i32,
)
    requires
        old(sim)@.len() == W * H,
        noise@.len() >= NOISE * NOISE,
        lshift@.len() == H,
        forall|y: int| 0 <= y < H ==> #[trigger] lshift@[y] <= u32::MAX - 12,
    ensures
        final(sim)@.len() == W * H,
        forall|i: int| (H - 3) * W <= i < W * H ==> final(sim)@[i] == old(sim)@[i],
        forall|y: int, x: int|
            0 <= y < H - 3 && 0 <= x < W ==> #[trigger] final(sim)@[y * W + x] as int
                == flame_cell(
                final(sim)@,
                noise@,
                y,
                x,
                lcg_draw(old(rng).0, cascade_draw(y, x) as nat),
                lshift@[y] as int,
                cool_y_fp as int / 256,
                tile_column(cool_x_fp),
            ),
        final(rng).0 == lcg_iter(old(rng).0, ((H - 3) * W) as nat),
{
    let ghost s0 = rng.0;
    proof {
        lemma_u32_shr(cool_y_fp);
        lemma_i32_shr(cool_x_fp);
    }
    let cool_y = (cool_y_fp >> 8) as usize;
    let cool_x = tile_wrap(cool_x_fp >> 8);
    let mut y = H - 3;
    while y > 0
        invariant
            sim@.len() == W * H,
            noise@.len() >= NOISE * NOISE,
            lshift@.len() == H,
            forall|yy: int| 0 <= yy < H ==> #[trigger] lshift@[yy] <= u32::MAX - 12,
            cool_y as int == cool_y_fp as int / 256,
            cool_y < 0x100_0000,
            cool_x as int == tile_column(cool_x_fp),
            cool_x < NOISE,
            y <= H - 3,
            forall|i: int| (H - 3) * W <= i < W * H ==> sim@[i] == old(sim)@[i],
            forall|yy: int, x: int|
                y <= yy < H - 3 && 0 <= x < W ==> #[trigger] sim@[yy * W + x] as int == flame_cell(
                    sim@,
                    noise@,
                    yy,
                    x,
                    lcg_draw(s0, cascade_draw(yy, x) as nat),
                    lshift@[yy] as int,
                    cool_y as int,
                    cool_x as int,
                ),
            rng.0 == lcg_iter(s0, ((H - 3 - y) * W) as nat),
        decreases y,
    {
        y -= 1;
        let left = lshift[y];
        for x in 0..W
            invariant
                sim@.len() == W * H,
                noise@.len() >= NOISE * NOISE,
                lshift@.len() == H,
                forall|yy: int| 0 <= yy < H ==> #[trigger] lshift@[yy] <= u32::MAX - 12,
                cool_y < 0x100_0000,
                cool_x < NOISE,
                y < H - 3,
                left == lshift@[y as int],
                forall|i: int| (H - 3) * W <= i < W * H ==> sim@[i] == old(sim)@[i],
                forall|yy: int, k: int|
                    (y < yy < H - 3 && 0 <= k < W) || (yy == y && 0 <= k < x) ==> #[trigger] sim@[yy
                        * W + k] as int == flame_cell(
                        sim@,
                        noise@,
                        yy,
                        k,
                        lcg_draw(s0, cascade_draw(yy, k) as nat),
                        lshift@[yy] as int,
                        cool_y as int,
                        cool_x as int,
                    ),
                rng.0 == lcg_iter(s0, cascade_draw(y as int, x as int) as nat),
        {
            let r = rng.next();
            assert(r == lcg_draw(s0, cascade_draw(y as int, x as int) as nat));
            let heat = cascade_cell(sim, noise, y, x, r, left, cool_y, cool_x);
            let ghost before = sim@;
            sim[y * W + x] = heat;
            proof {
                assert forall|yy: int, k: int|
                    (y < yy < H - 3 && 0 <= k < W) || (yy == y && 0 <= k < x + 1) implies #[trigger] sim@[yy
                        * W + k] as int == flame_cell(
                        sim@,
                        noise@,
                        yy,
                        k,
                        lcg_draw(s0, cascade_draw(yy, k) as nat),
                        lshift@[yy] as int,
                        cool_y as int,
                        cool_x as int,
                    ) by {
                    lemma_flame_cell_frame(
                        before,
                        sim@,
                        noise@,
                        yy,
                        k,
                        lcg_draw(s0, cascade_draw(yy, k) as nat),
                        lshift@[yy] as int,
                        cool_y as int,
                        cool_x as int,
                    );
                }
            }
        }
    }
}

/// Heat only cools as it rises: a cascaded cell is never hotter than the
/// hottest cell of the row below it, and unless it has gone out it is at
/// least 40 units cooler.
pub proof fn lemma_flame_cools(
    field: Seq<u16>,
    noise: Seq<u8>,
    y: int,
    x: int,
    r: u32,
    left: int,
    cool_y: int,
    cool_x: int,
    m: int,
)
    requires
        0 <= y < H - 3,
        0 <= x < W,
        field.len() == W * H,
        noise.len() >= NOISE * NOISE,
        forall|k: int| 0 <= k < W ==> #[trigger] field[(y + 1) * W + k] <= m,
    ensures
        flame_cell(field, noise, y, x, r, left, cool_y, cool_x) <= m,
        flame_cell(field, noise, y, x, r, left, cool_y, cool_x) == 0 || flame_cell(
            field,
            noise,
            y,
            x,
            r,
            left,
            cool_y,
            cool_x,
        ) + 40 <= m,
{
    reveal(flame_cell);
    let cx = clamp_index(x + drift(r, left), W as int);
    assert(field[(y + 1) * W + clamp_index(cx - 1, W as int)] <= m);
    assert(field[(y + 1) * W + cx] <= m);
    assert(field[(y + 1) * W + clamp_index(cx + 1, W as int)] <= m);
    let cool = cooling(noise, y, x, cool_y, cool_x);
    assert(0 <= cool);
    assert(0 <= (cool * 600 / 256) * gain(y)) by (nonlinear_arith)
        requires
            0 <= cool,
            0 <= gain(y),
    ;
    assert(0 <= (r as int / 1073741824) * jitter(y)) by (nonlinear_arith)
        requires
            0 <= r,
            0 <= jitter(y),
    ;
}

/// The display closes `1 / BLEND` of its gap to the simulation per frame.
pub const BLEND: u32 = 5;

/// Display lerp: every cell of `disp` moves a fifth of the way towards the
/// same cell of `sim`, rounded down.
pub fn blend_display(disp: &mut [u16], sim: &[u16])
    requires
        old(disp)@.len() == W * H,
        sim@.len() == W * H,
    ensures
        final(disp)@.len() == W * H,
        forall|i: int|
            0 <= i < W * H ==> #[trigger] final(disp)@[i] as int == (old(disp)@[i] as int * 4
                + sim@[i] as int) / 5,
        forall|i: int|
            0 <= i < W * H ==> (old(disp)@[i] <= #[trigger] final(disp)@[i] <= sim@[i]) || (sim@[i]
                <= final(disp)@[i] <= old(disp)@[i]),
{
    for i in 0..W * H
        invariant
            disp@.len() == W * H,
            sim@.len() == W * H,
            forall|k: int|
                0 <= k < i ==> #[trigger] disp@[k] as int == (old(disp)@[k] as int * 4
                    + sim@[k] as int) / 5,
            forall|k: int| i <= k < W * H ==> #[trigger] disp@[k] == old(disp)@[k],
    {
        let target = sim[i] as u32;
        let current = disp[i] as u32;
        assert(current * (BLEND - 1) == current * 4);
        disp[i] = ((current * (BLEND - 1) + target) / BLEND) as u16;
    }
}

/// On a uniform noise tile of value `v`, bed column `x` is the bed formula
/// applied to `v` itself, whatever the scroll offsets: the base level
/// `42000 + v * 23535 / 256` capped at 63500, scaled by the coal factor
/// `(224 + v * 31 / 256) / 256`, less the flicker `(r / 2^13) % 1024` of its
/// draw `r`, halved where `v < 24` and halved again when `(r / 2^26) % 64 == 0`.
pub proof fn lemma_bed_uniform_noise(
    noise: Seq<u8>,
    v: u8,
    s: u64,
    src_y_fp: u32,
    src_x_fp: i32,
    x: int,
)
    requires
        noise.len() >= NOISE * NOISE,
        forall|i: int| 0 <= i < noise.len() ==> #[trigger] noise[i] == v,
        0 <= x < W,
    ensures
        bed_column(noise, s, src_y_fp, src_x_fp, x) == ({
            let r = lcg_draw(s, x as nat) as int;
            let raised = 42000 + v as int * 23535 / 256;
            let capped = if raised < 63500 {
                raised
            } else {
                63500
            };
            let heat = capped * (224 + v as int * 31 / 256) / 256 - (r / 8192) % 1024;
            let heat = if v < 24 {
                heat / 2
            } else {
                heat
            };
            if (r / 67108864) % 64 == 0 {
                heat / 2
            } else {
                heat
            }
        }),
{
    let a = tile_row(src_y_fp as int / 256) + (x + tile_column(src_x_fp)) % 256;
    let b = tile_row(src_y_fp as int / 1024 + 97) + (x * 5 + 31) % 256;
    assert(noise[a] == v);
    assert(noise[b] == v);
}

/// On a uniform noise tile the bed does not depend on where the tile has
/// scrolled to: two frames with the same generator state lay the same bed.
pub proof fn lemma_bed_ignores_scroll_on_uniform_noise(
    noise: Seq<u8>,
    v: u8,
    s: u64,
    sy1: u32,
    sx1: i32,
    sy2: u32,
    sx2: i32,
    x: int,
)
    requires
        noise.len() >= NOISE * NOISE,
        forall|i: int| 0 <= i < noise.len() ==> #[trigger] noise[i] == v,
        0 <= x < W,
    ensures
        bed_smoothed(noise, s, sy1, sx1, x) == bed_smoothed(noise, s, sy2, sx2, x),
{
    reveal(bed_smoothed);
    let l = clamp_index(x - 1, W as int);
    let r = clamp_index(x + 1, W as int);
    lemma_bed_uniform_noise(noise, v, s, sy1, sx1, l);
    lemma_bed_uniform_noise(noise, v, s, sy2, sx2, l);
    lemma_bed_uniform_noise(noise, v, s, sy1, sx1, x);
    lemma_bed_uniform_noise(noise, v, s, sy2, sx2, x);
    lemma_bed_uniform_noise(noise, v, s, sy1, sx1, r);
    lemma_bed_uniform_noise(noise, v, s, sy2, sx2, r);
}

/// On a uniform noise tile of value `v`, with every cell of the row below at
/// heat `h`, cell `(y, x)` loses exactly `40 + (v * 600 / 256) * gain / 256`
/// (the cooling map, `gain` fading in from 48 to 256 with height) plus the
/// jitter `(r / 2^30) * (96 + height * 352 / (H - 4)) / 4` of its draw `r`,
/// plus 200 when `h < 8192`, plus `180 - 60 * b` within `b < 3` cells of a
/// side edge; never going below zero. This holds for every scroll offset.
pub proof fn lemma_cascade_uniform(
    field: Seq<u16>,
    noise: Seq<u8>,
    v: u8,
    h: u16,
    y: int,
    x: int,
    r: u32,
    left: int,
    cool_y: int,
    cool_x: int,
)
    requires
        field.len() == W * H,
        noise.len() >= NOISE * NOISE,
        forall|i: int| 0 <= i < noise.len() ==> #[trigger] noise[i] == v,
        0 <= y < H - 3,
        0 <= x < W,
        forall|k: int| 0 <= k < W ==> #[trigger] field[(y + 1) * W + k] == h,
    ensures
        flame_cell(field, noise, y, x, r, left, cool_y, cool_x) == ({
            let height = H - 4 - y;
            let g = if height * 8 < 48 {
                48
            } else if height * 8 > 256 {
                256
            } else {
                height * 8
            };
            let jit = 96 + height * 352 / (H - 4);
            let b = if x < W - 1 - x {
                x
            } else {
                W - 1 - x
            };
            let d = 40 + (v as int * 600 / 256) * g / 256 + (r as int / 1073741824) * jit / 4 + (
            if h < 8192 {
                200int
            } else {
                0int
            }) + (if b < 3 {
                180 - 60 * b
            } else {
                0int
            });
            if h > d {
                h - d
            } else {
                0
            }
        }),
{
    reveal(flame_cell);
    let cx = clamp_index(x + drift(r, left), W as int);
    assert(field[(y + 1) * W + clamp_index(cx - 1, W as int)] == h);
    assert(field[(y + 1) * W + cx] == h);
    assert(field[(y + 1) * W + clamp_index(cx + 1, W as int)] == h);
    let bend = warp(texel(noise, y / 2 + cool_y / 2, x + 191));
    let a = tile_row(y / 2 + cool_y / 2) + (x + 191) % 256;
    assert(noise[a] == v);
    let c = tile_row(y / 2 + cool_y) + (x + cool_x + bend) % 256;
    assert(noise[c] == v);
    assert(cooling(noise, y, x, cool_y, cool_x) == v);
}

/// On a uniform noise tile the cascade does not depend on where the cooling
/// map has scrolled to.
pub proof fn lemma_cascade_ignores_scroll_on_uniform_noise(
    field: Seq<u16>,
    noise: Seq<u8>,
    v: u8,
    y: int,
    x: int,
    r: u32,
    left: int,
    cy1: int,
    cx1: int,
    cy2: int,
    cx2: int,
)
    requires
        field.len() == W * H,
        noise.len() >= NOISE * NOISE,
        forall|i: int| 0 <= i < noise.len() ==> #[trigger] noise[i] == v,
        0 <= y < H - 3,
        0 <= x < W,
    ensures
        flame_cell(field, noise, y, x, r, left, cy1, cx1) == flame_cell(
            field,
            noise,
            y,
            x,
            r,
            left,
            cy2,
            cx2,
        ),
{
    reveal(flame_cell);
    let a1 = tile_row(y / 2 + cy1 / 2) + (x + 191) % 256;
    let a2 = tile_row(y / 2 + cy2 / 2) + (x + 191) % 256;
    assert(noise[a1] == v);
    assert(noise[a2] == v);
    let bend1 = warp(texel(noise, y / 2 + cy1 / 2, x + 191));
    let bend2 = warp(texel(noise, y / 2 + cy2 / 2, x + 191));
    let c1 = tile_row(y / 2 + cy1) + (x + cx1 + bend1) % 256;
    let c2 = tile_row(y / 2 + cy2) + (x + cx2 + bend2) % 256;
    assert(noise[c1] == v);
    assert(noise[c2] == v);
}

/// Which texels the bed reads, for any noise tile: column `x` takes its base
/// noise from row `(src_y_fp / 256) % 256`, column `(x + (src_x_fp / 256)) % 256`
/// of the tile and its coal noise from row `(src_y_fp / 1024 + 97) % 256`,
/// column `(5 x + 31) % 256`, and combines them with its draw by the bed
/// formula.
pub proof fn lemma_bed_reads(noise: Seq<u8>, s: u64, src_y_fp: u32, src_x_fp: i32, x: int)
    requires
        noise.len() >= NOISE * NOISE,
        0 <= x < W,
    ensures
        bed_column(noise, s, src_y_fp, src_x_fp, x) == ({
            let n = noise[((src_y_fp as int / 256) % 256) * 256 + (x + (src_x_fp as int / 256)
                % 256) % 256] as int;
            let c = noise[((src_y_fp as int / 1024 + 97) % 256) * 256 + (5 * x + 31) % 256] as int;
            let r = lcg_draw(s, x as nat) as int;
            let raised = 42000 + n * 23535 / 256;
            let capped = if raised < 63500 {
                raised
            } else {
                63500
            };
            let heat = capped * (224 + c * 31 / 256) / 256 - (r / 8192) % 1024;
            let heat = if n < 24 {
                heat / 2
            } else {
                heat
            };
            if (r / 67108864) % 64 == 0 {
                heat / 2
            } else {
                heat
            }
        }),
{
}

/// Smoothing keeps a flat bed flat: where the three bed columns around `x`
/// are equal, the smoothed bed there has that same value.
pub proof fn lemma_bed_smoothing_keeps_flat(
    noise: Seq<u8>,
    s: u64,
    src_y_fp: u32,
    src_x_fp: i32,
    x: int,
    c: int,
)
    requires
        0 <= x < W,
        bed_column(noise, s, src_y_fp, src_x_fp, clamp_index(x - 1, W as int)) == c,
        bed_column(noise, s, src_y_fp, src_x_fp, x) == c,
        bed_column(noise, s, src_y_fp, src_x_fp, clamp_index(x + 1, W as int)) == c,
    ensures
        bed_smoothed(noise, s, src_y_fp, src_x_fp, x) == c,
{
    reveal(bed_smoothed);
}

/// Below a uniform row of heat `h`, for any noise tile, cell `(y, x)` loses
/// `40 + (cool * 600 / 256) * gain / 256` plus its jitter, faint-heat and
/// edge terms, where `cool` is the texel in row `(y / 2 + cool_y) % 256`,
/// column `(x + cool_x + bend) % 256` of the tile, `bend` being
/// `(t - 128) * 3 / 16` for the texel `t` in row `(y / 2 + cool_y / 2) % 256`,
/// column `(x + 191) % 256`.
pub proof fn lemma_cascade_reads(
    field: Seq<u16>,
    noise: Seq<u8>,
    h: u16,
    y: int,
    x: int,
    r: u32,
    left: int,
    cool_y: int,
    cool_x: int,
)
    requires
        field.len() == W * H,
        noise.len() >= NOISE * NOISE,
        0 <= y < H - 3,
        0 <= x < W,
        forall|k: int| 0 <= k < W ==> #[trigger] field[(y + 1) * W + k] == h,
    ensures
        flame_cell(field, noise, y, x, r, left, cool_y, cool_x) == ({
            let t = noise[((y / 2 + cool_y / 2) % 256) * 256 + (x + 191) % 256] as int;
            let bend = (t - 128) * 3 / 16;
            let cool = noise[((y / 2 + cool_y) % 256) * 256 + (x + cool_x + bend) % 256] as int;
            let height = H - 4 - y;
            let g = if height * 8 < 48 {
                48
            } else if height * 8 > 256 {
                256
            } else {
                height * 8
            };
            let jit = 96 + height * 352 / (H - 4);
            let b = if x < W - 1 - x {
                x
            } else {
                W - 1 - x
            };
            let d = 40 + (cool * 600 / 256) * g / 256 + (r as int / 1073741824) * jit / 4 + (if h
                < 8192 {
                200int
            } else {
                0int
            }) + (if b < 3 {
                180 - 60 * b
            } else {
                0int
            });
            if h > d {
                h - d
            } else {
                0
            }
        }),
{
    reveal(flame_cell);
    let cx = clamp_index(x + drift(r, left), W as int);
    assert(field[(y + 1) * W + clamp_index(cx - 1, W as int)] == h);
    assert(field[(y + 1) * W + cx] == h);
    assert(field[(y + 1) * W + clamp_index(cx + 1, W as int)] == h);
}

/// For any field and noise, the heat cell `(y, x)` pulls from the row below
/// is the `[1, 6, 1] / 8` average around column `c`, ends clamped, where `c`
/// is `x` shifted one left when the top five bits of its draw fall below
/// `left`, kept for the next twelve values, shifted one right above, and
/// clamped to the row; the cell is that average less its decay, never below
/// zero, and the decay is the same as under a uniform row of that average.
pub proof fn lemma_cascade_kernel(
    field: Seq<u16>,
    noise: Seq<u8>,
    y: int,
    x: int,
    r: u32,
    left: int,
    cool_y: int,
    cool_x: int,
)
    requires
        field.len() == W * H,
        noise.len() >= NOISE * NOISE,
        0 <= y < H - 3,
        0 <= x < W,
    ensures
        ({
            let v = r as int / 134217728;
            let shifted = if v < left {
                x - 1
            } else if v < left + 12 {
                x
            } else {
                x + 1
            };
            let c = if shifted < 0 {
                0
            } else if shifted > W - 1 {
                W - 1
            } else {
                shifted
            };
            let lo = if c == 0 {
                0
            } else {
                c - 1
            };
            let hi = if c == W - 1 {
                W - 1
            } else {
                c + 1
            };
            let row = (y + 1) * W;
            let k = (field[row + lo] as int + 6 * field[row + c] as int + field[row + hi] as int)
                / 8;
            let d = decay(k, cooling(noise, y, x, cool_y, cool_x), r, y, x);
            flame_cell(field, noise, y, x, r, left, cool_y, cool_x) == if k > d {
                k - d
            } else {
                0
            }
        }),
{
    reveal(flame_cell);
}

} // verus!
