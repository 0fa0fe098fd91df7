//! Pixels packed as `0x00RRGGBB`, and the warm additive glow of the bloom.

use vstd::prelude::*;
use crate::bits::{lemma_u32_mask, lemma_u32_shr};

verus! {

/// The pixel with channels `r`, `g`, `b` (each below 256): `0x00RRGGBB`.
pub open spec fn rgb(r: int, g: int, b: int) -> int {
    r * 65536 + g * 256 + b
}

/// Red channel of a pixel.
pub open spec fn red(c: u32) -> int {
    (c as int / 65536) % 256
}

/// Green channel of a pixel.
pub open spec fn green(c: u32) -> int {
    (c as int / 256) % 256
}

/// Blue channel of a pixel.
pub open spec fn blue(c: u32) -> int {
    c as int % 256
}

proof fn lemma_pack_bits(r: u32, g: u32, b: u32)
    by (bit_vector)
    requires
        r < 256,
        g < 256,
        b < 256,
    ensures
        (r << 16) | (g << 8) | b == r * 65536 + g * 256 + b,
{
}

/// Packs three channels, each below 256, into one pixel.
pub fn pack_rgb(r: u32, g: u32, b: u32) -> (c: u32)
    requires
        r < 256,
        g < 256,
        b < 256,
    ensures
        c as int == rgb(r as int, g as int, b as int),
{
    proof {
        lemma_pack_bits(r, g, b);
    }
    (r << 16) | (g << 8) | b
}

/// The red, green and blue channels of a pixel; the top byte is ignored.
pub fn channels(c: u32) -> (rgb: (u32, u32, u32))
    ensures
        rgb.0 as int == red(c),
        rgb.1 as int == green(c),
        rgb.2 as int == blue(c),
{
    proof {
        lemma_u32_shr(c);
        lemma_u32_mask(c >> 16);
        lemma_u32_mask(c >> 8);
        lemma_u32_mask(c);
    }
    ((c >> 16) & 255, (c >> 8) & 255, c & 255)
}

/// Packing then splitting gives the channels back.
pub proof fn lemma_channels_of_rgb(r: int, g: int, b: int)
    requires
        0 <= r < 256,
        0 <= g < 256,
        0 <= b < 256,
    ensures
        red(rgb(r, g, b) as u32) == r,
        green(rgb(r, g, b) as u32) == g,
        blue(rgb(r, g, b) as u32) == b,
{
    let c = rgb(r, g, b);
    assert(c as u32 == c);
    assert(c / 65536 == r);
    assert(c / 256 == r * 256 + g);
    assert((r * 256 + g) % 256 == g);
}

/// Splitting then packing gives back any pixel whose top byte is clear.
pub proof fn lemma_rgb_of_channels(c: u32)
    requires
        c < 0x100_0000,
    ensures
        rgb(red(c), green(c), blue(c)) == c,
{
}

/// `min(v, 255)`.
pub open spec fn cap255(v: int) -> int {
    if v < 255 {
        v
    } else {
        255
    }
}

/// Pixel `c` brightened by a glow of strength `g`, tinted warm: red gains
/// `g`, green `g * 190 / 256`, blue `g * 110 / 256`, each channel capped at
/// 255. A glow of 0 leaves the pixel as it is.
pub open spec fn glow_pixel(c: u32, g: int) -> int {
    if g > 0 {
        rgb(cap255(red(c) + g), cap255(green(c) + g * 190 / 256), cap255(blue(c) + g * 110 / 256))
    } else {
        c as int
    }
}

/// Warm-tinted additive glow: `(1.0, 0.74, 0.43) * g` added to the pixel.
pub fn add_glow(c: u32, g: u32) -> (out: u32)
    requires
        g <= 80,
    ensures
        out as int == glow_pixel(c, g as int),
{
    if g > 0 {
        let (cr, cg, cb) = channels(c);
        proof {
            lemma_u32_shr((g * 190) as u32);
            lemma_u32_shr((g * 110) as u32);
        }
        let r = (cr + g).min(255);
        let gr = (cg + ((g * 190) >> 8)).min(255);
        let bl = (cb + ((g * 110) >> 8)).min(255);
        pack_rgb(r, gr, bl)
    } else {
        c
    }
}

/// The glow only brightens: no channel of a glowing pixel is darker than
/// it was, and none goes past 255.
pub proof fn lemma_glow_brightens(c: u32, g: int)
    requires
        0 <= g,
    ensures
        g > 0 ==> glow_pixel(c, g) < 0x100_0000,
        red(c) <= red(glow_pixel(c, g) as u32) <= 255,
        green(c) <= green(glow_pixel(c, g) as u32) <= 255,
        blue(c) <= blue(glow_pixel(c, g) as u32) <= 255,
{
    if g > 0 {
        lemma_channels_of_rgb(
            cap255(red(c) + g),
            cap255(green(c) + g * 190 / 256),
            cap255(blue(c) + g * 110 / 256),
        );
    }
}

} // verus!
