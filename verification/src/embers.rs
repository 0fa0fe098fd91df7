//! Sparks: the 3x3 stamp that draws an ember into the display field, and the
//! per-frame heat retention of a spark.

use vstd::prelude::*;
use crate::{H, W};
use crate::bits::{lemma_u32_mask, lemma_u32_shr};

verus! {

/// `a + b`, saturating at `u16::MAX`.
pub open spec fn sat_add(a: u16, b: int) -> u16 {
    if a + b > u16::MAX {
        u16::MAX
    } else {
        (a + b) as u16
    }
}

/// The heat a stamp centred on `idx` adds to cell `i` of a `W`-wide field:
/// all of it at the centre, half on the four sides, a quarter on the four
/// corners, nothing elsewhere.
pub open spec fn splat_share(idx: int, heat: u16, i: int) -> int {
    let w = W as int;
    if i == idx {
        heat as int
    } else if i == idx - 1 || i == idx + 1 || i == idx - w || i == idx + w {
        heat as int / 2
    } else if i == idx - w - 1 || i == idx - w + 1 || i == idx + w - 1 || i == idx + w + 1 {
        heat as int / 4
    } else {
        0
    }
}

/// 3x3 stamp with (1, 1/2, 1/4) falloff. Caller guarantees the position is
/// at least one cell away from every edge.
pub fn splat(buf: &mut [u16], idx: usize, heat: u16)
    requires
        W + 1 <= idx,
        idx + W + 1 < old(buf)@.len(),
    ensures
        final(buf)@.len() == old(buf)@.len(),
        forall|i: int|
            0 <= i < old(buf)@.len() ==> #[trigger] final(buf)@[i] == sat_add(
                old(buf)@[i],
                splat_share(idx as int, heat, i),
            ),
        forall|i: int| 0 <= i < old(buf)@.len() ==> #[trigger] final(buf)@[i] >= old(buf)@[i],
{
    let half = heat >> 1;
    let quarter = heat >> 2;
    proof {
        assert(half == heat / 2) by (bit_vector)
            requires
                half == heat >> 1,
        ;
        assert(quarter == heat / 4) by (bit_vector)
            requires
                quarter == heat >> 2,
        ;
    }
    buf[idx] = buf[idx].saturating_add(heat);
    buf[idx - 1] = buf[idx - 1].saturating_add(half);
    buf[idx + 1] = buf[idx + 1].saturating_add(half);
    buf[idx - W] = buf[idx - W].saturating_add(half);
    buf[idx + W] = buf[idx + W].saturating_add(half);
    buf[idx - W - 1] = buf[idx - W - 1].saturating_add(quarter);
    buf[idx - W + 1] = buf[idx - W + 1].saturating_add(quarter);
    buf[idx + W - 1] = buf[idx + W - 1].saturating_add(quarter);
    buf[idx + W + 1] = buf[idx + W + 1].saturating_add(quarter);
}

/// Per-frame heat retention of a spark: `heat * cool / 256`, kept to 16 bits.
pub fn cool_spark(heat: u16, cool: u16) -> (h: u16)
    ensures
        h as int == (heat as int * cool as int / 256) % 65536,
        cool <= 256 ==> h <= heat,
{
    proof {
        assert(heat as int * cool as int <= 65535 * 65535) by (nonlinear_arith)
            requires
                heat <= 65535,
                cool <= 65535,
        ;
    }
    let p = heat as u32 * cool as u32;
    proof {
        lemma_u32_shr(p);
        lemma_u32_mask(p >> 8);
        if cool <= 256 {
            assert(heat as int * cool as int <= heat as int * 256) by (nonlinear_arith)
                requires
                    cool <= 256,
            ;
        }
    }
    (p >> 8) as u16
}

/// Whether draw `r` tries to start a spark: when its top four bits are
/// below 6, that is 6 chances in 16.
pub fn spark_roll(r: u32) -> (b: bool)
    ensures
        b == (r as int / 268435456 < 6),
{
    proof {
        lemma_u32_shr(r);
    }
    (r >> 28) < 6
}

/// Where a spark tries to start: column `4 + r % (W - 8)` of row `H - 8`.
/// It starts only where the simulated heat there exceeds `0xC000`.
pub fn spark_site(sim: &[u16], r: u32) -> (site: Option<usize>)
    requires
        sim@.len() == W * H,
    ensures
        site == (if sim@[(H - 8) * W + 4 + r as int % (W - 8)] > 0xC000 {
            Some((4 + r as int % (W - 8)) as usize)
        } else {
            None::<usize>
        }),
{
    let x = 4 + (r as usize) % (W - 8);
    if sim[(H - 8) * W + x] > 0xC000 {
        Some(x)
    } else {
        None
    }
}

/// How much heat a new spark keeps per frame, out of 256: one spark in
/// eight is a floater that keeps 252 and sails clear of the flames; the rest
/// keep 246.
pub fn spark_cool(r: u32) -> (cool: u16)
    ensures
        cool == (if r % 8 == 0 {
            252u16
        } else {
            246u16
        }),
{
    proof {
        lemma_u32_mask(r);
    }
    if r & 7 == 0 {
        252
    } else {
        246
    }
}

} // verus!
