// Each test runs library functions next to a direct, unverified
// implementation of the same frame step and compares the two on pseudo-random inputs.

use fire::bloom::{blur_h, blur_v, bright_pass, soften};
use fire::display::{compose, stretch_rows};
use fire::heat::{blend_display, feed_bed, propagate};
use fire::rng::Rng;
use fire::{BH, BW, H, NOISE, OH, OW, SCALE, W};

fn filled_u16(seed: u64, n: usize) -> Vec<u16> {
    let mut rng = Rng(seed);
    (0..n).map(|_| (rng.next() >> 16) as u16).collect()
}

fn filled_u8(seed: u64, n: usize) -> Vec<u8> {
    let mut rng = Rng(seed);
    (0..n).map(|_| (rng.next() >> 24) as u8).collect()
}

fn plain_blur_h(src: &[u16], dst: &mut [u16], w: usize, h: usize) {
    const R: usize = 3;
    for y in 0..h {
        let row = &src[y * w..y * w + w];
        let mut sum = row[0] as u32 * R as u32;
        for k in 0..=R {
            sum += row[k.min(w - 1)] as u32;
        }
        for x in 0..w {
            dst[y * w + x] = (sum / (2 * R as u32 + 1)) as u16;
            sum += row[(x + R + 1).min(w - 1)] as u32;
            sum -= row[x.saturating_sub(R)] as u32;
        }
    }
}

fn plain_blur_v(src: &[u16], dst: &mut [u16], w: usize, h: usize) {
    const R: usize = 3;
    for x in 0..w {
        let mut sum = src[x] as u32 * R as u32;
        for k in 0..=R {
            sum += src[k.min(h - 1) * w + x] as u32;
        }
        for y in 0..h {
            dst[y * w + x] = (sum / (2 * R as u32 + 1)) as u16;
            sum += src[(y + R + 1).min(h - 1) * w + x] as u32;
            sum -= src[y.saturating_sub(R) * w + x] as u32;
        }
    }
}

#[test]
fn blur_h_matches_plain_pass() {
    for &(w, h) in &[(160usize, 100usize), (1, 5), (2, 3), (7, 1), (13, 4)] {
        let src = filled_u16(11 + w as u64, w * h);
        let mut a = vec![9u16; w * h + 3];
        let mut b = a.clone();
        blur_h(&src, &mut a, w, h);
        plain_blur_h(&src, &mut b, w, h);
        assert_eq!(a, b);
    }
}

#[test]
fn blur_v_matches_plain_pass() {
    for &(w, h) in &[(160usize, 100usize), (5, 1), (3, 2), (1, 7), (4, 13)] {
        let src = filled_u16(21 + h as u64, w * h);
        let mut a = vec![9u16; w * h + 3];
        let mut b = a.clone();
        blur_v(&src, &mut a, w, h);
        plain_blur_v(&src, &mut b, w, h);
        assert_eq!(a, b);
    }
}

#[test]
fn bloom_matches_plain_passes() {
    let disp = filled_u16(5, W * H);
    let mut bloom = vec![0u16; BW * BH];
    let mut btmp = vec![0u16; BW * BH];
    bright_pass(&disp, &mut bloom);
    soften(&mut bloom, &mut btmp);

    let mut pb = vec![0u16; BW * BH];
    let mut pt = vec![0u16; BW * BH];
    for by in 0..BH {
        for bx in 0..BW {
            let i = by * 2 * W + bx * 2;
            let s = disp[i].saturating_sub(0xA000) as u32
                + disp[i + 1].saturating_sub(0xA000) as u32
                + disp[i + W].saturating_sub(0xA000) as u32
                + disp[i + W + 1].saturating_sub(0xA000) as u32;
            pb[by * BW + bx] = (s >> 2) as u16;
        }
    }
    for _ in 0..2 {
        plain_blur_h(&pb, &mut pt, BW, BH);
        plain_blur_v(&pt, &mut pb, BW, BH);
    }
    assert_eq!(bloom, pb);
    assert_eq!(btmp, pt);
}

fn plain_bed_and_cascade(
    sim: &mut [u16],
    rng: &mut Rng,
    noise: &[u8],
    lshift: &[u32],
    src_y_fp: u32,
    src_x_fp: i32,
    cool_y_fp: u32,
    cool_x_fp: i32,
) {
    let src_row = (((src_y_fp >> 8) as usize) & (NOISE - 1)) << 8;
    let coal_row = (((src_y_fp >> 10) as usize).wrapping_add(97) & (NOISE - 1)) << 8;
    let src_x = (src_x_fp >> 8).rem_euclid(NOISE as i32) as usize;
    let mut bed = [0u32; W];
    for (x, b) in bed.iter_mut().enumerate() {
        let r = rng.next();
        let n = noise[src_row + ((x + src_x) & (NOISE - 1))] as u32;
        let mut heat = (42000 + ((n * 23535) >> 8)).min(63500);
        let coal = noise[coal_row + ((x * 5 + 31) & (NOISE - 1))] as u32;
        heat = (heat * (224 + ((coal * 31) >> 8))) >> 8;
        heat -= (r >> 13) & 1023;
        if n < 24 {
            heat /= 2;
        }
        if (r >> 26) & 63 == 0 {
            heat /= 2;
        }
        *b = heat;
    }
    for x in 0..W {
        let heat = (bed[x.saturating_sub(1)] + 2 * bed[x] + bed[(x + 1).min(W - 1)]) >> 2;
        for row in H - 3..H {
            sim[row * W + x] = heat as u16;
        }
    }
    let cool_y = (cool_y_fp >> 8) as usize;
    let cool_x = (cool_x_fp >> 8).rem_euclid(NOISE as i32) as usize;
    for y in (0..H - 3).rev() {
        let nrow = (((y >> 1) + cool_y) & (NOISE - 1)) << 8;
        let gain = ((H - 4 - y) as u32 * 8).clamp(48, 256);
        let jamp = 96 + ((H - 4 - y) as u32 * 352) / (H as u32 - 4);
        let wrow = (((y >> 1) + (cool_y >> 1)) & (NOISE - 1)) << 8;
        let left = lshift[y];
        let below = (y + 1) * W;
        for x in 0..W {
            let r = rng.next();
            let v = r >> 27;
            let dir = if v < left {
                -1
            } else if v < left + 12 {
                0
            } else {
                1
            };
            let cx = (x as i32 + dir).clamp(0, W as i32 - 1) as usize;
            let a = sim[below + cx.saturating_sub(1)] as u32;
            let b = sim[below + cx] as u32;
            let c = sim[below + (cx + 1).min(W - 1)] as u32;
            let src = (a + 6 * b + c) >> 3;
            let warp = ((noise[wrow + ((x + 191) & (NOISE - 1))] as i32 - 128) * 3) >> 4;
            let wx = ((x + cool_x + NOISE) as i32 + warp) as usize & (NOISE - 1);
            let cool = noise[nrow + wx] as u32;
            let mut decay =
                40 + ((((cool * 600) >> 8) * gain) >> 8) + (((r >> 30) * jamp) >> 2);
            if src < 8192 {
                decay += 200;
            }
            let border = x.min(W - 1 - x);
            if border < 3 {
                decay += 180 - 60 * border as u32;
            }
            sim[y * W + x] = src.saturating_sub(decay) as u16;
        }
    }
}

#[test]
fn simulation_matches_plain_cascade() {
    let noise = filled_u8(77, NOISE * NOISE);
    let lshift: Vec<u32> = (0..H as u32).map(|y| 2 + (y * 7) % 17).collect();
    let cases: [(u32, i32, u32, i32); 4] = [
        (0, 0, 0, 0),
        (170 * 37, -96 * 51, 300 * 37, -2000),
        (u32::MAX - 100, i32::MIN + 5, u32::MAX, i32::MAX),
        (123_456, 7_654, 99_999, -1),
    ];
    for (k, &(sy, sx, cy, cx)) in cases.iter().enumerate() {
        let start = filled_u16(31 + k as u64, W * H);
        let mut a = start.clone();
        let mut b = start.clone();
        let mut ra = Rng(0xDEAD_BEEF_CAFE_F00D + k as u64);
        let mut rb = Rng(ra.0);
        feed_bed(&mut a, &mut ra, &noise, sy, sx);
        propagate(&mut a, &mut ra, &noise, &lshift, cy, cx);
        plain_bed_and_cascade(&mut b, &mut rb, &noise, &lshift, sy, sx, cy, cx);
        assert_eq!(a, b);
        assert_eq!(ra.0, rb.0);
    }
}

#[test]
fn display_matches_plain_lerp_and_upscale() {
    let sim = filled_u16(3, W * H);
    let mut disp = filled_u16(4, W * H);
    let mut pdisp = disp.clone();
    blend_display(&mut disp, &sim);
    for i in 0..W * H {
        let target = sim[i] as u32;
        let current = pdisp[i] as u32;
        pdisp[i] = ((current * 4 + target) / 5) as u16;
    }
    assert_eq!(disp, pdisp);

    let mut hstretch = vec![0u16; OW * H];
    stretch_rows(&disp, &mut hstretch);
    const W3: [u32; 3] = [0, 85, 171];
    let mut phs = vec![0u16; OW * H];
    for y in 0..H {
        let srow = y * W;
        let drow = y * OW;
        for ox in 0..OW {
            let sx = ox / SCALE;
            let wx = W3[ox % SCALE];
            let a = disp[srow + sx] as u32;
            let b = disp[srow + (sx + 1).min(W - 1)] as u32;
            phs[drow + ox] = ((a * (256 - wx) + b * wx) >> 8) as u16;
        }
    }
    assert_eq!(hstretch, phs);

    let bloom = filled_u16(8, BW * BH);
    let palette: Vec<u32> = (0..0x10000u32).map(|i| i.wrapping_mul(2654435761)).collect();
    for frame in [0u32, 1, 7, 15, 16, 331] {
        let mut screen = vec![0u32; OW * OH];
        compose(&hstretch, &bloom, &palette, frame, &mut screen);
        const BAYER: [i32; 16] = [0, 8, 2, 10, 12, 4, 14, 6, 3, 11, 1, 9, 15, 7, 13, 5];
        const W6: [u32; 6] = [0, 43, 85, 128, 171, 213];
        let fxor = (frame & 15) as usize;
        let mut pscreen = vec![0u32; OW * OH];
        for oy in 0..OH {
            let wy = W3[oy % SCALE];
            let r0 = oy / SCALE * OW;
            let r1 = (oy / SCALE + 1).min(H - 1) * OW;
            let wby = W6[oy % (2 * SCALE)];
            let b0 = oy / (2 * SCALE) * BW;
            let b1 = (oy / (2 * SCALE) + 1).min(BH - 1) * BW;
            let drow = oy * OW;
            for ox in 0..OW {
                let h = (hstretch[r0 + ox] as u32 * (256 - wy) + hstretch[r1 + ox] as u32 * wy)
                    >> 8;
                let d = BAYER[(((oy & 3) << 2) | (ox & 3)) ^ fxor] * 16 - 120;
                let mut c = palette[(h as i32 + d).clamp(0, 65535) as usize];
                let bx = ox / (2 * SCALE);
                let bx1 = (bx + 1).min(BW - 1);
                let wbx = W6[ox % (2 * SCALE)];
                let top = bloom[b0 + bx] as u32 * (256 - wbx) + bloom[b0 + bx1] as u32 * wbx;
                let bot = bloom[b1 + bx] as u32 * (256 - wbx) + bloom[b1 + bx1] as u32 * wbx;
                let g = ((top * (256 - wby) + bot * wby) >> 23).min(80);
                if g > 0 {
                    let r = (((c >> 16) & 255) + g).min(255);
                    let gr = (((c >> 8) & 255) + ((g * 190) >> 8)).min(255);
                    let bl = ((c & 255) + ((g * 110) >> 8)).min(255);
                    c = (r << 16) | (gr << 8) | bl;
                }
                pscreen[drow + ox] = c;
            }
        }
        assert_eq!(screen, pscreen);
    }
}
