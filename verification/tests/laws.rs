// Concrete cases for the library's contracts and laws.

use fire::bloom::{blur_h, blur_v};
use fire::color::{add_glow, channels, pack_rgb};
use fire::embers::{cool_spark, spark_cool, spark_roll, spark_site, splat};
use fire::heat::{blend_display, feed_bed, propagate, Scroll};
use fire::fullscreen::Saved;
use fire::rng::Rng;
use fire::snapshot::{ppm_bytes, snap_due, snaps_done};
use fire::display::{compose, stretch_rows};
use fire::{BH, BW, H, NOISE, OH, OW, W};

#[test]
fn rng_advances_by_the_lcg_and_returns_the_high_half() {
    let mut rng = Rng(0xDEAD_BEEF_CAFE_F00D);
    let expected = 0xDEAD_BEEF_CAFE_F00Du64
        .wrapping_mul(6364136223846793005)
        .wrapping_add(1442695040888963407);
    let r = rng.next();
    assert_eq!(rng.0, expected);
    assert_eq!(r, (expected >> 32) as u32);
    let mut zero = Rng(0);
    assert_eq!(zero.next(), (1442695040888963407u64 >> 32) as u32);
}

#[test]
fn rng_draws_compose() {
    let mut a = Rng(42);
    let mut b = Rng(42);
    let first: Vec<u32> = (0..10).map(|_| a.next()).collect();
    let second: Vec<u32> = (0..10).map(|_| b.next()).collect();
    assert_eq!(first, second);
    assert_eq!(a.0, b.0);
}

#[test]
fn blur_h_clamps_at_the_edges() {
    // taps around column 0 are [7, 7, 7, 7, 0, 0, 0]: 28 / 7 = 4
    let src = [7u16, 0, 0];
    let mut dst = [0u16; 3];
    blur_h(&src, &mut dst, 3, 1);
    assert_eq!(dst, [4, 3, 2]);
}

#[test]
fn blur_h_keeps_a_uniform_row() {
    let src = vec![1234u16; 40];
    let mut dst = vec![0u16; 42];
    blur_h(&src, &mut dst, 10, 4);
    assert!(dst[..40].iter().all(|&v| v == 1234));
    assert_eq!(&dst[40..], &[0, 0]);
}

#[test]
fn blur_v_clamps_and_stays_in_range() {
    let src = [0u16, 70, 0, 70];
    let mut dst = [0u16; 4];
    blur_v(&src, &mut dst, 2, 2);
    // column 1 rows: [70, 70] -> uniform; column 0 stays 0
    assert_eq!(dst, [0, 70, 0, 70]);
    let src = vec![65535u16; 9];
    let mut dst = vec![0u16; 9];
    blur_v(&src, &mut dst, 3, 3);
    assert!(dst.iter().all(|&v| v == 65535));
}

#[test]
fn blur_with_no_rows_writes_nothing() {
    let src: [u16; 0] = [];
    let mut dst = [5u16; 2];
    blur_h(&src, &mut dst, 0, 0);
    blur_v(&src, &mut dst, 0, 0);
    assert_eq!(dst, [5, 5]);
}

#[test]
fn splat_stamps_a_falloff_and_saturates() {
    let mut buf = vec![0u16; W * 3];
    let idx = W + 1;
    splat(&mut buf, idx, 1000);
    assert_eq!(buf[idx], 1000);
    for d in [idx - 1, idx + 1, idx - W, idx + W] {
        assert_eq!(buf[d], 500);
    }
    for d in [idx - W - 1, idx - W + 1, idx + W - 1, idx + W + 1] {
        assert_eq!(buf[d], 250);
    }
    assert_eq!(buf.iter().filter(|&&v| v != 0).count(), 9);
    let mut hot = vec![65000u16; W * 3];
    splat(&mut hot, idx, 0xE000);
    assert_eq!(hot[idx], 65535);
    assert_eq!(hot[idx + 2], 65000);
}

#[test]
fn sparks_cool_and_spawn_by_the_rules() {
    assert_eq!(cool_spark(0xE000, 246), ((0xE000u32 * 246) >> 8) as u16);
    assert_eq!(cool_spark(1000, 256), 1000);
    assert!(cool_spark(50000, 252) < 50000);
    assert!(spark_roll(5 << 28));
    assert!(!spark_roll(6 << 28));
    assert_eq!(spark_cool(16), 252);
    assert_eq!(spark_cool(17), 246);
    let mut sim = vec![0u16; W * H];
    let r = 1000u32;
    let x = 4 + (r as usize) % (W - 8);
    assert_eq!(spark_site(&sim, r), None);
    sim[(H - 8) * W + x] = 0xC001;
    assert_eq!(spark_site(&sim, r), Some(x));
    sim[(H - 8) * W + x] = 0xC000;
    assert_eq!(spark_site(&sim, r), None);
}

#[test]
fn bed_stays_below_the_bleach_zone_and_cascade_cools() {
    let noise = vec![255u8; NOISE * NOISE];
    let mut sim = vec![0u16; W * H];
    let mut rng = Rng(7);
    feed_bed(&mut sim, &mut rng, &noise, 12345, -678);
    assert!(sim[(H - 3) * W..].iter().all(|&v| v <= 63500 && v > 0));
    assert!(sim[..(H - 3) * W].iter().all(|&v| v == 0));
    let lshift = vec![10u32; H];
    propagate(&mut sim, &mut rng, &noise, &lshift, 999, 1);
    for y in 0..H - 3 {
        let below = *sim[(y + 1) * W..(y + 2) * W].iter().max().unwrap();
        for x in 0..W {
            let v = sim[y * W + x];
            assert!(v == 0 || v as u32 + 40 <= below as u32);
        }
    }
}

#[test]
fn generator_advances_by_one_draw_per_cell() {
    let noise = vec![0u8; NOISE * NOISE];
    let mut sim = vec![0u16; W * H];
    let mut rng = Rng(99);
    let mut count = Rng(99);
    feed_bed(&mut sim, &mut rng, &noise, 0, 0);
    propagate(&mut sim, &mut rng, &noise, &vec![10u32; H], 0, 0);
    for _ in 0..(H - 2) * W {
        count.next();
    }
    assert_eq!(rng.0, count.0);
}

#[test]
fn display_eases_a_fifth_of_the_way() {
    let sim = vec![0u16; W * H];
    let mut disp = vec![100u16; W * H];
    blend_display(&mut disp, &sim);
    assert!(disp.iter().all(|&v| v == 80));
    let sim = vec![1000u16; W * H];
    let mut disp = vec![1000u16; W * H];
    blend_display(&mut disp, &sim);
    assert!(disp.iter().all(|&v| v == 1000));
}

#[test]
fn scroll_moves_and_wraps() {
    let mut s = Scroll::new();
    s.advance(64, -96);
    assert_eq!((s.frame, s.cool_y_fp, s.cool_x_fp, s.src_y_fp, s.src_x_fp), (1, 300, -51, 170, 96));
    let mut s = Scroll { frame: u32::MAX, cool_y_fp: u32::MAX, cool_x_fp: i32::MIN, src_y_fp: u32::MAX - 100, src_x_fp: i32::MAX };
    s.advance(14, -1);
    assert_eq!(s.frame, 0);
    assert_eq!(s.cool_y_fp, 299);
    assert_eq!(s.cool_x_fp, i32::MAX);
    assert_eq!(s.src_y_fp, 69);
    assert_eq!(s.src_x_fp, i32::MIN);
}

#[test]
fn pixels_pack_and_split() {
    let c = pack_rgb(0x12, 0x34, 0x56);
    assert_eq!(c, 0x123456);
    assert_eq!(channels(c), (0x12, 0x34, 0x56));
    assert_eq!(channels(0xFF_AB_CD_EF), (0xAB, 0xCD, 0xEF));
}

#[test]
fn glow_is_warm_and_capped() {
    assert_eq!(add_glow(0x102030, 0), 0x102030);
    // g = 80: red +80, green +59, blue +34
    assert_eq!(add_glow(0x102030, 80), 0x605B52);
    assert_eq!(add_glow(0xF0F0F0, 80), 0xFFFFFF);
}

#[test]
fn ppm_header_and_pixels() {
    let bytes = ppm_bytes(&[0x00FF8001, 0x0A0B0C], 2, 1);
    let mut expected = b"P6\n2 1\n255\n".to_vec();
    expected.extend_from_slice(&[0xFF, 0x80, 0x01, 0x0A, 0x0B, 0x0C]);
    assert_eq!(bytes, expected);
    let bytes = ppm_bytes(&[], 960, 600);
    assert_eq!(bytes, b"P6\n960 600\n255\n".to_vec());
    let bytes = ppm_bytes(&[], 0, 10);
    assert_eq!(bytes, b"P6\n0 10\n255\n".to_vec());
}

#[test]
fn snapshots_are_taken_on_their_frames() {
    let due: Vec<u32> = (0..400).filter(|&f| snap_due(f)).collect();
    assert_eq!(due, vec![150, 240, 320, 324, 328]);
    assert!(!snaps_done(327));
    assert!(snaps_done(328));
    assert!(snaps_done(u32::MAX));
}

#[test]
fn saved_window_is_restored() {
    let saved = Saved::new((100, 200), (960, 600));
    assert_eq!(saved.pos(), (100, 200));
    assert_eq!(saved.size(), (960, 600));
    // asking for y = 200 put the window at 228: ask for 172 instead
    let p = saved.corrected_position(228);
    assert_eq!(p, (100, 172));
    assert_eq!(p.1 + 28, 200);
}

#[test]
fn upscale_is_exact_on_every_third_row_and_column() {
    let mut disp = vec![0u16; W * H];
    for (i, v) in disp.iter_mut().enumerate() {
        *v = ((i * 37) % 60000) as u16;
    }
    let mut hs = vec![0u16; OW * H];
    stretch_rows(&disp, &mut hs);
    for y in [0usize, 1, 99, H - 1] {
        for sx in [0usize, 1, 200, W - 1] {
            assert_eq!(hs[y * OW + 3 * sx], disp[y * W + sx]);
        }
    }
    let bloom = vec![0u16; BW * BH];
    let palette: Vec<u32> = (0..0x10000u32).collect();
    let mut screen = vec![0u32; OW * OH];
    compose(&hs, &bloom, &palette, 5, &mut screen);
    const BAYER: [i32; 16] = [0, 8, 2, 10, 12, 4, 14, 6, 3, 11, 1, 9, 15, 7, 13, 5];
    for y in [0usize, 2, 77, H - 1] {
        for ox in [0usize, 5, 480, OW - 1] {
            let oy = 3 * y;
            let d = BAYER[(((oy & 3) << 2) | (ox & 3)) ^ 5] * 16 - 120;
            assert!((-120..=120).contains(&d));
            let expected = (hs[y * OW + ox] as i32 + d).clamp(0, 65535) as u32;
            assert_eq!(screen[oy * OW + ox], expected);
        }
    }
}
