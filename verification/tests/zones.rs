use rustiferin::capture::{Frame, PixelFormat};
use rustiferin::config::schema::{LedMatrixConfig, LedZone};
use rustiferin::float::F32;
use rustiferin::pipeline::zones::{average_pixels, average_zones, collect_samples, scale_zone, ScaledZone};
use rustiferin::pipeline::LedColor;

fn f(x: f32) -> F32 {
    F32 { bits: x.to_bits() }
}

fn solid_bgra(width: u32, height: u32, b: u8, g: u8, r: u8) -> Frame {
    let stride = width * 4;
    let mut buf = vec![0u8; (stride * height) as usize];
    for px in buf.chunks_exact_mut(4) {
        px[0] = b;
        px[1] = g;
        px[2] = r;
        px[3] = 255;
    }
    Frame {
        buf,
        width,
        height,
        stride,
        format: PixelFormat::Bgra,
    }
}

fn full_zone(rw: u32, rh: u32) -> LedMatrixConfig {
    LedMatrixConfig {
        reference_width: rw,
        reference_height: rh,
        zones: vec![LedZone {
            x: 0,
            y: 0,
            w: rw,
            h: rh,
        }],
        ..Default::default()
    }
}

#[test]
fn solid_red_frame_averages_to_red() {
    let frame = solid_bgra(8, 8, 0, 0, 255);
    let cfg = full_zone(8, 8);
    let mut out = vec![LedColor::default(); 1];
    average_zones(&frame, &cfg, 1, &mut out);
    assert_eq!(out[0], LedColor::new(255, 0, 0));
}

#[test]
fn two_halves_average_independently() {
    let mut frame = solid_bgra(8, 8, 0, 0, 0);
    for y in 0..8 {
        for x in 0..4 {
            let p = (y * 8 + x) * 4;
            frame.buf[p + 2] = 200; // left half red
        }
        for x in 4..8 {
            let p = (y * 8 + x) * 4;
            frame.buf[p] = 100; // right half blue
        }
    }
    let cfg = LedMatrixConfig {
        reference_width: 8,
        reference_height: 8,
        zones: vec![
            LedZone {
                x: 0,
                y: 0,
                w: 4,
                h: 8,
            },
            LedZone {
                x: 4,
                y: 0,
                w: 4,
                h: 8,
            },
        ],
        ..Default::default()
    };
    let mut out = vec![LedColor::default(); 2];
    average_zones(&frame, &cfg, 1, &mut out);
    assert_eq!(out[0], LedColor::new(200, 0, 0));
    assert_eq!(out[1], LedColor::new(0, 0, 100));
}

#[test]
fn honors_stride_with_padding() {
    // 4x4 image, stride = 24 bytes (16 px + 8 padding bytes per row).
    let width = 4u32;
    let height = 4u32;
    let stride = 24u32;
    let mut buf = vec![0u8; (stride * height) as usize];
    for y in 0..height {
        for x in 0..width {
            let p = (y * stride + x * 4) as usize;
            buf[p] = 50; // B
            buf[p + 1] = 100; // G
            buf[p + 2] = 150; // R
        }
    }
    let frame = Frame {
        buf,
        width,
        height,
        stride,
        format: PixelFormat::Bgra,
    };
    let cfg = full_zone(width, height);
    let mut out = vec![LedColor::default(); 1];
    average_zones(&frame, &cfg, 1, &mut out);
    assert_eq!(out[0], LedColor::new(150, 100, 50));
}

#[test]
fn rescales_zones_2x_upscale() {
    let mut buf = vec![0u8; 8 * 8 * 4];
    // top-left 4x4 = red, rest = blue
    for y in 0..8 {
        for x in 0..8 {
            let p = (y * 8 + x) * 4;
            if x < 4 && y < 4 {
                buf[p + 2] = 255;
            } else {
                buf[p] = 255;
            }
        }
    }
    let frame = Frame {
        buf,
        width: 8,
        height: 8,
        stride: 32,
        format: PixelFormat::Bgra,
    };
    let cfg = LedMatrixConfig {
        reference_width: 4,
        reference_height: 4,
        zones: vec![LedZone {
            x: 0,
            y: 0,
            w: 2,
            h: 2,
        }],
        ..Default::default()
    };
    let mut out = vec![LedColor::default(); 1];
    average_zones(&frame, &cfg, 1, &mut out);
    assert_eq!(out[0], LedColor::new(255, 0, 0));
}

#[test]
fn rescales_zones_collapsed_zone_emits_black() {
    // A 1x1 zone of a 100x100 reference on a 10x10 frame rounds to nothing.
    let frame = solid_bgra(10, 10, 0, 0, 255);
    let cfg = LedMatrixConfig {
        reference_width: 100,
        reference_height: 100,
        zones: vec![LedZone {
            x: 0,
            y: 0,
            w: 1,
            h: 1,
        }],
        ..Default::default()
    };
    let mut out = vec![LedColor::default(); 1];
    average_zones(&frame, &cfg, 1, &mut out);
    assert_eq!(out[0], LedColor::default());
}

#[test]
fn rgba_format_reads_red_in_byte_zero() {
    let width = 2u32;
    let height = 2u32;
    let stride = width * 4;
    let mut buf = vec![0u8; (stride * height) as usize];
    for px in buf.chunks_exact_mut(4) {
        px[0] = 200; // R
        px[1] = 100; // G
        px[2] = 50; // B
        px[3] = 255;
    }
    let frame = Frame {
        buf,
        width,
        height,
        stride,
        format: PixelFormat::Rgba,
    };
    let cfg = full_zone(width, height);
    let mut out = vec![LedColor::default(); 1];
    average_zones(&frame, &cfg, 1, &mut out);
    assert_eq!(out[0], LedColor::new(200, 100, 50));
}

#[test]
fn xrgb_format_ignores_padding_byte() {
    let width = 2u32;
    let height = 2u32;
    let stride = width * 4;
    let mut buf = vec![0u8; (stride * height) as usize];
    for px in buf.chunks_exact_mut(4) {
        px[0] = 99; // padding (must be ignored)
        px[1] = 10; // R
        px[2] = 20; // G
        px[3] = 30; // B
    }
    let frame = Frame {
        buf,
        width,
        height,
        stride,
        format: PixelFormat::Xrgb,
    };
    let cfg = full_zone(width, height);
    let mut out = vec![LedColor::default(); 1];
    average_zones(&frame, &cfg, 1, &mut out);
    assert_eq!(out[0], LedColor::new(10, 20, 30));
}

fn scalar_reference(frame: &Frame, cfg: &LedMatrixConfig) -> Vec<LedColor> {
    let (r_idx, g_idx, b_idx) = match frame.format {
        PixelFormat::Bgra | PixelFormat::Bgrx => (2usize, 1usize, 0usize),
        PixelFormat::Rgba => (0, 1, 2),
        PixelFormat::Xrgb => (1, 2, 3),
    };
    let sx = frame.width as f32 / cfg.reference_width.max(1) as f32;
    let sy = frame.height as f32 / cfg.reference_height.max(1) as f32;
    let mut out = Vec::with_capacity(cfg.zones.len());
    for zone in &cfg.zones {
        let x = ((zone.x as f32) * sx).round() as u32;
        let y = ((zone.y as f32) * sy).round() as u32;
        let w = (((zone.w as f32) * sx).round() as u32).min(frame.width.saturating_sub(x));
        let h = (((zone.h as f32) * sy).round() as u32).min(frame.height.saturating_sub(y));
        if w == 0 || h == 0 {
            out.push(LedColor::default());
            continue;
        }
        let mut sr = 0u64;
        let mut sg = 0u64;
        let mut sb = 0u64;
        for dy in 0..h {
            for dx in 0..w {
                let p = ((y + dy) * frame.stride + (x + dx) * 4) as usize;
                sr += frame.buf[p + r_idx] as u64;
                sg += frame.buf[p + g_idx] as u64;
                sb += frame.buf[p + b_idx] as u64;
            }
        }
        let n = (w as u64) * (h as u64);
        out.push(LedColor {
            r: (sr / n) as u8,
            g: (sg / n) as u8,
            b: (sb / n) as u8,
        });
    }
    out
}

#[test]
fn matches_scalar_reference() {
    let mut state: u64 = 99;
    for case in 0..100u32 {
        state = state.wrapping_mul(6364136223846793005).wrapping_add(case as u64);
        let width = 8 + (state >> 40) as u32 % 56;
        let height = 8 + (state >> 20) as u32 % 56;
        let stride = width * 4;
        let mut buf = vec![0u8; (stride * height) as usize];
        for byte in buf.iter_mut() {
            state = state
                .wrapping_mul(6364136223846793005)
                .wrapping_add(1442695040888963407);
            *byte = (state >> 56) as u8;
        }
        let frame = Frame {
            buf,
            width,
            height,
            stride,
            format: PixelFormat::Bgra,
        };
        let (rw, rh) = match case % 3 {
            0 => (width, height),
            1 => (width / 2, height / 2),
            _ => (width * 2, height * 2),
        };
        let mut zones = Vec::new();
        for (x, y) in [(0, 0), (rw / 2, 0), (0, rh / 2), (rw / 2, rh / 2)] {
            zones.push(LedZone {
                x,
                y,
                w: rw / 2,
                h: rh / 2,
            });
        }
        let cfg = LedMatrixConfig {
            reference_width: rw,
            reference_height: rh,
            zones,
            ..Default::default()
        };
        let mut out = vec![LedColor::default(); cfg.zones.len()];
        average_zones(&frame, &cfg, 1, &mut out);
        assert_eq!(out, scalar_reference(&frame, &cfg));
    }
}

#[test]
fn scale_zone_clamps_against_frame_bounds() {
    let zone = LedZone {
        x: 3,
        y: 3,
        w: 2,
        h: 2,
    };
    // The frame is only 4x4, so the zone hangs over the edge by one pixel.
    let scaled = scale_zone(&zone, f(1.0), f(1.0), 4, 4);
    assert_eq!(scaled.x, 3);
    assert_eq!(scaled.y, 3);
    assert_eq!(scaled.w, 1);
    assert_eq!(scaled.h, 1);
}

#[test]
fn matching_resolution_leaves_zones_where_they_are() {
    let zone = LedZone {
        x: 960,
        y: 540,
        w: 960,
        h: 540,
    };
    let s = F32::from_u32(1920).over(F32::from_u32(1920));
    assert_eq!(s.bits, 1f32.to_bits());
    assert_eq!(
        scale_zone(&zone, s, s, 1920, 1080),
        ScaledZone {
            x: 960,
            y: 540,
            w: 960,
            h: 540
        }
    );
}

#[test]
fn subsampling_reads_every_nth_pixel_in_both_directions() {
    // Only the pixels at even columns and rows are lit.
    let mut frame = solid_bgra(4, 4, 0, 0, 0);
    for y in [0usize, 2] {
        for x in [0usize, 2] {
            frame.buf[(y * 4 + x) * 4 + 2] = 80;
        }
    }
    let cfg = full_zone(4, 4);
    let mut out = vec![LedColor::default(); 1];
    average_zones(&frame, &cfg, 2, &mut out);
    assert_eq!(out[0], LedColor::new(80, 0, 0));
    average_zones(&frame, &cfg, 1, &mut out);
    assert_eq!(out[0], LedColor::new(20, 0, 0));
    // A step of zero counts as one.
    average_zones(&frame, &cfg, 0, &mut out);
    assert_eq!(out[0], LedColor::new(20, 0, 0));
    // A step beyond the zone reads its corner only.
    average_zones(&frame, &cfg, u32::MAX, &mut out);
    assert_eq!(out[0], LedColor::new(80, 0, 0));
}

#[test]
fn rows_that_the_buffer_lacks_are_skipped() {
    let mut frame = solid_bgra(2, 2, 0, 0, 90);
    frame.buf.truncate(8);
    let cfg = full_zone(2, 2);
    let mut out = vec![LedColor::default(); 1];
    average_zones(&frame, &cfg, 1, &mut out);
    assert_eq!(out[0], LedColor::new(90, 0, 0));
    frame.buf.clear();
    average_zones(&frame, &cfg, 1, &mut out);
    assert_eq!(out[0], LedColor::default());
}

#[test]
fn a_malformed_stride_does_not_read_past_the_end() {
    let mut frame = solid_bgra(2, 2, 1, 2, 3);
    frame.stride = u32::MAX;
    let zone = ScaledZone {
        x: 0,
        y: 0,
        w: 2,
        h: 2,
    };
    assert_eq!(average_pixels(&frame, &zone, 1), LedColor::new(3, 2, 1));
}

#[test]
fn samples_come_in_reading_order() {
    let mut frame = solid_bgra(2, 2, 0, 0, 0);
    for i in 0..4usize {
        frame.buf[i * 4 + 2] = i as u8;
    }
    let zone = ScaledZone {
        x: 0,
        y: 0,
        w: 2,
        h: 2,
    };
    let mut out = vec![LedColor::new(9, 9, 9)];
    collect_samples(&frame, &zone, 1, &mut out);
    let reds: Vec<u8> = out.iter().map(|c| c.r).collect();
    assert_eq!(reds, vec![0, 1, 2, 3]);
}
