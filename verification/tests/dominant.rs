use rustiferin::capture::{Frame, PixelFormat};
use rustiferin::float::F32;
use rustiferin::pipeline::dominant::{dominant_adv_pixels, dominant_of, CONVERGENCE_EPSILON};
use rustiferin::pipeline::linear::TransferTables;
use rustiferin::pipeline::reduce::{linear_mean_of, root_mean_square_of};
use rustiferin::pipeline::zones::ScaledZone;
use rustiferin::pipeline::LedColor;

fn f(x: f32) -> F32 {
    F32 { bits: x.to_bits() }
}

fn to_linear(c: f64) -> f32 {
    let x = if c <= 0.04045 {
        c / 12.92
    } else {
        ((c + 0.055) / 1.055).powf(2.4)
    };
    x as f32
}

fn tables() -> TransferTables {
    let decode: Vec<F32> = (0..256).map(|i| f(to_linear(i as f64 / 255.0))).collect();
    let floors: Vec<F32> = (0..256)
        .map(|i| {
            if i == 0 {
                f(0.0)
            } else {
                f(to_linear((i as f64 - 0.5) / 255.0))
            }
        })
        .collect();
    TransferTables::from_tables(decode, floors).expect("consistent tables")
}

fn dominant(frame: &Frame, zone: &ScaledZone) -> LedColor {
    dominant_adv_pixels(frame, zone, 1, &tables(), &mut Vec::new(), &mut Vec::new())
}

fn solid_bgra(width: u32, height: u32, b: u8, g: u8, r: u8) -> Frame {
    let stride = width * 4;
    let mut buf = vec![0u8; (stride * height) as usize];
    for px in buf.chunks_exact_mut(4) {
        px[0] = b;
        px[1] = g;
        px[2] = r;
        px[3] = 255;
    }
    Frame {
        buf,
        width,
        height,
        stride,
        format: PixelFormat::Bgra,
    }
}

fn full_zone(w: u32, h: u32) -> ScaledZone {
    ScaledZone { x: 0, y: 0, w, h }
}

#[test]
fn solid_red_frame_returns_red() {
    let frame = solid_bgra(8, 8, 0, 0, 255);
    assert_eq!(dominant(&frame, &full_zone(8, 8)), LedColor::new(255, 0, 0));
}

#[test]
fn solid_green_frame_returns_green() {
    let frame = solid_bgra(8, 8, 0, 255, 0);
    assert_eq!(dominant(&frame, &full_zone(8, 8)), LedColor::new(0, 255, 0));
}

#[test]
fn solid_blue_frame_returns_blue() {
    // Blue is no seed, but every pixel pulls the nearest centre to it.
    let frame = solid_bgra(8, 8, 255, 0, 0);
    assert_eq!(dominant(&frame, &full_zone(8, 8)), LedColor::new(0, 0, 255));
}

#[test]
fn three_unequal_regions_returns_largest() {
    let width = 8u32;
    let height = 10u32;
    let stride = width * 4;
    let mut buf = vec![0u8; (stride * height) as usize];
    for y in 0..height {
        for x in 0..width {
            let p = ((y * stride) + x * 4) as usize;
            let (b, g, r) = if y < 5 {
                (0, 0, 255)
            } else if y < 8 {
                (0, 255, 0)
            } else {
                (255, 0, 0)
            };
            buf[p] = b;
            buf[p + 1] = g;
            buf[p + 2] = r;
            buf[p + 3] = 255;
        }
    }
    let frame = Frame {
        buf,
        width,
        height,
        stride,
        format: PixelFormat::Bgra,
    };
    let got = dominant(&frame, &full_zone(width, height));
    assert_eq!(got, LedColor::new(255, 0, 0), "largest region is red");
}

fn noise(width: u32, height: u32, mut state: u64) -> Frame {
    let stride = width * 4;
    let mut buf = vec![0u8; (stride * height) as usize];
    for chunk in buf.chunks_exact_mut(4) {
        state = state
            .wrapping_mul(6364136223846793005)
            .wrapping_add(1442695040888963407);
        chunk[0] = (state >> 56) as u8;
        chunk[1] = (state >> 48) as u8;
        chunk[2] = (state >> 40) as u8;
        chunk[3] = 255;
    }
    Frame {
        buf,
        width,
        height,
        stride,
        format: PixelFormat::Bgra,
    }
}

#[test]
fn random_fill_terminates_within_cap() {
    let frame = noise(16, 16, 0xDEADBEEFCAFEBABE);
    let _ = dominant(&frame, &full_zone(16, 16));
}

/// The clustering in hardware floats.
fn dominant_f32(frame: &Frame) -> LedColor {
    let pixels: Vec<[f32; 3]> = frame
        .buf
        .chunks_exact(4)
        .map(|p| {
            [
                to_linear(p[2] as f64 / 255.0),
                to_linear(p[1] as f64 / 255.0),
                to_linear(p[0] as f64 / 255.0),
            ]
        })
        .collect();
    let dist = |a: &[f32; 3], b: &[f32; 3]| {
        let d = [a[0] - b[0], a[1] - b[1], a[2] - b[2]];
        d[0] * d[0] + d[1] * d[1] + d[2] * d[2]
    };
    let mut centers = [[0.0, 0.0, 0.0], [0.0, 1.0, 0.0], [1.0, 1.0, 1.0], [1.0, 0.0, 0.0f32]];
    let mut counts = [0u32; 4];
    for _ in 0..16 {
        let mut sums = [[0.0f32; 3]; 4];
        counts = [0; 4];
        for p in &pixels {
            let mut best = 0;
            for i in 1..4 {
                if dist(&centers[i], p) < dist(&centers[best], p) {
                    best = i;
                }
            }
            for k in 0..3 {
                sums[best][k] += p[k];
            }
            counts[best] += 1;
        }
        let mut shift = 0.0f32;
        for i in 0..4 {
            if counts[i] == 0 {
                continue;
            }
            let m = counts[i] as f32;
            let next = [sums[i][0] / m, sums[i][1] / m, sums[i][2] / m];
            let d = dist(&next, &centers[i]);
            if d > shift {
                shift = d;
            }
            centers[i] = next;
        }
        if shift < 0.004f32 * 0.004f32 {
            break;
        }
    }
    let mut w = 0;
    for i in 1..4 {
        if counts[i] > counts[w] {
            w = i;
        }
    }
    let t = tables();
    LedColor::new(
        t.encode(f(centers[w][0])),
        t.encode(f(centers[w][1])),
        t.encode(f(centers[w][2])),
    )
}

#[test]
fn clustering_matches_hardware_floats() {
    assert_eq!(CONVERGENCE_EPSILON, 0.004f32.to_bits());
    for seed in 1..6u64 {
        let frame = noise(20, 15, seed);
        assert_eq!(dominant(&frame, &full_zone(20, 15)), dominant_f32(&frame));
    }
}

#[test]
fn empty_zone_returns_default() {
    let frame = solid_bgra(4, 4, 0, 0, 255);
    let got = dominant(
        &frame,
        &ScaledZone {
            x: 0,
            y: 0,
            w: 0,
            h: 0,
        },
    );
    assert_eq!(got, LedColor::default());
}

#[test]
fn supermajority_color_is_recovered() {
    for case in 0..50u64 {
        let (want_r, want_g, want_b): (u8, u8, u8) = match case % 4 {
            0 => (255, 0, 0),
            1 => (0, 255, 0),
            2 => (0, 0, 255),
            _ => (255, 255, 255),
        };
        let width = 8 + (case as u32 * 7) % 16;
        let height = 8 + (case as u32 * 5) % 16;
        let stride = width * 4;
        let mut buf = vec![0u8; (stride * height) as usize];
        let mut state = case.wrapping_mul(977).wrapping_add(1);
        for i in 0..(width * height) {
            let p = (i * 4) as usize;
            state = state
                .wrapping_mul(6364136223846793005)
                .wrapping_add(1442695040888963407);
            let roll = (state >> 32) as u32 % 100;
            if roll < 80 {
                buf[p] = want_b;
                buf[p + 1] = want_g;
                buf[p + 2] = want_r;
            } else {
                buf[p] = (state >> 56) as u8;
                buf[p + 1] = (state >> 48) as u8;
                buf[p + 2] = (state >> 40) as u8;
            }
            buf[p + 3] = 255;
        }
        let frame = Frame {
            buf,
            width,
            height,
            stride,
            format: PixelFormat::Bgra,
        };
        let got = dominant(&frame, &full_zone(width, height));
        assert!(got.r.abs_diff(want_r) <= 64, "{case}: {got:?}");
        assert!(got.g.abs_diff(want_g) <= 64, "{case}: {got:?}");
        assert!(got.b.abs_diff(want_b) <= 64, "{case}: {got:?}");
    }
}

#[test]
fn a_majority_is_in_the_winning_cluster() {
    let t = tables();
    let mut scratch = Vec::new();
    let red = LedColor::new(255, 0, 0);
    let mut pixels = vec![LedColor::new(0, 255, 0); 24];
    pixels.extend(vec![LedColor::new(255, 255, 255); 25]);
    pixels.extend(vec![red; 51]);
    assert_eq!(dominant_of(&pixels, &t, &mut scratch), red);
}

#[test]
fn a_majority_is_recovered_up_to_the_share_of_the_others() {
    let t = tables();
    let mut scratch = Vec::new();
    for case in 0..64u32 {
        let want = LedColor::new((case * 4) as u8, (255 - case * 3) as u8, (case * 37) as u8);
        let stray = LedColor::new((case * 91) as u8, (case * 53) as u8, (case * 17) as u8);
        let mut pixels = vec![want; 80];
        pixels.extend(vec![stray; 20]);
        let got = dominant_of(&pixels, &t, &mut scratch);
        for (g, w) in [(got.r, want.r), (got.g, want.g), (got.b, want.b)] {
            let away = to_linear(g as f64 / 255.0) - to_linear(w as f64 / 255.0);
            assert!(away.abs() <= 0.21, "{case}: {got:?} for {want:?}");
        }
    }
}

#[test]
fn encoding_undoes_decoding() {
    let t = tables();
    for i in 0..=255u8 {
        let l = t.decode_color(LedColor::new(i, i, i));
        assert_eq!(t.encode(l.r), i);
    }
    assert_eq!(t.encode(f(-1.0)), 0);
    assert_eq!(t.encode(f(2.0)), 255);
    assert_eq!(t.encode(f(f32::NAN)), 0);
}

#[test]
fn inconsistent_tables_are_refused() {
    let short: Vec<F32> = vec![f(0.0); 255];
    let flat: Vec<F32> = vec![f(0.0); 256];
    assert!(TransferTables::from_tables(short.clone(), flat.clone()).is_none());
    assert!(TransferTables::from_tables(flat.clone(), short).is_none());
    assert!(TransferTables::from_tables(flat.clone(), flat).is_none());
    // Floors that touch the values leave no room for rounding.
    let t = tables();
    let decode = t.decoded().clone();
    assert!(TransferTables::from_tables(decode.clone(), decode).is_none());
}

#[test]
fn the_mean_is_taken_in_linear_light() {
    let t = tables();
    let mut pixels = vec![LedColor::new(255, 0, 0); 50];
    pixels.extend(vec![LedColor::new(0, 255, 0); 30]);
    pixels.extend(vec![LedColor::new(0, 0, 255); 20]);
    assert_eq!(linear_mean_of(&pixels, &t), LedColor::new(188, 149, 124));
    assert_eq!(linear_mean_of(&Vec::new(), &t), LedColor::default());
}

#[test]
fn solid_pixels_keep_their_color_however_many() {
    let t = tables();
    for n in [1usize, 3, 10, 12_345] {
        for v in 0..=255u8 {
            if n > 10 && v % 15 != 0 {
                continue;
            }
            let c = LedColor::new(v, 255 - v, v / 2);
            let pixels = vec![c; n];
            assert_eq!(linear_mean_of(&pixels, &t), c);
            assert_eq!(root_mean_square_of(&pixels, &t), c);
        }
    }
}

#[test]
fn root_mean_square_leans_to_the_bright_pixels() {
    let t = tables();
    let solid = vec![LedColor::new(200, 100, 50); 16];
    assert_eq!(root_mean_square_of(&solid, &t), LedColor::new(200, 100, 50));
    // Half black, half white: the root of one half in linear light.
    let split = vec![LedColor::new(0, 0, 0), LedColor::new(255, 255, 255)];
    let got = root_mean_square_of(&split, &t);
    assert!((217..=219).contains(&got.r), "{got:?}");
    assert_eq!(root_mean_square_of(&Vec::new(), &t), LedColor::default());
}

#[test]
fn solid_pixels_are_dominated_by_their_color() {
    let t = tables();
    let mut scratch = Vec::new();
    for n in [1usize, 7, 4096, 131_072] {
        for v in 0..=255u8 {
            if n > 7 && v % 15 != 0 || n > 4096 && v % 85 != 0 {
                continue;
            }
            let c = LedColor::new(v, 255 - v, v / 2);
            assert_eq!(dominant_of(&vec![c; n], &t, &mut scratch), c);
        }
    }
}

#[test]
fn very_many_solid_pixels_drift_apart_from_their_color() {
    let t = tables();
    let c = LedColor::new(247, 247, 247);
    let mut scratch = Vec::new();
    assert_eq!(dominant_of(&vec![c; 131_072], &t, &mut scratch), c);
    assert_eq!(
        dominant_of(&vec![c; 353_123], &t, &mut scratch),
        LedColor::new(248, 248, 248)
    );
}
