use rustiferin::config::schema::HslOffsets;
use rustiferin::float::F32;
use rustiferin::pipeline::color::{
    brightness_gain, brightness_limit, effective_gamma, gamma, hsl_offset, hsl_to_rgb, kelvin_plan,
    kelvin_to_rgb_factors, luminosity_floor, night_light, normalized, rgb_to_hsl, white_balance,
    white_factors, GammaLut, KelvinPlan, KelvinTerms, WhiteFactors, GREEN_EXPONENT, RED_EXPONENT,
};
use rustiferin::pipeline::color;
use rustiferin::pipeline::LedColor;

fn f(x: f32) -> F32 {
    F32 { bits: x.to_bits() }
}

fn n(x: F32) -> f32 {
    f32::from_bits(x.bits)
}

fn lut(g: f32) -> GammaLut {
    let e = n(effective_gamma(f(g)));
    let powers: Vec<F32> = (0..=255u8).map(|i| f(n(normalized(i)).powf(e))).collect();
    GammaLut::new(&powers)
}

fn factors(kelvin: u32) -> WhiteFactors {
    let terms = match kelvin_plan(kelvin) {
        KelvinPlan::Warm { green, blue } => KelvinTerms::Warm {
            green_log: f(n(green).ln()),
            blue_log: blue.map(|b| f(n(b).ln())),
        },
        KelvinPlan::Cool { base } => KelvinTerms::Cool {
            red_power: f(n(base).powf(f32::from_bits(RED_EXPONENT))),
            green_power: f(n(base).powf(f32::from_bits(GREEN_EXPONENT))),
        },
    };
    kelvin_to_rgb_factors(terms)
}

#[test]
fn constants_have_the_patterns_of_their_numbers() {
    assert_eq!(color::BYTE_MAX, 255f32.to_bits());
    assert_eq!(color::HALF, 0.5f32.to_bits());
    assert_eq!(color::TWO, 2f32.to_bits());
    assert_eq!(color::THREE, 3f32.to_bits());
    assert_eq!(color::SIX, 6f32.to_bits());
    assert_eq!(color::THIRD, (1f32 / 3f32).to_bits());
    assert_eq!(color::TWO_THIRDS, (2f32 / 3f32).to_bits());
    assert_eq!(color::HUNDREDTH, 0.01f32.to_bits());
    assert_eq!(color::EPSILON, f32::EPSILON.to_bits());
    assert_eq!(color::SEVEN_TENTHS, 0.7f32.to_bits());
    assert_eq!(color::THREE_TENTHS, 0.3f32.to_bits());
    assert_eq!(color::THIRTY, 30f32.to_bits());
    assert_eq!(color::THREE_BYTES_MAX, (3f32 * 255f32).to_bits());
    assert_eq!(color::HUNDRED, 100f32.to_bits());
    assert_eq!(color::SIXTY_SIX, 66f32.to_bits());
    assert_eq!(color::SIXTY, 60f32.to_bits());
    assert_eq!(color::NINETEEN, 19f32.to_bits());
    assert_eq!(color::TEN, 10f32.to_bits());
    assert_eq!(color::GREEN_LOG_FACTOR, 99.470_8f32.to_bits());
    assert_eq!(color::GREEN_LOG_OFFSET, 161.119_57f32.to_bits());
    assert_eq!(color::BLUE_LOG_FACTOR, 138.517_73f32.to_bits());
    assert_eq!(color::BLUE_LOG_OFFSET, 305.044_8f32.to_bits());
    assert_eq!(color::RED_POWER_FACTOR, 329.698_73f32.to_bits());
    assert_eq!(color::RED_EXPONENT, (-0.133_204_76f32).to_bits());
    assert_eq!(color::GREEN_POWER_FACTOR, 288.122_16f32.to_bits());
    assert_eq!(color::GREEN_EXPONENT, (-0.075_514_85f32).to_bits());
}

#[test]
fn gamma_identity_lut_is_identity() {
    let lut = lut(1.0);
    let mut leds = vec![LedColor::new(0, 128, 255), LedColor::new(1, 200, 17)];
    gamma(&mut leds, &lut);
    assert_eq!(leds[0], LedColor::new(0, 128, 255));
    assert_eq!(leds[1], LedColor::new(1, 200, 17));
}

#[test]
fn gamma_one_keeps_every_channel_value() {
    let lut = lut(1.0);
    for i in 0..=255u8 {
        assert_eq!(lut.lookup(i), i);
    }
    // A gamma that is not positive counts as one.
    assert_eq!(n(effective_gamma(f(0.0))), 1.0);
    assert_eq!(n(effective_gamma(f(-2.0))), 1.0);
    assert_eq!(n(effective_gamma(f(f32::NAN))), 1.0);
    assert_eq!(n(effective_gamma(f(2.2))), 2.2);
}

#[test]
fn gamma_22_darkens_midtones_more_than_endpoints() {
    let lut = lut(2.2);
    assert_eq!(lut.lookup(0), 0);
    assert_eq!(lut.lookup(255), 255);
    // midpoint: (0.5)^2.2 * 255 = 55.5
    let mid = lut.lookup(128);
    assert!((54..=58).contains(&mid), "midtone {mid} outside expected band");
}

#[test]
fn gamma_below_one_brightens() {
    let lut = lut(0.5);
    // (0.5)^0.5 * 255 = 180
    let mid = lut.lookup(128);
    assert!((178..=182).contains(&mid));
}

#[test]
fn hsl_offsets_zero_is_identity() {
    let mut leds = vec![LedColor::new(10, 200, 75)];
    hsl_offset(&mut leds, &HslOffsets::default());
    assert_eq!(leds[0], LedColor::new(10, 200, 75));
}

#[test]
fn hsl_hue_offset_one_sixth_shifts_red_toward_yellow() {
    let mut leds = vec![LedColor::new(255, 0, 0)];
    hsl_offset(
        &mut leds,
        &HslOffsets {
            h: f(1.0 / 6.0),
            s: f(0.0),
            l: f(0.0),
        },
    );
    // A hue shift of a sixth on pure red gives yellow.
    assert_eq!(leds[0], LedColor::new(255, 255, 0));
}

#[test]
fn hsl_lightness_positive_brightens() {
    let mut leds = vec![LedColor::new(100, 100, 100)];
    hsl_offset(
        &mut leds,
        &HslOffsets {
            h: f(0.0),
            s: f(0.0),
            l: f(0.3),
        },
    );
    assert!(leds[0].r > 100);
}

#[test]
fn rgb_hsl_round_trip_pure_red() {
    let back = hsl_to_rgb(rgb_to_hsl(LedColor::new(255, 0, 0)));
    assert_eq!(back, LedColor::new(255, 0, 0));
}

#[test]
fn rgb_hsl_round_trip_grey_within_one_unit() {
    let c = LedColor::new(123, 123, 123);
    let back = hsl_to_rgb(rgb_to_hsl(c));
    for (a, b) in [(back.r, c.r), (back.g, c.g), (back.b, c.b)] {
        assert!(a.abs_diff(b) <= 1, "channel diverged: got {a}, want {b}");
    }
}

/// The same conversions in hardware floats.
fn rgb_to_hsl_f32(c: LedColor) -> (f32, f32, f32) {
    let r = c.r as f32 / 255.0;
    let g = c.g as f32 / 255.0;
    let b = c.b as f32 / 255.0;
    let max = r.max(g).max(b);
    let min = r.min(g).min(b);
    let delta = max - min;
    let l = (max + min) / 2.0;
    if delta <= 0.01 {
        return (0.0, 0.0, l);
    }
    let s = if l < 0.5 {
        delta / (max + min)
    } else {
        delta / (2.0 - max - min)
    };
    let del_r = (((max - r) / 6.0) + (delta / 2.0)) / delta;
    let del_g = (((max - g) / 6.0) + (delta / 2.0)) / delta;
    let del_b = (((max - b) / 6.0) + (delta / 2.0)) / delta;
    let mut h = if (r - max).abs() < f32::EPSILON {
        del_b - del_g
    } else if (g - max).abs() < f32::EPSILON {
        (1.0 / 3.0) + del_r - del_b
    } else {
        (2.0 / 3.0) + del_g - del_r
    };
    if h < 0.0 {
        h += 1.0;
    }
    if h > 1.0 {
        h -= 1.0;
    }
    (h, s, l)
}

fn hue_f32(v1: f32, v2: f32, mut vh: f32) -> f32 {
    if vh < 0.0 {
        vh += 1.0;
    }
    if vh > 1.0 {
        vh -= 1.0;
    }
    if 6.0 * vh < 1.0 {
        return v1 + (v2 - v1) * 6.0 * vh;
    }
    if 2.0 * vh < 1.0 {
        return v2;
    }
    if 3.0 * vh < 2.0 {
        return v1 + (v2 - v1) * ((2.0 / 3.0) - vh) * 6.0;
    }
    v1
}

fn byte(x: f32) -> u8 {
    x.round().clamp(0.0, 255.0) as u8
}

fn hsl_to_rgb_f32(h: f32, s: f32, l: f32) -> LedColor {
    let h = h.clamp(0.0, 1.0);
    let s = s.clamp(0.0, 1.0);
    let l = l.clamp(0.0, 1.0);
    if s <= 0.01 {
        let v = byte(l * 255.0);
        return LedColor::new(v, v, v);
    }
    let v2 = if l < 0.5 { l * (1.0 + s) } else { (l + s) - (s * l) };
    let v1 = 2.0 * l - v2;
    LedColor::new(
        byte(255.0 * hue_f32(v1, v2, h + 1.0 / 3.0)),
        byte(255.0 * hue_f32(v1, v2, h)),
        byte(255.0 * hue_f32(v1, v2, h - 1.0 / 3.0)),
    )
}

#[test]
fn hsl_offsets_match_hardware_floats_bit_for_bit() {
    let offsets = HslOffsets {
        h: f(-0.37),
        s: f(0.21),
        l: f(-0.08),
    };
    let mut leds = Vec::new();
    for r in (0..=255u32).step_by(15) {
        for g in (0..=255u32).step_by(17) {
            for b in (0..=255u32).step_by(51) {
                leds.push(LedColor::new(r as u8, g as u8, b as u8));
            }
        }
    }
    let mut got = leds.clone();
    hsl_offset(&mut got, &offsets);
    for (c, out) in leds.iter().zip(got.iter()) {
        let (h, s, l) = rgb_to_hsl_f32(*c);
        let x = rgb_to_hsl(*c);
        assert_eq!((n(x.h), n(x.s), n(x.l)), (h, s, l), "{c:?}");
        let want = hsl_to_rgb_f32(
            (h + -0.37).rem_euclid(1.0),
            (s + 0.21).clamp(0.0, 1.0),
            (l + -0.08).clamp(0.0, 1.0),
        );
        assert_eq!(*out, want, "{c:?}");
    }
}

#[test]
fn kelvin_factors_at_6500_are_neutral() {
    let k = factors(6500);
    let eps = 0.05;
    let (r, g, b) = (n(k.r), n(k.g), n(k.b));
    assert!((r - 1.0).abs() < eps, "r={r}");
    assert!((g - 1.0).abs() < eps, "g={g}");
    assert!((b - 1.0).abs() < eps, "b={b}");
}

#[test]
fn kelvin_plan_turns_at_6600_and_1900() {
    assert!(matches!(kelvin_plan(6600), KelvinPlan::Warm { blue: Some(_), .. }));
    assert!(matches!(kelvin_plan(6601), KelvinPlan::Cool { .. }));
    assert!(matches!(kelvin_plan(1900), KelvinPlan::Warm { blue: None, .. }));
    assert_eq!(
        kelvin_plan(0),
        KelvinPlan::Warm {
            green: f(1.0),
            blue: None
        }
    );
    assert_eq!(kelvin_plan(10000), KelvinPlan::Cool { base: f(40.0) });
    assert_eq!(n(factors(1000).b), 0.0);
}

#[test]
fn white_balance_neutral_6500k_is_identity() {
    let mut leds = vec![LedColor::new(50, 100, 200)];
    white_balance(&mut leds, 6500, &factors(6500));
    assert_eq!(leds[0], LedColor::new(50, 100, 200));
}

#[test]
fn white_balance_warm_reduces_blue() {
    let mut leds = vec![LedColor::new(200, 200, 200)];
    white_balance(&mut leds, 3000, &factors(3000));
    // Warm bias: red stays high, blue drops noticeably below the input.
    assert!(leds[0].b < 200, "expected blue reduction, got {}", leds[0].b);
    assert!(leds[0].r >= leds[0].b);
}

#[test]
fn white_balance_cool_reduces_red() {
    let mut leds = vec![LedColor::new(200, 200, 200)];
    white_balance(&mut leds, 10000, &factors(10000));
    assert!(leds[0].r < 200, "expected red reduction, got {}", leds[0].r);
    assert!(leds[0].b >= leds[0].r);
}

#[test]
fn night_light_zero_is_identity() {
    let mut leds = vec![LedColor::new(10, 200, 75), LedColor::new(200, 200, 200)];
    let snapshot = leds.clone();
    night_light(&mut leds, f(0.0));
    assert_eq!(leds, snapshot);
}

#[test]
fn night_light_strength_one_reduces_blue() {
    let mut leds = vec![LedColor::new(200, 200, 200)];
    night_light(&mut leds, f(1.0));
    assert!(leds[0].b < 100, "expected strong blue reduction");
    // Red gains 30, green keeps 70 %, blue 30 %.
    assert_eq!(leds[0], LedColor::new(230, 140, 60));
}

#[test]
fn night_light_leaves_red_and_green_of_dim_colors() {
    let mut leds = vec![LedColor::new(40, 30, 100)];
    night_light(&mut leds, f(1.0));
    assert_eq!(leds[0], LedColor::new(40, 30, 30));
}

#[test]
fn night_light_is_monotonic_in_strength() {
    let mut light = vec![LedColor::new(200, 200, 200)];
    let mut heavy = vec![LedColor::new(200, 200, 200)];
    night_light(&mut light, f(0.3));
    night_light(&mut heavy, f(0.8));
    assert!(heavy[0].b <= light[0].b);
}

#[test]
fn brightness_limit_255_is_identity() {
    let mut leds = vec![LedColor::new(10, 200, 75)];
    brightness_limit(&mut leds, 255);
    assert_eq!(leds[0], LedColor::new(10, 200, 75));
}

#[test]
fn brightness_limit_halves_when_peak_exceeds_cap() {
    let mut leds = vec![LedColor::new(100, 200, 50)];
    brightness_limit(&mut leds, 100);
    // peak was 200, cap is 100: scale 0.5
    assert_eq!(leds[0], LedColor::new(50, 100, 25));
}

#[test]
fn brightness_limit_skips_dim_pixels() {
    let mut leds = vec![LedColor::new(40, 30, 20)];
    brightness_limit(&mut leds, 100);
    assert_eq!(leds[0], LedColor::new(40, 30, 20));
}

#[test]
fn brightness_limit_brings_every_peak_to_the_cap() {
    for peak in 1..=255u8 {
        for cap in [0u8, 1, 77, 100, 254] {
            let mut leds = vec![LedColor::new(peak, peak / 2, 1)];
            brightness_limit(&mut leds, cap);
            assert_eq!(leds[0].r, peak.min(cap));
            assert!(leds[0].g <= cap && leds[0].b <= cap);
        }
    }
}

#[test]
fn brightness_gain_multiplies_and_stops_at_full() {
    let mut leds = vec![LedColor::new(100, 50, 10), LedColor::new(200, 100, 0)];
    brightness_gain(&mut leds, f(1.5));
    assert_eq!(leds[0], LedColor::new(150, 75, 15));
    // 300 would not fit: the LED is scaled by 255 / 200 instead.
    assert_eq!(leds[1], LedColor::new(255, 128, 0));
    let mut same = vec![LedColor::new(1, 2, 3)];
    brightness_gain(&mut same, f(1.0));
    assert_eq!(same[0], LedColor::new(1, 2, 3));
    let mut dark = vec![LedColor::new(0, 0, 0)];
    brightness_gain(&mut dark, f(10.0));
    assert_eq!(dark[0], LedColor::new(0, 0, 0));
}

#[test]
fn luminosity_floor_zero_is_identity() {
    let mut leds = vec![
        LedColor::new(0, 0, 0),
        LedColor::new(10, 5, 3),
        LedColor::new(255, 200, 150),
    ];
    let snapshot = leds.clone();
    luminosity_floor(&mut leds, f(0.0));
    assert_eq!(leds, snapshot);
}

#[test]
fn luminosity_floor_leaves_already_bright_pixels_alone() {
    let mut leds = vec![LedColor::new(200, 0, 0)];
    luminosity_floor(&mut leds, f(0.10));
    assert_eq!(leds[0], LedColor::new(200, 0, 0));
}

#[test]
fn luminosity_floor_boosts_dim_pixel_to_floor_preserving_hue() {
    // With floor 0.20 the largest channel must reach 51 (= 0.20 * 255), a factor of 5.1.
    let mut leds = vec![LedColor::new(10, 5, 0)];
    luminosity_floor(&mut leds, f(0.20));
    let out = leds[0];
    assert_eq!(out.r, 51);
    assert_eq!(out.g, 26);
    assert_eq!(out.b, 0);
}

#[test]
fn luminosity_floor_handles_pure_black_as_neutral_grey() {
    let mut leds = vec![LedColor::new(0, 0, 0)];
    luminosity_floor(&mut leds, f(0.20));
    assert_eq!(leds[0], LedColor::new(51, 51, 51));
}

#[test]
fn luminosity_floor_clamps_at_one() {
    let mut leds = vec![LedColor::new(0, 0, 0)];
    luminosity_floor(&mut leds, f(2.5));
    assert_eq!(leds[0], LedColor::new(255, 255, 255));
}

fn palette(step: usize) -> Vec<LedColor> {
    let mut leds = Vec::new();
    for r in (0..=255u32).step_by(step) {
        for g in (0..=255u32).step_by(step) {
            for b in (0..=255u32).step_by(step) {
                leds.push(LedColor::new(r as u8, g as u8, b as u8));
            }
        }
    }
    leds
}

#[test]
fn every_color_survives_hsl_within_one_step() {
    let mut leds = palette(17);
    leds.extend((0..=253u8).map(|v| LedColor::new(v, v + 1, v + 2)));
    leds.extend((0..=252u8).map(|v| LedColor::new(v + 3, v, v + 1)));
    for c in leds {
        let back = hsl_to_rgb(rgb_to_hsl(c));
        assert!(back.r.abs_diff(c.r) <= 1, "{c:?} {back:?}");
        assert!(back.g.abs_diff(c.g) <= 1, "{c:?} {back:?}");
        assert!(back.b.abs_diff(c.b) <= 1, "{c:?} {back:?}");
    }
    let red = LedColor::new(255, 0, 0);
    assert_eq!(hsl_to_rgb(rgb_to_hsl(red)), red);
}

#[test]
fn night_light_warms_more_with_more_strength() {
    let leds = palette(51);
    let mut last = leds.clone();
    for s in [-1.0f32, 0.0, 0.1, 0.33, 0.5, 0.77, 1.0, 2.0] {
        let mut now = leds.clone();
        night_light(&mut now, f(s));
        for ((c, was), is) in leds.iter().zip(&last).zip(&now) {
            assert!(is.b <= was.b && is.g <= was.g && is.r >= was.r, "{c:?} at {s}");
            if c.r as u32 + c.g as u32 + c.b as u32 <= 382 {
                assert_eq!((is.r, is.g), (c.r, c.g));
            }
        }
        if s <= 0.0 {
            assert_eq!(now, leds);
        }
        last = now;
    }
    let mut full = leds.clone();
    night_light(&mut full, f(1.0));
    assert_eq!(last, full);
}

#[test]
fn white_balance_takes_light_and_adds_none() {
    let leds = palette(51);
    for kelvin in [0, 1900, 1901, 3000, 6499, 6600, 6601, 9000, 40_000, u32::MAX] {
        let mut out = leds.clone();
        white_balance(&mut out, kelvin, &factors(kelvin));
        for (c, o) in leds.iter().zip(&out) {
            assert!(o.r <= c.r && o.g <= c.g && o.b <= c.b, "{c:?} at {kelvin}");
            if kelvin <= 6600 {
                assert_eq!(o.r, c.r);
            } else {
                assert_eq!(o.b, c.b);
            }
            if kelvin <= 1900 {
                assert_eq!(o.b, 0);
            }
        }
    }
}

#[test]
fn white_factors_need_the_terms_of_their_plan() {
    let cool = KelvinTerms::Cool {
        red_power: f(0.6),
        green_power: f(0.75),
    };
    let dark = KelvinTerms::Warm {
        green_log: f(2.5),
        blue_log: None,
    };
    assert_eq!(white_factors(9000, cool), Some(kelvin_to_rgb_factors(cool)));
    assert_eq!(white_factors(5000, cool), None);
    assert_eq!(white_factors(1500, dark), Some(kelvin_to_rgb_factors(dark)));
    assert_eq!(white_factors(5000, dark), None);
    assert_eq!(white_factors(9000, dark), None);
}

#[test]
fn gamma_tables_never_fall() {
    for g in [0.3f32, 0.5, 1.0, 1.8, 2.2, 5.0] {
        let t = lut(g);
        assert_eq!((t.lookup(0), t.lookup(255)), (0, 255));
        for i in 0..255u8 {
            assert!(t.lookup(i) <= t.lookup(i + 1));
            if g >= 1.0 {
                assert!(t.lookup(i) <= i);
            }
            if g <= 1.0 {
                assert!(t.lookup(i) >= i);
            }
        }
    }
}
