use rustiferin::capture::{FakeCapture, Frame, FramePool, FrameSlot, FrameTemplate, PixelFormat};
use rustiferin::config::schema::{
    AveragingMode, CaptureBackend, ColorConfig, Config, HslOffsets, LedMatrixConfig, LedZone,
    SmoothingConfig,
};
use rustiferin::float::F32;
use rustiferin::output::fake::FakeOutput;
use rustiferin::pipeline::color::{effective_gamma, normalized, GammaLut, WhiteFactors};
use rustiferin::pipeline::linear::TransferTables;
use rustiferin::pipeline::smoothing::{
    alpha_from_time_constant, decay_exponent, tau_secs, EmaState,
};
use rustiferin::pipeline::stage::Pipeline;
use rustiferin::pipeline::{LedColor, LedFrame, PipelineCommand};

fn f(x: f32) -> F32 {
    F32 { bits: x.to_bits() }
}

fn n(x: F32) -> f32 {
    f32::from_bits(x.bits)
}

fn to_linear(c: f64) -> f32 {
    let x = if c <= 0.04045 {
        c / 12.92
    } else {
        ((c + 0.055) / 1.055).powf(2.4)
    };
    x as f32
}

fn tables() -> TransferTables {
    let decode: Vec<F32> = (0..256).map(|i| f(to_linear(i as f64 / 255.0))).collect();
    let floors: Vec<F32> = (0..256)
        .map(|i| f(to_linear((i as f64 - 0.5).max(0.0) / 255.0)))
        .collect();
    TransferTables::from_tables(decode, floors).expect("consistent tables")
}

fn pipeline(config: Config) -> Pipeline {
    let e = n(effective_gamma(config.color.gamma));
    let powers: Vec<F32> = (0..=255u8).map(|i| f(n(normalized(i)).powf(e))).collect();
    let neutral = WhiteFactors {
        r: f(1.0),
        g: f(1.0),
        b: f(1.0),
    };
    Pipeline::new(config, GammaLut::new(&powers), neutral, tables())
}

fn identity_config(zones: Vec<LedZone>, reference_width: u32, reference_height: u32) -> Config {
    Config {
        led_matrix: LedMatrixConfig {
            reference_width,
            reference_height,
            zones,
            ..Default::default()
        },
        color: ColorConfig {
            gamma: f(1.0),
            white_balance_kelvin: 6500,
            night_light_strength: f(0.0),
            brightness_max: 255,
            hsl_offsets: HslOffsets::default(),
            ..Default::default()
        },
        smoothing: SmoothingConfig {
            time_constant_ms: f(0.0),
        },
        ..Default::default()
    }
}

fn one_zone(w: u32, h: u32) -> Config {
    identity_config(vec![LedZone { x: 0, y: 0, w, h }], w, h)
}

fn template(width: u32, height: u32, stride: u32, pixels: Vec<u8>) -> FrameTemplate {
    FrameTemplate {
        pixels,
        width,
        height,
        stride,
        format: PixelFormat::Bgra,
    }
}

fn solid_color_frame(width: u32, height: u32, b: u8, g: u8, r: u8) -> FrameTemplate {
    let stride = width * 4;
    let mut pixels = vec![0u8; (stride * height) as usize];
    for px in pixels.chunks_exact_mut(4) {
        px[0] = b;
        px[1] = g;
        px[2] = r;
        px[3] = 255;
    }
    template(width, height, stride, pixels)
}

fn split_frame_bgra(
    width: u32,
    height: u32,
    left: (u8, u8, u8),
    right: (u8, u8, u8),
) -> FrameTemplate {
    let stride = width * 4;
    let mut pixels = vec![0u8; (stride * height) as usize];
    let half = width / 2;
    for y in 0..height {
        for x in 0..width {
            let p = (y * stride + x * 4) as usize;
            let (b, g, r) = if x < half { left } else { right };
            pixels[p] = b;
            pixels[p + 1] = g;
            pixels[p + 2] = r;
            pixels[p + 3] = 255;
        }
    }
    template(width, height, stride, pixels)
}

fn padded_solid_frame(width: u32, height: u32, padding: u32, b: u8, g: u8, r: u8) -> FrameTemplate {
    let stride = width * 4 + padding;
    let mut pixels = vec![0xFFu8; (stride * height) as usize];
    for y in 0..height {
        for x in 0..width {
            let p = (y * stride + x * 4) as usize;
            pixels[p] = b;
            pixels[p + 1] = g;
            pixels[p + 2] = r;
            pixels[p + 3] = 255;
        }
    }
    template(width, height, stride, pixels)
}

fn two_band_frame_bgra(
    width: u32,
    height: u32,
    top_rows: u32,
    top: (u8, u8, u8),
    bot: (u8, u8, u8),
) -> FrameTemplate {
    let stride = width * 4;
    let mut pixels = vec![0u8; (stride * height) as usize];
    for y in 0..height {
        for x in 0..width {
            let p = (y * stride + x * 4) as usize;
            let (b, g, r) = if y < top_rows { top } else { bot };
            pixels[p] = b;
            pixels[p + 1] = g;
            pixels[p + 2] = r;
            pixels[p + 3] = 255;
        }
    }
    template(width, height, stride, pixels)
}

/// Drives the pipeline with a fake capture, 20 ms between the frames, into a fake output.
fn run_e2e(config: Config, templates: Vec<FrameTemplate>) -> Vec<LedFrame> {
    let tau = tau_secs(config.smoothing.time_constant_ms);
    let decay = f(n(decay_exponent(f(0.02), tau)).exp());
    let mut pool = FramePool::new(2, 64);
    let mut slot = FrameSlot::new();
    let mut fake = FakeCapture::new(templates, 0);
    let mut out = FakeOutput::new();
    let mut p = pipeline(config);
    while fake.replay(&mut pool, &mut slot) {
        if let Some(frame) = slot.take() {
            let r = p.process(frame, f(1.0), decay);
            pool.release(r.buf);
            if let Some(leds) = r.publish {
                out.record(leds);
            }
        }
    }
    assert_eq!(pool.len(), 2, "every buffer came back");
    out.frames().clone()
}

fn assert_color_near(c: LedColor, want: (u8, u8, u8), tolerance: u8) {
    assert!(
        c.r.abs_diff(want.0) <= tolerance
            && c.g.abs_diff(want.1) <= tolerance
            && c.b.abs_diff(want.2) <= tolerance,
        "got {c:?}, want {want:?}"
    );
}

#[test]
fn identity_pipeline_preserves_color() {
    let frames = run_e2e(one_zone(8, 8), vec![solid_color_frame(8, 8, 0, 0, 255)]);
    assert!(
        !frames.is_empty(),
        "pipeline must publish at least one frame"
    );
    assert_color_near(
        *frames.last().unwrap().colors.first().unwrap(),
        (255, 0, 0),
        0,
    );
}

#[test]
fn two_zone_split_frame_is_split_correctly() {
    let cfg = identity_config(
        vec![
            LedZone {
                x: 0,
                y: 0,
                w: 4,
                h: 8,
            },
            LedZone {
                x: 4,
                y: 0,
                w: 4,
                h: 8,
            },
        ],
        8,
        8,
    );
    // Left half red, right half green.
    let frame = split_frame_bgra(8, 8, (0, 0, 255), (0, 255, 0));
    let frames = run_e2e(cfg, vec![frame]);
    let last = frames.last().expect("at least one frame");
    assert_eq!(last.colors.len(), 2);
    assert_color_near(last.colors[0], (255, 0, 0), 0);
    assert_color_near(last.colors[1], (0, 255, 0), 0);
}

#[test]
fn gamma_22_darkens_mid_gray() {
    let mut cfg = one_zone(4, 4);
    cfg.color.gamma = f(2.2);
    let frames = run_e2e(cfg, vec![solid_color_frame(4, 4, 128, 128, 128)]);
    let c = frames.last().unwrap().colors[0];
    assert_color_near(c, (56, 56, 56), 1);
    assert!(c.r < 128, "gamma 2.2 must darken midtones, got r={}", c.r);
}

#[test]
fn ema_smoothing_converges_over_repeated_frames() {
    let mut cfg = one_zone(4, 4);
    cfg.smoothing.time_constant_ms = f(50.0);
    let frames_in: Vec<_> = (0..20)
        .map(|_| solid_color_frame(4, 4, 0, 0, 255))
        .collect();
    let observed = run_e2e(cfg, frames_in);
    let last = observed.last().expect("at least one frame");
    assert_color_near(last.colors[0], (255, 0, 0), 1);
}

#[test]
fn brightness_limit_clamps_white() {
    let mut cfg = one_zone(4, 4);
    cfg.color.brightness_max = 128;
    let frames = run_e2e(cfg, vec![solid_color_frame(4, 4, 255, 255, 255)]);
    let c = frames.last().unwrap().colors[0];
    assert_color_near(c, (128, 128, 128), 0);
}

#[test]
fn stride_padded_frame_averages_correctly() {
    // Stride pads 8 bytes per row past the pixel data; padding bytes are sentinel 0xFF.
    let frames = run_e2e(one_zone(4, 4), vec![padded_solid_frame(4, 4, 8, 50, 100, 150)]);
    assert_color_near(frames.last().unwrap().colors[0], (150, 100, 50), 0);
}

#[test]
fn dominant_mode_returns_largest_region_color() {
    let mut cfg = one_zone(10, 10);
    cfg.color.averaging = AveragingMode::DominantAdv;
    let frame = two_band_frame_bgra(10, 10, 6, (0, 0, 255), (0, 255, 0));
    let frames = run_e2e(cfg, vec![frame]);
    let last = frames.last().expect("at least one frame");
    assert_color_near(last.colors[0], (255, 0, 0), 2);
}

#[test]
fn mean_mode_is_unchanged_by_dominant_addition() {
    let cfg = one_zone(10, 10);
    assert_eq!(cfg.color.averaging, AveragingMode::Mean);
    let frame = two_band_frame_bgra(10, 10, 6, (0, 0, 255), (0, 255, 0));
    let frames = run_e2e(cfg, vec![frame]);
    let c = frames.last().expect("at least one frame").colors[0];
    assert!(
        c.g > 100,
        "mean must include green contribution, got {:?}",
        c
    );
    assert!(c.r < 255, "mean cannot be pure red, got {:?}", c);
}

#[test]
fn mean_mode_averages_linear_light() {
    let mut cfg = one_zone(10, 10);
    cfg.capture.subsample = 1;
    let frame = two_band_frame_bgra(10, 10, 6, (0, 0, 255), (0, 255, 0));
    let frames = run_e2e(cfg, vec![frame]);
    let c = frames.last().expect("at least one frame").colors[0];
    assert_color_near(c, (203, 170, 0), 1);
}

#[test]
fn a_steady_picture_stays_under_any_blend() {
    let mut cfg = one_zone(2, 2);
    cfg.smoothing.time_constant_ms = f(50.0);
    let mut p = pipeline(cfg);
    for step in 0..20u32 {
        let decay = f(step as f32 / 19.0);
        let out = p
            .process(solid_frame(2, 2, 17, 99, 201), f(1.0), decay)
            .publish
            .expect("published");
        assert_eq!(out.colors[0], LedColor::new(201, 99, 17));
    }
}

#[test]
fn mean_squared_mode_leans_to_the_bright_side() {
    let mut cfg = one_zone(10, 10);
    cfg.color.averaging = AveragingMode::MeanSquared;
    cfg.capture.subsample = 1;
    let frame = two_band_frame_bgra(10, 10, 5, (0, 0, 255), (0, 0, 0));
    let frames = run_e2e(cfg, vec![frame]);
    let c = frames.last().expect("at least one frame").colors[0];
    // The root of one half in linear light, against 127 for the plain mean.
    assert_color_near(c, (218, 0, 0), 1);
}

#[test]
fn upscaled_frame_against_reference_resolution_preserves_zone_split() {
    let cfg = identity_config(
        vec![
            LedZone {
                x: 0,
                y: 0,
                w: 960,
                h: 1080,
            },
            LedZone {
                x: 960,
                y: 0,
                w: 960,
                h: 1080,
            },
        ],
        1920,
        1080,
    );
    let frame = split_frame_bgra(3840, 2160, (0, 0, 255), (0, 255, 0));
    let frames = run_e2e(cfg, vec![frame]);
    let last = frames.last().expect("at least one frame");
    assert_eq!(last.colors.len(), 2);
    assert_color_near(last.colors[0], (255, 0, 0), 2);
    assert_color_near(last.colors[1], (0, 255, 0), 2);
}

fn solid_frame(width: u32, height: u32, b: u8, g: u8, r: u8) -> Frame {
    let t = solid_color_frame(width, height, b, g, r);
    Frame {
        buf: t.pixels,
        width,
        height,
        stride: t.stride,
        format: t.format,
    }
}

#[test]
fn blackout_publishes_black_frame_and_stops_publishing() {
    let mut p = pipeline(one_zone(2, 2));
    let lit = p
        .process(solid_frame(2, 2, 0, 0, 255), f(1.0), f(0.0))
        .publish
        .expect("published");
    assert_eq!(lit.frame_number, 1);
    assert_eq!(lit.colors[0], LedColor::new(255, 0, 0));
    let dark = p.on_command(PipelineCommand::Blackout).expect("a dark frame");
    assert_eq!(dark.frame_number, 1);
    assert_eq!(dark.colors, vec![LedColor::black()]);
    assert!(!p.is_publishing());
    assert!(p
        .process(solid_frame(2, 2, 0, 0, 255), f(1.0), f(0.0))
        .publish
        .is_none());
    assert!(p.on_command(PipelineCommand::Resume).is_none());
    let again = p
        .process(solid_frame(2, 2, 0, 0, 255), f(1.0), f(0.0))
        .publish
        .expect("published again");
    assert_eq!(again.frame_number, 3);
}

#[test]
fn the_live_gain_brightens() {
    let mut p = pipeline(one_zone(2, 2));
    let out = p
        .process(solid_frame(2, 2, 10, 20, 40), f(2.0), f(0.0))
        .publish
        .expect("published");
    assert_eq!(out.colors[0], LedColor::new(80, 40, 20));
}

#[test]
fn the_kms_backend_reads_every_pixel() {
    let mut cfg = one_zone(4, 4);
    cfg.capture.subsample = 4;
    let mut frame = solid_color_frame(4, 4, 0, 0, 0);
    // Only the corner that a step of four reads is lit.
    frame.pixels[2] = 160;
    let portal = run_e2e(cfg.clone(), vec![frame.clone()]);
    assert_eq!(portal[0].colors[0], LedColor::new(160, 0, 0));
    cfg.capture.backend = CaptureBackend::Kms;
    let kms = run_e2e(cfg, vec![frame]);
    // A sixteenth of the light of 160.
    assert_eq!(kms[0].colors[0], LedColor::new(41, 0, 0));
}

#[test]
fn first_step_passes_through() {
    let mut ema = EmaState::default();
    let mut frame = vec![LedColor::new(10, 20, 30), LedColor::new(40, 50, 60)];
    ema.step(&mut frame, f(0.5));
    assert_eq!(
        frame,
        vec![LedColor::new(10, 20, 30), LedColor::new(40, 50, 60)]
    );
}

#[test]
fn alpha_one_is_pass_through_after_first_frame() {
    let mut ema = EmaState::default();
    let mut a = vec![LedColor::new(0, 0, 0)];
    ema.step(&mut a, f(1.0));
    let mut b = vec![LedColor::new(100, 200, 50)];
    ema.step(&mut b, f(1.0));
    assert_eq!(b[0], LedColor::new(100, 200, 50));
}

#[test]
fn alpha_half_averages_consecutive_frames() {
    let mut ema = EmaState::default();
    let mut a = vec![LedColor::new(0, 0, 0)];
    ema.step(&mut a, f(0.5));
    let mut b = vec![LedColor::new(100, 200, 50)];
    ema.step(&mut b, f(0.5));
    // 0.5 * 0 + 0.5 * 100 = 50, etc.
    assert_eq!(b[0], LedColor::new(50, 100, 25));
}

/// The blend factor of a step of `dt` seconds with the time constant `tau`.
fn alpha(dt: f32, tau: f32) -> f32 {
    let decay = n(decay_exponent(f(dt), f(tau))).exp();
    n(alpha_from_time_constant(f(tau), f(decay)))
}

#[test]
fn alpha_from_time_constant_zero_tau_is_passthrough() {
    // A zero time constant means "no smoothing": adopt each frame verbatim.
    assert_eq!(alpha(0.016, 0.0), 1.0);
    assert_eq!(alpha(0.5, 0.0), 1.0);
}

#[test]
fn alpha_from_time_constant_zero_dt_keeps_previous() {
    // No time elapsed -> nothing new blends in.
    assert_eq!(alpha(0.0, 0.05), 0.0);
}

#[test]
fn alpha_from_time_constant_large_dt_approaches_one() {
    // dt far beyond tau -> almost fully the new frame.
    assert!(alpha(1.0, 0.05) > 0.999);
}

#[test]
fn alpha_from_time_constant_is_frame_rate_independent() {
    // One step over 2 dt must retain the same fraction as two steps over 1 dt, because
    // exponential decay composes: exp(-2x/tau) == exp(-x/tau)^2.
    let tau = 0.05;
    let one_big = 1.0 - alpha(0.02, tau);
    let two_small = (1.0 - alpha(0.01, tau)).powi(2);
    assert!(
        (one_big - two_small).abs() < 1e-6,
        "retention diverged: {one_big} vs {two_small}"
    );
}

#[test]
fn ema_state_resets_when_led_count_changes() {
    let mut ema = EmaState::default();
    let mut a = vec![LedColor::new(255, 255, 255); 4];
    ema.step(&mut a, f(0.5));
    let mut b = vec![LedColor::new(0, 0, 0); 6];
    ema.step(&mut b, f(0.5));
    assert_eq!(b, vec![LedColor::new(0, 0, 0); 6]);
}

#[test]
fn only_published_frames_count_as_processed() {
    let mut p = pipeline(one_zone(2, 2));
    let frame = || solid_frame(2, 2, 0, 0, 255);
    assert!(p.process(frame(), f(1.0), f(0.0)).counts());
    p.on_command(PipelineCommand::Blackout);
    for _ in 0..3 {
        let done = p.process(frame(), f(1.0), f(0.0));
        assert!(!done.counts());
        assert_eq!(done.buf, frame().buf);
    }
    let again = p.on_command(PipelineCommand::Blackout).expect("dark again");
    assert_eq!(again.frame_number, 4);
    p.on_command(PipelineCommand::Resume);
    let done = p.process(frame(), f(1.0), f(0.0));
    assert!(done.counts());
    assert_eq!(done.publish.expect("published").frame_number, 5);
}

#[test]
fn the_blend_factor_is_a_share_and_falls_with_the_decay() {
    let mut last = 2.0f32;
    for decay in [f32::NEG_INFINITY, -3.0, 0.0, 0.25, 0.5, 1.0, 7.0, f32::INFINITY] {
        let a = n(alpha_from_time_constant(f(0.05), f(decay)));
        assert!((0.0..=1.0).contains(&a));
        assert!(a <= last);
        last = a;
    }
    assert_eq!(n(alpha_from_time_constant(f(-1.0), f(0.5))), 1.0);
    assert_eq!(n(alpha_from_time_constant(f(0.05), f(1.0))), 0.0);
}
