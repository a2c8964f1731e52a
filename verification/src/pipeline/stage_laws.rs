//! What becomes of an LED from the picture to the strip: which stages it goes through, in which
//! order, and how fast it follows the picture.

use vstd::prelude::*;
use vstd::arithmetic::power2::*;

use crate::capture::Frame;
use crate::config::schema::{AveragingMode, CaptureBackend};
use crate::float;
use crate::float::facts;
use crate::float::near;
use crate::float::order;
use crate::float::round;
use crate::float::{F32, ONE};

use super::blend_laws;
use super::color;
use super::dominant;
use super::reduce;
use super::smoothing;
use super::smoothing::THOUSAND;
use super::stage::Pipeline;
use super::zone_laws;
use super::zones;

verus! {

/// An LED's colour comes from its own zone and goes through the corrections in this order: gamma,
/// HSL offsets, white balance, night light, luminosity floor, brightness gain, brightness limit.
///
/// What is averaged are the pixels on the zone's grid. The KMS backend scales frames down, so all
/// pixels are on it; otherwise every pixel whose distance from the zone's left and top sides is a
/// multiple of the configured number, zero counting as one.
#[verifier::rlimit(40)]
pub proof fn corrections_come_in_order(p: Pipeline, frame: Frame, gain: F32, i: int)
    requires
        0 <= i < p.settings().led_matrix.zones@.len(),
    ensures
        ({
            let cfg = p.settings();
            let (lut, white, tables) = p.tools();
            let step = if cfg.capture.backend == CaptureBackend::Kms || cfg.capture.subsample == 0 {
                1
            } else {
                cfg.capture.subsample as int
            };
            let pixels = zone_laws::present(
                zone_laws::grid(frame, zones::frame_zone(frame, cfg.led_matrix, i), step),
            );
            let seen = match cfg.color.averaging {
                AveragingMode::Mean => reduce::linear_mean(tables, pixels),
                AveragingMode::MeanSquared => reduce::root_mean_square(tables, pixels),
                AveragingMode::DominantAdv => dominant::dominant(tables, pixels),
            };
            let straight = color::corrected(seen, lut);
            let tinted = color::shifted(straight, cfg.color.hsl_offsets);
            let white = color::balanced(tinted, cfg.color.white_balance_kelvin, white);
            let warm = color::warmed(white, cfg.color.night_light_strength);
            let lifted = color::raised(warm, cfg.color.luminosity_floor);
            let bright = color::boosted(lifted, gain);
            let shown = color::limited(bright, cfg.color.brightness_max);
            &&& p.corrected(frame, gain).len() == cfg.led_matrix.zones@.len()
            &&& p.corrected(frame, gain)[i] == shown
        }),
{
    let cfg = p.settings();
    let step = if cfg.capture.backend == CaptureBackend::Kms || cfg.capture.subsample == 0 {
        1
    } else {
        cfg.capture.subsample as int
    };
    zone_laws::samples_are_the_pixels_on_the_grid(
        frame,
        zones::frame_zone(frame, cfg.led_matrix, i),
        step,
    );
}

/// A positive time constant stays positive in seconds, and no other becomes so.
proof fn lemma_seconds_keep_the_sign(ms: F32)
    requires
        ms.finite(),
    ensures
        ms.value() >= 1000 ==> !float::less_eq(smoothing::tau_of(ms), F32 { bits: 0 }),
        ms.value() <= 0 ==> float::less_eq(smoothing::tau_of(ms), F32 { bits: 0 }),
{
    let u = float::unit();
    let k = F32 { bits: THOUSAND };
    lemma_thousand();
    facts::one_is_unit();
    facts::zero_is_zero();
    order::magnitudes_are_not_negative(ms);
    let num = ms.mag() * u;
    let den = 1000 * u;
    assert(num >= 0) by (nonlinear_arith)
        requires
            num == ms.mag() * u,
            ms.mag() >= 0,
            u > 0,
    ;
    let b = float::nearest(num, den);
    facts::nearest_exists(num, den);
    round::lemma_monotone(0, b as int);
    assert(float::quotient(ms, k) == float::rounded(ms.negative(), num, den));
    if ms.value() >= 1000 {
        lemma2_to64();
        round::lemma_form(0, 1);
        assert(float::magnitude(1) * den <= num) by (nonlinear_arith)
            requires
                float::magnitude(1) == 1,
                num == ms.mag() * u,
                den == 1000 * u,
                ms.mag() >= 1000,
                u > 0,
        ;
        facts::rounding_stays_above(num, den, 1);
        round::lemma_monotone(1, b as int);
    } else if ms.value() <= 0 && !ms.negative() {
        assert(0 * u == 0);
        assert(num == 0);
        assert(0 * den == 0);
        facts::rounding_stays_below(0, den, 0);
    }
}

/// The pattern of a thousand is a thousand.
proof fn lemma_thousand()
    ensures
        (F32 { bits: THOUSAND }).finite(),
        !(F32 { bits: THOUSAND }).negative(),
        (F32 { bits: THOUSAND }).mag() == 1000 * float::unit(),
        !(F32 { bits: THOUSAND }).zero(),
{
    lemma2_to64();
    round::lemma_form(135, 0xFA_0000);
    lemma_pow2_adds(14, 135);
}

/// What is shown follows what is seen: with a time constant, every channel is the weighted mean of
/// what was shown before and of what the corrections give now, the latter's weight being what has
/// not decayed. Without one, and where the number of LEDs has changed, it is what they give now.
pub proof fn strip_follows_the_picture(p: Pipeline, frame: Frame, gain: F32, decay: F32, i: int) -> (w:
    int)
    requires
        0 <= i < p.settings().led_matrix.zones@.len(),
        p.settings().smoothing.time_constant_ms.finite(),
        p.settings().smoothing.time_constant_ms.value() <= 0
            || p.settings().smoothing.time_constant_ms.value() >= 1000,
        decay.finite(),
        0 <= decay.value() <= float::unit(),
    ensures
        ({
            let ms = p.settings().smoothing.time_constant_ms.value();
            let now = p.corrected(frame, gain);
            let before = p.shown();
            let next = p.result(frame, gain, decay);
            &&& next.len() == now.len()
            &&& ms <= 0 || before.len() != now.len() ==> next[i] == now[i]
            &&& ms > 0 && before.len() == now.len() ==> {
                &&& 0x40_0000 * (w - (float::unit() - decay.value())) <= float::unit()
                &&& 0x40_0000 * ((float::unit() - decay.value()) - w) <= float::unit()
                &&& blend_laws::is_weighted_mean(next[i].r, before[i].r, now[i].r, w)
                &&& blend_laws::is_weighted_mean(next[i].g, before[i].g, now[i].g, w)
                &&& blend_laws::is_weighted_mean(next[i].b, before[i].b, now[i].b, w)
            }
        }),
{
    let ms = p.settings().smoothing.time_constant_ms;
    let tau = smoothing::tau_of(ms);
    let alpha = smoothing::alpha_of(tau, decay);
    let u = float::unit();
    let one = F32 { bits: ONE };
    facts::one_is_unit();
    facts::zero_is_zero();
    near::grains_in_one();
    lemma_seconds_keep_the_sign(ms);
    let now = p.corrected(frame, gain);
    if ms.value() <= 0 {
        smoothing::full_blend_is_pass_through(p.shown(), now);
        0
    } else {
        let d = float::difference(one, decay);
        order::negated_value(decay);
        near::sum_error(one, float::negation(decay));
        assert(d.finite());
        assert(alpha == color::unit_clamped(d));
        blend_laws::smoothing_blends_led_by_led(p.shown(), now, alpha, i);
        blend_laws::weight(alpha)
    }
}

/// How a ratio comes out that was taken over a rounded ratio.
proof fn lemma_twice_rounded(x: int, y: int, z: int)
    requires
        x >= 0,
        y >= 0,
        0x100_0000 * (x - y) <= y,
        0x100_0000 * (y - x) <= y,
        0x100_0000 * (z - y) <= y,
        0x100_0000 * (y - z) <= y,
    ensures
        0x40_0000 * (x - z) <= x,
        0x40_0000 * (z - x) <= x,
{
}

/// The decay is that of the time since the last frame over the time constant: the exponent times
/// the time constant in milliseconds is minus a thousand times the seconds that have passed, up to
/// a part of 2^-22. The time that has passed is between 2^-20 and 2^20 seconds, and the time
/// constant between 2^-10 and 2^30 milliseconds.
pub proof fn decay_goes_by_the_time_constant(dt: F32, ms: F32)
    requires
        dt.finite(),
        ms.finite(),
        float::unit() <= 0x10_0000 * dt.value(),
        dt.value() <= 0x10_0000 * float::unit(),
        float::unit() <= 0x400 * ms.value(),
        ms.value() <= 0x4000_0000 * float::unit(),
    ensures
        ({
            let x = smoothing::decay_exponent_of(dt, smoothing::tau_of(ms));
            let u = float::unit();
            let exact = (1000 * dt.value()) * u;
            &&& x.finite()
            &&& 0x40_0000 * (-(x.value() * ms.value()) - exact) <= exact
            &&& 0x40_0000 * (exact + x.value() * ms.value()) <= exact
        }),
{
    let u = float::unit();
    let tau = smoothing::tau_of(ms);
    lemma_seconds(ms);
    facts::one_is_unit();
    facts::zero_is_zero();
    order::magnitudes_are_not_negative(dt);
    order::magnitudes_are_not_negative(ms);
    let (t, d, m) = (tau.mag(), dt.mag(), ms.mag());
    assert(dt.value() == d && ms.value() == m);
    let num = d * u;
    lemma2_to64();
    lemma_pow2_adds(32, 117);
    lemma_pow2_adds(32, 85);
    lemma_pow2_adds(20, 65);
    lemma_pow2_pos(65);
    lemma_pow2_adds(20, 170);
    lemma_pow2_adds(21, 149);
    assert(num >= 0 && 0x200_0000 * t <= num && num <= ((0x20_0000 * u) * 0x10_0000) * t)
        by (nonlinear_arith)
        requires
            num == d * u,
            u <= 0x10_0000 * d,
            d <= 0x10_0000 * u,
            u <= 0x20_0000 * t,
            t <= 0x40_0000 * u,
            u >= 0x1_0000_0000 * 0x1_0000_0000 * 0x10_0000,
    {
        assert(0x10_0000 * (d * u) >= u * u);
        assert(u * u >= (0x1_0000_0000 * 0x1_0000_0000 * 0x10_0000) * u);
        assert(d * u <= (0x10_0000 * u) * u);
        assert(u * u <= u * (0x20_0000 * t));
    }
    facts::overshoot(num, t, 168);
    facts::relative_error(num, t);
    let x = smoothing::decay_exponent_of(dt, tau);
    let n = float::negation(dt);
    assert(n.finite() && n.mag() == d && n.negative());
    assert(!tau.zero());
    assert(!n.zero());
    let e = float::magnitude(float::nearest(num, t) as int);
    assert(x == float::rounded(true, num, t));
    assert(x.mag() == e && x.negative());
    order::magnitudes_are_not_negative(x);
    let (exact, y, z) = ((1000 * d) * u, 1000 * (e * t), e * m);
    assert(y >= 0 && exact >= 0 && 0x100_0000 * (z - y) <= y && 0x100_0000 * (y - z) <= y
        && 0x100_0000 * (exact - y) <= y && 0x100_0000 * (y - exact) <= y) by (nonlinear_arith)
        requires
            exact == (1000 * d) * u,
            y == 1000 * (e * t),
            z == e * m,
            e >= 0,
            t >= 0,
            d >= 0,
            u > 0,
            num == d * u,
            0x100_0000 * (num - e * t) <= e * t,
            0x100_0000 * (e * t - num) <= e * t,
            0x100_0000 * (m - 1000 * t) <= 1000 * t,
            0x100_0000 * (1000 * t - m) <= 1000 * t,
    {
        let k = 1000 * t;
        assert(y == e * k);
        assert(e * (0x100_0000 * (m - k)) <= e * k);
        assert(e * (0x100_0000 * (k - m)) <= e * k);
        assert(e * (m - k) == z - y);
        assert(exact == 1000 * num);
    }
    lemma_twice_rounded(exact, y, z);
    assert(-(x.value() * ms.value()) == z) by (nonlinear_arith)
        requires
            x.value() == -e,
            ms.value() == m,
            z == e * m,
    ;
}

/// A time constant in seconds.
proof fn lemma_seconds(ms: F32)
    requires
        ms.finite(),
        float::unit() <= 0x400 * ms.value(),
        ms.value() <= 0x4000_0000 * float::unit(),
    ensures
        ({
            let tau = smoothing::tau_of(ms);
            let t = tau.mag();
            let m = ms.value();
            &&& tau.finite() && !tau.negative()
            &&& float::unit() <= 0x20_0000 * t
            &&& t <= 0x40_0000 * float::unit()
            &&& 0x100_0000 * (m - 1000 * t) <= 1000 * t
            &&& 0x100_0000 * (1000 * t - m) <= 1000 * t
        }),
{
    let u = float::unit();
    lemma_thousand();
    facts::one_is_unit();
    facts::zero_is_zero();
    order::magnitudes_are_not_negative(ms);
    let m = ms.mag();
    assert(m == ms.value());
    let num = m * u;
    let den = 1000 * u;
    lemma2_to64();
    lemma_pow2_adds(30, 149);
    lemma_pow2_adds(32, 117);
    lemma_pow2_adds(32, 85);
    lemma_pow2_pos(85);
    assert(0 < num && 0x200_0000 * den <= num && num <= (0x4000_0000 * u) * den) by (nonlinear_arith)
        requires
            num == m * u,
            den == 1000 * u,
            u <= 0x400 * m,
            m <= 0x4000_0000 * u,
            u >= 0x1_0000_0000 * 0x1_0000_0000,
    {
        assert(m >= 0x200_0000 * 1000);
        assert(m * u >= (0x200_0000 * 1000) * u);
        assert(m * u <= (0x4000_0000 * u) * u);
        assert((0x4000_0000 * u) * u <= (0x4000_0000 * u) * (1000 * u));
    }
    facts::overshoot(num, den, 157);
    facts::relative_error(num, den);
    let tau = smoothing::tau_of(ms);
    let t = float::magnitude(float::nearest(num, den) as int);
    assert(tau == float::rounded(false, num, den));
    assert(tau.mag() == t);
    assert(0x100_0000 * (m - 1000 * t) <= 1000 * t && 0x100_0000 * (1000 * t - m) <= 1000 * t)
        by (nonlinear_arith)
        requires
            0x100_0000 * (num - t * den) <= t * den,
            0x100_0000 * (t * den - num) <= t * den,
            num == m * u,
            den == 1000 * u,
            u > 0,
    {
        let k = 1000 * t;
        assert(t * den == k * u);
        assert((0x100_0000 * (m - k)) * u <= k * u);
        assert((0x100_0000 * (k - m)) * u <= k * u);
    }
}

} // verus!
