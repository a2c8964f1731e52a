//! What holds of zone scaling and colour correction for every input.

use vstd::prelude::*;
use vstd::arithmetic::power2::*;

use crate::capture::Frame;
use crate::config::schema::{AveragingMode, HslOffsets, LedMatrixConfig};
use crate::config::validate;
use crate::float;
use crate::float::facts;
use crate::float::round;
use crate::float::{F32, ONE};

use super::color;
use super::color::{GammaLut, WhiteFactors, BYTE_MAX, NEUTRAL_KELVIN};
use super::reduce;
use super::smoothing;
use super::solid;
use super::stage;
use super::stage::Pipeline;
use super::zones;
use super::zones::ScaledZone;
use super::LedColor;

verus! {

/// On a frame of the reference resolution, zones stay where they were configured. Coordinates
/// above 2^24 are left out: single precision cannot hold them all.
pub proof fn matching_frame_keeps_zones(frame: Frame, cfg: LedMatrixConfig, i: int)
    requires
        0 <= i < cfg.zones@.len(),
        frame.width == cfg.reference_width,
        frame.height == cfg.reference_height,
        validate::zone_fits(cfg.zones@[i], cfg.reference_width, cfg.reference_height),
        cfg.zones@[i].x <= 0x100_0000,
        cfg.zones@[i].y <= 0x100_0000,
        cfg.zones@[i].w <= 0x100_0000,
        cfg.zones@[i].h <= 0x100_0000,
    ensures
        ({
            let z = cfg.zones@[i];
            zones::frame_zone(frame, cfg, i) == (ScaledZone { x: z.x, y: z.y, w: z.w, h: z.h })
        }),
{
    let z = cfg.zones@[i];
    facts::one_is_unit();
    facts::integers_are_finite(frame.width);
    facts::integers_are_finite(frame.height);
    facts::quotient_by_itself(float::from_int(frame.width as int));
    facts::quotient_by_itself(float::from_int(frame.height as int));
    lemma_scale_by_one(z.x);
    lemma_scale_by_one(z.y);
    lemma_scale_by_one(z.w);
    lemma_scale_by_one(z.h);
}

proof fn lemma_scale_by_one(n: u32)
    requires
        n <= 0x100_0000,
    ensures
        zones::scaled(n, F32 { bits: ONE }) == n,
{
    facts::small_integers_are_exact(n as int);
    facts::product_with_one(float::from_int(n as int));
    facts::small_integers_round_to_themselves(n as int, u32::MAX as int);
}

/// A table built for gamma one changes no colour.
pub proof fn gamma_one_changes_nothing(lut: GammaLut, powers: Seq<F32>, c: LedColor)
    requires
        powers.len() == 256,
        forall|i: int| 0 <= i < 256 ==> #[trigger] powers[i] == color::fraction_of_full(i as u8),
        lut.entries() == Seq::new(
            256,
            |i: int| color::channel(float::product(powers[i], color::lit(BYTE_MAX))),
        ),
    ensures
        color::corrected(c, lut) == c,
{
    lemma_full_and_back(c.r);
    lemma_full_and_back(c.g);
    lemma_full_and_back(c.b);
    assert(powers[c.r as int] == color::fraction_of_full(c.r));
    assert(powers[c.g as int] == color::fraction_of_full(c.g));
    assert(powers[c.b as int] == color::fraction_of_full(c.b));
}

/// The pattern of 255.0 holds 255.
pub proof fn lemma_full_is_255()
    ensures
        color::number(255) == color::lit(BYTE_MAX),
{
    lemma2_to64();
    round::lemma_form(133, 0xFF_0000);
    lemma_pow2_adds(16, 133);
    round::lemma_exact(BYTE_MAX as int, 255 * float::unit(), 1);
    round::lemma_nearest_is(BYTE_MAX, 255 * float::unit(), 1);
}

/// A channel as a fraction of full, times full, is that channel.
pub proof fn lemma_full_and_back(c: u8)
    ensures
        color::channel(float::product(color::fraction_of_full(c), color::lit(BYTE_MAX))) == c,
{
    lemma_full_is_255();
    facts::ratio_scales_exactly(c as int, 255);
    facts::product_commutes(color::fraction_of_full(c), color::lit(BYTE_MAX));
}

/// Settings at their neutral value change no colour.
pub proof fn neutral_settings_change_nothing(c: LedColor, f: WhiteFactors, zero: F32)
    requires
        zero.zero(),
    ensures
        color::shifted(c, HslOffsets { h: zero, s: zero, l: zero }) == c,
        color::balanced(c, NEUTRAL_KELVIN, f) == c,
        color::warmed(c, zero) == c,
        color::raised(c, zero) == c,
        color::boosted(c, F32 { bits: ONE }) == c,
        color::limited(c, 255) == c,
{
    lemma2_to64();
    round::lemma_form(0, 0);
}

/// Scaling a colour by the ratio of `m` to its largest channel brings that channel to `m`.
proof fn lemma_scale_peak(c: LedColor, m: u8)
    requires
        color::peak(c) > 0,
    ensures
        ({
            let s = float::quotient(color::number(m), color::number(color::peak(c)));
            color::peak(color::scaled_color(c, s, s, s)) == m
        }),
{
    let p = color::peak(c);
    let s = float::quotient(color::number(m), color::number(p));
    facts::ratio_scales_exactly(m as int, p as int);
    facts::scaling_is_monotone(c.r as int, p as int, s);
    facts::scaling_is_monotone(c.g as int, p as int, s);
    facts::scaling_is_monotone(c.b as int, p as int, s);
    lemma_channel_range(float::product(color::number(c.r), s));
    lemma_channel_range(float::product(color::number(c.g), s));
    lemma_channel_range(float::product(color::number(c.b), s));
}

proof fn lemma_channel_range(x: F32)
    ensures
        0 <= float::round_to(x, 255) <= 255,
{
    facts::one_is_unit();
    if !x.nan() && !x.negative() && !x.infinite() {
        round::lemma_monotone(0, x.mag_bits());
        vstd::arithmetic::div_mod::lemma_div_pos_is_pos(
            2 * x.mag() + float::unit(),
            2 * float::unit(),
        );
    }
}

/// After the brightness limit no channel is above it: a colour within it is kept, and another's
/// largest channel lands on it.
pub proof fn brightness_limit_holds(c: LedColor, max_byte: u8)
    ensures
        color::peak(color::limited(c, max_byte)) == if color::peak(c) <= max_byte {
            color::peak(c)
        } else {
            max_byte
        },
        color::limited(c, max_byte).r <= max_byte,
        color::limited(c, max_byte).g <= max_byte,
        color::limited(c, max_byte).b <= max_byte,
        color::peak(c) <= max_byte ==> color::limited(c, max_byte) == c,
{
    if color::peak(c) > max_byte {
        lemma_scale_peak(c, max_byte);
    }
}

/// Limiting twice is limiting once.
pub proof fn brightness_limit_is_idempotent(c: LedColor, max_byte: u8)
    ensures
        color::limited(color::limited(c, max_byte), max_byte) == color::limited(c, max_byte),
{
    brightness_limit_holds(c, max_byte);
}

/// After a positive luminosity floor no LED is below it: a colour at or above it is kept, and
/// another's largest channel lands on it.
pub proof fn luminosity_floor_holds(c: LedColor, floor: F32)
    requires
        !float::less_eq(floor, F32 { bits: 0 }),
    ensures
        color::peak(color::raised(c, floor)) == if color::peak(c) >= color::floor_byte(floor) {
            color::peak(c)
        } else {
            color::floor_byte(floor)
        },
        color::peak(c) > 0 && color::peak(c) >= color::floor_byte(floor) ==> color::raised(
            c,
            floor,
        ) == c,
{
    if 0 < color::peak(c) < color::floor_byte(floor) {
        lemma_scale_peak(c, color::floor_byte(floor));
    }
}

/// A gain that would push a channel past 255 brings the largest channel to 255.
pub proof fn gain_stops_at_full(c: LedColor, gain: F32)
    requires
        gain != (F32 { bits: ONE }),
        float::less(
            F32 { bits: BYTE_MAX },
            float::product(color::number(color::peak(c)), gain),
        ),
    ensures
        color::peak(color::boosted(c, gain)) == 255,
{
    lemma_full_is_255();
    if color::peak(c) == 0 {
        lemma_nothing_to_boost(gain);
    } else {
        lemma_scale_peak(c, 255);
    }
}

proof fn lemma_nothing_to_boost(gain: F32)
    ensures
        !float::less(F32 { bits: BYTE_MAX }, float::product(color::number(0), gain)),
{
    facts::one_is_unit();
    facts::zero_is_zero();
    facts::small_integers_are_exact(0);
    let u = float::unit();
    let m = gain.mag();
    assert(0 * u == 0 && 0 * m == 0);
    round::lemma_exact(0, 0, u);
    round::lemma_nearest_is(0, 0, u);
    round::lemma_monotone(0, BYTE_MAX as int);
    if color::number(0).mag_bits() > 0 {
        round::lemma_monotone(0, color::number(0).mag_bits());
    }
}

/// The powers of two that the error bounds speak of, against the unit.
pub proof fn lemma_powers()
    ensures
        pow2(158) == 512 * float::unit(),
        0x1_0000 * pow2(133) == float::unit(),
        pow2(149) == float::unit(),
        0x200_0000 * pow2(124) == float::unit(),
{
    lemma2_to64();
    lemma_pow2_adds(9, 149);
    lemma_pow2_adds(16, 133);
    lemma_pow2_adds(25, 124);
}

/// One less a fraction is off by at most 2^-25.
pub proof fn lemma_complement(a: F32)
    requires
        a.finite(),
        0 <= a.value() <= float::unit(),
    ensures
        ({
            let p = float::difference(F32 { bits: ONE }, a);
            &&& p.finite()
            &&& !p.negative()
            &&& 0 <= p.mag() <= float::unit()
            &&& 0x200_0000 * p.mag() <= 0x200_0000 * (float::unit() - a.value()) + float::unit()
            &&& 0x200_0000 * (float::unit() - a.value()) <= 0x200_0000 * p.mag() + float::unit()
        }),
{
    let u = float::unit();
    facts::one_is_unit();
    facts::zero_is_zero();
    lemma_powers();
    round::lemma_monotone(0, a.mag_bits());
    let v = u - a.value();
    let n = float::negation(a);
    assert(n.mag_bits() == a.mag_bits());
    assert(n.value() == -a.value());
    if v > 0 {
        facts::overshoot(v, 1, 127);
        facts::undershoot(v, 1, 127);
        facts::rounding_stays_below(v, 1, ONE);
        let b = float::nearest(v, 1);
        round::lemma_monotone(0, b as int);
        round::lemma_monotone(b as int, ONE as int);
    }
}

/// A channel's share is off by at most 2^-16.
pub proof fn lemma_share(c: u8, p: F32)
    requires
        p.finite(),
        0 <= p.mag() <= float::unit(),
        p.negative() ==> p.mag() == 0,
    ensures
        ({
            let x = float::product(color::number(c), p);
            &&& x.finite()
            &&& 0 <= x.value()
            &&& 0x1_0000 * x.value() <= 0x1_0000 * (c * p.mag()) + float::unit()
            &&& 0x1_0000 * (c * p.mag()) <= 0x1_0000 * x.value() + float::unit()
        }),
{
    let u = float::unit();
    facts::one_is_unit();
    facts::zero_is_zero();
    facts::small_integers_are_exact(c as int);
    lemma_powers();
    let pm = p.mag();
    let num = (c * u) * pm;
    assert(0 <= num <= (512 * u) * u) by (nonlinear_arith)
        requires
            num == (c * u) * pm,
            0 <= c <= 255,
            0 <= pm <= u,
            u > 0,
    {
        assert(0 <= c * u <= 512 * u);
    }
    facts::overshoot(num, u, 136);
    facts::undershoot(num, u, 136);
    let b = float::nearest(num, u);
    round::lemma_monotone(0, b as int);
    let m = float::magnitude(b as int);
    if pm == 0 {
        assert((c * u) * 0 == 0);
        assert(0 * u == 0);
        round::lemma_exact(0, 0, u);
        round::lemma_nearest_is(0, 0, u);
    }
    let e = pow2(133) as int;
    assert(0x1_0000 * m <= 0x1_0000 * (c * pm) + u) by (nonlinear_arith)
        requires
            m * u <= num + e * u,
            num == (c * u) * pm,
            0x1_0000 * e == u,
            u > 0,
    {
        assert(num == (c * pm) * u);
        assert(m * u <= (c * pm + e) * u);
        assert(m <= c * pm + e);
    }
    assert(0x1_0000 * (c * pm) <= 0x1_0000 * m + u) by (nonlinear_arith)
        requires
            num <= m * u + e * u,
            num == (c * u) * pm,
            0x1_0000 * e == u,
            u > 0,
    {
        assert(num == (c * pm) * u);
        assert((c * pm) * u <= (m + e) * u);
        assert(c * pm <= m + e);
    }
    assert(c * 0 == 0);
}

/// A blend of two channels is not above both.
pub proof fn blend_stays_within(last: u8, cur: u8, alpha: F32, max: u8)
    requires
        last <= max,
        cur <= max,
    ensures
        smoothing::blended_channel(last, cur, color::unit_clamped(alpha)) <= max,
{
    let a = color::unit_clamped(alpha);
    let u = float::unit();
    facts::one_is_unit();
    facts::zero_is_zero();
    let p = float::difference(F32 { bits: ONE }, a);
    let x = float::product(color::number(last), p);
    let y = float::product(color::number(cur), a);
    let z = float::sum(x, y);
    if a.nan() {
        assert(y.nan());
        assert(z.nan());
    } else {
        lemma_powers();
        round::lemma_monotone(0, a.mag_bits());
        if a.mag_bits() >= float::INFINITY {
            round::lemma_monotone(ONE as int, a.mag_bits());
        }
        let va = a.value();
        assert(0 <= va <= u);
        lemma_complement(a);
        lemma_share(last, p);
        lemma_share(cur, a);
        let pm = p.mag();
        let t = x.value() + y.value();
        assert(last * pm + cur * va <= max * (pm + va)) by (nonlinear_arith)
            requires
                last <= max,
                cur <= max,
                0 <= pm,
                0 <= va,
        ;
        assert(0x200_0000 * (max * (pm + va)) <= 0x200_0000 * (max * u) + 255 * u)
            by (nonlinear_arith)
            requires
                0x200_0000 * pm <= 0x200_0000 * (u - va) + u,
                0 <= max <= 255,
                u > 0,
        {
            assert(0x200_0000 * (pm + va) <= 0x200_0000 * u + u);
            assert(max * (0x200_0000 * (pm + va)) <= max * (0x200_0000 * u + u));
            assert(max * u <= 255 * u);
        }
        assert(max * u <= 255 * u) by (nonlinear_arith)
            requires
                max <= 255,
                u > 0,
        ;
        assert(2 * t + 2 * pow2(133) < 2 * (max * u) + u);
        if t > 0 {
            facts::overshoot(t, 1, 136);
            let zb = float::nearest(t, 1);
            assert(z == (F32 { bits: zb }));
            let zv = float::magnitude(zb as int);
            round::lemma_monotone(0, zb as int);
            let w = max + 1;
            assert(2 * zv + u < w * (2 * u)) by (nonlinear_arith)
                requires
                    2 * zv < 2 * (max * u) + u,
                    w == max + 1,
            ;
            lemma_div_below(2 * zv + u, 2 * u, w);
        } else {
            assert(z.mag() == 0);
            assert(u < 1 * (2 * u));
            lemma_div_below(u, 2 * u, 1);
        }
    }
    lemma_channel_range(z);
}

proof fn lemma_div_below(x: int, d: int, w: int)
    requires
        d > 0,
        x < w * d,
    ensures
        x / d < w,
{
    assert(x / d < w) by (nonlinear_arith)
        requires
            d > 0,
            x < w * d,
    ;
}

proof fn lemma_div_at_least(x: int, d: int, w: int)
    requires
        d > 0,
        w * d <= x,
    ensures
        w <= x / d,
{
    assert(w <= x / d) by (nonlinear_arith)
        requires
            d > 0,
            w * d <= x,
    ;
}

/// A blend of two channels is not below both.
pub proof fn blend_stays_above(last: u8, cur: u8, alpha: F32, min: u8)
    requires
        !alpha.nan(),
        min <= last,
        min <= cur,
    ensures
        min <= smoothing::blended_channel(last, cur, color::unit_clamped(alpha)),
{
    let a = color::unit_clamped(alpha);
    let u = float::unit();
    facts::one_is_unit();
    facts::zero_is_zero();
    let p = float::difference(F32 { bits: ONE }, a);
    let x = float::product(color::number(last), p);
    let y = float::product(color::number(cur), a);
    let z = float::sum(x, y);
    lemma_powers();
    round::lemma_monotone(0, a.mag_bits());
    if a.mag_bits() >= float::INFINITY {
        round::lemma_monotone(ONE as int, a.mag_bits());
    }
    let va = a.value();
    assert(0 <= va <= u);
    lemma_complement(a);
    lemma_share(last, p);
    lemma_share(cur, a);
    let pm = p.mag();
    let t = x.value() + y.value();
    assert(min * (pm + va) <= last * pm + cur * va) by (nonlinear_arith)
        requires
            min <= last,
            min <= cur,
            0 <= pm,
            0 <= va,
    ;
    assert(0x200_0000 * (min * u) <= 0x200_0000 * (min * (pm + va)) + 255 * u)
        by (nonlinear_arith)
        requires
            0x200_0000 * (u - va) <= 0x200_0000 * pm + u,
            0 <= min <= 255,
            u > 0,
    {
        assert(0x200_0000 * u <= 0x200_0000 * (pm + va) + u);
        assert(min * (0x200_0000 * u) <= min * (0x200_0000 * (pm + va) + u));
        assert(min * u <= 255 * u);
    }
    assert(2 * (min * u) <= 2 * t + u - 2 * pow2(133));
    if t > 0 {
        assert(last * pm <= 255 * u) by (nonlinear_arith)
            requires
                last <= 255,
                0 <= pm <= u,
        ;
        assert(cur * va <= 255 * u) by (nonlinear_arith)
            requires
                cur <= 255,
                0 <= va <= u,
        ;
        facts::overshoot(t, 1, 136);
        facts::undershoot(t, 1, 136);
        let zb = float::nearest(t, 1);
        assert(z == (F32 { bits: zb }));
        let zv = float::magnitude(zb as int);
        round::lemma_monotone(0, zb as int);
        assert(min * (2 * u) == 2 * (min * u)) by (nonlinear_arith);
        lemma_div_at_least(2 * zv + u, 2 * u, min as int);
    } else {
        assert(z.mag() == 0);
        if min > 0 {
            assert(min * u >= u) by (nonlinear_arith)
                requires
                    min >= 1,
                    u > 0,
            ;
        }
    }
    lemma_channel_range(z);
}

/// Whether no channel of any colour is above a limit.
pub open spec fn within(colors: Seq<LedColor>, max: u8) -> bool {
    forall|i: int| 0 <= i < colors.len() ==> color::peak(#[trigger] colors[i]) <= max
}

/// As long as what was shown keeps the brightness limit, so does what is shown next. Nothing was
/// shown at first, so the strip never exceeds the limit.
pub proof fn strip_keeps_the_limit(p: Pipeline, frame: Frame, gain: F32, decay: F32)
    requires
        within(p.shown(), p.settings().color.brightness_max),
    ensures
        within(p.result(frame, gain, decay), p.settings().color.brightness_max),
{
    let max = p.settings().color.brightness_max;
    let cur = p.corrected(frame, gain);
    let last = p.shown();
    let cfg = p.settings();
    let (lut, white, tables) = p.tools();
    let raw = reduce::zone_colors(
        frame,
        cfg.led_matrix,
        stage::pipeline_subsample(cfg),
        cfg.color.averaging,
        tables,
    );
    assert forall|i: int| 0 <= i < cur.len() implies color::peak(#[trigger] cur[i]) <= max by {
        let c1 = color::corrected(raw[i], lut);
        let c2 = color::shifted(c1, cfg.color.hsl_offsets);
        let c3 = color::balanced(c2, cfg.color.white_balance_kelvin, white);
        let c4 = color::warmed(c3, cfg.color.night_light_strength);
        let c5 = color::raised(c4, cfg.color.luminosity_floor);
        brightness_limit_holds(color::boosted(c5, gain), max);
    }
    let alpha = smoothing::alpha_of(smoothing::tau_of(cfg.smoothing.time_constant_ms), decay);
    let next = p.result(frame, gain, decay);
    assert forall|i: int| 0 <= i < next.len() implies color::peak(#[trigger] next[i]) <= max by {
        assert(color::peak(cur[i]) <= max);
        if last.len() == cur.len() {
            assert(color::peak(last[i]) <= max);
            blend_stays_within(last[i].r, cur[i].r, alpha, max);
            blend_stays_within(last[i].g, cur[i].g, alpha, max);
            blend_stays_within(last[i].b, cur[i].b, alpha, max);
        }
    }
}

/// A colour blended with itself stays as it is, whatever the blend factor.
pub proof fn steady_color_stays(c: LedColor, alpha: F32)
    requires
        !alpha.nan(),
    ensures
        smoothing::blended(c, c, alpha) == c,
{
    blend_stays_above(c.r, c.r, alpha, c.r);
    blend_stays_above(c.g, c.g, alpha, c.g);
    blend_stays_above(c.b, c.b, alpha, c.b);
    blend_stays_within(c.r, c.r, alpha, c.r);
    blend_stays_within(c.g, c.g, alpha, c.g);
    blend_stays_within(c.b, c.b, alpha, c.b);
}

proof fn lemma_alpha_is_a_number(tau: F32, decay: F32)
    requires
        !decay.nan(),
    ensures
        !smoothing::alpha_of(tau, decay).nan(),
{
    let one = F32 { bits: ONE };
    let n = float::negation(decay);
    assert(n.mag_bits() == decay.mag_bits());
    let v = one.value() + n.value();
    if v > 0 {
        facts::nearest_exists(v, 1);
    } else if v < 0 {
        facts::nearest_exists(-v, 1);
    }
}

/// A picture that is shown and does not change is shown again as it is.
pub proof fn steady_picture_stays(p: Pipeline, frame: Frame, gain: F32, decay: F32)
    requires
        !decay.nan(),
        p.shown() == p.corrected(frame, gain),
    ensures
        p.result(frame, gain, decay) == p.shown(),
{
    let cur = p.corrected(frame, gain);
    let tau = smoothing::tau_of(p.settings().smoothing.time_constant_ms);
    let alpha = smoothing::alpha_of(tau, decay);
    lemma_alpha_is_a_number(tau, decay);
    assert forall|i: int| 0 <= i < cur.len() implies #[trigger] p.result(frame, gain, decay)[i]
        == cur[i] by {
        steady_color_stays(cur[i], alpha);
    }
    assert(p.result(frame, gain, decay) =~= cur);
}

/// What correction makes of a zone.
proof fn lemma_corrected_zone(p: Pipeline, frame: Frame, gain: F32, i: int)
    requires
        0 <= i < p.settings().led_matrix.zones@.len(),
    ensures
        ({
            let cfg = p.settings();
            let (lut, white, tables) = p.tools();
            let pixels = zones::samples(
                frame,
                zones::frame_zone(frame, cfg.led_matrix, i),
                zones::sampling_step(stage::pipeline_subsample(cfg)),
            );
            p.corrected(frame, gain)[i] == stage::finished(
                reduce::reduced(cfg.color.averaging, tables, pixels),
                cfg,
                lut,
                white,
                gain,
            )
        }),
{
}

/// Whether settings leave a colour as it is.
pub open spec fn neutral_for(c: LedColor, p: Pipeline) -> bool {
    let s = p.settings().color;
    let zero = F32 { bits: 0 };
    &&& color::corrected(c, p.tools().0) == c
    &&& s.hsl_offsets == (HslOffsets { h: zero, s: zero, l: zero })
    &&& s.white_balance_kelvin == NEUTRAL_KELVIN
    &&& s.night_light_strength == zero
    &&& s.luminosity_floor == zero
    &&& s.brightness_max == 255
}

proof fn lemma_neutral(c: LedColor, p: Pipeline)
    requires
        neutral_for(c, p),
    ensures
        stage::finished(c, p.settings(), p.tools().0, p.tools().1, F32 { bits: ONE }) == c,
{
    neutral_settings_change_nothing(c, p.tools().1, F32 { bits: 0 });
}

/// With neutral settings, a zone of one colour is shown in that colour, under every averaging.
/// Smoothing is neutral with a time constant of zero, and where nothing was shown before. The
/// dominant colour is taken of up to 2^17 pixels: far beyond, single precision loses it.
pub proof fn neutral_pipeline_keeps_solid_zones(
    p: Pipeline,
    frame: Frame,
    decay: F32,
    i: int,
    c: LedColor,
)
    requires
        p.tools().2.valid(),
        0 <= i < p.settings().led_matrix.zones@.len(),
        ({
            let cfg = p.settings();
            let pixels = zones::samples(
                frame,
                zones::frame_zone(frame, cfg.led_matrix, i),
                zones::sampling_step(stage::pipeline_subsample(cfg)),
            );
            &&& 0 < pixels.len() <= u64::MAX
            &&& cfg.color.averaging == AveragingMode::DominantAdv ==> pixels.len() <= 0x2_0000
            &&& forall|k: int| 0 <= k < pixels.len() ==> #[trigger] pixels[k] == c
        }),
        neutral_for(c, p),
        p.settings().smoothing.time_constant_ms == (F32 { bits: 0 }) || p.shown().len() == 0,
    ensures
        p.result(frame, F32 { bits: ONE }, decay)[i] == c,
{
    let cfg = p.settings();
    let tables = p.tools().2;
    let gain = F32 { bits: ONE };
    let pixels = zones::samples(
        frame,
        zones::frame_zone(frame, cfg.led_matrix, i),
        zones::sampling_step(stage::pipeline_subsample(cfg)),
    );
    assert(reduce::reduced(cfg.color.averaging, tables, pixels) == c) by {
        solid::solid_linear_mean(tables, pixels, c);
        solid::solid_root_mean_square(tables, pixels, c);
        if cfg.color.averaging == AveragingMode::DominantAdv {
            solid::solid_dominant(tables, pixels, c);
        }
    }
    let cur = p.corrected(frame, gain);
    assert(cur[i] == c) by {
        lemma_corrected_zone(p, frame, gain, i);
        lemma_neutral(c, p);
    }
    if cfg.smoothing.time_constant_ms == (F32 { bits: 0 }) {
        lemma_no_smoothing(decay);
        smoothing::full_blend_is_pass_through(p.shown(), cur);
    }
}

/// A time constant of zero blends fully.
proof fn lemma_no_smoothing(decay: F32)
    ensures
        smoothing::alpha_of(smoothing::tau_of(F32 { bits: 0 }), decay) == (F32 { bits: ONE }),
{
    let thousand = F32 { bits: smoothing::THOUSAND };
    facts::zero_is_zero();
    assert(thousand.mag() > 0) by {
        round::lemma_monotone(0, smoothing::THOUSAND as int);
    }
    facts::zero_over_a_number(thousand);
}

} // verus!
