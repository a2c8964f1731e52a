//! Per-LED colour correction: gamma, HSL offsets, white balance, night light, luminosity floor,
//! brightness gain and brightness limit. Every step works in place.

use vstd::prelude::*;

use crate::config::schema::HslOffsets;
use crate::float;
use crate::float::{F32, ONE};

use super::correction_laws;
use super::LedColor;

verus! {

/// The pattern of 255.0.
pub const BYTE_MAX: u32 = 0x437F_0000;

/// The pattern of 0.5.
pub const HALF: u32 = 0x3F00_0000;

/// The pattern of 2.0.
pub const TWO: u32 = 0x4000_0000;

/// The pattern of 3.0.
pub const THREE: u32 = 0x4040_0000;

/// The pattern of 6.0.
pub const SIX: u32 = 0x40C0_0000;

/// The pattern of one third.
pub const THIRD: u32 = 0x3EAA_AAAB;

/// The pattern of two thirds.
pub const TWO_THIRDS: u32 = 0x3F2A_AAAB;

/// The pattern of 0.01.
pub const HUNDREDTH: u32 = 0x3C23_D70A;

/// The pattern of 2^-23, the step from one to the next number.
pub const EPSILON: u32 = 0x3400_0000;

/// The pattern of 0.7.
pub const SEVEN_TENTHS: u32 = 0x3F33_3333;

/// The pattern of 0.3.
pub const THREE_TENTHS: u32 = 0x3E99_999A;

/// The pattern of 30.0.
pub const THIRTY: u32 = 0x41F0_0000;

/// The pattern of 765.0, three full channels.
pub const THREE_BYTES_MAX: u32 = 0x443F_4000;

/// The pattern of 100.0.
pub const HUNDRED: u32 = 0x42C8_0000;

/// The pattern of 66.0.
pub const SIXTY_SIX: u32 = 0x4284_0000;

/// The pattern of 60.0.
pub const SIXTY: u32 = 0x4270_0000;

/// The pattern of 19.0.
pub const NINETEEN: u32 = 0x4198_0000;

/// The pattern of 10.0.
pub const TEN: u32 = 0x4120_0000;

/// The colour temperature that is left as it is.
pub const NEUTRAL_KELVIN: u32 = 6500;

/// The pattern of 99.4708, the green factor below 6600 K.
pub const GREEN_LOG_FACTOR: u32 = 0x42C6_F10D;

/// The pattern of 161.11957, the green offset below 6600 K.
pub const GREEN_LOG_OFFSET: u32 = 0x4321_1E9C;

/// The pattern of 138.51773, the blue factor below 6600 K.
pub const BLUE_LOG_FACTOR: u32 = 0x430A_848A;

/// The pattern of 305.0448, the blue offset below 6600 K.
pub const BLUE_LOG_OFFSET: u32 = 0x4398_85BC;

/// The pattern of 329.69873, the red factor above 6600 K.
pub const RED_POWER_FACTOR: u32 = 0x43A4_D970;

/// The pattern of -0.13320476, the red exponent above 6600 K.
pub const RED_EXPONENT: u32 = 0xBE08_66D4;

/// The pattern of 288.12216, the green factor above 6600 K.
pub const GREEN_POWER_FACTOR: u32 = 0x4390_0FA3;

/// The pattern of -0.07551485, the green exponent above 6600 K.
pub const GREEN_EXPONENT: u32 = 0xBD9A_A788;

/// The number with the given pattern.
pub open spec fn lit(bits: u32) -> F32 {
    F32 { bits }
}

/// A channel as a number.
pub open spec fn number(c: u8) -> F32 {
    float::from_int(c as int)
}

/// The channel that a number rounds to.
pub open spec fn channel(x: F32) -> u8 {
    float::round_to(x, 255) as u8
}

fn to_channel(x: F32) -> (c: u8)
    ensures
        c == channel(x),
{
    x.rounded_at_most(255) as u8
}

fn from_channel(c: u8) -> (x: F32)
    ensures
        x == number(c),
{
    F32::from_u32(c as u32)
}

/// The largest channel.
pub open spec fn peak(c: LedColor) -> u8 {
    if c.r >= c.g && c.r >= c.b {
        c.r
    } else if c.g >= c.b {
        c.g
    } else {
        c.b
    }
}

fn peak_of(c: &LedColor) -> (p: u8)
    ensures
        p == peak(*c),
{
    if c.r >= c.g && c.r >= c.b {
        c.r
    } else if c.g >= c.b {
        c.g
    } else {
        c.b
    }
}

/// A channel times a factor.
pub open spec fn scaled_channel(c: u8, factor: F32) -> u8 {
    channel(float::product(number(c), factor))
}

/// A colour with every channel times its own factor.
pub open spec fn scaled_color(c: LedColor, r: F32, g: F32, b: F32) -> LedColor {
    LedColor { r: scaled_channel(c.r, r), g: scaled_channel(c.g, g), b: scaled_channel(c.b, b) }
}

fn scale_channel(c: u8, factor: F32) -> (r: u8)
    ensures
        r == scaled_channel(c, factor),
{
    to_channel(from_channel(c).times(factor))
}

/// The exponent that a gamma setting asks for.
pub open spec fn exponent(gamma: F32) -> F32 {
    if float::less(lit(0), gamma) {
        gamma
    } else {
        lit(ONE)
    }
}

/// The exponent that a gamma setting asks for: one, unless the setting is positive.
pub fn effective_gamma(gamma: F32) -> (g: F32)
    ensures
        g == exponent(gamma),
{
    if (F32 { bits: 0 }).lt(gamma) {
        gamma
    } else {
        F32 { bits: ONE }
    }
}

/// A channel as a fraction of full.
pub open spec fn fraction_of_full(c: u8) -> F32 {
    float::quotient(number(c), lit(BYTE_MAX))
}

/// A channel as a fraction of full.
pub fn normalized(c: u8) -> (x: F32)
    ensures
        x == fraction_of_full(c),
{
    from_channel(c).over(F32 { bits: BYTE_MAX })
}

/// What gamma correction makes of every channel value.
#[derive(Clone, Debug)]
pub struct GammaLut {
    table: Vec<u8>,
}

impl GammaLut {
    /// What every channel value is mapped to.
    pub closed spec fn entries(self) -> Seq<u8> {
        self.table@
    }

    /// Whether there is an entry for every channel value.
    pub open spec fn valid(self) -> bool {
        self.entries().len() == 256
    }

    /// The table for the given powers: `powers[i]` is the fraction `i / 255` raised to the
    /// effective gamma.
    pub fn new(powers: &Vec<F32>) -> (lut: GammaLut)
        requires
            powers@.len() == 256,
        ensures
            lut.valid(),
            lut.entries() == Seq::new(
                256,
                |i: int| channel(float::product(powers@[i], lit(BYTE_MAX))),
            ),
            forall|i: int|
                0 <= i < 256 && (#[trigger] powers@[i]).finite() && 0 <= powers@[i].value()
                    <= float::unit() ==> correction_laws::is_rounded(
                    lut.entries()[i],
                    255 * powers@[i].value(),
                    float::unit(),
                ),
    {
        let mut table: Vec<u8> = Vec::new();
        let mut i: usize = 0;
        while i < 256
            invariant
                i <= 256,
                powers@.len() == 256,
                table@ == Seq::new(
                    i as nat,
                    |j: int| channel(float::product(powers@[j], lit(BYTE_MAX))),
                ),
            decreases 256 - i,
        {
            table.push(to_channel(powers[i].times(F32 { bits: BYTE_MAX })));
            i += 1;
            assert(table@ =~= Seq::new(
                i as nat,
                |j: int| channel(float::product(powers@[j], lit(BYTE_MAX))),
            ));
        }
        let lut: GammaLut = GammaLut { table };
        proof {
            assert forall|i: int|
                0 <= i < 256 && (#[trigger] powers@[i]).finite() && 0 <= powers@[i].value()
                    <= float::unit() implies correction_laws::is_rounded(
                lut.entries()[i],
                255 * powers@[i].value(),
                float::unit(),
            ) by {
                correction_laws::gamma_entries_are_shares_of_full(lut, powers@, i as u8);
            }
        }
        lut
    }

    /// What a channel value is mapped to.
    pub fn lookup(&self, byte: u8) -> (r: u8)
        requires
            self.valid(),
        ensures
            r == self.entries()[byte as int],
    {
        self.table[byte as usize]
    }
}

/// A colour with gamma corrected.
pub open spec fn corrected(c: LedColor, lut: GammaLut) -> LedColor {
    LedColor {
        r: lut.entries()[c.r as int],
        g: lut.entries()[c.g as int],
        b: lut.entries()[c.b as int],
    }
}

/// Corrects gamma, channel by channel.
pub fn gamma(leds: &mut Vec<LedColor>, lut: &GammaLut)
    requires
        lut.valid(),
    ensures
        final(leds)@ == old(leds)@.map_values(|c: LedColor| corrected(c, *lut)),
{
    let ghost before = leds@;
    let mut i: usize = 0;
    while i < leds.len()
        invariant
            lut.valid(),
            i <= leds@.len(),
            leds@.len() == before.len(),
            forall|j: int| 0 <= j < i ==> #[trigger] leds@[j] == corrected(before[j], *lut),
            forall|j: int| i <= j < leds@.len() ==> #[trigger] leds@[j] == before[j],
        decreases leds@.len() - i,
    {
        let c: LedColor = leds[i];
        leds.set(
            i,
            LedColor { r: lut.lookup(c.r), g: lut.lookup(c.g), b: lut.lookup(c.b) },
        );
        i += 1;
    }
}

/// Hue, saturation and lightness, each from zero to one.
#[derive(Clone, Copy, Debug, PartialEq, Eq, Structural)]
pub struct Hsl {
    pub h: F32,
    pub s: F32,
    pub l: F32,
}

/// How far a channel lies from the largest, in sixths of a turn.
pub open spec fn hue_part(max: F32, c: F32, delta: F32) -> F32 {
    float::quotient(
        float::sum(
            float::quotient(float::difference(max, c), lit(SIX)),
            float::quotient(delta, lit(TWO)),
        ),
        delta,
    )
}

/// Whether two fractions are the same but for the last bit.
pub open spec fn same(a: F32, b: F32) -> bool {
    float::less(float::absolute(float::difference(a, b)), lit(EPSILON))
}

/// A hue brought back by one turn where it left the range.
pub open spec fn one_turn(h: F32) -> F32 {
    let up = if float::less(h, lit(0)) {
        float::sum(h, lit(ONE))
    } else {
        h
    };
    if float::less(lit(ONE), up) {
        float::difference(up, lit(ONE))
    } else {
        up
    }
}

/// The hue, saturation and lightness of a colour.
pub open spec fn hsl(c: LedColor) -> Hsl {
    let r = fraction_of_full(c.r);
    let g = fraction_of_full(c.g);
    let b = fraction_of_full(c.b);
    let max = float::larger(float::larger(r, g), b);
    let min = float::smaller(float::smaller(r, g), b);
    let delta = float::difference(max, min);
    let l = float::quotient(float::sum(max, min), lit(TWO));
    if float::less_eq(delta, lit(HUNDREDTH)) {
        Hsl { h: lit(0), s: lit(0), l }
    } else {
        let s = if float::less(l, lit(HALF)) {
            float::quotient(delta, float::sum(max, min))
        } else {
            float::quotient(
                delta,
                float::difference(float::difference(lit(TWO), max), min),
            )
        };
        let dr = hue_part(max, r, delta);
        let dg = hue_part(max, g, delta);
        let db = hue_part(max, b, delta);
        let h = if same(r, max) {
            float::difference(db, dg)
        } else if same(g, max) {
            float::difference(float::sum(lit(THIRD), dr), db)
        } else {
            float::difference(float::sum(lit(TWO_THIRDS), dg), dr)
        };
        Hsl { h: one_turn(h), s, l }
    }
}

/// One channel of a hue, between the levels `v1` and `v2`.
pub open spec fn hue_level(v1: F32, v2: F32, hue: F32) -> F32 {
    let vh = one_turn(hue);
    let span = float::difference(v2, v1);
    if float::less(float::product(lit(SIX), vh), lit(ONE)) {
        float::sum(v1, float::product(float::product(span, lit(SIX)), vh))
    } else if float::less(float::product(lit(TWO), vh), lit(ONE)) {
        v2
    } else if float::less(float::product(lit(THREE), vh), lit(TWO)) {
        float::sum(
            v1,
            float::product(
                float::product(span, float::difference(lit(TWO_THIRDS), vh)),
                lit(SIX),
            ),
        )
    } else {
        v1
    }
}

/// A number brought into the range from zero to one.
pub open spec fn unit_clamped(x: F32) -> F32 {
    float::clamped(x, lit(0), lit(ONE))
}

/// The colour with the given hue, saturation and lightness.
pub open spec fn rgb(x: Hsl) -> LedColor {
    let h = unit_clamped(x.h);
    let s = unit_clamped(x.s);
    let l = unit_clamped(x.l);
    if float::less_eq(s, lit(HUNDREDTH)) {
        let v = channel(float::product(l, lit(BYTE_MAX)));
        LedColor { r: v, g: v, b: v }
    } else {
        let v2 = if float::less(l, lit(HALF)) {
            float::product(l, float::sum(lit(ONE), s))
        } else {
            float::difference(float::sum(l, s), float::product(s, l))
        };
        let v1 = float::difference(float::product(lit(TWO), l), v2);
        let up = float::sum(h, lit(THIRD));
        let down = float::difference(h, lit(THIRD));
        LedColor {
            r: channel(float::product(lit(BYTE_MAX), hue_level(v1, v2, up))),
            g: channel(float::product(lit(BYTE_MAX), hue_level(v1, v2, h))),
            b: channel(float::product(lit(BYTE_MAX), hue_level(v1, v2, down))),
        }
    }
}

fn hue_distance(max: F32, c: F32, delta: F32) -> (r: F32)
    ensures
        r == hue_part(max, c, delta),
{
    let six: F32 = F32 { bits: SIX };
    let two: F32 = F32 { bits: TWO };
    max.minus(c).over(six).plus(delta.over(two)).over(delta)
}

fn turned(h: F32) -> (r: F32)
    ensures
        r == one_turn(h),
{
    let one: F32 = F32 { bits: ONE };
    let up: F32 = if h.lt(F32 { bits: 0 }) {
        h.plus(one)
    } else {
        h
    };
    if one.lt(up) {
        up.minus(one)
    } else {
        up
    }
}

fn is_same(a: F32, b: F32) -> (r: bool)
    ensures
        r == same(a, b),
{
    a.minus(b).abs().lt(F32 { bits: EPSILON })
}

/// The hue, saturation and lightness of a colour.
pub fn rgb_to_hsl(c: LedColor) -> (x: Hsl)
    ensures
        x == hsl(c),
{
    let zero: F32 = F32 { bits: 0 };
    let two: F32 = F32 { bits: TWO };
    let r: F32 = normalized(c.r);
    let g: F32 = normalized(c.g);
    let b: F32 = normalized(c.b);
    let max: F32 = r.max(g).max(b);
    let min: F32 = r.min(g).min(b);
    let delta: F32 = max.minus(min);
    let l: F32 = max.plus(min).over(two);
    if delta.le(F32 { bits: HUNDREDTH }) {
        return Hsl { h: zero, s: zero, l };
    }
    let s: F32 = if l.lt(F32 { bits: HALF }) {
        delta.over(max.plus(min))
    } else {
        delta.over(two.minus(max).minus(min))
    };
    let dr: F32 = hue_distance(max, r, delta);
    let dg: F32 = hue_distance(max, g, delta);
    let db: F32 = hue_distance(max, b, delta);
    let h: F32 = if is_same(r, max) {
        db.minus(dg)
    } else if is_same(g, max) {
        F32 { bits: THIRD }.plus(dr).minus(db)
    } else {
        F32 { bits: TWO_THIRDS }.plus(dg).minus(dr)
    };
    Hsl { h: turned(h), s, l }
}

fn hue_to_rgb(v1: F32, v2: F32, hue: F32) -> (r: F32)
    ensures
        r == hue_level(v1, v2, hue),
{
    let one: F32 = F32 { bits: ONE };
    let two: F32 = F32 { bits: TWO };
    let six: F32 = F32 { bits: SIX };
    let vh: F32 = turned(hue);
    let span: F32 = v2.minus(v1);
    if six.times(vh).lt(one) {
        return v1.plus(span.times(six).times(vh));
    }
    if two.times(vh).lt(one) {
        return v2;
    }
    if (F32 { bits: THREE }).times(vh).lt(two) {
        return v1.plus(span.times(F32 { bits: TWO_THIRDS }.minus(vh)).times(six));
    }
    v1
}

/// The colour with the given hue, saturation and lightness.
pub fn hsl_to_rgb(x: Hsl) -> (c: LedColor)
    ensures
        c == rgb(x),
{
    let zero: F32 = F32 { bits: 0 };
    let one: F32 = F32 { bits: ONE };
    let full: F32 = F32 { bits: BYTE_MAX };
    let third: F32 = F32 { bits: THIRD };
    let h: F32 = x.h.clamp(zero, one);
    let s: F32 = x.s.clamp(zero, one);
    let l: F32 = x.l.clamp(zero, one);
    if s.le(F32 { bits: HUNDREDTH }) {
        let v: u8 = to_channel(l.times(full));
        return LedColor { r: v, g: v, b: v };
    }
    let v2: F32 = if l.lt(F32 { bits: HALF }) {
        l.times(one.plus(s))
    } else {
        l.plus(s).minus(s.times(l))
    };
    let v1: F32 = F32 { bits: TWO }.times(l).minus(v2);
    LedColor {
        r: to_channel(full.times(hue_to_rgb(v1, v2, h.plus(third)))),
        g: to_channel(full.times(hue_to_rgb(v1, v2, h))),
        b: to_channel(full.times(hue_to_rgb(v1, v2, h.minus(third)))),
    }
}

/// Whether the offsets change nothing.
pub open spec fn no_offsets(o: HslOffsets) -> bool {
    o.h.zero() && o.s.zero() && o.l.zero()
}

/// A colour with its hue turned and its saturation and lightness shifted.
pub open spec fn shifted(c: LedColor, o: HslOffsets) -> LedColor {
    if no_offsets(o) {
        c
    } else {
        let x = hsl(c);
        rgb(
            Hsl {
                h: float::wrapped(float::sum(x.h, o.h)),
                s: unit_clamped(float::sum(x.s, o.s)),
                l: unit_clamped(float::sum(x.l, o.l)),
            },
        )
    }
}

/// Adds the offsets to hue, saturation and lightness: the hue wraps, the others are clamped.
/// Offsets of zero change nothing.
pub fn hsl_offset(leds: &mut Vec<LedColor>, offsets: &HslOffsets)
    ensures
        final(leds)@ == old(leds)@.map_values(|c: LedColor| shifted(c, *offsets)),
{
    let ghost before = leds@;
    if offsets.h.magnitude_bits() == 0 && offsets.s.magnitude_bits() == 0
        && offsets.l.magnitude_bits() == 0 {
        assert(leds@ =~= before.map_values(|c: LedColor| shifted(c, *offsets)));
        return;
    }
    let zero: F32 = F32 { bits: 0 };
    let one: F32 = F32 { bits: ONE };
    let mut i: usize = 0;
    while i < leds.len()
        invariant
            !no_offsets(*offsets),
            zero == lit(0),
            one == lit(ONE),
            i <= leds@.len(),
            leds@.len() == before.len(),
            forall|j: int| 0 <= j < i ==> #[trigger] leds@[j] == shifted(before[j], *offsets),
            forall|j: int| i <= j < leds@.len() ==> #[trigger] leds@[j] == before[j],
        decreases leds@.len() - i,
    {
        let x: Hsl = rgb_to_hsl(leds[i]);
        let h: F32 = x.h.plus(offsets.h).wrap();
        let s: F32 = x.s.plus(offsets.s).clamp(zero, one);
        let l: F32 = x.l.plus(offsets.l).clamp(zero, one);
        leds.set(i, hsl_to_rgb(Hsl { h, s, l }));
        i += 1;
    }
}

/// The factors of a colour temperature for red, green and blue.
#[derive(Clone, Copy, Debug, PartialEq, Eq, Structural)]
pub struct WhiteFactors {
    pub r: F32,
    pub g: F32,
    pub b: F32,
}

/// What a colour temperature's factors are computed from.
#[derive(Clone, Copy, Debug, PartialEq, Eq, Structural)]
pub enum KelvinPlan {
    /// Up to 6600 K: the logarithm of `green`, and that of `blue` where blue is not off.
    Warm { green: F32, blue: Option<F32> },
    /// Above 6600 K: `base` raised to the red and to the green exponent.
    Cool { base: F32 },
}

/// The logarithms or powers that a [`KelvinPlan`] asks for.
#[derive(Clone, Copy, Debug, PartialEq, Eq, Structural)]
pub enum KelvinTerms {
    Warm { green_log: F32, blue_log: Option<F32> },
    Cool { red_power: F32, green_power: F32 },
}

/// The plan for a colour temperature.
pub open spec fn plan_of(kelvin: u32) -> KelvinPlan {
    let temp = float::quotient(float::from_int(kelvin as int), lit(HUNDRED));
    if float::less_eq(temp, lit(SIXTY_SIX)) {
        KelvinPlan::Warm {
            green: float::larger(temp, lit(ONE)),
            blue: if float::less_eq(temp, lit(NINETEEN)) {
                None
            } else {
                Some(float::larger(float::difference(temp, lit(TEN)), lit(ONE)))
            },
        }
    } else {
        KelvinPlan::Cool { base: float::difference(temp, lit(SIXTY)) }
    }
}

/// A level brought into the range of a channel, as a fraction of full.
pub open spec fn level_fraction(x: F32) -> F32 {
    float::quotient(float::clamped(x, lit(0), lit(BYTE_MAX)), lit(BYTE_MAX))
}

/// The factors for the given terms.
pub open spec fn factors_of(terms: KelvinTerms) -> WhiteFactors {
    let full = float::quotient(lit(BYTE_MAX), lit(BYTE_MAX));
    match terms {
        KelvinTerms::Warm { green_log, blue_log } => WhiteFactors {
            r: full,
            g: level_fraction(
                float::difference(
                    float::product(lit(GREEN_LOG_FACTOR), green_log),
                    lit(GREEN_LOG_OFFSET),
                ),
            ),
            b: match blue_log {
                Some(x) => level_fraction(
                    float::difference(
                        float::product(lit(BLUE_LOG_FACTOR), x),
                        lit(BLUE_LOG_OFFSET),
                    ),
                ),
                None => float::quotient(lit(0), lit(BYTE_MAX)),
            },
        },
        KelvinTerms::Cool { red_power, green_power } => WhiteFactors {
            r: level_fraction(float::product(lit(RED_POWER_FACTOR), red_power)),
            g: level_fraction(float::product(lit(GREEN_POWER_FACTOR), green_power)),
            b: full,
        },
    }
}

/// What has to be computed for a colour temperature, by Tanner Helland's approximation.
pub fn kelvin_plan(kelvin: u32) -> (p: KelvinPlan)
    ensures
        p == plan_of(kelvin),
{
    let one: F32 = F32 { bits: ONE };
    let temp: F32 = F32::from_u32(kelvin).over(F32 { bits: HUNDRED });
    if temp.le(F32 { bits: SIXTY_SIX }) {
        let blue: Option<F32> = if temp.le(F32 { bits: NINETEEN }) {
            None
        } else {
            Some(temp.minus(F32 { bits: TEN }).max(one))
        };
        KelvinPlan::Warm { green: temp.max(one), blue }
    } else {
        KelvinPlan::Cool { base: temp.minus(F32 { bits: SIXTY }) }
    }
}

fn to_level_fraction(x: F32) -> (r: F32)
    ensures
        r == level_fraction(x),
{
    let full: F32 = F32 { bits: BYTE_MAX };
    x.clamp(F32 { bits: 0 }, full).over(full)
}

/// The factors of a colour temperature, from what its plan asked for.
pub fn kelvin_to_rgb_factors(terms: KelvinTerms) -> (f: WhiteFactors)
    ensures
        f == factors_of(terms),
{
    let full: F32 = F32 { bits: BYTE_MAX };
    match terms {
        KelvinTerms::Warm { green_log, blue_log } => {
            let g: F32 = F32 { bits: GREEN_LOG_FACTOR }.times(green_log).minus(
                F32 { bits: GREEN_LOG_OFFSET },
            );
            let b: F32 = match blue_log {
                Some(x) => to_level_fraction(
                    F32 { bits: BLUE_LOG_FACTOR }.times(x).minus(F32 { bits: BLUE_LOG_OFFSET }),
                ),
                None => F32 { bits: 0 }.over(full),
            };
            WhiteFactors { r: full.over(full), g: to_level_fraction(g), b }
        },
        KelvinTerms::Cool { red_power, green_power } => {
            let r: F32 = F32 { bits: RED_POWER_FACTOR }.times(red_power);
            let g: F32 = F32 { bits: GREEN_POWER_FACTOR }.times(green_power);
            WhiteFactors { r: to_level_fraction(r), g: to_level_fraction(g), b: full.over(full) }
        },
    }
}

/// Whether terms are what the plan for a colour temperature asks for.
pub open spec fn answers(kelvin: u32, terms: KelvinTerms) -> bool {
    match (plan_of(kelvin), terms) {
        (KelvinPlan::Warm { blue, .. }, KelvinTerms::Warm { blue_log, .. }) => (blue is Some) == (
        blue_log is Some),
        (KelvinPlan::Cool { .. }, KelvinTerms::Cool { .. }) => true,
        _ => false,
    }
}

/// The factors of a colour temperature, if the terms are what its plan asks for.
pub fn white_factors(kelvin: u32, terms: KelvinTerms) -> (r: Option<WhiteFactors>)
    ensures
        r == if answers(kelvin, terms) {
            Some(factors_of(terms))
        } else {
            None
        },
{
    let fits: bool = match (kelvin_plan(kelvin), terms) {
        (KelvinPlan::Warm { blue, .. }, KelvinTerms::Warm { blue_log, .. }) => blue.is_some()
            == blue_log.is_some(),
        (KelvinPlan::Cool { .. }, KelvinTerms::Cool { .. }) => true,
        _ => false,
    };
    if fits {
        Some(kelvin_to_rgb_factors(terms))
    } else {
        None
    }
}

/// A colour at a colour temperature with the given factors.
pub open spec fn balanced(c: LedColor, kelvin: u32, f: WhiteFactors) -> LedColor {
    if kelvin == NEUTRAL_KELVIN {
        c
    } else {
        scaled_color(c, f.r, f.g, f.b)
    }
}

/// Scales the channels to a colour temperature. The neutral temperature changes nothing.
pub fn white_balance(leds: &mut Vec<LedColor>, kelvin: u32, factors: &WhiteFactors)
    ensures
        final(leds)@ == old(leds)@.map_values(|c: LedColor| balanced(c, kelvin, *factors)),
{
    let ghost before = leds@;
    if kelvin == NEUTRAL_KELVIN {
        assert(leds@ =~= before.map_values(|c: LedColor| balanced(c, kelvin, *factors)));
        return;
    }
    let mut i: usize = 0;
    while i < leds.len()
        invariant
            kelvin != NEUTRAL_KELVIN,
            i <= leds@.len(),
            leds@.len() == before.len(),
            forall|j: int|
                0 <= j < i ==> #[trigger] leds@[j] == balanced(before[j], kelvin, *factors),
            forall|j: int| i <= j < leds@.len() ==> #[trigger] leds@[j] == before[j],
        decreases leds@.len() - i,
    {
        let c: LedColor = leds[i];
        leds.set(
            i,
            LedColor {
                r: scale_channel(c.r, factors.r),
                g: scale_channel(c.g, factors.g),
                b: scale_channel(c.b, factors.b),
            },
        );
        i += 1;
    }
}

/// The point from `a` towards `b` at `t`.
pub open spec fn blend(a: F32, b: F32, t: F32) -> F32 {
    float::sum(a, float::product(float::difference(b, a), t))
}

fn lerp(a: F32, b: F32, t: F32) -> (r: F32)
    ensures
        r == blend(a, b, t),
{
    a.plus(b.minus(a).times(t))
}

/// The red that night light adds to bright colours, in whole channel steps.
pub open spec fn red_boost(s: F32) -> int {
    float::floor_to(float::product(lit(THIRTY), s), 30)
}

/// Whether a colour is bright enough for night light to warm red and green too.
pub open spec fn is_bright(c: LedColor) -> bool {
    float::less(
        lit(HALF),
        float::quotient(
            float::sum(float::sum(number(c.r), number(c.g)), number(c.b)),
            lit(THREE_BYTES_MAX),
        ),
    )
}

/// A colour under night light of the given strength.
pub open spec fn warmed(c: LedColor, strength: F32) -> LedColor {
    if float::less_eq(strength, lit(0)) {
        c
    } else {
        let s = unit_clamped(strength);
        let r0 = number(c.r);
        let g0 = number(c.g);
        let b0 = number(c.b);
        let blue = float::difference(lit(ONE), float::product(lit(SEVEN_TENTHS), s));
        let green = float::difference(lit(ONE), float::product(lit(THREE_TENTHS), s));
        let warm_b = float::product(b0, blue);
        let warm_r = if is_bright(c) {
            float::smaller(float::sum(r0, float::from_int(red_boost(s))), lit(BYTE_MAX))
        } else {
            r0
        };
        let warm_g = if is_bright(c) {
            float::larger(float::product(g0, green), lit(0))
        } else {
            g0
        };
        LedColor {
            r: channel(blend(r0, warm_r, s)),
            g: channel(blend(g0, warm_g, s)),
            b: channel(blend(b0, warm_b, s)),
        }
    }
}

/// Shifts every LED towards warm: less blue, and on bright colours more red and less green. A
/// strength of zero or below changes nothing.
pub fn night_light(leds: &mut Vec<LedColor>, strength: F32)
    ensures
        final(leds)@ == old(leds)@.map_values(|c: LedColor| warmed(c, strength)),
{
    let ghost before = leds@;
    let zero: F32 = F32 { bits: 0 };
    let one: F32 = F32 { bits: ONE };
    let full: F32 = F32 { bits: BYTE_MAX };
    if strength.le(zero) {
        assert(leds@ =~= before.map_values(|c: LedColor| warmed(c, strength)));
        return;
    }
    let s: F32 = strength.clamp(zero, one);
    let blue: F32 = one.minus(F32 { bits: SEVEN_TENTHS }.times(s));
    let green: F32 = one.minus(F32 { bits: THREE_TENTHS }.times(s));
    let boost: F32 = F32::from_u32((F32 { bits: THIRTY }).times(s).floored_at_most(30));
    let mut i: usize = 0;
    while i < leds.len()
        invariant
            zero == lit(0),
            full == lit(BYTE_MAX),
            !float::less_eq(strength, lit(0)),
            s == unit_clamped(strength),
            blue == float::difference(lit(ONE), float::product(lit(SEVEN_TENTHS), s)),
            green == float::difference(lit(ONE), float::product(lit(THREE_TENTHS), s)),
            boost == float::from_int(red_boost(s)),
            i <= leds@.len(),
            leds@.len() == before.len(),
            forall|j: int| 0 <= j < i ==> #[trigger] leds@[j] == warmed(before[j], strength),
            forall|j: int| i <= j < leds@.len() ==> #[trigger] leds@[j] == before[j],
        decreases leds@.len() - i,
    {
        let c: LedColor = leds[i];
        let r0: F32 = from_channel(c.r);
        let g0: F32 = from_channel(c.g);
        let b0: F32 = from_channel(c.b);
        let brightness: F32 = r0.plus(g0).plus(b0).over(F32 { bits: THREE_BYTES_MAX });
        let warm_b: F32 = b0.times(blue);
        let mut warm_r: F32 = r0;
        let mut warm_g: F32 = g0;
        if (F32 { bits: HALF }).lt(brightness) {
            warm_r = r0.plus(boost).min(full);
            warm_g = g0.times(green).max(zero);
        }
        leds.set(
            i,
            LedColor {
                r: to_channel(lerp(r0, warm_r, s)),
                g: to_channel(lerp(g0, warm_g, s)),
                b: to_channel(lerp(b0, warm_b, s)),
            },
        );
        i += 1;
    }
}

/// The channel value of a luminosity floor.
pub open spec fn floor_byte(floor: F32) -> u8 {
    channel(float::product(unit_clamped(floor), lit(BYTE_MAX)))
}

/// A colour raised to a luminosity floor: its largest channel is scaled to the floor and the
/// others with it; black becomes grey.
pub open spec fn raised(c: LedColor, floor: F32) -> LedColor {
    let low = floor_byte(floor);
    if float::less_eq(floor, lit(0)) {
        c
    } else if peak(c) == 0 {
        LedColor { r: low, g: low, b: low }
    } else if peak(c) < low {
        let scale = float::quotient(number(low), number(peak(c)));
        scaled_color(c, scale, scale, scale)
    } else {
        c
    }
}

/// Raises every LED below the floor to it, keeping hue and saturation. A floor of zero or below
/// changes nothing.
pub fn luminosity_floor(leds: &mut Vec<LedColor>, floor: F32)
    ensures
        final(leds)@ == old(leds)@.map_values(|c: LedColor| raised(c, floor)),
{
    let ghost before = leds@;
    let zero: F32 = F32 { bits: 0 };
    if floor.le(zero) {
        assert(leds@ =~= before.map_values(|c: LedColor| raised(c, floor)));
        return;
    }
    let low: u8 = to_channel(floor.clamp(zero, F32 { bits: ONE }).times(F32 { bits: BYTE_MAX }));
    let mut i: usize = 0;
    while i < leds.len()
        invariant
            !float::less_eq(floor, lit(0)),
            low == floor_byte(floor),
            i <= leds@.len(),
            leds@.len() == before.len(),
            forall|j: int| 0 <= j < i ==> #[trigger] leds@[j] == raised(before[j], floor),
            forall|j: int| i <= j < leds@.len() ==> #[trigger] leds@[j] == before[j],
        decreases leds@.len() - i,
    {
        let c: LedColor = leds[i];
        let top: u8 = peak_of(&c);
        if top == 0 {
            leds.set(i, LedColor { r: low, g: low, b: low });
        } else if top < low {
            let scale: F32 = from_channel(low).over(from_channel(top));
            leds.set(
                i,
                LedColor {
                    r: scale_channel(c.r, scale),
                    g: scale_channel(c.g, scale),
                    b: scale_channel(c.b, scale),
                },
            );
        }
        i += 1;
    }
}

/// The factor that a gain has on a colour: the gain itself, or where that would push a channel
/// past 255, what brings the largest channel to 255.
pub open spec fn gain_factor(c: LedColor, gain: F32) -> F32 {
    let top = number(peak(c));
    if float::less(lit(BYTE_MAX), float::product(top, gain)) {
        float::quotient(lit(BYTE_MAX), top)
    } else {
        gain
    }
}

/// A colour under a brightness gain.
pub open spec fn boosted(c: LedColor, gain: F32) -> LedColor {
    if gain == lit(ONE) {
        c
    } else {
        let f = gain_factor(c, gain);
        scaled_color(c, f, f, f)
    }
}

/// Multiplies every channel by the gain; a channel that would pass 255 scales its LED
/// uniformly, to keep the hue. A gain of one changes nothing.
pub fn brightness_gain(leds: &mut Vec<LedColor>, gain: F32)
    ensures
        final(leds)@ == old(leds)@.map_values(|c: LedColor| boosted(c, gain)),
{
    let ghost before = leds@;
    if gain.bits == ONE {
        assert(leds@ =~= before.map_values(|c: LedColor| boosted(c, gain)));
        return;
    }
    let full: F32 = F32 { bits: BYTE_MAX };
    let mut i: usize = 0;
    while i < leds.len()
        invariant
            gain.bits != ONE,
            full == lit(BYTE_MAX),
            i <= leds@.len(),
            leds@.len() == before.len(),
            forall|j: int| 0 <= j < i ==> #[trigger] leds@[j] == boosted(before[j], gain),
            forall|j: int| i <= j < leds@.len() ==> #[trigger] leds@[j] == before[j],
        decreases leds@.len() - i,
    {
        let c: LedColor = leds[i];
        let top: F32 = from_channel(peak_of(&c));
        let factor: F32 = if full.lt(top.times(gain)) {
            full.over(top)
        } else {
            gain
        };
        leds.set(
            i,
            LedColor {
                r: scale_channel(c.r, factor),
                g: scale_channel(c.g, factor),
                b: scale_channel(c.b, factor),
            },
        );
        i += 1;
    }
}

/// A colour under a brightness limit: scaled down uniformly where its largest channel is above
/// the limit.
pub open spec fn limited(c: LedColor, max_byte: u8) -> LedColor {
    if peak(c) <= max_byte {
        c
    } else {
        let scale = float::quotient(number(max_byte), number(peak(c)));
        scaled_color(c, scale, scale, scale)
    }
}

/// Limits the largest channel of every LED by scaling it uniformly.
pub fn brightness_limit(leds: &mut Vec<LedColor>, max_byte: u8)
    ensures
        final(leds)@ == old(leds)@.map_values(|c: LedColor| limited(c, max_byte)),
{
    let ghost before = leds@;
    let max: F32 = from_channel(max_byte);
    let mut i: usize = 0;
    while i < leds.len()
        invariant
            max == number(max_byte),
            i <= leds@.len(),
            leds@.len() == before.len(),
            forall|j: int| 0 <= j < i ==> #[trigger] leds@[j] == limited(before[j], max_byte),
            forall|j: int| i <= j < leds@.len() ==> #[trigger] leds@[j] == before[j],
        decreases leds@.len() - i,
    {
        let c: LedColor = leds[i];
        let top: u8 = peak_of(&c);
        if top > max_byte {
            let scale: F32 = max.over(from_channel(top));
            leds.set(
                i,
                LedColor {
                    r: scale_channel(c.r, scale),
                    g: scale_channel(c.g, scale),
                    b: scale_channel(c.b, scale),
                },
            );
        }
        i += 1;
    }
}

} // verus!
