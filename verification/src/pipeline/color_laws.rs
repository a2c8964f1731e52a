//! Which way the colour corrections move a colour.

use vstd::prelude::*;
use vstd::arithmetic::power2::*;

use crate::float;
use crate::float::facts;
use crate::float::order;
use crate::float::round;
use crate::float::{F32, ONE};

use super::color;
use super::color::{
    GammaLut, KelvinTerms, BYTE_MAX, HALF, HUNDRED, NINETEEN, SEVEN_TENTHS, SIXTY_SIX, THIRTY,
    THREE_BYTES_MAX, THREE_TENTHS,
};
use super::laws;
use super::smoothing;
use super::LedColor;

verus! {

/// A channel as a number.
pub proof fn lemma_number(c: u8)
    ensures
        order::small(color::number(c)),
        !color::number(c).negative(),
        color::number(c).mag() == c * float::unit(),
        color::number(c).value() == c * float::unit(),
        0 <= c * float::unit() <= 255 * float::unit(),
        color::channel(color::number(c)) == c,
{
    facts::one_is_unit();
    facts::small_integers_are_exact(c as int);
    facts::small_integers_round_to_themselves(c as int, 255);
    let u = float::unit();
    assert(0 <= c * u <= 255 * u) by (nonlinear_arith)
        requires
            u > 0,
    ;
}

/// A number between two channels rounds to between them.
proof fn lemma_channel_order(x: F32, y: F32)
    requires
        x.finite(),
        y.finite(),
        x.value() <= y.value(),
    ensures
        color::channel(x) <= color::channel(y),
{
    order::rounding_to_integers_keeps_order(x, y, 255);
}

/// The table for powers that never fall never falls either. Where the first power is zero and the
/// last one, its ends are 0 and 255; and a power below, at or above the plain fraction gives an
/// entry that is not above, at or not below the channel itself.
pub proof fn gamma_table_follows_its_powers(lut: GammaLut, powers: Seq<F32>, a: u8, b: u8)
    requires
        powers.len() == 256,
        lut.entries() == Seq::new(
            256,
            |i: int| color::channel(float::product(powers[i], color::lit(BYTE_MAX))),
        ),
        forall|i: int|
            0 <= i < 256 ==> (#[trigger] powers[i]).finite() && 0 <= powers[i].value()
                <= float::unit(),
        forall|i: int, j: int|
            0 <= i <= j < 256 ==> (#[trigger] powers[i]).value() <= (#[trigger] powers[j]).value(),
    ensures
        a <= b ==> lut.entries()[a as int] <= lut.entries()[b as int],
        powers[0] == (F32 { bits: 0 }) ==> lut.entries()[0] == 0,
        powers[255] == (F32 { bits: ONE }) ==> lut.entries()[255] == 255,
        powers[a as int].value() <= color::fraction_of_full(a).value() ==> lut.entries()[a as int]
            <= a,
        powers[a as int].value() >= color::fraction_of_full(a).value() ==> lut.entries()[a as int]
            >= a,
{
    let full = color::lit(BYTE_MAX);
    facts::zero_is_zero();
    facts::one_is_unit();
    laws::lemma_full_is_255();
    lemma_number(255);
    lemma_number(0);
    if a <= b {
        lemma_power_order(powers[a as int], powers[b as int]);
    }
    facts::product_with_zero(full);
    facts::product_commutes(F32 { bits: ONE }, full);
    facts::product_with_one(full);
    assert(float::from_int(0) == (F32 { bits: 0 })) by {
        facts::zero_converts_to_zero();
    }
    let x = color::fraction_of_full(a);
    lemma_fraction(a);
    laws::lemma_full_and_back(a);
    if powers[a as int].value() <= x.value() {
        lemma_power_order(powers[a as int], x);
    }
    if powers[a as int].value() >= x.value() {
        lemma_power_order(x, powers[a as int]);
    }
}

/// A channel as a fraction of full lies between zero and one.
pub proof fn lemma_fraction(c: u8)
    ensures
        color::fraction_of_full(c).finite(),
        0 <= color::fraction_of_full(c).value() <= float::unit(),
{
    laws::lemma_full_is_255();
    lemma_number(c);
    lemma_number(255);
    facts::one_is_unit();
    let full = color::lit(BYTE_MAX);
    facts::quotient_by_itself(full);
    let (x, f) = (color::number(c).mag(), full.mag());
    assert(x * f <= f * f) by (nonlinear_arith)
        requires
            0 <= x <= f,
    ;
    order::quotients_keep_order(color::number(c), full, full, full);
    order::magnitudes_are_not_negative(color::fraction_of_full(c));
}

/// Larger powers give larger entries.
proof fn lemma_power_order(p: F32, q: F32)
    requires
        p.finite(),
        q.finite(),
        0 <= p.value() <= q.value() <= float::unit(),
    ensures
        color::channel(float::product(p, color::lit(BYTE_MAX))) <= color::channel(
            float::product(q, color::lit(BYTE_MAX)),
        ),
{
    let full = color::lit(BYTE_MAX);
    let u = float::unit();
    laws::lemma_full_is_255();
    lemma_number(255);
    facts::one_is_unit();
    order::magnitudes_are_not_negative(p);
    order::magnitudes_are_not_negative(q);
    assert(p.mag() * full.mag() <= q.mag() * full.mag() <= (0x10_0000 * u) * u) by (nonlinear_arith)
        requires
            0 <= p.mag() <= q.mag() <= u,
            full.mag() == 255 * u,
            u > 0,
    ;
    order::products_keep_order(p, full, q, full);
    order::products_keep_order(q, full, q, full);
    lemma_product_value(p, full);
    lemma_product_value(q, full);
    lemma_channel_order(float::product(p, full), float::product(q, full));
}

/// The value of a small product with a factor that is not negative.
proof fn lemma_product_value(d: F32, s: F32)
    requires
        d.finite(),
        s.finite(),
        !s.negative(),
        d.mag() * s.mag() <= (0x10_0000 * float::unit()) * float::unit(),
    ensures
        order::small(float::product(d, s)),
        float::product(d, s).value() == if d.value() < 0 {
            -float::product(d, s).mag()
        } else {
            float::product(d, s).mag()
        },
        float::product(d, s).mag() >= 0,
{
    let zero = F32 { bits: 0 };
    facts::zero_is_zero();
    order::magnitudes_are_not_negative(d);
    order::magnitudes_are_not_negative(float::product(d, s));
    order::products_keep_order(d, s, d, s);
    if d.mag() == 0 {
        assert(0 * s.mag() == 0 && 0 * 0 == 0);
        facts::product_with_zero(zero);
        facts::one_is_unit();
        assert(0 <= (0x10_0000 * float::unit()) * float::unit()) by (nonlinear_arith)
            requires
                float::unit() > 0,
        ;
        order::products_keep_order(d, s, zero, zero);
    }
}

/// The blend factor lies between zero and one, whatever the decay; it is one without a positive
/// time constant, and zero where nothing has decayed.
pub proof fn alpha_is_a_share(tau: F32, decay: F32)
    requires
        !tau.nan(),
        !decay.nan(),
    ensures
        ({
            let a = smoothing::alpha_of(tau, decay);
            &&& a.finite()
            &&& 0 <= a.value() <= float::unit()
            &&& float::less_eq(tau, F32 { bits: 0 }) ==> a == (F32 { bits: ONE })
            &&& float::less(F32 { bits: 0 }, tau) && decay == (F32 { bits: ONE }) ==> a == (F32 {
                bits: 0,
            })
        }),
{
    let one = F32 { bits: ONE };
    facts::zero_is_zero();
    facts::one_is_unit();
    let d = float::difference(one, decay);
    assert(!d.nan()) by {
        if decay.finite() {
            order::negated_value(decay);
            let v = one.value() - decay.value();
            if v > 0 {
                facts::nearest_exists(v, 1);
            } else if v < 0 {
                facts::nearest_exists(-v, 1);
            }
        }
    }
    let a = smoothing::alpha_of(tau, decay);
    if !a.finite() {
        round::lemma_monotone(ONE as int + 1, float::INFINITY as int);
        round::lemma_monotone(ONE as int, ONE as int + 1);
    }
}

/// Over a time in which more decays, the blend factor is not smaller.
pub proof fn alpha_grows_as_more_decays(tau: F32, decay: F32, less: F32)
    requires
        !tau.nan(),
        decay.finite(),
        less.finite(),
        0 <= less.value() <= decay.value() <= float::unit(),
    ensures
        smoothing::alpha_of(tau, decay).value() <= smoothing::alpha_of(tau, less).value(),
{
    let one = F32 { bits: ONE };
    facts::zero_is_zero();
    facts::one_is_unit();
    order::negated_value(decay);
    order::negated_value(less);
    order::sums_keep_order(one, float::negation(decay), one, float::negation(less));
}

/// What a blend leaves of the last colours is the decay but for 2^-25, so two steps leave what one
/// step over the double time does: where the decay of the one is the square of the other's up to
/// 2^-22, what they leave agrees up to 2^-20.
pub proof fn steps_compose(tau: F32, once: F32, twice: F32)
    requires
        float::less(F32 { bits: 0 }, tau),
        once.finite(),
        twice.finite(),
        0 <= once.value() <= float::unit(),
        0 <= twice.value() <= float::unit(),
        ({
            let gap = twice.value() * float::unit() - once.value() * once.value();
            &&& 0x40_0000 * gap <= float::unit() * float::unit()
            &&& -0x40_0000 * gap <= float::unit() * float::unit()
        }),
    ensures
        ({
            let one = float::unit() - smoothing::alpha_of(tau, once).value();
            let two = float::unit() - smoothing::alpha_of(tau, twice).value();
            let gap = two * float::unit() - one * one;
            &&& 0x200_0000 * (one - once.value()) <= float::unit()
            &&& 0x200_0000 * (once.value() - one) <= float::unit()
            &&& 0x10_0000 * gap <= float::unit() * float::unit()
            &&& -0x10_0000 * gap <= float::unit() * float::unit()
        }),
{
    let u = float::unit();
    facts::zero_is_zero();
    facts::one_is_unit();
    laws::lemma_complement(once);
    laws::lemma_complement(twice);
    let (d, dd) = (once.value(), twice.value());
    let x = u - smoothing::alpha_of(tau, once).value();
    let xx = u - smoothing::alpha_of(tau, twice).value();
    let (a, b) = (x - d, xx - dd);
    let g = dd * u - d * d;
    let uu = u * u;
    let (t1, t2, t3) = (b * u, d * a, a * a);
    assert(-uu <= 0x200_0000 * t1 <= uu) by (nonlinear_arith)
        requires
            t1 == b * u,
            uu == u * u,
            -u <= 0x200_0000 * b <= u,
            u > 0,
    ;
    assert(-uu <= 0x200_0000 * t2 <= uu) by (nonlinear_arith)
        requires
            t2 == d * a,
            uu == u * u,
            0 <= d <= u,
            -u <= 0x200_0000 * a <= u,
            u > 0,
    {
        let k = 0x200_0000 * a;
        assert(d * k <= u * u);
        assert(-(u * u) <= d * k);
        assert(0x200_0000 * (d * a) == d * k);
    }
    assert(0 <= 0x200_0000 * t3 <= uu) by (nonlinear_arith)
        requires
            t3 == a * a,
            uu == u * u,
            -u <= 0x200_0000 * a <= u,
            u > 0,
    {
        let k = 0x200_0000 * a;
        assert(-u <= a <= u);
        assert(k * a <= u * u);
        assert(0 <= a * a);
        assert(0x200_0000 * (a * a) == k * a);
    }
    assert(xx * u - x * x == g + t1 - 2 * t2 - t3) by (nonlinear_arith)
        requires
            x == d + a,
            xx == dd + b,
            g == dd * u - d * d,
            t1 == b * u,
            t2 == d * a,
            t3 == a * a,
    ;
}

/// The factor of a level is no number, or lies between zero and one.
proof fn lemma_level_fraction(x: F32)
    ensures
        ({
            let f = color::level_fraction(x);
            f.nan() || (f.finite() && f.mag() <= float::unit())
        }),
{
    let full = color::lit(BYTE_MAX);
    let u = float::unit();
    facts::zero_is_zero();
    facts::one_is_unit();
    laws::lemma_full_is_255();
    lemma_number(255);
    let y = float::clamped(x, color::lit(0), full);
    if !x.nan() {
        order::magnitudes_are_not_negative(y);
        assert(y.mag() <= full.mag());
        if !y.finite() {
            round::lemma_monotone(BYTE_MAX as int + 1, float::INFINITY as int);
            round::lemma_monotone(BYTE_MAX as int, BYTE_MAX as int + 1);
        }
        assert(0 <= y.mag() * u <= u * full.mag()) by (nonlinear_arith)
            requires
                0 <= y.mag() <= full.mag(),
                u > 0,
        ;
        facts::rounding_stays_below(y.mag() * u, full.mag(), ONE);
        round::lemma_monotone(float::nearest(y.mag() * u, full.mag()) as int, ONE as int);
    }
}

/// A factor that is not above one does not make a channel larger.
proof fn lemma_scaled_down(c: u8, f: F32)
    requires
        f.nan() || (f.finite() && f.mag() <= float::unit()),
    ensures
        color::scaled_channel(c, f) <= c,
{
    lemma_number(c);
    if !f.nan() {
        order::product_with_a_fraction(color::number(c), f);
        order::magnitudes_are_not_negative(float::product(color::number(c), f));
        lemma_channel_order(float::product(color::number(c), f), color::number(c));
    }
}

/// The bounds between the kinds of plan.
pub proof fn lemma_kelvin(kelvin: u32)
    ensures
        ({
            let temp = float::quotient(float::from_int(kelvin as int), color::lit(HUNDRED));
            &&& kelvin <= 6600 <==> float::less_eq(temp, color::lit(SIXTY_SIX))
            &&& kelvin <= 1900 ==> float::less_eq(temp, color::lit(NINETEEN))
        }),
{
    let u = float::unit();
    let n = float::from_int(kelvin as int);
    let temp = float::quotient(n, color::lit(HUNDRED));
    facts::one_is_unit();
    lemma2_to64();
    round::lemma_form(132, 0xC8_0000);
    round::lemma_form(132, 0x84_0000);
    round::lemma_form(132, 0x84_0001);
    round::lemma_form(130, 0x98_0000);
    lemma_pow2_adds(17, 132);
    lemma_pow2_adds(19, 130);
    lemma_pow2_pos(132);
    facts::integers_are_finite(kelvin);
    let num = n.mag() * u;
    let den = 100 * u;
    assert(num >= 0) by (nonlinear_arith)
        requires
            num == n.mag() * u,
            n.mag() >= 0,
            u > 0,
    ;
    assert(temp == (F32 { bits: float::nearest(num, den) }));
    facts::nearest_exists(num, den);
    let t = temp.bits as int;
    if kelvin <= 6600 {
        facts::small_integers_are_exact(kelvin as int);
        assert(num <= (66 * u) * den) by (nonlinear_arith)
            requires
                num == (kelvin * u) * u,
                den == 100 * u,
                kelvin <= 6600,
                u > 0,
        {
            assert(num == kelvin * (u * u));
            assert((66 * u) * den == 6600 * (u * u));
        }
        facts::rounding_stays_below(num, den, SIXTY_SIX);
        round::lemma_monotone(t, SIXTY_SIX as int);
    } else {
        facts::small_integers_are_exact(6601);
        assert(6601 * u * 1 <= (kelvin * u) * 1) by (nonlinear_arith)
            requires
                kelvin >= 6601,
                u > 0,
        ;
        facts::rounding_is_monotone(6601 * u, 1, kelvin * u, 1);
        round::lemma_monotone(
            float::from_int(6601).bits as int,
            float::from_int(kelvin as int).bits as int,
        );
        let m = float::magnitude(SIXTY_SIX as int + 1);
        assert(100 * m <= 6601 * u);
        assert(m * den <= num) by (nonlinear_arith)
            requires
                num == n.mag() * u,
                den == 100 * u,
                n.mag() >= 6601 * u,
                100 * m <= 6601 * u,
                u > 0,
        {
            assert(m * den == (100 * m) * u);
            assert((100 * m) * u <= (6601 * u) * u);
            assert((6601 * u) * u <= n.mag() * u);
        }
        facts::rounding_stays_above(num, den, (SIXTY_SIX + 1) as u32);
        round::lemma_monotone(SIXTY_SIX as int, SIXTY_SIX as int + 1);
        round::lemma_monotone(SIXTY_SIX as int + 1, t);
    }
    if kelvin <= 1900 {
        assert(num <= (19 * u) * den) by (nonlinear_arith)
            requires
                num == (kelvin * u) * u,
                den == 100 * u,
                kelvin <= 1900,
                u > 0,
        {
            assert(num == kelvin * (u * u));
            assert((19 * u) * den == 1900 * (u * u));
        }
        facts::rounding_stays_below(num, den, NINETEEN);
        round::lemma_monotone(t, NINETEEN as int);
    }
}

/// White balance only takes light away. Red is kept up to 6600 K, and blue above; up to 1900 K
/// there is no blue.
pub proof fn white_balance_only_takes_light(c: LedColor, kelvin: u32, terms: KelvinTerms)
    requires
        color::answers(kelvin, terms),
    ensures
        ({
            let b = color::balanced(c, kelvin, color::factors_of(terms));
            &&& b.r <= c.r
            &&& b.g <= c.g
            &&& b.b <= c.b
            &&& kelvin <= 6600 ==> b.r == c.r
            &&& kelvin > 6600 ==> b.b == c.b
            &&& kelvin <= 1900 ==> b.b == 0
        }),
{
    let full = color::lit(BYTE_MAX);
    let f = color::factors_of(terms);
    facts::zero_is_zero();
    facts::one_is_unit();
    laws::lemma_full_is_255();
    lemma_number(255);
    facts::quotient_by_itself(full);
    facts::zero_over_a_number(full);
    lemma_kelvin(kelvin);
    lemma_number(c.r);
    lemma_number(c.b);
    facts::product_with_one(color::number(c.r));
    facts::product_with_one(color::number(c.b));
    facts::product_with_zero(color::number(c.b));
    facts::zero_converts_to_zero();
    lemma_number(0);
    match terms {
        KelvinTerms::Warm { green_log, blue_log } => {
            lemma_level_fraction(
                float::difference(
                    float::product(color::lit(color::GREEN_LOG_FACTOR), green_log),
                    color::lit(color::GREEN_LOG_OFFSET),
                ),
            );
            match blue_log {
                Some(x) => {
                    lemma_level_fraction(
                        float::difference(
                            float::product(color::lit(color::BLUE_LOG_FACTOR), x),
                            color::lit(color::BLUE_LOG_OFFSET),
                        ),
                    );
                },
                None => {},
            }
        },
        KelvinTerms::Cool { red_power, green_power } => {
            lemma_level_fraction(float::product(color::lit(color::RED_POWER_FACTOR), red_power));
            lemma_level_fraction(float::product(color::lit(color::GREEN_POWER_FACTOR), green_power));
        },
    }
    lemma_scaled_down(c.r, f.r);
    lemma_scaled_down(c.g, f.g);
    lemma_scaled_down(c.b, f.b);
}

/// What is left of a channel when night light takes a share `k * s` of it, blended in by `s`.
spec fn dimmed(x: F32, k: u32, s: F32) -> F32 {
    let left = float::difference(F32 { bits: ONE }, float::product(color::lit(k), s));
    color::blend(x, float::product(x, left), s)
}

/// Taking a larger share leaves no more.
proof fn lemma_dimmed(c: u8, k: u32, s: F32, t: F32)
    requires
        k <= ONE,
        s.finite(),
        t.finite(),
        !s.negative(),
        !t.negative(),
        s.mag() <= t.mag() <= float::unit(),
    ensures
        ({
            let x = color::number(c);
            &&& dimmed(x, k, s).finite()
            &&& dimmed(x, k, t).finite()
            &&& dimmed(x, k, t).value() <= dimmed(x, k, s).value() <= x.value()
            &&& float::product(
                x,
                float::difference(F32 { bits: ONE }, float::product(color::lit(k), s)),
            ).value() >= 0
        }),
{
    let u = float::unit();
    let one = F32 { bits: ONE };
    let zero = F32 { bits: 0 };
    let kf = color::lit(k);
    let x = color::number(c);
    facts::zero_is_zero();
    facts::one_is_unit();
    lemma_number(c);
    order::magnitudes_are_not_negative(s);
    order::magnitudes_are_not_negative(t);
    round::lemma_monotone(0, k as int);
    round::lemma_monotone(k as int, ONE as int);
    // The shares.
    let (km, sm, tm, xm) = (kf.mag(), s.mag(), t.mag(), x.mag());
    assert(km * sm <= km * tm <= (0x10_0000 * u) * u) by (nonlinear_arith)
        requires
            0 <= km <= u,
            0 <= sm <= tm <= u,
    ;
    order::products_keep_order(kf, s, kf, t);
    lemma_product_value(kf, s);
    lemma_product_value(kf, t);
    order::product_with_a_fraction(kf, s);
    order::product_with_a_fraction(kf, t);
    let (ks, kt) = (float::product(kf, s), float::product(kf, t));
    // What they leave.
    order::negated_value(ks);
    order::negated_value(kt);
    order::sums_keep_order(one, float::negation(kt), one, float::negation(ks));
    order::sum_stays_below(one, float::negation(ks), one);
    order::sum_stays_above(one, float::negation(kt), zero);
    let (ls, lt) = (float::difference(one, ks), float::difference(one, kt));
    lemma_value_and_magnitude(ls);
    lemma_value_and_magnitude(lt);
    // The channel, dimmed.
    assert(xm * lt.mag() <= xm * ls.mag() <= (0x10_0000 * u) * u) by (nonlinear_arith)
        requires
            0 <= xm <= 255 * u,
            0 <= lt.mag() <= ls.mag() <= u,
            u > 0,
    ;
    order::products_keep_order(x, lt, x, ls);
    facts::product_commutes(x, ls);
    facts::product_commutes(x, lt);
    assert(ls.mag() * xm == xm * ls.mag() && lt.mag() * xm == xm * lt.mag()) by (nonlinear_arith);
    lemma_product_value(ls, x);
    lemma_product_value(lt, x);
    order::product_with_a_fraction(x, ls);
    order::product_with_a_fraction(x, lt);
    let (ws, wt) = (float::product(x, ls), float::product(x, lt));
    // Blended in.
    order::negated_value(x);
    let n = float::negation(x);
    order::sums_keep_order(wt, n, ws, n);
    order::sum_stays_below(ws, n, zero);
    order::sum_stays_below(wt, n, zero);
    let (ds, dt) = (float::difference(ws, x), float::difference(wt, x));
    lemma_value_and_magnitude(ds);
    lemma_value_and_magnitude(dt);
    order::sums_keep_order(n, zero, wt, n);
    order::sums_keep_order(n, zero, ws, n);
    lemma_negated_sum(x);
    assert(ds.mag() * sm <= dt.mag() * tm <= (0x10_0000 * u) * u) by (nonlinear_arith)
        requires
            0 <= ds.mag() <= dt.mag() <= 255 * u,
            0 <= sm <= tm <= u,
            u > 0,
    ;
    order::products_keep_order(ds, s, dt, t);
    lemma_product_value(ds, s);
    lemma_product_value(dt, t);
    let (ps, pt) = (float::product(ds, s), float::product(dt, t));
    assert(ps.value() <= 0 && pt.value() <= 0) by {
        if ds.value() == 0 {
            assert(0 * sm == 0);
            lemma_nothing_times(ds, s);
        }
        if dt.value() == 0 {
            lemma_nothing_times(dt, t);
        }
    }
    order::sums_keep_order(x, pt, x, ps);
    order::sum_stays_below(x, ps, x);
}

/// A number and its magnitude.
proof fn lemma_value_and_magnitude(a: F32)
    ensures
        a.mag() >= 0,
        a.value() >= 0 ==> a.value() == a.mag(),
        a.value() <= 0 ==> a.value() == -a.mag(),
{
    order::magnitudes_are_not_negative(a);
}

/// A negated number plus zero.
proof fn lemma_negated_sum(x: F32)
    requires
        order::small(x),
        !x.negative(),
    ensures
        float::sum(float::negation(x), F32 { bits: 0 }).value() == -x.mag(),
{
    facts::zero_is_zero();
    order::negated_value(x);
    order::magnitudes_are_not_negative(x);
    if x.mag() > 0 {
        facts::sum_with_zero(x);
        let m = x.mag();
        assert(float::sum(x, F32 { bits: 0 }) == float::rounded(false, m, 1));
        assert(float::sum(float::negation(x), F32 { bits: 0 }) == float::rounded(true, m, 1));
        assert(x == (F32 { bits: float::nearest(m, 1) }));
    }
}

/// Nothing times a number is nothing.
proof fn lemma_nothing_times(d: F32, s: F32)
    requires
        d.finite(),
        d.value() == 0,
        s.finite(),
    ensures
        float::product(d, s).value() == 0,
{
    let zero = F32 { bits: 0 };
    let u = float::unit();
    facts::zero_is_zero();
    facts::one_is_unit();
    facts::product_with_zero(zero);
    order::magnitudes_are_not_negative(float::product(d, s));
    assert(0 * s.mag() == 0 && 0 * 0 == 0);
    assert(0 <= (0x10_0000 * u) * u) by (nonlinear_arith)
        requires
            u > 0,
    ;
    order::products_keep_order(d, s, zero, zero);
}

/// A channel that night light raises by up to thirty steps, blended in by `s`.
spec fn reddened(x: F32, s: F32) -> F32 {
    let warm = float::smaller(
        float::sum(x, float::from_int(color::red_boost(s))),
        color::lit(BYTE_MAX),
    );
    color::blend(x, warm, s)
}

/// The boost grows with the strength.
pub proof fn lemma_boost(s: F32, t: F32)
    requires
        s.finite(),
        t.finite(),
        !s.negative(),
        !t.negative(),
        s.mag() <= t.mag() <= float::unit(),
    ensures
        0 <= color::red_boost(s) <= color::red_boost(t) <= 30,
{
    let u = float::unit();
    let thirty = color::lit(THIRTY);
    facts::one_is_unit();
    order::magnitudes_are_not_negative(s);
    order::magnitudes_are_not_negative(t);
    lemma2_to64();
    round::lemma_form(130, 0xF0_0000);
    lemma_pow2_adds(19, 130);
    let (hm, sm, tm) = (thirty.mag(), s.mag(), t.mag());
    assert(hm * sm <= hm * tm <= (0x10_0000 * u) * u) by (nonlinear_arith)
        requires
            hm == 30 * u,
            0 <= sm <= tm <= u,
            u > 0,
    ;
    order::products_keep_order(thirty, s, thirty, t);
    lemma_product_value(thirty, s);
    lemma_product_value(thirty, t);
    order::rounding_to_integers_keeps_order(
        float::product(thirty, s),
        float::product(thirty, t),
        30,
    );
}

/// A larger strength raises no less.
proof fn lemma_reddened(c: u8, s: F32, t: F32)
    requires
        s.finite(),
        t.finite(),
        !s.negative(),
        !t.negative(),
        s.mag() <= t.mag() <= float::unit(),
    ensures
        ({
            let x = color::number(c);
            &&& reddened(x, s).finite()
            &&& reddened(x, t).finite()
            &&& x.value() <= reddened(x, s).value() <= reddened(x, t).value()
        }),
{
    let u = float::unit();
    let full = color::lit(BYTE_MAX);
    let zero = F32 { bits: 0 };
    let x = color::number(c);
    facts::zero_is_zero();
    facts::one_is_unit();
    laws::lemma_full_is_255();
    lemma_number(255);
    lemma_number(c);
    lemma_boost(s, t);
    let (i, j) = (color::red_boost(s), color::red_boost(t));
    lemma_number(i as u8);
    lemma_number(j as u8);
    let (bs, bt) = (float::from_int(i), float::from_int(j));
    assert(i * u <= j * u) by (nonlinear_arith)
        requires
            i <= j,
            u > 0,
    ;
    order::sums_keep_order(x, bs, x, bt);
    order::sum_stays_above(x, bs, x);
    let (ws, wt) = (float::smaller(float::sum(x, bs), full), float::smaller(float::sum(x, bt), full));
    order::negated_value(x);
    let n = float::negation(x);
    order::sums_keep_order(ws, n, wt, n);
    order::sum_stays_above(ws, n, zero);
    order::sum_stays_below(wt, n, full);
    let (ds, dt) = (float::difference(ws, x), float::difference(wt, x));
    lemma_value_and_magnitude(ds);
    lemma_value_and_magnitude(dt);
    order::magnitudes_are_not_negative(s);
    let (sm, tm) = (s.mag(), t.mag());
    assert(ds.mag() * sm <= dt.mag() * tm <= (0x10_0000 * u) * u) by (nonlinear_arith)
        requires
            0 <= ds.mag() <= dt.mag() <= 255 * u,
            0 <= sm <= tm <= u,
            u > 0,
    ;
    order::products_keep_order(ds, s, dt, t);
    lemma_product_value(ds, s);
    lemma_product_value(dt, t);
    assert(dt.mag() * tm <= (255 * u) * u) by (nonlinear_arith)
        requires
            0 <= dt.mag() <= 255 * u,
            0 <= tm <= u,
    ;
    assert(float::product(dt, t).mag() <= 255 * u) by {
        facts::product_with_one(full);
        assert(full.mag() * u == (255 * u) * u);
        assert((255 * u) * u <= (0x10_0000 * u) * u) by (nonlinear_arith)
            requires
                u > 0,
        ;
        order::products_keep_order(dt, t, full, F32 { bits: ONE });
    }
    let (ps, pt) = (float::product(ds, s), float::product(dt, t));
    order::sums_keep_order(x, ps, x, pt);
    order::sum_stays_above(x, ps, x);
}

/// A strength between zero and one, from one that is a number above zero.
pub proof fn lemma_strength(strength: F32)
    requires
        !strength.nan(),
        !float::less_eq(strength, F32 { bits: 0 }),
    ensures
        ({
            let s = color::unit_clamped(strength);
            &&& s.finite()
            &&& !s.negative()
            &&& 0 < s.mag() <= float::unit()
        }),
{
    let s = color::unit_clamped(strength);
    facts::zero_is_zero();
    facts::one_is_unit();
    order::magnitudes_are_not_negative(strength);
    if !s.finite() {
        round::lemma_monotone(ONE as int + 1, float::INFINITY as int);
        round::lemma_monotone(ONE as int, ONE as int + 1);
    }
}

/// A colour is bright where its channels come to more than half of full.
pub proof fn lemma_bright(c: LedColor)
    ensures
        color::is_bright(c) <==> c.r + c.g + c.b >= 383,
{
    let u = float::unit();
    facts::zero_is_zero();
    facts::one_is_unit();
    lemma_number(c.r);
    lemma_number(c.g);
    lemma_number(c.b);
    let n = c.r + c.g + c.b;
    let two = float::sum(color::number(c.r), color::number(c.g));
    let all = float::sum(two, color::number(c.b));
    assert(c.r * u + c.g * u == (c.r + c.g) * u && (c.r + c.g) * u + c.b * u == n * u)
        by (nonlinear_arith)
        requires
            n == c.r + c.g + c.b,
    ;
    lemma_whole_sum(color::number(c.r), color::number(c.g), c.r + c.g);
    lemma_whole_sum(two, color::number(c.b), n);
    lemma2_to64();
    round::lemma_form(135, 0xBF_4000);
    lemma_pow2_adds(14, 135);
    round::lemma_form(125, 0x80_0000);
    round::lemma_form(125, 0x80_0001);
    lemma_pow2_adds(24, 125);
    lemma_pow2_pos(125);
    let den = 765 * u;
    let num = (n * u) * u;
    assert(num >= 0) by (nonlinear_arith)
        requires
            num == (n * u) * u,
            n >= 0,
            u > 0,
    ;
    let q = float::quotient(all, color::lit(THREE_BYTES_MAX));
    facts::nearest_exists(num, den);
    assert(q == (F32 { bits: float::nearest(num, den) })) by {
        if n == 0 {
            assert(0 * u == 0);
        }
    }
    let half = float::magnitude(HALF as int);
    if n <= 382 {
        assert(num <= half * den) by (nonlinear_arith)
            requires
                num == (n * u) * u,
                den == 765 * u,
                2 * half == u,
                n <= 382,
                u > 0,
        {
            assert(2 * num == (2 * n) * (u * u));
            assert(2 * (half * den) == 765 * (u * u));
        }
        facts::rounding_stays_below(num, den, HALF);
        round::lemma_monotone(q.bits as int, HALF as int);
    } else {
        let above = float::magnitude(HALF as int + 1);
        assert(above * den <= num) by (nonlinear_arith)
            requires
                num == (n * u) * u,
                den == 765 * u,
                1530 * above <= 766 * u,
                n >= 383,
                u > 0,
        {
            assert(2 * (above * den) == (1530 * above) * u);
            assert((1530 * above) * u <= (766 * u) * u);
            assert(2 * num == (2 * n) * (u * u));
            assert((766 * u) * u == 766 * (u * u));
        }
        facts::rounding_stays_above(num, den, (HALF + 1) as u32);
        round::lemma_monotone(HALF as int, HALF as int + 1);
        round::lemma_monotone(HALF as int + 1, q.bits as int);
    }
}

/// A sum that is a whole number of channel steps is exact.
pub proof fn lemma_whole_sum(a: F32, b: F32, n: int)
    requires
        a.finite(),
        b.finite(),
        0 <= n <= 765,
        a.value() + b.value() == n * float::unit(),
    ensures
        float::sum(a, b).finite(),
        !float::sum(a, b).negative() || n == 0,
        float::sum(a, b).value() == n * float::unit(),
        float::sum(a, b).mag() == n * float::unit(),
{
    let u = float::unit();
    facts::one_is_unit();
    facts::zero_is_zero();
    facts::small_integers_are_exact(n);
    assert(n > 0 ==> n * u > 0) by (nonlinear_arith)
        requires
            u > 0,
    ;
    assert(0 * u == 0);
}

/// Under night light no blue is added, no red taken and no green added. Up to half of full
/// brightness red and green are kept. A strength of zero or below changes nothing, and one above
/// one acts as one.
pub proof fn night_light_warms(c: LedColor, strength: F32)
    requires
        !strength.nan(),
    ensures
        ({
            let w = color::warmed(c, strength);
            &&& w.b <= c.b
            &&& w.r >= c.r
            &&& w.g <= c.g
            &&& c.r + c.g + c.b <= 382 ==> w.r == c.r && w.g == c.g
            &&& float::less_eq(strength, F32 { bits: 0 }) ==> w == c
            &&& float::less(F32 { bits: ONE }, strength) ==> w == color::warmed(
                c,
                F32 { bits: ONE },
            )
        }),
{
    facts::zero_is_zero();
    facts::one_is_unit();
    lemma_bright(c);
    if !float::less_eq(strength, F32 { bits: 0 }) {
        let s = color::unit_clamped(strength);
        lemma_strength(strength);
        lemma_warmed(c, s, s);
    }
}

/// More night light leaves no more blue and no more green, and no less red.
pub proof fn night_light_grows_with_its_strength(c: LedColor, strength: F32, more: F32)
    requires
        float::less_eq(strength, more),
    ensures
        color::warmed(c, more).b <= color::warmed(c, strength).b,
        color::warmed(c, more).r >= color::warmed(c, strength).r,
        color::warmed(c, more).g <= color::warmed(c, strength).g,
{
    facts::zero_is_zero();
    facts::one_is_unit();
    if float::less_eq(strength, F32 { bits: 0 }) {
        night_light_warms(c, more);
    } else {
        lemma_strength(strength);
        lemma_strength(more);
        lemma_warmed(c, color::unit_clamped(strength), color::unit_clamped(more));
    }
}

/// One colour under two strengths.
proof fn lemma_warmed(c: LedColor, s: F32, t: F32)
    requires
        s.finite(),
        t.finite(),
        !s.negative(),
        !t.negative(),
        0 < s.mag() <= t.mag() <= float::unit(),
    ensures
        color::warmed(c, t).b <= color::warmed(c, s).b <= c.b,
        color::warmed(c, t).g <= color::warmed(c, s).g <= c.g,
        c.r <= color::warmed(c, s).r <= color::warmed(c, t).r,
        !color::is_bright(c) ==> color::warmed(c, s).r == c.r && color::warmed(c, s).g == c.g,
{
    facts::zero_is_zero();
    facts::one_is_unit();
    lemma_number(c.r);
    lemma_number(c.g);
    lemma_number(c.b);
    let (r, g, b) = (color::number(c.r), color::number(c.g), color::number(c.b));
    assert(color::unit_clamped(s) == s && color::unit_clamped(t) == t);
    lemma_dimmed(c.b, SEVEN_TENTHS, s, t);
    lemma_channel_order(dimmed(b, SEVEN_TENTHS, t), dimmed(b, SEVEN_TENTHS, s));
    lemma_channel_order(dimmed(b, SEVEN_TENTHS, s), b);
    lemma_dimmed(c.g, THREE_TENTHS, s, t);
    lemma_dimmed(c.g, THREE_TENTHS, t, t);
    lemma_reddened(c.r, s, t);
    lemma_channel_order(dimmed(g, THREE_TENTHS, t), dimmed(g, THREE_TENTHS, s));
    lemma_channel_order(dimmed(g, THREE_TENTHS, s), g);
    lemma_channel_order(reddened(r, s), reddened(r, t));
    lemma_channel_order(r, reddened(r, s));
    lemma_kept(c.r, s);
    lemma_kept(c.g, s);
    lemma_kept(c.r, t);
    lemma_kept(c.g, t);
}

/// A blend of a channel with itself keeps it.
proof fn lemma_kept(c: u8, s: F32)
    requires
        s.finite(),
    ensures
        color::channel(color::blend(color::number(c), color::number(c), s)) == c,
{
    let x = color::number(c);
    facts::zero_is_zero();
    lemma_number(c);
    order::negated_value(x);
    let d = float::difference(x, x);
    assert(d.value() == 0 && d.finite());
    lemma_nothing_times(d, s);
    let p = float::product(d, s);
    assert(p.finite()) by {
        let u = float::unit();
        facts::one_is_unit();
        assert(d.mag() * s.mag() == 0) by (nonlinear_arith)
            requires
                d.mag() == 0,
        ;
        assert(0 <= (0x10_0000 * u) * u) by (nonlinear_arith)
            requires
                u > 0,
        ;
        order::products_keep_order(d, s, d, s);
    }
    order::sum_stays_below(x, p, x);
    order::sum_stays_above(x, p, x);
    lemma_channel_order(float::sum(x, p), x);
    lemma_channel_order(x, float::sum(x, p));
}

} // verus!
