//! A colour survives the way to hue, saturation and lightness and back.

use vstd::prelude::*;
use vstd::arithmetic::power2::*;

use crate::float;
use crate::float::facts;
use crate::float::near;
use crate::float::order;
use crate::float::round;
use crate::float::{F32, ONE};

use super::color;
use super::color::{
    BYTE_MAX, EPSILON, HALF, HUNDREDTH, SIX, THIRD, THREE, TWO, TWO_THIRDS,
};
use super::color_laws;
use super::laws;
use super::LedColor;

verus! {

/// The smallest channel.
pub open spec fn low(c: LedColor) -> u8 {
    if c.r <= c.g && c.r <= c.b {
        c.r
    } else if c.g <= c.b {
        c.g
    } else {
        c.b
    }
}

/// The channel at a hue of `q` parts, of which a turn has `6 * d`, between `m` and `m + d`.
pub open spec fn wave(m: int, d: int, q: int) -> int {
    if q <= 0 {
        m
    } else if q <= d {
        m + q
    } else if q <= 3 * d {
        m + d
    } else if q <= 4 * d {
        m + 4 * d - q
    } else {
        m
    }
}

/// The channel at a hue that may lie up to a turn outside.
pub open spec fn turned_wave(m: int, d: int, p: int) -> int {
    wave(
        m,
        d,
        if p < 0 {
            p + 6 * d
        } else if p > 6 * d {
            p - 6 * d
        } else {
            p
        },
    )
}

/// What the constants stand for.
pub proof fn lemma_constants()
    ensures
        color::lit(HALF).value() * 2 == float::unit(),
        color::lit(ONE).value() == float::unit(),
        color::lit(TWO).value() == 2 * float::unit(),
        color::lit(THREE).value() == 3 * float::unit(),
        color::lit(SIX).value() == 6 * float::unit(),
        color::lit(0).value() == 0,
        near::near(color::lit(THIRD), 1, 3, 1),
        near::near(color::lit(TWO_THIRDS), 2, 3, 1),
        41943 * near::grain() <= color::lit(HUNDREDTH).value() <= 41944 * near::grain(),
        0 < color::lit(EPSILON).value() <= near::grain(),
{
    lemma2_to64();
    near::grains_in_one();
    facts::one_is_unit();
    facts::zero_is_zero();
    round::lemma_form(125, 0x80_0000);
    round::lemma_form(127, 0x80_0000);
    round::lemma_form(127, 0xC0_0000);
    round::lemma_form(128, 0xC0_0000);
    round::lemma_form(124, 0xAA_AAAB);
    round::lemma_form(125, 0xAA_AAAB);
    round::lemma_form(119, 0xA3_D70A);
    round::lemma_form(103, 0x80_0000);
    lemma_pow2_adds(24, 125);
    lemma_pow2_adds(22, 127);
    lemma_pow2_adds(21, 128);
    lemma_pow2_adds(25, 124);
    lemma_pow2_adds(3, 124);
    lemma_pow2_adds(2, 125);
    lemma_pow2_adds(8, 119);
    lemma_pow2_adds(23, 103);
    lemma_pow2_adds(1, 126);
    lemma_pow2_pos(126);
    lemma_pow2_pos(119);
    lemma_pow2_pos(124);
    lemma_pow2_pos(125);
}

/// An integer is near itself.
pub proof fn lemma_integer(x: F32, n: int, q: int)
    requires
        x.finite(),
        x.value() == n * float::unit(),
        q > 0,
    ensures
        near::near(x, n * q, q, 0),
{
    let u = float::unit();
    assert((n * u) * q == (n * q) * u && (0 * near::grain()) * q == 0) by (nonlinear_arith);
}

/// The magnitudes of two factors that are at most `x` and `y` quarters.
pub proof fn lemma_factors(a: F32, b: F32, x: int, y: int)
    requires
        -(x * float::unit()) <= 4 * a.value() <= x * float::unit(),
        -(y * float::unit()) <= 4 * b.value() <= y * float::unit(),
        0 <= x,
        0 <= y,
        x * y <= 128,
    ensures
        a.mag() * b.mag() <= (8 * float::unit()) * float::unit(),
{
    let u = float::unit();
    near::grains_in_one();
    order::magnitudes_are_not_negative(a);
    order::magnitudes_are_not_negative(b);
    let (am, bm) = (a.mag(), b.mag());
    let (xu, yu) = (x * u, y * u);
    assert((4 * am) * (4 * bm) <= xu * yu) by (nonlinear_arith)
        requires
            0 <= 4 * am <= xu,
            0 <= 4 * bm <= yu,
    ;
    assert((4 * am) * (4 * bm) == 16 * (am * bm)) by (nonlinear_arith);
    assert(xu * yu <= 16 * ((8 * u) * u)) by (nonlinear_arith)
        requires
            xu == x * u,
            yu == y * u,
            x * y <= 128,
            u > 0,
    {
        assert(xu * yu == (x * y) * (u * u));
        assert((x * y) * (u * u) <= 128 * (u * u));
    }
}

/// A channel as a fraction of full.
proof fn lemma_part(c: u8)
    ensures
        near::near(color::fraction_of_full(c), c as int, 255, 1),
        0 <= color::fraction_of_full(c).value() <= float::unit(),
{
    let u = float::unit();
    let w = near::grain();
    let full = color::lit(BYTE_MAX);
    near::grains_in_one();
    facts::small_integers_are_exact(c as int);
    facts::small_integers_are_exact(255);
    laws::lemma_full_is_255();
    color_laws::lemma_fraction(c);
    let x = color::number(c);
    assert(0 <= c * u <= 255 * u) by (nonlinear_arith)
        requires
            u > 0,
            0 <= c <= 255,
    ;
    near::quotient_error(x, full);
    let z = color::fraction_of_full(c).value();
    let d = z * 255 - c * u;
    assert(d <= w * 255 && -d <= w * 255) by (nonlinear_arith)
        requires
            d == z * 255 - c * u,
            z * (255 * u) - (c * u) * u <= w * (255 * u),
            (c * u) * u - z * (255 * u) <= w * (255 * u),
            u > 0,
    {
        assert(d * u <= (w * 255) * u);
        assert((-d) * u <= (w * 255) * u);
    }
}

/// Fractions of full are ordered as the channels are.
proof fn lemma_part_order(c: u8, d: u8)
    requires
        c < d,
    ensures
        color::fraction_of_full(c).value() < color::fraction_of_full(d).value(),
{
    near::grains_in_one();
    lemma_part(c);
    lemma_part(d);
    let u = float::unit();
    assert(c * u + u <= d * u) by (nonlinear_arith)
        requires
            c + 1 <= d,
            u > 0,
    ;
}

/// The larger and the smaller of two fractions of full.
proof fn lemma_part_choice(c: u8, d: u8)
    ensures
        float::larger(color::fraction_of_full(c), color::fraction_of_full(d))
            == color::fraction_of_full(if c < d { d } else { c }),
        float::smaller(color::fraction_of_full(c), color::fraction_of_full(d))
            == color::fraction_of_full(if d < c { d } else { c }),
{
    lemma_part(c);
    lemma_part(d);
    if c < d {
        lemma_part_order(c, d);
    } else if d < c {
        lemma_part_order(d, c);
    }
}

/// The largest and the smallest fraction of a colour.
pub proof fn lemma_extremes(c: LedColor)
    ensures
        ({
            let r = color::fraction_of_full(c.r);
            let g = color::fraction_of_full(c.g);
            let b = color::fraction_of_full(c.b);
            &&& float::larger(float::larger(r, g), b) == color::fraction_of_full(color::peak(c))
            &&& float::smaller(float::smaller(r, g), b) == color::fraction_of_full(low(c))
        }),
{
    lemma_part_choice(c.r, c.g);
    lemma_part_choice(if c.r < c.g { c.g } else { c.r }, c.b);
    lemma_part_choice(if c.g < c.r { c.g } else { c.r }, c.b);
}

/// Whether a channel is the largest can be told from its fraction.
proof fn lemma_same(c: u8, top: u8)
    requires
        c <= top,
    ensures
        color::same(color::fraction_of_full(c), color::fraction_of_full(top)) <==> c == top,
{
    let u = float::unit();
    let (x, y) = (color::fraction_of_full(c), color::fraction_of_full(top));
    near::grains_in_one();
    lemma_constants();
    facts::zero_is_zero();
    lemma_part(c);
    lemma_part(top);
    near::near_difference(x, y, c as int, top as int, 255, 1, 1);
    let d = float::difference(x, y);
    order::magnitudes_are_not_negative(d);
    order::negated_value(y);
    let a = float::absolute(d);
    assert(a.value() == d.mag() && a.finite());
    let p = c - top;
    assert(d.value() * 255 - p * u <= (3 * near::grain()) * 255);
    if c < top {
        assert(p * u <= -u) by (nonlinear_arith)
            requires
                p <= -1,
                u > 0,
        ;
        assert(d.value() < -near::grain());
    } else {
        assert(d.value() == 0);
    }
}

/// The hue part of a channel.
proof fn lemma_hue_part(c: u8, m: u8, top: u8)
    requires
        m <= c <= top,
        top - m >= 3,
    ensures
        ({
            let max = color::fraction_of_full(top);
            let delta = float::difference(max, color::fraction_of_full(m));
            near::near(
                color::hue_part(max, color::fraction_of_full(c), delta),
                (top - c) + 3 * (top - m),
                6 * (top - m),
                1033,
            )
        }),
{
    let max = color::fraction_of_full(top);
    let min = color::fraction_of_full(m);
    let x = color::fraction_of_full(c);
    let d = top - m;
    near::grains_in_one();
    lemma_constants();
    lemma_part(c);
    lemma_part(m);
    lemma_part(top);
    near::near_difference(max, min, top as int, m as int, 255, 1, 1);
    let delta = float::difference(max, min);
    near::near_difference(max, x, top as int, c as int, 255, 1, 1);
    let gap = float::difference(max, x);
    near::near_bounds(gap, top - c, 255, 3, 0, 1);
    near::near_bounds(delta, d, 255, 3, 0, 1);
    near::near_over(gap, color::lit(SIX), 6, top - c, 255, 3);
    near::near_over(delta, color::lit(TWO), 2, d, 255, 3);
    let (g6, d2) = (float::quotient(gap, color::lit(SIX)), float::quotient(delta, color::lit(TWO)));
    near::near_scaled(d2, d, 510, 4, 3);
    near::near_sum(g6, d2, top - c, 3 * d, 1530, 4, 4);
    near::near_scaled(delta, d, 255, 3, 6);
    near::near_ratio(float::sum(g6, d2), delta, (top - c) + 3 * d, 6 * d, 1530, 9, 3);
}

/// The hue of a colour, counted from red in parts of which a turn has six for every step between
/// its largest and its smallest channel; it may lie up to one such step outside the turn.
pub open spec fn hue_steps(c: LedColor) -> int {
    let d = color::peak(c) - low(c);
    if c.r == color::peak(c) {
        c.g - c.b
    } else if c.g == color::peak(c) {
        2 * d + c.b - c.r
    } else {
        4 * d + c.r - c.g
    }
}

/// The hue of a colour with at least three steps between its channels, in parts of which a turn
/// has six for each step: the three channels lie on the wave, a third of a turn apart.
pub proof fn lemma_hue(c: LedColor) -> (hh: int)
    requires
        color::peak(c) - low(c) >= 3,
    ensures
        ({
            let d = color::peak(c) - low(c);
            let m = low(c) as int;
            &&& near::near(color::hsl(c).h, hh, 6 * d, 2070)
            &&& 0 <= hh <= 6 * d
            &&& hh == hue_steps(c) || hh == hue_steps(c) + 6 * d || hh == hue_steps(c) - 6 * d
            &&& turned_wave(m, d, hh + 2 * d) == c.r
            &&& turned_wave(m, d, hh) == c.g
            &&& turned_wave(m, d, hh - 2 * d) == c.b
        }),
{
    let (top, m) = (color::peak(c), low(c));
    let d = top - m;
    near::grains_in_one();
    lemma_constants();
    facts::one_is_unit();
    lemma_extremes(c);
    lemma_is_tinted(m, top);
    lemma_same(c.r, top);
    lemma_same(c.g, top);
    let q = if c.r == top {
        c.g - c.b
    } else if c.g == top {
        2 * d + c.b - c.r
    } else {
        4 * d + c.r - c.g
    };
    let h = plain_hue(c);
    lemma_plain_hue(c);
    let hh = lemma_turn(h, d, q, 2069);
    assert(color::hsl(c).h == color::one_turn(h));
    lemma_waves(c, d, q, hh);
    hh
}

/// The hue of a colour before it is brought back by a turn.
spec fn plain_hue(c: LedColor) -> F32 {
    let max = color::fraction_of_full(color::peak(c));
    let delta = float::difference(max, color::fraction_of_full(low(c)));
    let dr = color::hue_part(max, color::fraction_of_full(c.r), delta);
    let dg = color::hue_part(max, color::fraction_of_full(c.g), delta);
    let db = color::hue_part(max, color::fraction_of_full(c.b), delta);
    if c.r == color::peak(c) {
        float::difference(db, dg)
    } else if c.g == color::peak(c) {
        float::difference(float::sum(color::lit(THIRD), dr), db)
    } else {
        float::difference(float::sum(color::lit(TWO_THIRDS), dg), dr)
    }
}

proof fn lemma_plain_hue(c: LedColor)
    requires
        color::peak(c) - low(c) >= 3,
    ensures
        ({
            let d = color::peak(c) - low(c);
            let q = if c.r == color::peak(c) {
                c.g - c.b
            } else if c.g == color::peak(c) {
                2 * d + c.b - c.r
            } else {
                4 * d + c.r - c.g
            };
            near::near(plain_hue(c), q, 6 * d, 2069)
        }),
{
    let (top, m) = (color::peak(c), low(c));
    let d = top - m;
    lemma_constants();
    lemma_hue_part(c.r, m, top);
    lemma_hue_part(c.g, m, top);
    lemma_hue_part(c.b, m, top);
    let max = color::fraction_of_full(top);
    let delta = float::difference(max, color::fraction_of_full(m));
    let dr = color::hue_part(max, color::fraction_of_full(c.r), delta);
    let dg = color::hue_part(max, color::fraction_of_full(c.g), delta);
    let db = color::hue_part(max, color::fraction_of_full(c.b), delta);
    let (pr, pg, pb) = ((top - c.r) + 3 * d, (top - c.g) + 3 * d, (top - c.b) + 3 * d);
    if c.r == top {
        near::near_difference(db, dg, pb, pg, 6 * d, 1033, 1033);
        near::near_loosened(plain_hue(c), pb - pg, 6 * d, 2067, 2069);
    } else if c.g == top {
        near::near_scaled(color::lit(THIRD), 1, 3, 1, 2 * d);
        let s = float::sum(color::lit(THIRD), dr);
        near::near_sum(color::lit(THIRD), dr, 2 * d, pr, 6 * d, 1, 1033);
        near::near_difference(s, db, 2 * d + pr, pb, 6 * d, 1035, 1033);
    } else {
        near::near_scaled(color::lit(TWO_THIRDS), 2, 3, 1, 2 * d);
        let s = float::sum(color::lit(TWO_THIRDS), dg);
        assert((2 * d) * 2 == 4 * d && (2 * d) * 3 == 6 * d);
        near::near_sum(color::lit(TWO_THIRDS), dg, 4 * d, pg, 6 * d, 1, 1033);
        near::near_difference(s, dr, 4 * d + pg, pr, 6 * d, 1035, 1033);
    }
}

/// The channels of a colour lie on the wave, a third of a turn apart from its hue.
proof fn lemma_waves(c: LedColor, d: int, q: int, hh: int)
    requires
        d == color::peak(c) - low(c),
        d >= 3,
        q == if c.r == color::peak(c) {
            c.g - c.b
        } else if c.g == color::peak(c) {
            2 * d + c.b - c.r
        } else {
            4 * d + c.r - c.g
        },
        0 <= hh <= 6 * d,
        hh == q || hh == q + 6 * d || hh == q - 6 * d,
        q != 0 && q != 6 * d ==> hh == if q < 0 {
            q + 6 * d
        } else if q > 6 * d {
            q - 6 * d
        } else {
            q
        },
    ensures
        turned_wave(low(c) as int, d, hh + 2 * d) == c.r,
        turned_wave(low(c) as int, d, hh) == c.g,
        turned_wave(low(c) as int, d, hh - 2 * d) == c.b,
{
}

/// Where a hue ends up that was brought back by one turn: at the fraction itself, or a turn away
/// where that lies outside; at either end where it lies on one.
proof fn lemma_turn(h: F32, d: int, p: int, e: int) -> (q: int)
    requires
        3 <= d <= 255,
        -2 * d <= p <= 8 * d,
        0 <= e <= 2080,
        near::near(h, p, 6 * d, e),
    ensures
        near::near(color::one_turn(h), q, 6 * d, e + 1),
        0 <= q <= 6 * d,
        q == p || q == p + 6 * d || q == p - 6 * d,
        p != 0 && p != 6 * d ==> q == if p < 0 {
            p + 6 * d
        } else if p > 6 * d {
            p - 6 * d
        } else {
            p
        },
{
    let u = float::unit();
    let w = near::grain();
    let one = color::lit(ONE);
    let v = h.value();
    near::grains_in_one();
    lemma_constants();
    facts::one_is_unit();
    let t = 6 * d;
    let b = (e * w) * t;
    assert(b < u) by (nonlinear_arith)
        requires
            b == (e * w) * t,
            0 <= e <= 2080,
            0 < t <= 1530,
            u == 0x40_0000 * w,
            w > 0,
    {
        assert(e * w <= 2080 * w);
        assert((e * w) * t <= (2080 * w) * t);
        assert((2080 * w) * t <= (2080 * w) * 1530);
    }
    assert(1 * t == t);
    lemma_integer(one, 1, t);
    if v < 0 {
        assert(p <= 0) by {
            if p >= 1 {
                assert(p * u >= u) by (nonlinear_arith)
                    requires
                        p >= 1,
                        u > 0,
                ;
                assert(v * t < 0) by (nonlinear_arith)
                    requires
                        v < 0,
                        t > 0,
                ;
            }
        }
        near::near_sum(h, one, p, t, t, e, 0);
        assert(-0x10_0000 * u <= v + u) by {
            near::near_bounds(h, p, t, e, -2, 8);
            assert(e * w <= 2080 * w) by (nonlinear_arith)
                requires
                    e <= 2080,
                    w > 0,
            ;
        }
        assert(order::small(one));
        order::sum_stays_below(h, one, one);
        p + t
    } else if v > u {
        assert(p >= t) by {
            if p <= t - 1 {
                assert(p * u <= t * u - u) by (nonlinear_arith)
                    requires
                        p <= t - 1,
                        u > 0,
                ;
                assert(v * t > t * u) by (nonlinear_arith)
                    requires
                        v > u,
                        t > 0,
                ;
            }
        }
        near::near_difference(h, one, p, t, t, e, 0);
        p - t
    } else {
        assert(p >= 0) by {
            if p <= -1 {
                assert(p * u <= -u) by (nonlinear_arith)
                    requires
                        p <= -1,
                        u > 0,
                ;
                assert(v * t >= 0) by (nonlinear_arith)
                    requires
                        v >= 0,
                        t > 0,
                ;
            }
        }
        assert(p <= t) by {
            if p >= t + 1 {
                assert(p * u >= t * u + u) by (nonlinear_arith)
                    requires
                        p >= t + 1,
                        u > 0,
                ;
                assert(v * t <= t * u) by (nonlinear_arith)
                    requires
                        v <= u,
                        t > 0,
                ;
            }
        }
        near::near_loosened(h, p, t, e, e + 1);
        p
    }
}

/// Three steps between the channels make a colour, and two do not.
pub proof fn lemma_is_tinted(m: u8, top: u8)
    requires
        m <= top,
    ensures
        ({
            let delta = float::difference(color::fraction_of_full(top), color::fraction_of_full(m));
            &&& near::near(delta, top - m, 255, 3)
            &&& float::less_eq(delta, color::lit(HUNDREDTH)) <==> top - m <= 2
        }),
{
    let u = float::unit();
    near::grains_in_one();
    lemma_constants();
    lemma_part(m);
    lemma_part(top);
    near::near_difference(
        color::fraction_of_full(top),
        color::fraction_of_full(m),
        top as int,
        m as int,
        255,
        1,
        1,
    );
    let d = top - m;
    if d <= 2 {
        assert(d * u <= 2 * u) by (nonlinear_arith)
            requires
                d <= 2,
                u > 0,
        ;
    } else {
        assert(d * u >= 3 * u) by (nonlinear_arith)
            requires
                d >= 3,
                u > 0,
        ;
    }
}

/// The lightness of a colour.
pub proof fn lemma_lightness(c: LedColor)
    ensures
        ({
            let sum = color::peak(c) + low(c);
            let l = color::hsl(c).l;
            &&& near::near(l, sum, 510, 4)
            &&& 0 <= l.value() <= float::unit()
            &&& float::less(l, color::lit(HALF)) ==> sum <= 255
            &&& !float::less(l, color::lit(HALF)) ==> sum >= 255
        }),
{
    let u = float::unit();
    let (top, m) = (color::peak(c), low(c));
    let (max, min) = (color::fraction_of_full(top), color::fraction_of_full(m));
    let n = top + m;
    near::grains_in_one();
    lemma_constants();
    facts::one_is_unit();
    facts::zero_is_zero();
    lemma_extremes(c);
    lemma_part(top);
    lemma_part(m);
    near::near_sum(max, min, top as int, m as int, 255, 1, 1);
    let both = float::sum(max, min);
    let two = color::lit(TWO);
    order::sum_stays_below(max, min, two);
    order::sum_stays_above(max, min, color::lit(0));
    near::near_over(both, two, 2, n, 255, 3);
    let l = float::quotient(both, two);
    assert(l == color::hsl(c).l);
    // No more than one, and no less than zero.
    order::magnitudes_are_not_negative(both);
    let b = both.mag();
    assert(0 <= b * u <= u * two.mag()) by (nonlinear_arith)
        requires
            0 <= b <= two.mag(),
            u > 0,
    ;
    facts::rounding_stays_below(b * u, two.mag(), ONE);
    round::lemma_monotone(0, float::nearest(b * u, two.mag()) as int);
    round::lemma_monotone(float::nearest(b * u, two.mag()) as int, ONE as int);
    if both.negative() {
        assert(0 * u == 0);
        facts::rounding_stays_below(0, two.mag(), 0);
    }
    if n <= 254 {
        assert(n * u <= 254 * u) by (nonlinear_arith)
            requires
                n <= 254,
                u > 0,
        ;
    }
    if n >= 256 {
        assert(n * u >= 256 * u) by (nonlinear_arith)
            requires
                n >= 256,
                u > 0,
        ;
    }
}

/// What the saturation of a colour is measured against.
pub open spec fn room(c: LedColor) -> int {
    if float::less(color::hsl(c).l, color::lit(HALF)) {
        color::peak(c) + low(c)
    } else {
        510 - color::peak(c) - low(c)
    }
}

/// The saturation of a colour with at least three steps between its channels.
pub proof fn lemma_saturation(c: LedColor)
    requires
        color::peak(c) - low(c) >= 3,
    ensures
        near::near(color::hsl(c).s, color::peak(c) - low(c), room(c), 603),
        color::peak(c) - low(c) <= room(c) <= 255,
{
    let (top, m) = (color::peak(c), low(c));
    let (max, min) = (color::fraction_of_full(top), color::fraction_of_full(m));
    let d = top - m;
    lemma_constants();
    lemma_extremes(c);
    lemma_is_tinted(m, top);
    lemma_lightness(c);
    lemma_part(top);
    lemma_part(m);
    let delta = float::difference(max, min);
    if float::less(color::hsl(c).l, color::lit(HALF)) {
        near::near_sum(max, min, top as int, m as int, 255, 1, 1);
        near::near_ratio(delta, float::sum(max, min), d, top + m, 255, 3, 3);
        near::near_loosened(color::hsl(c).s, d, top + m, 517, 603);
    } else {
        let two = color::lit(TWO);
        lemma_integer(two, 2, 255);
        near::near_difference(two, max, 510, top as int, 255, 0, 1);
        let rest = float::difference(two, max);
        near::near_difference(rest, min, 510 - top, m as int, 255, 2, 1);
        near::near_ratio(delta, float::difference(rest, min), d, 510 - top - m, 255, 3, 4);
    }
}

/// A saturation of that kind is more than what counts as grey.
proof fn lemma_saturation_counts(s: F32, d: int, n: int)
    requires
        3 <= d <= n <= 255,
        near::near(s, d, n, 603),
        0 <= s.value(),
    ensures
        !float::less_eq(s, color::lit(HUNDREDTH)),
{
    let u = float::unit();
    let w = near::grain();
    let v = s.value();
    near::grains_in_one();
    lemma_constants();
    assert(v > 41944 * w) by (nonlinear_arith)
        requires
            d * u - v * n <= (603 * w) * n,
            3 <= d,
            0 < n <= 255,
            u == 0x40_0000 * w,
            w > 0,
    {
        assert(d * u >= 3 * u);
        assert((603 * w) * n <= (603 * w) * 255);
        assert(v * n >= 3 * u - (603 * w) * 255);
        assert(3 * u - (603 * w) * 255 == 12429147 * w);
        if v <= 41944 * w {
            assert(v * n <= (41944 * w) * n);
            assert((41944 * w) * n <= (41944 * w) * 255);
        }
    }
}

/// The upper of the two levels that the channels lie between.
pub open spec fn upper(s: F32, l: F32) -> F32 {
    if float::less(l, color::lit(HALF)) {
        float::product(l, float::sum(color::lit(ONE), s))
    } else {
        float::difference(float::sum(l, s), float::product(s, l))
    }
}

/// The levels are the largest and the smallest channel.
proof fn lemma_levels(s: F32, l: F32, top: int, m: int, n: int)
    requires
        0 <= m,
        3 <= top - m,
        top <= 255,
        near::near(l, top + m, 510, 4),
        0 <= l.value() <= float::unit(),
        near::near(s, top - m, n, 603),
        0 <= s.value() <= float::unit(),
        n == if float::less(l, color::lit(HALF)) {
            top + m
        } else {
            510 - top - m
        },
    ensures
        near::near(upper(s, l), top, 255, 1217),
        near::near(
            float::difference(float::product(color::lit(TWO), l), upper(s, l)),
            m,
            255,
            1227,
        ),
{
    let d = top - m;
    let sum = top + m;
    let one = color::lit(ONE);
    let two = color::lit(TWO);
    near::grains_in_one();
    lemma_constants();
    let v2 = upper(s, l);
    if float::less(l, color::lit(HALF)) {
        lemma_integer(one, 1, n);
        near::near_sum(one, s, n, d, n, 0, 603);
        let t = float::sum(one, s);
        near::near_bounds(t, n + d, n, 604, 0, 2);
        lemma_factors(l, t, 4, 9);
        near::near_product(l, t, sum, 510, 4, n + d, n, 604, 1, 1, 2, 1, 613);
        // (n / 510) * ((n + d) / n) is (n + d) / 510.
        assert(sum * (n + d) == n * (2 * top) && 510 * n == n * 510) by (nonlinear_arith)
            requires
                n == sum,
                n + d == 2 * top,
        ;
        near::near_scaled(v2, 2 * top, 510, 613, n);
        near::near_scaled(v2, top, 255, 613, 2);
        near::near_loosened(v2, top, 255, 613, 1217);
    } else {
        near::near_scaled(l, sum, 510, 4, n);
        near::near_scaled(s, d, n, 603, 510);
        let den = 510 * n;
        assert(n * 510 == den && n * sum == sum * n) by (nonlinear_arith)
            requires
                den == 510 * n,
        ;
        let (lp, sp) = (n * sum, 510 * d);
        assert(0 <= lp <= den && 0 <= sp <= den) by (nonlinear_arith)
            requires
                lp == n * sum,
                sp == 510 * d,
                den == 510 * n,
                0 <= sum <= 510,
                0 <= d <= n,
        ;
        near::near_sum(l, s, lp, sp, den, 4, 603);
        lemma_factors(s, l, 4, 4);
        near::near_product(s, l, d, n, 603, sum, 510, 4, 1, 1, 1, 1, 608);
        let pr = d * sum;
        assert(n * 510 == den);
        assert(0 <= pr <= den) by (nonlinear_arith)
            requires
                pr == d * sum,
                den == 510 * n,
                0 <= sum <= 510,
                0 <= d <= n,
        ;
        near::near_difference(
            float::sum(l, s),
            float::product(s, l),
            lp + sp,
            pr,
            den,
            608,
            608,
        );
        // (sum * n + 510 * d - d * sum) is (sum + d) * n.
        assert(lp + sp - pr == n * (2 * top)) by (nonlinear_arith)
            requires
                lp == n * sum,
                sp == 510 * d,
                pr == d * sum,
                n == 510 - sum,
                sum + d == 2 * top,
        ;
        near::near_scaled(v2, 2 * top, 510, 1217, n);
        near::near_scaled(v2, top, 255, 1217, 2);
    }
    lemma_integer(two, 2, 1);
    lemma_factors(two, l, 8, 4);
    near::near_product(two, l, 2, 1, 0, sum, 510, 4, 2, 1, 1, 1, 9);
    let twice = float::product(two, l);
    near::near_scaled(twice, sum, 255, 9, 2);
    near::near_difference(twice, v2, sum, top, 255, 9, 1217);
}

/// Which branch a hue falls into: `kn` times it against `n`, which it reaches `c` sixths of a turn
/// in.
proof fn lemma_branch(k: F32, vh: F32, bound: F32, kn: int, n: int, c: int, d: int, q: int)
    requires
        3 <= d <= 255,
        kn == 2 || kn == 3 || kn == 6,
        1 <= n <= 2,
        kn * c == 6 * n,
        k.finite(),
        k.value() == kn * float::unit(),
        bound.finite(),
        bound.value() == n * float::unit(),
        near::near(vh, q, 6 * d, 2076),
        0 <= q <= 6 * d,
    ensures
        float::less(float::product(k, vh), bound) ==> q <= c * d,
        !float::less(float::product(k, vh), bound) ==> q >= c * d,
{
    let u = float::unit();
    let w = near::grain();
    let t = 6 * d;
    near::grains_in_one();
    near::near_bounds(vh, q, t, 2076, 0, 1);
    order::magnitudes_are_not_negative(k);
    order::magnitudes_are_not_negative(vh);
    assert(k.mag() == kn * u);
    let v = vh.value();
    assert(k.mag() * vh.mag() <= (8 * u) * u) by (nonlinear_arith)
        requires
            k.mag() <= 6 * u,
            0 <= k.mag(),
            6 * vh.mag() <= 8 * u,
            0 <= vh.mag(),
            u > 0,
    {
        assert(6 * (k.mag() * vh.mag()) <= (6 * u) * (6 * vh.mag()));
        assert((6 * u) * (6 * vh.mag()) <= (6 * u) * (8 * u));
    }
    near::product_error(k, vh);
    let z = float::product(k, vh).value();
    // The product is off by one grain at most.
    let x = kn * v;
    assert(z - x <= w && x - z <= w) by (nonlinear_arith)
        requires
            z * u - (kn * u) * v <= w * u,
            (kn * u) * v - z * u <= w * u,
            x == kn * v,
            u > 0,
    {
        assert((kn * u) * v == x * u);
        assert((z - x) * u <= w * u);
        assert((x - z) * u <= w * u);
    }
    // Against the exact hue.
    let b = (2076 * w) * t;
    let wt = w * t;
    assert(b + wt < u && 0 < wt) by (nonlinear_arith)
        requires
            b == (2076 * w) * t,
            wt == w * t,
            0 < t <= 1530,
            u == 0x40_0000 * w,
            w > 0,
    {
        assert(b <= (2076 * w) * 1530);
        assert(w * t <= w * 1530);
    }
    let vt = v * t;
    let nt = (n * u) * t;
    let gap = (q - c * d) * u;
    assert(x * t == kn * vt) by (nonlinear_arith)
        requires
            x == kn * v,
            vt == v * t,
    ;
    assert(nt == kn * ((c * d) * u)) by (nonlinear_arith)
        requires
            nt == (n * u) * t,
            t == 6 * d,
            kn * c == 6 * n,
    {
        assert(nt == ((6 * n) * d) * u);
        assert(nt == ((kn * c) * d) * u);
    }
    assert(gap == q * u - (c * d) * u) by (nonlinear_arith)
        requires
            gap == (q - c * d) * u,
    ;
    let dist = vt - (c * d) * u;
    assert(x * t - nt == kn * dist) by (nonlinear_arith)
        requires
            x * t == kn * vt,
            nt == kn * ((c * d) * u),
            dist == vt - (c * d) * u,
    ;
    if float::less(float::product(k, vh), bound) {
        assert(x * t - nt <= wt) by (nonlinear_arith)
            requires
                x <= n * u + w,
                nt == (n * u) * t,
                wt == w * t,
                t > 0,
        ;
        assert(dist <= wt);
        assert(q <= c * d) by (nonlinear_arith)
            requires
                (q - c * d) * u < u,
                u > 0,
        ;
    } else {
        assert(nt - x * t <= wt) by (nonlinear_arith)
            requires
                x >= n * u - w,
                nt == (n * u) * t,
                wt == w * t,
                t > 0,
        ;
        assert(-dist <= wt);
        assert(q >= c * d) by (nonlinear_arith)
            requires
                -((q - c * d) * u) < u,
                u > 0,
        ;
    }
}

/// The slope of the wave: the levels' distance times six times a hue that is within a sixth of a
/// turn.
proof fn lemma_rise(span: F32, x: F32, d: int, q: int, e: int)
    requires
        3 <= d <= 255,
        0 <= q <= d,
        0 <= e <= 2078,
        near::near(span, d, 255, 2445),
        near::near(x, q, 6 * d, e),
    ensures
        near::near(
            float::product(float::product(span, color::lit(SIX)), x),
            q,
            255,
            18000,
        ),
        near::near(
            float::product(float::product(span, x), color::lit(SIX)),
            q,
            255,
            18000,
        ),
{
    let u = float::unit();
    let w = near::grain();
    let six = color::lit(SIX);
    near::grains_in_one();
    lemma_constants();
    lemma_integer(six, 6, 1);
    near::near_bounds(span, d, 255, 2445, 0, 1);
    let vx = x.value();
    // The hue is at most a quarter.
    assert(-u <= 4 * vx <= u) by (nonlinear_arith)
        requires
            vx * (6 * d) - q * u <= (e * w) * (6 * d),
            q * u - vx * (6 * d) <= (e * w) * (6 * d),
            0 <= q <= d,
            0 <= e <= 2078,
            u == 0x40_0000 * w,
            w > 0,
            d > 0,
    {
        assert(e * w <= 2078 * w);
        assert((e * w) * (6 * d) <= (2078 * w) * (6 * d));
        assert(0 <= q * u <= d * u);
        assert((6 * vx) * d <= (u + 12468 * w) * d);
        assert((-(12468 * w)) * d <= (6 * vx) * d);
        assert(6 * vx <= u + 12468 * w);
        assert(-(12468 * w) <= 6 * vx);
    }
    // Six first.
    let t = 6 * d;
    lemma_factors(span, six, 5, 24);
    near::near_product(span, six, d, 255, 2445, 6, 1, 0, 2, 1, 6, 1, 14671);
    let steep = float::product(span, six);
    near::near_bounds(steep, t, 255, 14671, 0, 6);
    lemma_factors(steep, x, 25, 1);
    near::near_product(steep, x, t, 255, 14671, q, t, e, 7, 1, 1, 6, 17000);
    assert(255 * t == t * 255) by (nonlinear_arith);
    near::near_scaled(float::product(steep, x), q, 255, 17000, t);
    near::near_loosened(float::product(steep, x), q, 255, 17000, 18000);
    // Six last.
    facts::product_commutes(span, x);
    lemma_factors(x, span, 1, 5);
    near::near_product(x, span, q, t, e, d, 255, 2445, 1, 4, 1, 1, 2691);
    let flat = float::product(span, x);
    let (fp, fq) = (q * d, t * 255);
    assert(0 <= fp <= fq && fq > 0) by (nonlinear_arith)
        requires
            fp == q * d,
            fq == t * 255,
            0 <= q <= d,
            t == 6 * d,
            0 < d <= 255,
    ;
    near::near_bounds(flat, fp, fq, 2691, 0, 1);
    lemma_factors(flat, six, 5, 24);
    near::near_product(flat, six, fp, fq, 2691, 6, 1, 0, 2, 1, 6, 1, 16147);
    assert(fp * 6 == t * q && fq * 1 == t * 255) by (nonlinear_arith)
        requires
            fp == q * d,
            fq == t * 255,
            t == 6 * d,
    ;
    near::near_scaled(float::product(flat, six), q, 255, 16147, t);
    near::near_loosened(float::product(flat, six), q, 255, 16147, 18000);
}

/// The level of a channel, given the levels that it lies between and its hue.
proof fn lemma_hue_level(v1: F32, v2: F32, hue: F32, m: int, d: int, p: int)
    requires
        0 <= m,
        3 <= d,
        m + d <= 255,
        near::near(v1, m, 255, 1227),
        near::near(v2, m + d, 255, 1217),
        -2 * d <= p <= 8 * d,
        near::near(hue, p, 6 * d, 2075),
    ensures
        near::near(color::hue_level(v1, v2, hue), turned_wave(m, d, p), 255, 19228),
{
    near::grains_in_one();
    lemma_constants();
    let q = lemma_turn(hue, d, p, 2075);
    let vh = color::one_turn(hue);
    let (one, two, three, six) = (
        color::lit(ONE),
        color::lit(TWO),
        color::lit(THREE),
        color::lit(SIX),
    );
    lemma_branch(six, vh, one, 6, 1, 1, d, q);
    lemma_branch(two, vh, one, 2, 1, 3, d, q);
    lemma_branch(three, vh, two, 3, 2, 4, d, q);
    near::near_difference(v2, v1, m + d, m, 255, 1217, 1227);
    let span = float::difference(v2, v1);
    let f = turned_wave(m, d, p);
    if float::less(float::product(six, vh), one) {
        lemma_rise(span, vh, d, q, 2076);
        near::near_sum(
            v1,
            float::product(float::product(span, six), vh),
            m,
            q,
            255,
            1227,
            18000,
        );
        assert(f == m + q);
    } else if float::less(float::product(two, vh), one) {
        near::near_loosened(v2, m + d, 255, 1217, 19228);
        assert(f == m + d);
    } else if float::less(float::product(three, vh), two) {
        near::near_scaled(color::lit(TWO_THIRDS), 2, 3, 1, 2 * d);
        assert((2 * d) * 2 == 4 * d && (2 * d) * 3 == 6 * d);
        near::near_difference(color::lit(TWO_THIRDS), vh, 4 * d, q, 6 * d, 1, 2076);
        let rest = float::difference(color::lit(TWO_THIRDS), vh);
        lemma_rise(span, rest, d, 4 * d - q, 2078);
        near::near_sum(
            v1,
            float::product(float::product(span, rest), six),
            m,
            4 * d - q,
            255,
            1227,
            18000,
        );
        assert(f == m + 4 * d - q);
    } else {
        near::near_loosened(v1, m, 255, 1227, 19228);
        assert(f == m);
    }
}

/// The channel that a level of `n` half steps rounds to.
proof fn lemma_back_to_channel(y: F32, n: int, e: int)
    requires
        0 <= n <= 510,
        0 <= e <= 19228,
        near::near(y, n, 510, e),
    ensures
        ({
            let c = color::channel(float::product(color::lit(BYTE_MAX), y));
            &&& n - 3 <= 2 * c <= n + 3
            &&& e <= 4 ==> n - 1 <= 2 * c <= n + 1
        }),
{
    let u = float::unit();
    let w = near::grain();
    let full = color::lit(BYTE_MAX);
    near::grains_in_one();
    facts::zero_is_zero();
    laws::lemma_full_is_255();
    facts::small_integers_are_exact(255);
    lemma2_to64();
    lemma_pow2_adds(9, 149);
    lemma_pow2_adds(16, 133);
    near::near_bounds(y, n, 510, e, 0, 1);
    order::magnitudes_are_not_negative(y);
    let v = y.value();
    let ym = y.mag();
    let ew = e * w;
    assert(0 <= ew <= 19228 * w && (e <= 4 ==> ew <= 4 * w)) by (nonlinear_arith)
        requires
            ew == e * w,
            0 <= e <= 19228,
            w > 0,
    ;
    let num = (255 * u) * ym;
    assert(0 <= num <= (512 * u) * u) by (nonlinear_arith)
        requires
            num == (255 * u) * ym,
            0 <= ym <= 2 * u,
            u > 0,
    {
        assert((255 * u) * ym <= (255 * u) * (2 * u));
        assert((255 * u) * (2 * u) <= (512 * u) * u);
    }
    facts::overshoot(num, u, 136);
    facts::undershoot(num, u, 136);
    let b = float::nearest(num, u);
    let z = float::magnitude(b as int);
    round::lemma_monotone(0, b as int);
    let x = float::product(full, y);
    assert(x.mag() == z && x.finite());
    let s = pow2(133) as int;
    assert(z <= 255 * ym + s && 255 * ym <= z + s) by (nonlinear_arith)
        requires
            z * u <= num + s * u,
            num <= z * u + s * u,
            num == (255 * u) * ym,
            u > 0,
    {
        assert(num == (255 * ym) * u);
        assert(z * u <= (255 * ym + s) * u);
        assert((255 * ym) * u <= (z + s) * u);
    }
    let c = color::channel(x);
    if x.negative() {
        assert(y.negative());
        assert(n * u <= ew * 510);
        assert(n <= 2 && (e <= 4 ==> n == 0)) by (nonlinear_arith)
            requires
                n * u <= ew * 510,
                0 <= n,
                ew <= 19228 * w,
                e <= 4 ==> ew <= 4 * w,
                u == 0x40_0000 * w,
                w > 0,
        ;
    } else {
        let k = (2 * z + u) / (2 * u);
        vstd::arithmetic::div_mod::lemma_fundamental_div_mod(2 * z + u, 2 * u);
        vstd::arithmetic::div_mod::lemma_mod_bound(2 * z + u, 2 * u);
        vstd::arithmetic::div_mod::lemma_div_pos_is_pos(2 * z + u, 2 * u);
        assert(v == ym || ym == 0);
        let ku = k * u;
        assert((2 * u) * k == 2 * ku) by (nonlinear_arith)
            requires
                ku == k * u,
        ;
        let nu = n * u;
        assert(2 * ku <= nu + 510 * ew + 2 * s + u);
        assert(nu < 2 * ku + u + 510 * ew + 2 * s);
        let t = 2 * k - n;
        assert(t * u == 2 * ku - nu) by (nonlinear_arith)
            requires
                t == 2 * k - n,
                ku == k * u,
                nu == n * u,
        ;
        assert(-4 * u < t * u < 4 * u);
        assert(-4 < t < 4) by (nonlinear_arith)
            requires
                -4 * u < t * u < 4 * u,
                u > 0,
        ;
        if e <= 4 {
            assert(-2 * u < t * u < 2 * u);
            assert(-2 < t < 2) by (nonlinear_arith)
                requires
                    -2 * u < t * u < 2 * u,
                    u > 0,
            ;
        }
    }
}

/// Converting a colour to hue, saturation and lightness and back gives every channel again, or one
/// a single step beside it.
pub proof fn hsl_round_trip(c: LedColor)
    ensures
        ({
            let back = color::rgb(color::hsl(c));
            &&& c.r - 1 <= back.r <= c.r + 1
            &&& c.g - 1 <= back.g <= c.g + 1
            &&& c.b - 1 <= back.b <= c.b + 1
        }),
{
    lemma_lightness(c);
    if color::peak(c) - low(c) <= 2 {
        lemma_grey_saturation(c);
        lemma_grey_back(c, color::hsl(c));
    } else {
        lemma_saturation(c);
        let hh = lemma_hue(c);
        lemma_tinted_back(c, color::hsl(c), room(c), hh);
    }
}

/// A colour with at most two steps between its channels has no saturation.
pub proof fn lemma_grey_saturation(c: LedColor)
    requires
        color::peak(c) - low(c) <= 2,
    ensures
        color::hsl(c).s == color::lit(0),
{
    lemma_extremes(c);
    lemma_is_tinted(low(c), color::peak(c));
}

/// A lightness that lies between zero and one is kept.
pub proof fn lemma_kept_in_range(l: F32)
    requires
        l.finite(),
        0 <= l.value() <= float::unit(),
    ensures
        color::unit_clamped(l) == l,
{
    lemma_constants();
}

/// A colour without saturation, from its lightness back.
proof fn lemma_grey_back(c: LedColor, x: color::Hsl)
    requires
        color::peak(c) - low(c) <= 2,
        x.s == color::lit(0),
        near::near(x.l, color::peak(c) + low(c), 510, 4),
        0 <= x.l.value() <= float::unit(),
    ensures
        ({
            let back = color::rgb(x);
            &&& c.r - 1 <= back.r <= c.r + 1
            &&& c.g - 1 <= back.g <= c.g + 1
            &&& c.b - 1 <= back.b <= c.b + 1
        }),
{
    lemma_constants();
    near::grains_in_one();
    lemma_kept_in_range(x.l);
    lemma_kept_in_range(x.s);
    facts::product_commutes(x.l, color::lit(BYTE_MAX));
    lemma_back_to_channel(x.l, color::peak(c) + low(c), 4);
}

/// A colour with saturation, from its three figures back.
proof fn lemma_tinted_back(c: LedColor, x: color::Hsl, n: int, hh: int)
    requires
        ({
            let d = color::peak(c) - low(c);
            let m = low(c) as int;
            &&& 3 <= d <= n <= 255
            &&& near::near(x.l, color::peak(c) + low(c), 510, 4)
            &&& 0 <= x.l.value() <= float::unit()
            &&& near::near(x.s, d, n, 603)
            &&& n == if float::less(x.l, color::lit(HALF)) {
                color::peak(c) + low(c)
            } else {
                510 - color::peak(c) - low(c)
            }
            &&& near::near(x.h, hh, 6 * d, 2070)
            &&& 0 <= hh <= 6 * d
            &&& turned_wave(m, d, hh + 2 * d) == c.r
            &&& turned_wave(m, d, hh) == c.g
            &&& turned_wave(m, d, hh - 2 * d) == c.b
        }),
    ensures
        ({
            let back = color::rgb(x);
            &&& c.r - 1 <= back.r <= c.r + 1
            &&& c.g - 1 <= back.g <= c.g + 1
            &&& c.b - 1 <= back.b <= c.b + 1
        }),
{
    let (top, m) = (color::peak(c) as int, low(c) as int);
    let d = top - m;
    lemma_constants();
    lemma_kept_in_range(x.l);
    near::near_clamped(x.s, d, n, 603);
    let s = color::unit_clamped(x.s);
    lemma_saturation_counts(s, d, n);
    lemma_levels(s, x.l, top, m, n);
    let v2 = upper(s, x.l);
    let v1 = float::difference(float::product(color::lit(TWO), x.l), v2);
    near::near_clamped(x.h, hh, 6 * d, 2070);
    let h = color::unit_clamped(x.h);
    near::near_scaled(color::lit(THIRD), 1, 3, 1, 2 * d);
    near::near_sum(h, color::lit(THIRD), hh, 2 * d, 6 * d, 2070, 1);
    near::near_difference(h, color::lit(THIRD), hh, 2 * d, 6 * d, 2070, 1);
    let up = float::sum(h, color::lit(THIRD));
    let down = float::difference(h, color::lit(THIRD));
    lemma_channel_back(v1, v2, up, m, d, hh + 2 * d, 2072);
    lemma_channel_back(v1, v2, h, m, d, hh, 2070);
    lemma_channel_back(v1, v2, down, m, d, hh - 2 * d, 2072);
}

/// One channel, from its hue back.
proof fn lemma_channel_back(v1: F32, v2: F32, hue: F32, m: int, d: int, p: int, e: int)
    requires
        0 <= m,
        3 <= d,
        m + d <= 255,
        near::near(v1, m, 255, 1227),
        near::near(v2, m + d, 255, 1217),
        -2 * d <= p <= 8 * d,
        0 <= e <= 2075,
        near::near(hue, p, 6 * d, e),
        m <= turned_wave(m, d, p) <= m + d,
    ensures
        ({
            let f = turned_wave(m, d, p);
            let c = color::channel(
                float::product(color::lit(BYTE_MAX), color::hue_level(v1, v2, hue)),
            );
            f - 1 <= c <= f + 1
        }),
{
    let f = turned_wave(m, d, p);
    let y = color::hue_level(v1, v2, hue);
    near::near_loosened(hue, p, 6 * d, e, 2075);
    lemma_hue_level(v1, v2, hue, m, d, p);
    near::near_scaled(y, f, 255, 19228, 2);
    lemma_back_to_channel(y, 2 * f, 19228);
}

} // verus!
