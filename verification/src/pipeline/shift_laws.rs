//! Shifting hue, saturation and lightness does to a colour what their definitions say.

use vstd::prelude::*;
use vstd::arithmetic::div_mod::*;
use vstd::arithmetic::power2::*;

use crate::config::schema::HslOffsets;
use crate::float;
use crate::float::facts;
use crate::float::near;
use crate::float::order;
use crate::float::round;
use crate::float::{F32, ONE};

use super::color;
use super::color::{BYTE_MAX, HALF, HUNDREDTH, SIX, THIRD, THREE, TWO, TWO_THIRDS};
use super::hsl_laws;
use super::laws;
use super::LedColor;

verus! {

/// How far up between its lower and its upper level a channel is, at `p` of the `q` parts of a
/// turn, in parts of which the way up has `q`: it rises over the first sixth of the turn, stays up
/// to the half, falls up to two thirds, and stays down.
pub open spec fn trapezoid(p: int, q: int) -> int {
    let r = p % q;
    if 6 * r < q {
        6 * r
    } else if 2 * r < q {
        q
    } else if 3 * r < 2 * q {
        4 * q - 6 * r
    } else {
        0
    }
}

proof fn lemma_trapezoid_range(p: int, q: int)
    requires
        q > 0,
    ensures
        0 <= trapezoid(p, q) <= q,
{
    lemma_mod_bound(p, q);
}

/// A turn more or less makes no difference.
proof fn lemma_trapezoid_period(p: int, q: int, k: int)
    requires
        q > 0,
    ensures
        trapezoid(p + k * q, q) == trapezoid(p, q),
{
    lemma_mod_multiples_vanish(k, p, q);
    assert(q * k + p == p + k * q) by (nonlinear_arith);
}

/// Finer parts make no difference.
proof fn lemma_trapezoid_scaled(p: int, q: int, c: int)
    requires
        q > 0,
        c > 0,
    ensures
        trapezoid(c * p, c * q) == c * trapezoid(p, q),
{
    let r = p % q;
    let k = p / q;
    lemma_fundamental_div_mod(p, q);
    lemma_mod_bound(p, q);
    assert(c * p == k * (c * q) + c * r && 0 <= c * r < c * q) by (nonlinear_arith)
        requires
            p == q * k + r,
            0 <= r < q,
            c > 0,
    ;
    lemma_fundamental_div_mod_converse(c * p, c * q, k, c * r);
    assert((6 * (c * r) < c * q) == (6 * r < q) && (2 * (c * r) < c * q) == (2 * r < q) && (3 * (c
        * r) < 2 * (c * q)) == (3 * r < 2 * q) && c * (6 * r) == 6 * (c * r) && c * (4 * q - 6 * r)
        == 4 * (c * q) - 6 * (c * r)) by (nonlinear_arith)
        requires
            c > 0,
    {
        assert(c * (6 * r) == 6 * (c * r));
        assert(c * (2 * r) == 2 * (c * r));
        assert(c * (3 * r) == 3 * (c * r));
        assert(c * (2 * q) == 2 * (c * q));
        assert((c * (6 * r) < c * q) == (6 * r < q));
        assert((c * (2 * r) < c * q) == (2 * r < q));
        assert((c * (3 * r) < c * (2 * q)) == (3 * r < 2 * q));
    }
    assert(c * 0 == 0);
}

proof fn lemma_trapezoid_step(p: int, q: int)
    requires
        q >= 6,
    ensures
        -6 <= trapezoid(p + 1, q) - trapezoid(p, q) <= 6,
{
    let r = p % q;
    lemma_fundamental_div_mod(p, q);
    lemma_mod_bound(p, q);
    let k = p / q;
    if r + 1 < q {
        assert(p + 1 == k * q + (r + 1)) by (nonlinear_arith)
            requires
                p == q * k + r,
        ;
        lemma_fundamental_div_mod_converse(p + 1, q, k, r + 1);
    } else {
        assert(p + 1 == (k + 1) * q + 0) by (nonlinear_arith)
            requires
                p == q * k + r,
                r + 1 == q,
        ;
        lemma_fundamental_div_mod_converse(p + 1, q, k + 1, 0);
    }
}

/// The way is nowhere steeper than six.
proof fn lemma_trapezoid_is_steady(p: int, r: int, q: int)
    requires
        q >= 6,
        p <= r,
    ensures
        -(6 * (r - p)) <= trapezoid(r, q) - trapezoid(p, q) <= 6 * (r - p),
    decreases r - p,
{
    if p < r {
        lemma_trapezoid_is_steady(p, r - 1, q);
        lemma_trapezoid_step(r - 1, q);
    }
}

/// A hue that is brought back by one turn.
proof fn lemma_one_turn(h: F32, p: int, q: int, e: int) -> (k: int)
    requires
        near::near(h, p, q, e),
        0 <= e <= 0x1_0000,
        -float::unit() <= h.value() <= 2 * float::unit(),
        -2 * q <= p <= 3 * q,
    ensures
        near::near(color::one_turn(h), p + k * q, q, e + 1),
        0 <= color::one_turn(h).value() <= float::unit(),
{
    let u = float::unit();
    let one = color::lit(ONE);
    near::grains_in_one();
    hsl_laws::lemma_constants();
    facts::one_is_unit();
    facts::zero_is_zero();
    assert(1 * q == q);
    hsl_laws::lemma_integer(one, 1, q);
    if h.value() < 0 {
        near::near_sum(h, one, p, q, q, e, 0);
        assert(order::small(one));
        order::sum_stays_below(h, one, one);
        order::sum_stays_above(h, one, color::lit(0));
        1
    } else if h.value() > u {
        near::near_difference(h, one, p, q, q, e, 0);
        order::negated_value(one);
        let m = float::negation(one);
        assert(order::small(one));
        order::sum_stays_below(h, m, one);
        order::sum_stays_above(h, m, color::lit(0));
        assert(p - q == p + (-1) * q);
        -1
    } else {
        near::near_loosened(h, p, q, e, e + 1);
        assert(p + 0 * q == p);
        0
    }
}

/// A product with a small integer is off by at most one grain.
proof fn lemma_times(k: F32, x: F32, kn: int)
    requires
        kn == 2 || kn == 3 || kn == 6,
        k.finite(),
        k.value() == kn * float::unit(),
        x.finite(),
        0 <= x.value() <= float::unit(),
    ensures
        float::product(k, x).finite(),
        float::product(k, x).value() - kn * x.value() <= near::grain(),
        kn * x.value() - float::product(k, x).value() <= near::grain(),
{
    let u = float::unit();
    let w = near::grain();
    near::grains_in_one();
    order::magnitudes_are_not_negative(k);
    order::magnitudes_are_not_negative(x);
    assert(k.mag() * x.mag() <= (8 * u) * u) by (nonlinear_arith)
        requires
            0 <= k.mag() <= 6 * u,
            0 <= x.mag() <= u,
            u > 0,
    {
        assert(k.mag() * x.mag() <= (6 * u) * x.mag());
        assert((6 * u) * x.mag() <= (6 * u) * u);
    }
    near::product_error(k, x);
    let z = float::product(k, x).value();
    let v = x.value();
    assert(z - kn * v <= w && kn * v - z <= w) by (nonlinear_arith)
        requires
            z * u - (kn * u) * v <= w * u,
            (kn * u) * v - z * u <= w * u,
            u > 0,
    {
        assert((kn * u) * v == (kn * v) * u);
        assert((z - kn * v) * u <= w * u);
        assert((kn * v - z) * u <= w * u);
    }
}

/// What a channel's way up comes to, by the branch that is taken at a hue.
spec fn way_up(vh: F32) -> int {
    let x = vh.value();
    if float::less(float::product(color::lit(SIX), vh), color::lit(ONE)) {
        6 * x
    } else if float::less(float::product(color::lit(TWO), vh), color::lit(ONE)) {
        float::unit()
    } else if float::less(float::product(color::lit(THREE), vh), color::lit(TWO)) {
        4 * float::unit() - 6 * x
    } else {
        0
    }
}

/// The branch that is taken is right up to six grains.
proof fn lemma_way_up(vh: F32)
    requires
        vh.finite(),
        0 <= vh.value() <= float::unit(),
    ensures
        -(6 * near::grain()) <= way_up(vh) - trapezoid(vh.value(), float::unit()) <= 6
            * near::grain(),
        -near::grain() <= 6 * vh.value(),
        float::less(float::product(color::lit(SIX), vh), color::lit(ONE)) ==> 4 * vh.value()
            <= float::unit(),
        !float::less(float::product(color::lit(TWO), vh), color::lit(ONE)) ==> 2 * vh.value()
            >= float::unit() - near::grain(),
        float::less(float::product(color::lit(THREE), vh), color::lit(TWO)) ==> 3 * vh.value() <= 2
            * float::unit() + near::grain(),
{
    let u = float::unit();
    let x = vh.value();
    near::grains_in_one();
    hsl_laws::lemma_constants();
    lemma_times(color::lit(SIX), vh, 6);
    lemma_times(color::lit(TWO), vh, 2);
    lemma_times(color::lit(THREE), vh, 3);
    if x < u {
        lemma_small_mod(x as nat, u as nat);
    } else {
        lemma_mod_self_0(u);
    }
}

/// A number is near its own value.
proof fn lemma_self(x: F32)
    requires
        x.finite(),
    ensures
        near::near(x, x.value(), float::unit(), 0),
{
    near::grains_in_one();
    let (u, w) = (float::unit(), near::grain());
    assert((0 * w) * u == 0) by (nonlinear_arith);
}

/// The level on the way up.
proof fn lemma_rising(v1: F32, v2: F32, vh: F32, low: int, wide: int, den: int)
    requires
        near::near(v1, low, den, 1250),
        near::near(v2, low + wide, den, 1250),
        0 <= low,
        0 <= wide,
        low + wide <= den,
        vh.finite(),
        0 <= vh.value(),
        4 * vh.value() <= float::unit(),
    ensures
        ({
            let span = float::difference(v2, v1);
            let y = float::sum(
                v1,
                float::product(float::product(span, color::lit(SIX)), vh),
            );
            near::near(
                y,
                low * float::unit() + wide * (6 * vh.value()),
                den * float::unit(),
                5010,
            )
        }),
{
    let u = float::unit();
    let x = vh.value();
    let six = color::lit(SIX);
    near::grains_in_one();
    hsl_laws::lemma_constants();
    near::near_difference(v2, v1, low + wide, low, den, 1250, 1250);
    let span = float::difference(v2, v1);
    near::near_bounds(span, wide, den, 2501, 0, 1);
    hsl_laws::lemma_integer(six, 6, 1);
    hsl_laws::lemma_factors(span, six, 5, 24);
    near::near_product(span, six, wide, den, 2501, 6, 1, 0, 2, 1, 6, 1, 15007);
    let steep = float::product(span, six);
    assert(den * 1 == den && wide * 6 == 6 * wide);
    near::near_bounds(steep, 6 * wide, den, 15007, 0, 6);
    lemma_self(vh);
    hsl_laws::lemma_factors(steep, vh, 25, 1);
    near::near_product(steep, vh, 6 * wide, den, 15007, x, u, 0, 7, 1, 1, 4, 3753);
    let rise = float::product(steep, vh);
    assert((6 * wide) * x == wide * (6 * x)) by (nonlinear_arith);
    let all = den * u;
    near::near_scaled(v1, low, den, 1250, u);
    assert(u * low == low * u && u * den == all) by (nonlinear_arith)
        requires
            all == den * u,
    ;
    let (a, b) = (low * u, wide * (6 * x));
    assert(0 <= a && 0 <= b && a + b <= 7 * all) by (nonlinear_arith)
        requires
            a == low * u,
            b == wide * (6 * x),
            all == den * u,
            0 <= low,
            0 <= wide,
            low + wide <= den,
            0 <= x,
            4 * x <= u,
            u > 0,
    {
        assert(low * u <= den * u);
        assert(wide * (6 * x) <= den * (6 * x));
        assert(den * (6 * x) <= den * (2 * u)) by {
            assert(den >= 0);
        }
        assert(den * (2 * u) == 2 * (den * u));
        assert(den * u >= 0);
    }
    near::near_sum(v1, rise, a, b, all, 1250, 3753);
    near::near_loosened(float::sum(v1, rise), a + b, all, 5004, 5010);
}

/// The level on the way down.
proof fn lemma_falling(v1: F32, v2: F32, vh: F32, low: int, wide: int, den: int)
    requires
        near::near(v1, low, den, 1250),
        near::near(v2, low + wide, den, 1250),
        0 <= low,
        0 <= wide,
        low + wide <= den,
        vh.finite(),
        2 * vh.value() >= float::unit() - near::grain(),
        3 * vh.value() <= 2 * float::unit() + near::grain(),
    ensures
        ({
            let span = float::difference(v2, v1);
            let rest = float::difference(color::lit(TWO_THIRDS), vh);
            let y = float::sum(
                v1,
                float::product(float::product(span, rest), color::lit(SIX)),
            );
            near::near(
                y,
                low * float::unit() + wide * (4 * float::unit() - 6 * vh.value()),
                den * float::unit(),
                5100,
            )
        }),
{
    let u = float::unit();
    let x = vh.value();
    let six = color::lit(SIX);
    let third2 = color::lit(TWO_THIRDS);
    near::grains_in_one();
    hsl_laws::lemma_constants();
    near::near_difference(v2, v1, low + wide, low, den, 1250, 1250);
    let span = float::difference(v2, v1);
    near::near_bounds(span, wide, den, 2501, 0, 1);
    hsl_laws::lemma_integer(six, 6, 1);
    let t = 3 * u;
    near::near_scaled(third2, 2, 3, 1, u);
    lemma_self(vh);
    near::near_scaled(vh, x, u, 0, 3);
    near::near_difference(third2, vh, 2 * u, 3 * x, t, 1, 0);
    let rest = float::difference(third2, vh);
    let r = 2 * u - 3 * x;
    let vr = rest.value();
    assert(-u <= 4 * vr <= u) by (nonlinear_arith)
        requires
            vr * t - r * u <= (2 * near::grain()) * t,
            r * u - vr * t <= (2 * near::grain()) * t,
            t == 3 * u,
            r == 2 * u - 3 * x,
            2 * x >= u - near::grain(),
            3 * x <= 2 * u + near::grain(),
            u == 0x40_0000 * near::grain(),
            near::grain() > 0,
    {
        let w = near::grain();
        assert(-w <= r && 2 * r <= u + 3 * w);
        assert((3 * vr) * u <= (r + 6 * w) * u);
        assert((r - 6 * w) * u <= (3 * vr) * u);
        assert(3 * vr <= r + 6 * w);
        assert(r - 6 * w <= 3 * vr);
    }
    facts::product_commutes(span, rest);
    hsl_laws::lemma_factors(rest, span, 1, 5);
    near::near_product(rest, span, r, t, 2, wide, den, 2501, 1, 4, 1, 1, 629);
    let flat = float::product(span, rest);
    let (fp, fq) = (r * wide, t * den);
    assert(-fq <= fp <= fq && fq > 0) by (nonlinear_arith)
        requires
            fp == r * wide,
            fq == t * den,
            -t <= r <= t,
            0 <= wide <= den,
            t > 0,
            den > 0,
    {
        assert(r * wide <= t * wide);
        assert(-t * wide <= r * wide);
        assert(t * wide <= t * den);
    }
    near::near_bounds(flat, fp, fq, 629, -1, 1);
    hsl_laws::lemma_factors(flat, six, 5, 24);
    near::near_product(flat, six, fp, fq, 629, 6, 1, 0, 2, 1, 6, 1, 3775);
    let fall = float::product(flat, six);
    let all = den * u;
    let b = wide * (4 * u - 6 * x);
    assert(fp * 6 == 3 * b && fq * 1 == 3 * all) by (nonlinear_arith)
        requires
            fp == r * wide,
            fq == t * den,
            t == 3 * u,
            r == 2 * u - 3 * x,
            b == wide * (4 * u - 6 * x),
            all == den * u,
    ;
    assert(all > 0) by (nonlinear_arith)
        requires
            all == den * u,
            den > 0,
            u > 0,
    ;
    near::near_scaled(fall, b, all, 3775, 3);
    near::near_scaled(v1, low, den, 1250, u);
    let a = low * u;
    assert(u * low == a && u * den == all) by (nonlinear_arith)
        requires
            a == low * u,
            all == den * u,
    ;
    assert(0 <= a <= all && -(2 * all) <= b <= 2 * all) by (nonlinear_arith)
        requires
            a == low * u,
            all == den * u,
            b == wide * (4 * u - 6 * x),
            0 <= low <= den,
            0 <= wide <= den,
            -(2 * u) <= 4 * u - 6 * x <= 2 * u,
            u > 0,
    {
        let f = 4 * u - 6 * x;
        assert(low * u <= den * u);
        assert(wide * f <= wide * (2 * u));
        assert(wide * f >= wide * (-(2 * u)));
        assert(wide * (2 * u) <= den * (2 * u));
        assert(wide * (-(2 * u)) == -(wide * (2 * u)));
        assert(den * (2 * u) == 2 * all);
    }
    near::near_sum(v1, fall, a, b, all, 1250, 3775);
    near::near_loosened(float::sum(v1, fall), a + b, all, 5026, 5100);
}

/// The level of a channel, by the way up that the branch gives.
proof fn lemma_level_by_branch(v1: F32, v2: F32, hue: F32, low: int, wide: int, den: int)
    requires
        near::near(v1, low, den, 1250),
        near::near(v2, low + wide, den, 1250),
        0 <= low,
        0 <= wide,
        low + wide <= den,
        color::one_turn(hue).finite(),
        0 <= color::one_turn(hue).value() <= float::unit(),
    ensures
        near::near(
            color::hue_level(v1, v2, hue),
            low * float::unit() + wide * way_up(color::one_turn(hue)),
            den * float::unit(),
            5100,
        ),
{
    let vh = color::one_turn(hue);
    let u = float::unit();
    let all = den * u;
    near::grains_in_one();
    lemma_way_up(vh);
    let y = color::hue_level(v1, v2, hue);
    if float::less(float::product(color::lit(SIX), vh), color::lit(ONE)) {
        lemma_rising(v1, v2, vh, low, wide, den);
        near::near_loosened(y, low * u + wide * (6 * vh.value()), all, 5010, 5100);
    } else if float::less(float::product(color::lit(TWO), vh), color::lit(ONE)) {
        near::near_scaled(v2, low + wide, den, 1250, u);
        assert(u * (low + wide) == low * u + wide * u && u * den == all) by (nonlinear_arith)
            requires
                all == den * u,
        ;
        near::near_loosened(y, low * u + wide * u, all, 1250, 5100);
    } else if float::less(float::product(color::lit(THREE), vh), color::lit(TWO)) {
        lemma_falling(v1, v2, vh, low, wide, den);
    } else {
        near::near_scaled(v1, low, den, 1250, u);
        assert(u * low == low * u + wide * 0 && u * den == all) by (nonlinear_arith)
            requires
                all == den * u,
        ;
        near::near_loosened(y, low * u + wide * 0, all, 1250, 5100);
    }
}

/// The way up at a hue that is known up to some grains.
proof fn lemma_way_at(vh: F32, p: int, q: int, k: int, e: int)
    requires
        vh.finite(),
        0 <= vh.value() <= float::unit(),
        near::near(vh, p + k * q, q, e),
        0 <= e,
        q >= 6,
    ensures
        q * way_up(vh) - float::unit() * trapezoid(p, q) <= (6 * (e + 1)) * (near::grain() * q),
        float::unit() * trapezoid(p, q) - q * way_up(vh) <= (6 * (e + 1)) * (near::grain() * q),
{
    let u = float::unit();
    let w = near::grain();
    let x = vh.value();
    let s = p + k * q;
    near::grains_in_one();
    lemma_way_up(vh);
    lemma_trapezoid_scaled(x, u, q);
    lemma_trapezoid_scaled(s, q, u);
    lemma_trapezoid_period(p, q, k);
    let (a, b, t) = (q * x, u * s, q * u);
    assert(u * q == t && t >= 6) by (nonlinear_arith)
        requires
            t == q * u,
            q >= 6,
            u >= 1,
    ;
    let wq = w * q;
    assert(a - b <= e * wq && b - a <= e * wq && wq > 0) by (nonlinear_arith)
        requires
            a == q * x,
            b == u * s,
            wq == w * q,
            x * q - s * u <= (e * w) * q,
            s * u - x * q <= (e * w) * q,
            w > 0,
            q > 0,
    {
        assert((e * w) * q == e * (w * q));
    }
    if a <= b {
        lemma_trapezoid_is_steady(a, b, t);
    } else {
        lemma_trapezoid_is_steady(b, a, t);
    }
    let (f, g) = (way_up(vh), trapezoid(x, u));
    assert(q * f - q * g <= 6 * wq && q * g - q * f <= 6 * wq) by (nonlinear_arith)
        requires
            f - g <= 6 * w,
            g - f <= 6 * w,
            wq == w * q,
            q > 0,
    {
        assert(q * (f - g) <= q * (6 * w));
        assert(q * (g - f) <= q * (6 * w));
    }
    assert((6 * (e + 1)) * wq == 6 * (e * wq) + 6 * wq) by (nonlinear_arith);
}

/// The level of a channel, given the levels that it lies between and its hue.
proof fn lemma_level(
    v1: F32,
    v2: F32,
    hue: F32,
    low: int,
    wide: int,
    den: int,
    p: int,
    q: int,
)
    requires
        near::near(v1, low, den, 1250),
        near::near(v2, low + wide, den, 1250),
        0 <= low,
        0 <= wide,
        low + wide <= den,
        near::near(hue, p, q, 2080),
        -float::unit() <= hue.value() <= 2 * float::unit(),
        -2 * q <= p <= 3 * q,
        q >= 6,
    ensures
        near::near(
            color::hue_level(v1, v2, hue),
            low * q + wide * trapezoid(p, q),
            den * q,
            17600,
        ),
{
    let u = float::unit();
    let w = near::grain();
    near::grains_in_one();
    let k = lemma_one_turn(hue, p, q, 2080);
    let vh = color::one_turn(hue);
    lemma_way_at(vh, p, q, k, 2081);
    lemma_level_by_branch(v1, v2, hue, low, wide, den);
    let y = color::hue_level(v1, v2, hue).value();
    let (f, t) = (way_up(vh), trapezoid(p, q));
    let base = low * u;
    let rise = wide * f;
    let yd = y * den;
    let wd = w * den;
    assert(yd - (base + rise) <= 5100 * wd && (base + rise) - yd <= 5100 * wd) by (nonlinear_arith)
        requires
            y * (den * u) - (base + rise) * u <= (5100 * w) * (den * u),
            (base + rise) * u - y * (den * u) <= (5100 * w) * (den * u),
            yd == y * den,
            wd == w * den,
            u > 0,
    {
        assert(y * (den * u) == yd * u);
        assert((5100 * w) * (den * u) == (5100 * wd) * u);
        assert((yd - (base + rise)) * u <= (5100 * wd) * u);
        assert(((base + rise) - yd) * u <= (5100 * wd) * u);
    }
    let wq = w * q;
    let off = wide * (12492 * wq);
    let goal = (low * q + wide * t) * u;
    assert(q * rise - wide * (u * t) <= off && wide * (u * t) - q * rise <= off) by (nonlinear_arith)
        requires
            rise == wide * f,
            off == wide * (12492 * wq),
            q * f - u * t <= 12492 * wq,
            u * t - q * f <= 12492 * wq,
            wide >= 0,
    {
        assert(q * rise == wide * (q * f));
        assert(wide * (q * f - u * t) <= wide * (12492 * wq));
        assert(wide * (u * t - q * f) <= wide * (12492 * wq));
    }
    let all = (w * den) * q;
    assert(off <= 12492 * all && (5100 * wd) * q == 5100 * all) by (nonlinear_arith)
        requires
            off == wide * (12492 * wq),
            wq == w * q,
            wd == w * den,
            all == (w * den) * q,
            wide <= den,
            w > 0,
            q > 0,
    {
        assert(wide * (w * q) <= den * (w * q));
        assert(den * (w * q) == all);
    }
    assert(goal == q * base + wide * (u * t)) by (nonlinear_arith)
        requires
            goal == (low * q + wide * t) * u,
            base == low * u,
    ;
    let yq = yd * q;
    assert(yq - (q * base + q * rise) <= (5100 * wd) * q && (q * base + q * rise) - yq <= (5100
        * wd) * q) by (nonlinear_arith)
        requires
            yq == yd * q,
            yd - (base + rise) <= 5100 * wd,
            (base + rise) - yd <= 5100 * wd,
            q > 0,
    {
        assert((yd - (base + rise)) * q <= (5100 * wd) * q);
        assert(((base + rise) - yd) * q <= (5100 * wd) * q);
    }
    assert(y * (den * q) == yq && (17600 * w) * (den * q) == 17600 * all && all > 0 && den * q > 0)
        by (nonlinear_arith)
        requires
            yq == yd * q,
            yd == y * den,
            all == (w * den) * q,
            w > 0,
            den > 0,
            q > 0,
    {
        assert(w * den > 0);
    }
}

/// The level at a hue that is known as well as it is computed.
proof fn lemma_close_level(
    v1: F32,
    v2: F32,
    hue: F32,
    low: int,
    wide: int,
    den: int,
    p: int,
    q: int,
)
    requires
        near::near(v1, low, den, 1250),
        near::near(v2, low + wide, den, 1250),
        0 <= low,
        0 <= wide,
        low + wide <= den,
        near::near(hue, p, q, 8),
        -float::unit() <= hue.value() <= 2 * float::unit(),
        -2 * q <= p <= 3 * q,
        q >= 6,
    ensures
        near::near(
            color::hue_level(v1, v2, hue),
            low * q + wide * trapezoid(p, q),
            den * q,
            5200,
        ),
{
    let u = float::unit();
    let w = near::grain();
    near::grains_in_one();
    let k = lemma_one_turn(hue, p, q, 8);
    let vh = color::one_turn(hue);
    lemma_way_at(vh, p, q, k, 9);
    lemma_level_by_branch(v1, v2, hue, low, wide, den);
    let y = color::hue_level(v1, v2, hue).value();
    let (f, t) = (way_up(vh), trapezoid(p, q));
    let base = low * u;
    let rise = wide * f;
    let yd = y * den;
    let wd = w * den;
    assert(yd - (base + rise) <= 5100 * wd && (base + rise) - yd <= 5100 * wd) by (nonlinear_arith)
        requires
            y * (den * u) - (base + rise) * u <= (5100 * w) * (den * u),
            (base + rise) * u - y * (den * u) <= (5100 * w) * (den * u),
            yd == y * den,
            wd == w * den,
            u > 0,
    {
        assert(y * (den * u) == yd * u);
        assert((5100 * w) * (den * u) == (5100 * wd) * u);
        assert((yd - (base + rise)) * u <= (5100 * wd) * u);
        assert(((base + rise) - yd) * u <= (5100 * wd) * u);
    }
    let wq = w * q;
    let off = wide * (60 * wq);
    let goal = (low * q + wide * t) * u;
    assert(q * rise - wide * (u * t) <= off && wide * (u * t) - q * rise <= off) by (nonlinear_arith)
        requires
            rise == wide * f,
            off == wide * (60 * wq),
            q * f - u * t <= 60 * wq,
            u * t - q * f <= 60 * wq,
            wide >= 0,
    {
        assert(q * rise == wide * (q * f));
        assert(wide * (q * f - u * t) <= wide * (60 * wq));
        assert(wide * (u * t - q * f) <= wide * (60 * wq));
    }
    let all = (w * den) * q;
    assert(off <= 60 * all && (5100 * wd) * q == 5100 * all) by (nonlinear_arith)
        requires
            off == wide * (60 * wq),
            wq == w * q,
            wd == w * den,
            all == (w * den) * q,
            wide <= den,
            w > 0,
            q > 0,
    {
        assert(wide * (w * q) <= den * (w * q));
        assert(den * (w * q) == all);
    }
    assert(goal == q * base + wide * (u * t)) by (nonlinear_arith)
        requires
            goal == (low * q + wide * t) * u,
            base == low * u,
    ;
    let yq = yd * q;
    assert(yq - (q * base + q * rise) <= (5100 * wd) * q && (q * base + q * rise) - yq <= (5100
        * wd) * q) by (nonlinear_arith)
        requires
            yq == yd * q,
            yd - (base + rise) <= 5100 * wd,
            (base + rise) - yd <= 5100 * wd,
            q > 0,
    {
        assert((yd - (base + rise)) * q <= (5100 * wd) * q);
        assert(((base + rise) - yd) * q <= (5100 * wd) * q);
    }
    assert(y * (den * q) == yq && (5200 * w) * (den * q) == 5200 * all && all > 0 && den * q > 0)
        by (nonlinear_arith)
        requires
            yq == yd * q,
            yd == y * den,
            all == (w * den) * q,
            w > 0,
            den > 0,
            q > 0,
    {
        assert(w * den > 0);
    }
}

/// The channel that a level rounds to.
proof fn lemma_channel(y: F32, n: int, den: int, e: int)
    requires
        0 <= n <= den,
        0 <= e <= 17600,
        near::near(y, n, den, e),
    ensures
        ({
            let c = color::channel(float::product(color::lit(BYTE_MAX), y));
            -(190 * den) < 100 * (c * den - 255 * n) < 190 * den
        }),
        e <= 5200 ==> ({
            let c = color::channel(float::product(color::lit(BYTE_MAX), y));
            -(90 * den) < 100 * (c * den - 255 * n) < 90 * den
        }),
        e <= 10 ==> ({
            let c = color::channel(float::product(color::lit(BYTE_MAX), y));
            -(51 * den) < 100 * (c * den - 255 * n) < 51 * den
        }),
{
    let u = float::unit();
    let w = near::grain();
    let full = color::lit(BYTE_MAX);
    near::grains_in_one();
    facts::zero_is_zero();
    laws::lemma_full_is_255();
    laws::lemma_powers();
    facts::small_integers_are_exact(255);
    assert(0 * den <= n <= 1 * den);
    near::near_bounds(y, n, den, e, 0, 1);
    order::magnitudes_are_not_negative(y);
    let v = y.value();
    let ym = y.mag();
    let ew = e * w;
    assert(0 <= ew <= 17600 * w && (e <= 5200 ==> ew <= 5200 * w) && (e <= 10 ==> ew <= 10 * w))
        by (nonlinear_arith)
        requires
            ew == e * w,
            0 <= e <= 17600,
            w > 0,
    ;
    let num = (255 * u) * ym;
    assert(0 <= num <= (512 * u) * u) by (nonlinear_arith)
        requires
            num == (255 * u) * ym,
            0 <= ym <= 2 * u,
            u > 0,
    {
        assert((255 * u) * ym <= (255 * u) * (2 * u));
        assert((255 * u) * (2 * u) <= (512 * u) * u);
    }
    facts::overshoot(num, u, 136);
    facts::undershoot(num, u, 136);
    let b = float::nearest(num, u);
    let z = float::magnitude(b as int);
    round::lemma_monotone(0, b as int);
    let x = float::product(full, y);
    assert(x.mag() == z && x.finite());
    let s = pow2(133) as int;
    assert(z <= 255 * ym + s && 255 * ym <= z + s) by (nonlinear_arith)
        requires
            z * u <= num + s * u,
            num <= z * u + s * u,
            num == (255 * u) * ym,
            u > 0,
    {
        assert(num == (255 * ym) * u);
        assert(z * u <= (255 * ym + s) * u);
        assert((255 * ym) * u <= (z + s) * u);
    }
    let c = color::channel(x) as int;
    let cu = c * u;
    let cd = c * den;
    let m = cd - 255 * n;
    let mu = m * u;
    let vd = v * den;
    let nu = n * u;
    let ud = u * den;
    let sd = s * den;
    let ed = ew * den;
    assert(mu == cu * den - 255 * nu && 0x1_0000 * sd == ud && ud > 0 && 0x40_0000 * ed <= 17600
        * ud && (e <= 5200 ==> 0x40_0000 * ed <= 5200 * ud) && (e <= 10 ==> 0x40_0000 * ed <= 10
        * ud)) by (nonlinear_arith)
        requires
            mu == m * u,
            m == cd - 255 * n,
            cd == c * den,
            cu == c * u,
            nu == n * u,
            ud == u * den,
            sd == s * den,
            ed == ew * den,
            0x1_0000 * s == u,
            0x40_0000 * ew <= 17600 * u,
            e <= 5200 ==> 0x40_0000 * ew <= 5200 * u,
            e <= 10 ==> 0x40_0000 * ew <= 10 * u,
            u > 0,
            den > 0,
    {
        assert((0x40_0000 * ew) * den <= (17600 * u) * den);
        if e <= 5200 {
            assert((0x40_0000 * ew) * den <= (5200 * u) * den);
        }
        if e <= 10 {
            assert((0x40_0000 * ew) * den <= (10 * u) * den);
        }
    }
    assert(vd - nu <= ed && nu - vd <= ed);
    assert(0 <= nu <= ud) by (nonlinear_arith)
        requires
            nu == n * u,
            ud == u * den,
            0 <= n <= den,
            u > 0,
    ;
    if x.negative() {
        assert(cu == 0 && cu * den == 0 && vd <= 0) by (nonlinear_arith)
            requires
                cu == c * u,
                c == 0,
                vd == v * den,
                v <= 0,
                den > 0,
        ;
    } else {
        let k = (2 * z + u) / (2 * u);
        assert(0 <= k && 2 * (k * u) <= 2 * z + u && 2 * z < 2 * (k * u) + u) by (nonlinear_arith)
            requires
                k == (2 * z + u) / (2 * u),
                0 <= z,
                u > 0,
        {
            assert((2 * u) * k <= 2 * z + u);
            assert(2 * z + u < (2 * u) * k + 2 * u);
            if k < 0 {
                assert((2 * u) * k <= (2 * u) * (-1));
            }
        }
        assert(v == ym || ym == 0);
        if k > 255 {
            assert(c == 255);
            assert(k * u >= 256 * u) by (nonlinear_arith)
                requires
                    k >= 256,
                    u > 0,
            ;
            assert(v >= u);
            assert(vd >= ud && cu * den == 255 * ud) by (nonlinear_arith)
                requires
                    vd == v * den,
                    ud == u * den,
                    v >= u,
                    cu == c * u,
                    c == 255,
                    den > 0,
            ;
        } else {
            assert(c == k);
            let g = 2 * (cu - 255 * v);
            assert(g <= u + 2 * s && -g <= u + 2 * s);
            assert(2 * (cu * den) - 510 * vd <= ud + 2 * sd && 510 * vd - 2 * (cu * den) <= ud + 2
                * sd) by (nonlinear_arith)
                requires
                    g == 2 * (cu - 255 * v),
                    g <= u + 2 * s,
                    -g <= u + 2 * s,
                    vd == v * den,
                    ud == u * den,
                    sd == s * den,
                    den > 0,
            {
                assert(g * den <= (u + 2 * s) * den);
                assert((-g) * den <= (u + 2 * s) * den);
                assert(g * den == 2 * (cu * den) - 510 * (v * den));
            }
        }
    }
    assert(100 * mu < 190 * ud && -(100 * mu) < 190 * ud);
    assert(e <= 5200 ==> 100 * mu < 90 * ud && -(100 * mu) < 90 * ud);
    assert(e <= 10 ==> 100 * mu < 51 * ud && -(100 * mu) < 51 * ud);
    assert(-(190 * den) < 100 * m < 190 * den && (e <= 5200 ==> -(90 * den) < 100 * m < 90 * den) && (e
        <= 10 ==> -(51 * den) < 100 * m < 51 * den)) by (nonlinear_arith)
        requires
            mu == m * u,
            ud == u * den,
            100 * mu < 190 * ud,
            -(100 * mu) < 190 * ud,
            e <= 5200 ==> 100 * mu < 90 * ud && -(100 * mu) < 90 * ud,
            e <= 10 ==> 100 * mu < 51 * ud && -(100 * mu) < 51 * ud,
            u > 0,
    {
        assert((100 * m) * u < (190 * den) * u);
        assert((-(100 * m)) * u < (190 * den) * u);
        if e <= 5200 {
            assert((100 * m) * u < (90 * den) * u);
            assert((-(100 * m)) * u < (90 * den) * u);
        }
        if e <= 10 {
            assert((100 * m) * u < (51 * den) * u);
            assert((-(100 * m)) * u < (51 * den) * u);
        }
    }
}

/// A fraction beside the one that a number is near.
proof fn lemma_beside(x: F32, p: int, r: int, q: int, e: int, f: int)
    requires
        near::near(x, p, q, e),
        0 <= f,
        (p - r) * float::unit() <= (f * near::grain()) * q,
        (r - p) * float::unit() <= (f * near::grain()) * q,
    ensures
        near::near(x, r, q, e + f),
{
    let u = float::unit();
    let w = near::grain();
    assert((p - r) * u == p * u - r * u && (r - p) * u == r * u - p * u && ((e + f) * w) * q == (e
        * w) * q + (f * w) * q) by (nonlinear_arith);
}

/// The smaller of the ways from `n` to either end of `q`.
pub open spec fn room(n: int, q: int) -> int {
    if 2 * n <= q {
        n
    } else {
        q - n
    }
}

/// The upper level, for a lightness below one half as it is computed.
proof fn lemma_upper_dark(s: F32, l: F32, sn: int, sq: int, ln: int, lq: int)
    requires
        near::near(l, ln, lq, 5),
        near::near(s, sn, sq, 604),
        0 <= ln <= lq,
        0 <= sn <= sq,
        0 <= l.value() <= float::unit(),
        0 <= s.value() <= float::unit(),
        float::less(l, color::lit(HALF)),
    ensures
        near::near(hsl_laws::upper(s, l), ln * sq + sn * room(ln, lq), lq * sq, 1231),
{
    let u = float::unit();
    let w = near::grain();
    let one = color::lit(ONE);
    near::grains_in_one();
    hsl_laws::lemma_constants();
    assert(1 * sq == sq);
    hsl_laws::lemma_integer(one, 1, sq);
    near::near_sum(one, s, sq, sn, sq, 0, 604);
    let t = float::sum(one, s);
    assert(0 * sq <= sq + sn <= 2 * sq);
    near::near_bounds(t, sq + sn, sq, 605, 0, 2);
    hsl_laws::lemma_factors(l, t, 4, 9);
    near::near_product(l, t, ln, lq, 5, sq + sn, sq, 605, 1, 1, 2, 1, 616);
    let v2 = hsl_laws::upper(s, l);
    let den = lq * sq;
    let (p, r) = (ln * (sq + sn), ln * sq + sn * room(ln, lq));
    let over = 2 * ln - lq;
    if over <= 0 {
        assert(p == r) by (nonlinear_arith)
            requires
                p == ln * (sq + sn),
                r == ln * sq + sn * ln,
        ;
        near::near_loosened(v2, p, den, 616, 1231);
    } else {
        let v = l.value();
        assert(over * u <= (10 * w) * lq) by (nonlinear_arith)
            requires
                ln * u - v * lq <= (5 * w) * lq,
                2 * v <= u,
                over == 2 * ln - lq,
                lq > 0,
        {
            assert(over * u == 2 * (ln * u) - lq * u);
            assert((2 * v) * lq <= u * lq);
        }
        assert(p - r == sn * over && 0 <= sn * over && (sn * over) * u <= (10 * w) * den)
            by (nonlinear_arith)
            requires
                p == ln * (sq + sn),
                r == ln * sq + sn * (lq - ln),
                over == 2 * ln - lq,
                over * u <= (10 * w) * lq,
                over > 0,
                0 <= sn <= sq,
                den == lq * sq,
                u > 0,
        {
            assert((sn * over) * u == sn * (over * u));
            assert(over * u > 0);
            assert(sn * (over * u) <= sq * (over * u));
            assert(sq * (over * u) <= sq * ((10 * w) * lq));
            assert(sq * ((10 * w) * lq) == (10 * w) * (lq * sq));
        }
        assert((r - p) * u <= 0) by (nonlinear_arith)
            requires
                r - p <= 0,
                u > 0,
        ;
        assert((10 * w) * den >= 0) by (nonlinear_arith)
            requires
                den > 0,
                w > 0,
        ;
        lemma_beside(v2, p, r, den, 616, 10);
        near::near_loosened(v2, r, den, 626, 1231);
    }
}

/// The upper level, for any other lightness.
proof fn lemma_upper_bright(s: F32, l: F32, sn: int, sq: int, ln: int, lq: int)
    requires
        near::near(l, ln, lq, 5),
        near::near(s, sn, sq, 604),
        0 <= ln <= lq,
        0 <= sn <= sq,
        0 <= l.value() <= float::unit(),
        0 <= s.value() <= float::unit(),
        !float::less(l, color::lit(HALF)),
    ensures
        near::near(hsl_laws::upper(s, l), ln * sq + sn * room(ln, lq), lq * sq, 1231),
{
    let u = float::unit();
    let w = near::grain();
    near::grains_in_one();
    hsl_laws::lemma_constants();
    let den = lq * sq;
    near::near_scaled(l, ln, lq, 5, sq);
    near::near_scaled(s, sn, sq, 604, lq);
    let (lp, sp, pr) = (sq * ln, lq * sn, sn * ln);
    assert(sq * lq == den && den > 0 && 0 <= lp <= den && 0 <= sp <= den && 0 <= pr <= den)
        by (nonlinear_arith)
        requires
            den == lq * sq,
            lp == sq * ln,
            sp == lq * sn,
            pr == sn * ln,
            0 <= ln <= lq,
            0 <= sn <= sq,
            lq > 0,
            sq > 0,
    {
        assert(sq * ln <= sq * lq);
        assert(lq * sn <= lq * sq);
        assert(sn * ln <= sn * lq);
        assert(sn * lq <= sq * lq);
    }
    near::near_sum(l, s, lp, sp, den, 5, 604);
    hsl_laws::lemma_factors(s, l, 4, 4);
    near::near_product(s, l, sn, sq, 604, ln, lq, 5, 1, 1, 1, 1, 610);
    near::near_difference(
        float::sum(l, s),
        float::product(s, l),
        lp + sp,
        pr,
        den,
        610,
        610,
    );
    let v2 = hsl_laws::upper(s, l);
    let p = lp + sp - pr;
    let r = ln * sq + sn * room(ln, lq);
    let under = lq - 2 * ln;
    assert(p == ln * sq + sn * (lq - ln)) by (nonlinear_arith)
        requires
            p == lp + sp - pr,
            lp == sq * ln,
            sp == lq * sn,
            pr == sn * ln,
    ;
    if under < 0 {
        near::near_loosened(v2, p, den, 1221, 1231);
    } else {
        let v = l.value();
        assert(under * u <= (10 * w) * lq) by (nonlinear_arith)
            requires
                v * lq - ln * u <= (5 * w) * lq,
                2 * v >= u,
                under == lq - 2 * ln,
                lq > 0,
        {
            assert(under * u == lq * u - 2 * (ln * u));
            assert((2 * v) * lq >= u * lq);
        }
        assert(p - r == sn * under && 0 <= sn * under && (sn * under) * u <= (10 * w) * den)
            by (nonlinear_arith)
            requires
                p == ln * sq + sn * (lq - ln),
                r == ln * sq + sn * ln,
                under == lq - 2 * ln,
                under * u <= (10 * w) * lq,
                under >= 0,
                0 <= sn <= sq,
                den == lq * sq,
                u > 0,
        {
            assert((sn * under) * u == sn * (under * u));
            assert(under * u >= 0);
            assert(sn * (under * u) <= sq * (under * u));
            assert(sq * (under * u) <= sq * ((10 * w) * lq));
            assert(sq * ((10 * w) * lq) == (10 * w) * (lq * sq));
        }
        assert((r - p) * u <= 0) by (nonlinear_arith)
            requires
                r - p <= 0,
                u > 0,
        ;
        assert((10 * w) * den >= 0) by (nonlinear_arith)
            requires
                den > 0,
                w > 0,
        ;
        lemma_beside(v2, p, r, den, 1221, 10);
    }
}

/// The two levels of a saturation and a lightness.
proof fn lemma_levels(s: F32, l: F32, sn: int, sq: int, ln: int, lq: int)
    requires
        near::near(l, ln, lq, 5),
        near::near(s, sn, sq, 604),
        0 <= ln <= lq,
        0 <= sn <= sq,
        0 <= l.value() <= float::unit(),
        0 <= s.value() <= float::unit(),
    ensures
        ({
            let half = sn * room(ln, lq);
            let den = lq * sq;
            let v2 = hsl_laws::upper(s, l);
            let v1 = float::difference(float::product(color::lit(TWO), l), v2);
            &&& near::near(v2, ln * sq + half, den, 1250)
            &&& near::near(v1, ln * sq - half, den, 1250)
            &&& 0 <= half
            &&& 0 <= ln * sq - half
            &&& ln * sq + half <= den
        }),
{
    let two = color::lit(TWO);
    near::grains_in_one();
    hsl_laws::lemma_constants();
    if float::less(l, color::lit(HALF)) {
        lemma_upper_dark(s, l, sn, sq, ln, lq);
    } else {
        lemma_upper_bright(s, l, sn, sq, ln, lq);
    }
    let half = sn * room(ln, lq);
    let den = lq * sq;
    let v2 = hsl_laws::upper(s, l);
    let mid = ln * sq;
    assert(0 <= half && half <= mid && mid + half <= den && mid <= den) by (nonlinear_arith)
        requires
            half == sn * room(ln, lq),
            mid == ln * sq,
            den == lq * sq,
            0 <= room(ln, lq) <= ln,
            room(ln, lq) <= lq - ln,
            0 <= sn <= sq,
            0 <= ln <= lq,
    {
        let r = room(ln, lq);
        assert(sn * r <= sq * r);
        assert(sq * r <= sq * ln);
        assert(sq * r <= sq * (lq - ln));
    }
    hsl_laws::lemma_integer(two, 2, 1);
    hsl_laws::lemma_factors(two, l, 8, 4);
    near::near_product(two, l, 2, 1, 0, ln, lq, 5, 2, 1, 1, 1, 11);
    let twice = float::product(two, l);
    assert(1 * lq == lq);
    near::near_scaled(twice, 2 * ln, lq, 11, sq);
    assert(sq * (2 * ln) == 2 * mid && sq * lq == den) by (nonlinear_arith)
        requires
            mid == ln * sq,
            den == lq * sq,
    ;
    near::near_difference(twice, v2, 2 * mid, mid + half, den, 11, 1231);
    let v1 = float::difference(twice, v2);
    near::near_loosened(v1, mid - half, den, 1243, 1250);
    near::near_loosened(v2, mid + half, den, 1231, 1250);
}

/// Whether a channel is what a hue of `p / q` of a turn, counted from where the channel begins to
/// rise, a saturation of `sn / sq` and a lightness of `ln / lq` give, up to 1.9 steps. The channels of
/// a colour lie as far below the lightness as above it: as far as the saturation's share of the
/// way from the lightness to the nearer of black and white.
pub open spec fn is_hsl_channel(
    c: u8,
    p: int,
    q: int,
    sn: int,
    sq: int,
    ln: int,
    lq: int,
) -> bool {
    let half = sn * room(ln, lq);
    let exact = (ln * sq - half) * q + (2 * half) * trapezoid(p, q);
    let den = (lq * sq) * q;
    -(19 * den) < 10 * (c * den - 255 * exact) < 19 * den
}

/// A channel with saturation.
proof fn lemma_tinted_channel(
    v1: F32,
    v2: F32,
    hue: F32,
    p: int,
    q: int,
    sn: int,
    sq: int,
    ln: int,
    lq: int,
)
    requires
        ({
            let half = sn * room(ln, lq);
            let den = lq * sq;
            &&& near::near(v2, ln * sq + half, den, 1250)
            &&& near::near(v1, ln * sq - half, den, 1250)
            &&& 0 <= half
            &&& 0 <= ln * sq - half
            &&& ln * sq + half <= den
        }),
        near::near(hue, p, q, 2080),
        -float::unit() <= hue.value() <= 2 * float::unit(),
        -2 * q <= p <= 3 * q,
        q >= 6,
    ensures
        is_hsl_channel(
            color::channel(float::product(color::lit(BYTE_MAX), color::hue_level(v1, v2, hue))),
            p,
            q,
            sn,
            sq,
            ln,
            lq,
        ),
{
    let half = sn * room(ln, lq);
    let den = lq * sq;
    let low = ln * sq - half;
    let wide = 2 * half;
    let t = trapezoid(p, q);
    lemma_trapezoid_range(p, q);
    lemma_level(v1, v2, hue, low, wide, den, p, q);
    let exact = low * q + wide * t;
    assert(0 <= exact <= den * q) by (nonlinear_arith)
        requires
            exact == low * q + wide * t,
            0 <= low,
            0 <= wide,
            low + wide <= den,
            0 <= t <= q,
    {
        assert(wide * t <= wide * q);
        assert(wide * t >= 0);
        assert(low * q >= 0);
        assert((low + wide) * q <= den * q);
        assert((low + wide) * q == low * q + wide * q);
    }
    lemma_channel(color::hue_level(v1, v2, hue), exact, den * q, 17600);
}

/// A channel without saturation.
proof fn lemma_grey_channel(
    s: F32,
    l: F32,
    p: int,
    q: int,
    sn: int,
    sq: int,
    ln: int,
    lq: int,
)
    requires
        near::near(l, ln, lq, 5),
        near::near(s, sn, sq, 604),
        0 <= ln <= lq,
        0 <= sn <= sq,
        s.value() <= color::lit(HUNDREDTH).value(),
        q >= 6,
    ensures
        is_hsl_channel(
            color::channel(float::product(l, color::lit(BYTE_MAX))),
            p,
            q,
            sn,
            sq,
            ln,
            lq,
        ),
{
    let u = float::unit();
    let w = near::grain();
    near::grains_in_one();
    hsl_laws::lemma_constants();
    laws::lemma_full_is_255();
    facts::product_commutes(l, color::lit(BYTE_MAX));
    lemma_channel(l, ln, lq, 5);
    let c = color::channel(float::product(l, color::lit(BYTE_MAX))) as int;
    let v = s.value();
    assert(0x40_0000 * sn <= 42548 * sq) by (nonlinear_arith)
        requires
            sn * u - v * sq <= (604 * w) * sq,
            v <= 41944 * w,
            u == 0x40_0000 * w,
            w > 0,
            sq > 0,
    {
        assert(v * sq <= (41944 * w) * sq);
        assert((0x40_0000 * sn) * w <= (42548 * sq) * w);
    }
    let r = room(ln, lq);
    let half = sn * r;
    let den = lq * sq;
    assert(0 <= half && 0x80_0000 * half <= 42548 * den) by (nonlinear_arith)
        requires
            half == sn * r,
            den == lq * sq,
            0 <= r,
            2 * r <= lq,
            0x40_0000 * sn <= 42548 * sq,
            0 <= sn,
            0 < sq,
    {
        assert((0x40_0000 * sn) * (2 * r) <= (42548 * sq) * (2 * r));
        assert((42548 * sq) * (2 * r) <= (42548 * sq) * lq);
        assert((0x40_0000 * sn) * (2 * r) == 0x80_0000 * half);
    }
    let t = trapezoid(p, q);
    lemma_trapezoid_range(p, q);
    let all = den * q;
    let base = (ln * sq) * q;
    let hq = half * q;
    let exact = (ln * sq - half) * q + (2 * half) * t;
    let cl = c * lq;
    assert(100 * (c * all - 255 * base) < 51 * all && -(51 * all) < 100 * (c * all - 255 * base))
        by (nonlinear_arith)
        requires
            all == (lq * sq) * q,
            base == (ln * sq) * q,
            cl == c * lq,
            -(51 * lq) < 100 * (cl - 255 * ln) < 51 * lq,
            sq > 0,
            q > 0,
    {
        let f = sq * q;
        assert(f > 0);
        assert(c * all == cl * f);
        assert(base == ln * f);
        assert(all == lq * f);
        assert((100 * (cl - 255 * ln)) * f < (51 * lq) * f);
        assert((-(51 * lq)) * f < (100 * (cl - 255 * ln)) * f);
    }
    assert(-hq <= exact - base <= hq) by (nonlinear_arith)
        requires
            exact == (ln * sq - half) * q + (2 * half) * t,
            base == (ln * sq) * q,
            hq == half * q,
            0 <= half,
            0 <= t <= q,
    {
        assert((ln * sq - half) * q == base - hq);
        assert((2 * half) * t == 2 * (half * t));
        assert(0 <= half * t <= half * q);
    }
    assert(0x80_0000 * hq <= 42548 * all && all > 0) by (nonlinear_arith)
        requires
            hq == half * q,
            all == den * q,
            0x80_0000 * half <= 42548 * den,
            q > 0,
            den == lq * sq,
            lq > 0,
            sq > 0,
    {
        assert((0x80_0000 * half) * q <= (42548 * den) * q);
        assert(lq * sq > 0);
    }
}

/// The colour of a hue, a saturation and a lightness that are near the given fractions.
#[verifier::rlimit(40)]
proof fn lemma_rgb(
    x: color::Hsl,
    p: int,
    third: int,
    sn: int,
    sq: int,
    ln: int,
    lq: int,
)
    requires
        near::near(x.h, p, 3 * third, 2077),
        0 <= x.h.value() <= float::unit(),
        near::near(x.s, sn, sq, 604),
        0 <= x.s.value() <= float::unit(),
        0 <= sn <= sq,
        near::near(x.l, ln, lq, 5),
        0 <= x.l.value() <= float::unit(),
        0 <= ln <= lq,
        third >= 2,
    ensures
        ({
            let c = color::rgb(x);
            let q = 3 * third;
            &&& is_hsl_channel(c.r, p + third, q, sn, sq, ln, lq)
            &&& is_hsl_channel(c.g, p, q, sn, sq, ln, lq)
            &&& is_hsl_channel(c.b, p - third, q, sn, sq, ln, lq)
        }),
{
    let u = float::unit();
    let w = near::grain();
    let q = 3 * third;
    near::grains_in_one();
    hsl_laws::lemma_constants();
    hsl_laws::lemma_kept_in_range(x.h);
    hsl_laws::lemma_kept_in_range(x.s);
    hsl_laws::lemma_kept_in_range(x.l);
    if float::less_eq(x.s, color::lit(HUNDREDTH)) {
        lemma_grey_channel(x.s, x.l, p + third, q, sn, sq, ln, lq);
        lemma_grey_channel(x.s, x.l, p, q, sn, sq, ln, lq);
        lemma_grey_channel(x.s, x.l, p - third, q, sn, sq, ln, lq);
    } else {
        lemma_levels(x.s, x.l, sn, sq, ln, lq);
        let v2 = hsl_laws::upper(x.s, x.l);
        let v1 = float::difference(float::product(color::lit(TWO), x.l), v2);
        let v = x.h.value();
        assert(-q <= p <= 2 * q) by (nonlinear_arith)
            requires
                v * q - p * u <= (2077 * w) * q,
                p * u - v * q <= (2077 * w) * q,
                0 <= v <= u,
                u == 0x40_0000 * w,
                w > 0,
                q > 0,
        {
            assert(0 <= v * q <= u * q);
            assert((2077 * w) * q < u * q);
            assert(p * u < 2 * (u * q));
            assert(-(u * q) < p * u);
            assert(2 * (u * q) == (2 * q) * u);
            assert(-(u * q) == (-q) * u);
        }
        let t = color::lit(THIRD);
        near::near_scaled(t, 1, 3, 1, third);
        assert(third * 1 == third && third * 3 == q);
        near::near_sum(x.h, t, p, third, q, 2077, 1);
        near::near_difference(x.h, t, p, third, q, 2077, 1);
        let up = float::sum(x.h, t);
        let down = float::difference(x.h, t);
        near::near_loosened(x.h, p, q, 2077, 2080);
        near::near_loosened(up, p + third, q, 2079, 2080);
        near::near_loosened(down, p - third, q, 2079, 2080);
        order::negated_value(t);
        near::sum_error(x.h, t);
        near::sum_error(x.h, float::negation(t));
        lemma_tinted_channel(v1, v2, up, p + third, q, sn, sq, ln, lq);
        lemma_tinted_channel(v1, v2, x.h, p, q, sn, sq, ln, lq);
        lemma_tinted_channel(v1, v2, down, p - third, q, sn, sq, ln, lq);
    }
}

/// A number brought into the range from zero to `hi`.
pub open spec fn held(n: int, hi: int) -> int {
    if n < 0 {
        0
    } else if n > hi {
        hi
    } else {
        n
    }
}

/// Clamping a number clamps the fraction that it is near.
proof fn lemma_clamped(x: F32, p: int, q: int, e: int)
    requires
        near::near(x, p, q, e),
        0 <= e,
    ensures
        near::near(color::unit_clamped(x), held(p, q), q, e),
        0 <= color::unit_clamped(x).value() <= float::unit(),
{
    let u = float::unit();
    let w = near::grain();
    near::grains_in_one();
    hsl_laws::lemma_constants();
    facts::one_is_unit();
    facts::zero_is_zero();
    let v = x.value();
    let b = (e * w) * q;
    assert(b >= 0 && 0 * q == 0 && 0 * u == 0 && u * q == q * u) by (nonlinear_arith)
        requires
            b == (e * w) * q,
            e >= 0,
            w > 0,
            q > 0,
    {
        assert(e * w >= 0);
    }
    let y = color::unit_clamped(x).value();
    let (vq, pu, qu) = (v * q, p * u, q * u);
    if p < 0 {
        assert(pu < 0) by (nonlinear_arith)
            requires
                pu == p * u,
                p < 0,
                u > 0,
        ;
    }
    if p > q {
        assert(pu > qu) by (nonlinear_arith)
            requires
                pu == p * u,
                qu == q * u,
                p > q,
                u > 0,
        ;
    } else {
        assert(pu <= qu) by (nonlinear_arith)
            requires
                pu == p * u,
                qu == q * u,
                p <= q,
                u > 0,
        ;
    }
    if p >= 0 {
        assert(pu >= 0) by (nonlinear_arith)
            requires
                pu == p * u,
                p >= 0,
                u > 0,
        ;
    }
    if v < 0 {
        assert(vq < 0) by (nonlinear_arith)
            requires
                vq == v * q,
                v < 0,
                q > 0,
        ;
        assert(y == 0);
    } else if v > u {
        assert(vq > qu) by (nonlinear_arith)
            requires
                vq == v * q,
                qu == q * u,
                v > u,
                q > 0,
        ;
        assert(y == u);
    } else {
        assert(0 <= vq <= qu) by (nonlinear_arith)
            requires
                vq == v * q,
                qu == q * u,
                0 <= v <= u,
                q > 0,
        ;
        assert(y == v);
    }
}

/// A saturation or a lightness with its offset.
proof fn lemma_offset(x: F32, o: F32, p: int, q: int, e: int)
    requires
        near::near(x, p, q, e),
        0 <= e <= 1000,
        0 <= p <= q,
        o.finite(),
        -(4 * float::unit()) <= o.value() <= 4 * float::unit(),
    ensures
        near::near(
            color::unit_clamped(float::sum(x, o)),
            held(p * float::unit() + q * o.value(), q * float::unit()),
            q * float::unit(),
            e + 1,
        ),
        0 <= color::unit_clamped(float::sum(x, o)).value() <= float::unit(),
{
    let u = float::unit();
    let v = o.value();
    near::grains_in_one();
    near::near_scaled(x, p, q, e, u);
    lemma_self(o);
    near::near_scaled(o, v, u, 0, q);
    let all = q * u;
    assert(u * p == p * u && u * q == all && all > 0 && 0 <= p * u <= all && -(4 * all) <= q * v
        <= 4 * all) by (nonlinear_arith)
        requires
            all == q * u,
            0 <= p <= q,
            -(4 * u) <= v <= 4 * u,
            q > 0,
            u > 0,
    {
        assert(p * u <= q * u);
        assert(q * v <= q * (4 * u));
        assert(q * v >= q * (-(4 * u)));
    }
    near::near_sum(x, o, p * u, q * v, all, e, 0);
    lemma_clamped(float::sum(x, o), p * u + q * v, all, e + 1);
}

/// A hue that is wrapped.
proof fn lemma_wrapped(a: F32, p: int, q: int, e: int) -> (k: int)
    requires
        near::near(a, p, q, e),
        0 <= e <= 0x1_0000,
        -(6 * float::unit()) <= a.value() <= 6 * float::unit(),
        -7 * q <= p <= 7 * q,
    ensures
        near::near(float::wrapped(a), p + k * q, q, e + 2),
        0 <= float::wrapped(a).value() <= float::unit(),
{
    let u = float::unit();
    let w = near::grain();
    near::grains_in_one();
    hsl_laws::lemma_constants();
    facts::one_is_unit();
    facts::zero_is_zero();
    order::magnitudes_are_not_negative(a);
    let m = a.mag();
    let (r, j) = (m % u, m / u);
    lemma_fundamental_div_mod(m, u);
    lemma_mod_bound(m, u);
    lemma_pow2_adds(3, 149);
    lemma2_to64();
    facts::overshoot(r, 1, 130);
    facts::undershoot(r, 1, 130);
    facts::rounding_stays_below(r, 1, ONE);
    let b = float::nearest(r, 1);
    round::lemma_monotone(0, b as int);
    round::lemma_monotone(b as int, ONE as int);
    let z = float::magnitude(b as int);
    let f = float::fraction(a);
    assert(f.mag() == z && f.finite() && 0 <= z <= u);
    let k0 = if a.negative() {
        j
    } else {
        -j
    };
    let v = a.value();
    let fv = f.value();
    let s = p + k0 * q;
    let d = fv - (v + k0 * u);
    assert(-w <= d <= w && (v + k0 * u == r || v + k0 * u == -r)) by {
        assert(u * j == j * u && (-j) * u == -(j * u)) by (nonlinear_arith);
    }
    assert(fv * q - s * u <= ((e + 1) * w) * q && s * u - fv * q <= ((e + 1) * w) * q)
        by (nonlinear_arith)
        requires
            v * q - p * u <= (e * w) * q,
            p * u - v * q <= (e * w) * q,
            s == p + k0 * q,
            d == fv - (v + k0 * u),
            -w <= d <= w,
            q > 0,
    {
        assert(fv * q == (v * q) + (k0 * u) * q + d * q);
        assert(s * u == p * u + (k0 * u) * q);
        assert(d * q <= w * q);
        assert(d * q >= -(w * q));
        assert(((e + 1) * w) * q == (e * w) * q + w * q);
    }
    assert(near::near(f, s, q, e + 1));
    if float::less(f, F32 { bits: 0 }) {
        let one = color::lit(ONE);
        assert(1 * q == q);
        hsl_laws::lemma_integer(one, 1, q);
        assert(-2 * q <= s <= 2 * q) by (nonlinear_arith)
            requires
                fv * q - s * u <= ((e + 1) * w) * q,
                s * u - fv * q <= ((e + 1) * w) * q,
                -u <= fv <= u,
                0 <= e <= 0x1_0000,
                u == 0x40_0000 * w,
                w > 0,
                q > 0,
        {
            assert((e + 1) * w <= u);
            assert(((e + 1) * w) * q <= u * q);
            assert(-(u * q) <= fv * q <= u * q);
            assert(s * u <= (2 * q) * u);
            assert((-2 * q) * u <= s * u);
        }
        near::near_sum(f, one, s, q, q, e + 1, 0);
        assert(order::small(one));
        order::sum_stays_below(f, one, one);
        order::sum_stays_above(f, one, color::lit(0));
        assert(s + q == p + (k0 + 1) * q) by (nonlinear_arith)
            requires
                s == p + k0 * q,
        ;
        k0 + 1
    } else {
        near::near_loosened(f, s, q, e + 1, e + 2);
        k0
    }
}

/// The hue of a colour: how many parts of which a turn has six times as many as the second figure
/// says. A colour with at most two steps between its channels counts as grey, and has the hue of
/// red.
pub open spec fn exact_hue(c: LedColor) -> (int, int) {
    if color::peak(c) - hsl_laws::low(c) <= 2 {
        (0, 1)
    } else {
        (hsl_laws::hue_steps(c), color::peak(c) - hsl_laws::low(c))
    }
}

/// The saturation of a colour, as a fraction: the steps between its largest and its smallest
/// channel, of those that its lightness leaves room for. A colour with at most two counts as grey.
pub open spec fn exact_saturation(c: LedColor) -> (int, int) {
    if color::peak(c) - hsl_laws::low(c) <= 2 {
        (0, 1)
    } else {
        (
            color::peak(c) - hsl_laws::low(c),
            room(color::peak(c) + hsl_laws::low(c), 510),
        )
    }
}

/// What is known of a colour's hue, saturation and lightness.
proof fn lemma_hsl(c: LedColor) -> (k: int)
    ensures
        ({
            let x = color::hsl(c);
            let (hn, hd) = exact_hue(c);
            let (sn, sd) = exact_saturation(c);
            &&& near::near(x.h, hn + k * (6 * hd), 6 * hd, 2070)
            &&& 0 <= hn + k * (6 * hd) <= 6 * hd
            &&& 1 <= hd <= 255
            &&& near::near(x.s, sn, sd, 603)
            &&& 0 <= sn <= sd
            &&& near::near(x.l, color::peak(c) + hsl_laws::low(c), 510, 4)
        }),
{
    hsl_laws::lemma_lightness(c);
    hsl_laws::lemma_constants();
    near::grains_in_one();
    if color::peak(c) - hsl_laws::low(c) <= 2 {
        hsl_laws::lemma_grey_saturation(c);
        hsl_laws::lemma_extremes(c);
        hsl_laws::lemma_is_tinted(hsl_laws::low(c), color::peak(c));
        let zero = color::lit(0);
        let u = float::unit();
        assert(0 * u == 0);
        hsl_laws::lemma_integer(zero, 0, 6);
        hsl_laws::lemma_integer(zero, 0, 1);
        near::near_loosened(zero, 0, 6, 0, 2070);
        near::near_loosened(zero, 0, 1, 0, 603);
        0
    } else {
        hsl_laws::lemma_saturation(c);
        let hh = hsl_laws::lemma_hue(c);
        let d = color::peak(c) - hsl_laws::low(c);
        if hh == hsl_laws::hue_steps(c) {
            0
        } else if hh == hsl_laws::hue_steps(c) + 6 * d {
            1
        } else {
            -1
        }
    }
}

/// Whether a colour has the hue, saturation and lightness of another one, with offsets: the hue
/// turned, and the others shifted and brought back into their range.
pub open spec fn is_shifted(out: LedColor, c: LedColor, o: HslOffsets) -> bool {
    let u = float::unit();
    let (hn, hd) = exact_hue(c);
    let (sn, sd) = exact_saturation(c);
    let sum = color::peak(c) + hsl_laws::low(c);
    let p = hn * u + (6 * hd) * o.h.value();
    let third = 2 * (hd * u);
    let saturation = held(sn * u + sd * o.s.value(), sd * u);
    let lightness = held(sum * u + 510 * o.l.value(), 510 * u);
    &&& is_hsl_channel(out.r, p + third, 3 * third, saturation, sd * u, lightness, 510 * u)
    &&& is_hsl_channel(out.g, p, 3 * third, saturation, sd * u, lightness, 510 * u)
    &&& is_hsl_channel(out.b, p - third, 3 * third, saturation, sd * u, lightness, 510 * u)
}

/// Whether offsets are numbers from minus four to four.
pub open spec fn in_reach(o: HslOffsets) -> bool {
    let top = 4 * float::unit();
    &&& o.h.finite() && -top <= o.h.value() <= top
    &&& o.s.finite() && -top <= o.s.value() <= top
    &&& o.l.finite() && -top <= o.l.value() <= top
}

proof fn lemma_turns(c: u8, p: int, q: int, k: int, sn: int, sq: int, ln: int, lq: int)
    requires
        q > 0,
        is_hsl_channel(c, p + k * q, q, sn, sq, ln, lq),
    ensures
        is_hsl_channel(c, p, q, sn, sq, ln, lq),
{
    lemma_trapezoid_period(p, q, k);
}

/// The hue of a colour with its offset.
#[verifier::rlimit(40)]
proof fn lemma_turned(c: LedColor, o: F32) -> (k: int)
    requires
        o.finite(),
        -(4 * float::unit()) <= o.value() <= 4 * float::unit(),
    ensures
        ({
            let u = float::unit();
            let (hn, hd) = exact_hue(c);
            let h = float::wrapped(float::sum(color::hsl(c).h, o));
            let q = 3 * (2 * (hd * u));
            &&& near::near(h, hn * u + (6 * hd) * o.value() + k * q, q, 2077)
            &&& 0 <= h.value() <= u
            &&& 1 <= hd
        }),
{
    let u = float::unit();
    let v = o.value();
    let (hn, hd) = exact_hue(c);
    let k0 = lemma_hsl(c);
    let d6 = 6 * hd;
    let hp = hn + k0 * d6;
    let h = color::hsl(c).h;
    near::grains_in_one();
    near::near_scaled(h, hp, d6, 2070, u);
    lemma_self(o);
    near::near_scaled(o, v, u, 0, d6);
    let q = 3 * (2 * (hd * u));
    assert(u * d6 == q && d6 * u == q && u * hp == hp * u && 0 <= hp * u <= q && -(4 * q) <= d6 * v
        <= 4 * q && q > 0) by (nonlinear_arith)
        requires
            q == 3 * (2 * (hd * u)),
            d6 == 6 * hd,
            0 <= hp <= d6,
            -(4 * u) <= v <= 4 * u,
            hd >= 1,
            u > 0,
    {
        assert(d6 * u == 6 * (hd * u));
        assert(hp * u <= d6 * u);
        assert(d6 * v <= d6 * (4 * u));
        assert(d6 * v >= d6 * (-(4 * u)));
        assert(hd * u > 0);
    }
    let (a, b) = (hp * u, d6 * v);
    near::near_sum(h, o, a, b, q, 2070, 0);
    let sum = float::sum(h, o);
    assert(-4 * q <= a + b <= 5 * q);
    near::near_bounds(sum, a + b, q, 2071, -4, 5);
    let k1 = lemma_wrapped(sum, a + b, q, 2071);
    let turned = float::wrapped(sum);
    near::near_loosened(turned, a + b + k1 * q, q, 2073, 2077);
    assert(a + b + k1 * q == hn * u + d6 * v + (k0 + k1) * q) by (nonlinear_arith)
        requires
            a == hp * u,
            b == d6 * v,
            hp == hn + k0 * d6,
            d6 * u == q,
    {
        assert(hp * u == hn * u + k0 * (d6 * u));
        assert((k0 + k1) * q == k0 * q + k1 * q);
    }
    k0 + k1
}

#[verifier::rlimit(40)]
proof fn lemma_really_shifted(c: LedColor, o: HslOffsets)
    requires
        in_reach(o),
        !color::no_offsets(o),
    ensures
        is_shifted(color::shifted(c, o), c, o),
{
    let u = float::unit();
    near::grains_in_one();
    let (hn, hd) = exact_hue(c);
    let (sn, sd) = exact_saturation(c);
    let sum = color::peak(c) + hsl_laws::low(c);
    let x = color::hsl(c);
    let k0 = lemma_hsl(c);
    let k = lemma_turned(c, o.h);
    lemma_offset(x.s, o.s, sn, sd, 603);
    lemma_offset(x.l, o.l, sum, 510, 4);
    let p = hn * u + (6 * hd) * o.h.value();
    let third = 2 * (hd * u);
    let q = 3 * third;
    let sat = held(sn * u + sd * o.s.value(), sd * u);
    let light = held(sum * u + 510 * o.l.value(), 510 * u);
    let y = color::Hsl {
        h: float::wrapped(float::sum(x.h, o.h)),
        s: color::unit_clamped(float::sum(x.s, o.s)),
        l: color::unit_clamped(float::sum(x.l, o.l)),
    };
    assert(third >= 2 && sd * u >= 0) by (nonlinear_arith)
        requires
            third == 2 * (hd * u),
            hd >= 1,
            u >= 1,
            sd > 0,
    {
        assert(hd * u >= 1);
    }
    lemma_rgb(y, p + k * q, third, sat, sd * u, light, 510 * u);
    let out = color::shifted(c, o);
    assert(p + k * q + third == (p + third) + k * q);
    assert(p + k * q - third == (p - third) + k * q);
    lemma_turns(out.r, p + third, q, k, sat, sd * u, light, 510 * u);
    lemma_turns(out.g, p, q, k, sat, sd * u, light, 510 * u);
    lemma_turns(out.b, p - third, q, k, sat, sd * u, light, 510 * u);
}

/// The channels of a colour on the trapezoid.
proof fn lemma_own_hue(c: LedColor)
    requires
        color::peak(c) - hsl_laws::low(c) >= 3,
    ensures
        ({
            let m = hsl_laws::low(c);
            let d = color::peak(c) - m;
            let h = hsl_laws::hue_steps(c);
            &&& trapezoid(h + 2 * d, 6 * d) == 6 * (c.r - m)
            &&& trapezoid(h, 6 * d) == 6 * (c.g - m)
            &&& trapezoid(h - 2 * d, 6 * d) == 6 * (c.b - m)
        }),
{
    let d = color::peak(c) - hsl_laws::low(c);
    let h = hsl_laws::hue_steps(c);
    lemma_rest(h + 2 * d, 6 * d);
    lemma_rest(h, 6 * d);
    lemma_rest(h - 2 * d, 6 * d);
}

proof fn lemma_rest(p: int, q: int)
    requires
        q > 0,
        -q <= p < 2 * q,
    ensures
        p % q == if p < 0 {
            p + q
        } else if p < q {
            p
        } else {
            p - q
        },
{
    if p < 0 {
        lemma_fundamental_div_mod_converse(p, q, -1, p + q);
    } else if p < q {
        lemma_fundamental_div_mod_converse(p, q, 0, p);
    } else {
        lemma_fundamental_div_mod_converse(p, q, 1, p - q);
    }
}

/// What a colour's own hue, and no other lightness, make of a saturation of `w` steps of the
/// `sd * u` that there is room for.
proof fn lemma_own_channel(ch: u8, out: u8, p: int, d: int, m: int, sd: int, sum: int, w: int, u: int)
    requires
        trapezoid(p, 6 * d) == 6 * (ch - m),
        1 <= d,
        1 <= u,
        1 <= sd,
        sd == room(sum, 510),
        0 <= sum <= 510,
        2 * m + d == sum,
    ensures
        is_hsl_channel(out, p * u, 6 * (d * u), w, sd * u, sum * u, 510 * u) <==> -(38 * (d
            * u)) < 10 * (2 * (d * u) * out - (sum * (d * u) + w * (2 * ch - sum))) < 38 * (d * u),
{
    lemma_trapezoid_scaled(p, 6 * d, u);
    let q = 6 * (d * u);
    assert(u * p == p * u && u * (6 * d) == q) by (nonlinear_arith)
        requires
            q == 6 * (d * u),
    ;
    let r = room(sum * u, 510 * u);
    assert(r == sd * u) by (nonlinear_arith)
        requires
            r == if 2 * (sum * u) <= 510 * u {
                sum * u
            } else {
                510 * u - sum * u
            },
            sd == if 2 * sum <= 510 {
                sum
            } else {
                510 - sum
            },
            u >= 1,
    {
        assert(2 * (sum * u) == (2 * sum) * u);
        assert(((2 * sum) * u <= 510 * u) == (2 * sum <= 510));
        assert((510 - sum) * u == 510 * u - sum * u);
    }
    let half = w * r;
    let t = trapezoid(p * u, q);
    let exact = ((sum * u) * (sd * u) - half) * q + (2 * half) * t;
    let den = ((510 * u) * (sd * u)) * q;
    let g = d * u;
    let f = (sd * u) * u;
    let inner = sum * g + w * (2 * ch - sum);
    // Both sides hold the same factor.
    let (sq, k) = (sd * u, ch - m);
    let (big, wd, wk) = (sum * g, w * d, w * k);
    assert((sum * u) * sq == sum * f) by (nonlinear_arith)
        requires
            f == sq * u,
    ;
    assert((sum * f) * q == 6 * (f * big)) by (nonlinear_arith)
        requires
            q == 6 * g,
            big == sum * g,
    ;
    assert(half * q == 6 * (f * wd)) by (nonlinear_arith)
        requires
            half == w * sq,
            q == 6 * g,
            g == d * u,
            f == sq * u,
            wd == w * d,
    {
        assert((w * sq) * (6 * (d * u)) == 6 * ((w * d) * (sq * u)));
    }
    assert((2 * half) * t == 6 * (f * (2 * wk))) by (nonlinear_arith)
        requires
            half == w * sq,
            t == u * (6 * k),
            f == sq * u,
            wk == w * k,
    {
        assert((2 * (w * sq)) * (u * (6 * k)) == 12 * ((w * k) * (sq * u)));
    }
    assert((sum * f - half) * q == (sum * f) * q - half * q) by (nonlinear_arith);
    assert(w * (2 * ch - sum) == 2 * wk - wd) by (nonlinear_arith)
        requires
            wk == w * k,
            wd == w * d,
            2 * ch - sum == 2 * k - d,
    ;
    assert(f * inner == f * big + f * (2 * wk) - f * wd) by (nonlinear_arith)
        requires
            inner == big + 2 * wk - wd,
    ;
    assert(exact == 6 * (f * inner));
    assert(den == (6 * f) * (510 * g)) by (nonlinear_arith)
        requires
            den == ((510 * u) * sq) * q,
            q == 6 * g,
            f == sq * u,
    {
        assert((510 * u) * sq == 510 * f);
    }
    let out2 = 2 * g * out - inner;
    let h = 6 * (f * 255);
    assert(out * den - 255 * exact == h * out2 && 19 * den == h * (38 * g) && h > 0)
        by (nonlinear_arith)
        requires
            exact == 6 * (f * inner),
            den == (6 * f) * (510 * g),
            out2 == 2 * g * out - inner,
            h == 6 * (f * 255),
            f == (sd * u) * u,
            sd >= 1,
            u >= 1,
    {
        assert(sd * u >= 1);
        assert(f >= 1);
        assert(out * den == h * (2 * g * out));
        assert(255 * exact == h * inner);
        assert(h * (2 * g * out) - h * inner == h * (2 * g * out - inner));
    }
    assert((-(19 * den) < 10 * (h * out2) && 10 * (h * out2) < 19 * den) == (-(38 * g) < 10 * out2
        && 10 * out2 < 38 * g)) by (nonlinear_arith)
        requires
            19 * den == h * (38 * g),
            h > 0,
    {
        assert(10 * (h * out2) == h * (10 * out2));
        assert((h * (10 * out2) < h * (38 * g)) == (10 * out2 < 38 * g));
        assert((h * (-(38 * g)) < h * (10 * out2)) == (-(38 * g) < 10 * out2));
        assert(h * (-(38 * g)) == -(h * (38 * g)));
    }
}

/// Offsets of zero leave a colour with its own hue, saturation and lightness.
proof fn lemma_not_shifted(c: LedColor, o: HslOffsets)
    requires
        o.h.value() == 0,
        o.s.value() == 0,
        o.l.value() == 0,
    ensures
        is_shifted(c, c, o),
{
    let u = float::unit();
    near::grains_in_one();
    let m = hsl_laws::low(c) as int;
    let d = color::peak(c) - m;
    let (hn, hd) = exact_hue(c);
    let (sn, sd) = exact_saturation(c);
    let sum = color::peak(c) + m;
    let k = lemma_hsl(c);
    let third = 2 * (hd * u);
    let q = 3 * third;
    assert((6 * hd) * 0 == 0 && sd * 0 == 0);
    assert(0 <= sn * u <= sd * u && 0 <= sum * u <= 510 * u && third > 0) by (nonlinear_arith)
        requires
            0 <= sn <= sd,
            0 <= sum <= 510,
            third == 2 * (hd * u),
            hd >= 1,
            u >= 1,
    ;
    if d <= 2 {
        lemma_own_grey(c.r, sum, hn * u + third, q, u);
        lemma_own_grey(c.g, sum, hn * u, q, u);
        lemma_own_grey(c.b, sum, hn * u - third, q, u);
        assert(0 * u == 0 && 1 * u == u);
    } else {
        lemma_own_hue(c);
        lemma_own_places(c);
        let w = d * u;
        lemma_own_channel(c.r, c.r, hn + 2 * d, d, m, sd, sum, w, u);
        lemma_own_channel(c.g, c.g, hn, d, m, sd, sum, w, u);
        lemma_own_channel(c.b, c.b, hn - 2 * d, d, m, sd, sum, w, u);
        lemma_own_steps(c.r as int, sum, w);
        lemma_own_steps(c.g as int, sum, w);
        lemma_own_steps(c.b as int, sum, w);
        assert(w > 0) by (nonlinear_arith)
            requires
                w == d * u,
                d >= 3,
                u >= 1,
        ;
    }
}

proof fn lemma_own_steps(ch: int, sum: int, w: int)
    ensures
        2 * w * ch - (sum * w + w * (2 * ch - sum)) == 0,
{
    assert(2 * w * ch - (sum * w + w * (2 * ch - sum)) == 0) by (nonlinear_arith);
}

/// Where the channels of a colour lie on a turn, in finer parts.
proof fn lemma_own_places(c: LedColor)
    requires
        color::peak(c) - hsl_laws::low(c) >= 3,
    ensures
        ({
            let u = float::unit();
            let d = color::peak(c) - hsl_laws::low(c);
            let h = hsl_laws::hue_steps(c);
            let third = 2 * (d * u);
            &&& h * u + third == (h + 2 * d) * u
            &&& h * u - third == (h - 2 * d) * u
            &&& 3 * third == 6 * (d * u)
        }),
{
    let u = float::unit();
    let d = color::peak(c) - hsl_laws::low(c);
    let h = hsl_laws::hue_steps(c);
    assert(h * u + 2 * (d * u) == (h + 2 * d) * u && h * u - 2 * (d * u) == (h - 2 * d) * u)
        by (nonlinear_arith);
}

/// A channel of a grey.
proof fn lemma_own_grey(ch: u8, sum: int, p: int, q: int, u: int)
    requires
        -2 <= 2 * ch - sum <= 2,
        q > 0,
        u >= 1,
    ensures
        is_hsl_channel(ch, p, q, 0, u, sum * u, 510 * u),
{
    let t = trapezoid(p, q);
    let r = room(sum * u, 510 * u);
    let exact = ((sum * u) * u - 0 * r) * q + (2 * (0 * r)) * t;
    let den = ((510 * u) * u) * q;
    let f = (u * u) * q;
    assert(exact == sum * f && den == 510 * f && f > 0) by (nonlinear_arith)
        requires
            exact == ((sum * u) * u - 0 * r) * q + (2 * (0 * r)) * t,
            den == ((510 * u) * u) * q,
            f == (u * u) * q,
            u >= 1,
            q > 0,
    {
        assert(u * u >= 1);
        assert(0 * r == 0);
        assert((2 * 0) * t == 0);
        assert(((sum * u) * u) * q == sum * f);
    }
    assert(-(510 * f) <= ch * den - 255 * exact <= 510 * f) by (nonlinear_arith)
        requires
            exact == sum * f,
            den == 510 * f,
            -2 <= 2 * ch - sum <= 2,
            f > 0,
    {
        let e = 2 * ch - sum;
        assert(ch * den - 255 * exact == 255 * (e * f));
        assert(e * f <= 2 * f);
        assert(-2 * f <= e * f);
    }
}

/// Shifting a colour turns its hue by the hue's offset, and moves its saturation and its lightness
/// by theirs, held between zero and one: every channel is less than two steps from where these put
/// it.
pub proof fn shift_does_what_the_offsets_say(c: LedColor, o: HslOffsets)
    requires
        in_reach(o),
    ensures
        is_shifted(color::shifted(c, o), c, o),
{
    facts::zero_is_zero();
    if color::no_offsets(o) {
        lemma_not_shifted(c, o);
    } else {
        lemma_really_shifted(c, o);
    }
}

/// Whether a channel that was `ch` of a colour, whose channels lie between `low` and `top`, has the
/// same place between channels that lie `w / u` apart around the same middle; less than two steps
/// from it.
pub open spec fn is_drawn_out(out: u8, ch: u8, low: u8, top: u8, w: int, u: int) -> bool {
    let d = (top - low) * u;
    let exact = (top + low) * d + w * (2 * ch - top - low);
    -(4 * d) < 2 * d * out - exact < 4 * d
}

/// What is_shifted says where only the saturation is shifted.
proof fn lemma_only_saturation(c: LedColor, o: HslOffsets)
    requires
        in_reach(o),
        o.h.value() == 0,
        o.l.value() == 0,
        color::peak(c) - hsl_laws::low(c) >= 3,
    ensures
        ({
            let out = color::shifted(c, o);
            let u = float::unit();
            let d = color::peak(c) - hsl_laws::low(c);
            let sum = color::peak(c) + hsl_laws::low(c);
            let h = hsl_laws::hue_steps(c);
            let sd = room(sum, 510);
            let w = held(d * u + sd * o.s.value(), sd * u);
            let q = 6 * (d * u);
            &&& is_hsl_channel(out.r, (h + 2 * d) * u, q, w, sd * u, sum * u, 510 * u)
            &&& is_hsl_channel(out.g, h * u, q, w, sd * u, sum * u, 510 * u)
            &&& is_hsl_channel(out.b, (h - 2 * d) * u, q, w, sd * u, sum * u, 510 * u)
            &&& 1 <= sd
        }),
{
    let u = float::unit();
    near::grains_in_one();
    let d = color::peak(c) - hsl_laws::low(c);
    let sum = color::peak(c) + hsl_laws::low(c);
    let k = lemma_hsl(c);
    shift_does_what_the_offsets_say(c, o);
    lemma_own_places(c);
    assert((6 * d) * 0 == 0);
    assert(0 <= sum * u <= 510 * u) by (nonlinear_arith)
        requires
            0 <= sum <= 510,
            u >= 1,
    ;
}

proof fn lemma_drawn_out(ch: u8, out: u8, p: int, low: u8, top: u8, w: int, u: int)
    requires
        ({
            let d = top - low;
            let sum = top + low;
            let sd = room(sum, 510);
            &&& trapezoid(p, 6 * d) == 6 * (ch - low)
            &&& 1 <= d
            &&& 1 <= u
            &&& 1 <= sd
            &&& is_hsl_channel(out, p * u, 6 * (d * u), w, sd * u, sum * u, 510 * u)
        }),
    ensures
        is_drawn_out(out, ch, low, top, w, u),
{
    let d = top - low;
    let sum = top + low;
    lemma_own_channel(ch, out, p, d, low as int, room(sum, 510), sum, w, u);
    assert(d * u >= 1) by (nonlinear_arith)
        requires
            d >= 1,
            u >= 1,
    ;
    assert(2 * ch - sum == 2 * ch - top - low);
}

/// A saturation offset alone draws a colour's channels apart or together, around the middle of the
/// largest and the smallest, each in its place. They then lie as many steps apart as the new
/// saturation is of the steps that the lightness leaves room for.
#[verifier::rlimit(40)]
pub proof fn saturation_draws_channels_apart(c: LedColor, o: HslOffsets)
    requires
        in_reach(o),
        o.h.value() == 0,
        o.l.value() == 0,
        color::peak(c) - hsl_laws::low(c) >= 3,
    ensures
        ({
            let out = color::shifted(c, o);
            let (top, low) = (color::peak(c), hsl_laws::low(c));
            let u = float::unit();
            let most = if top + low <= 255 {
                top + low
            } else {
                510 - top - low
            };
            let w = held((top - low) * u + most * o.s.value(), most * u);
            &&& is_drawn_out(out.r, c.r, low, top, w, u)
            &&& is_drawn_out(out.g, c.g, low, top, w, u)
            &&& is_drawn_out(out.b, c.b, low, top, w, u)
        }),
{
    let out = color::shifted(c, o);
    let (top, low) = (color::peak(c), hsl_laws::low(c));
    let u = float::unit();
    near::grains_in_one();
    let d = top - low;
    let sd = room(top + low, 510);
    let h = hsl_laws::hue_steps(c);
    let w = held(d * u + sd * o.s.value(), sd * u);
    lemma_only_saturation(c, o);
    lemma_own_hue(c);
    lemma_drawn_out(c.r, out.r, h + 2 * d, low, top, w, u);
    lemma_drawn_out(c.g, out.g, h, low, top, w, u);
    lemma_drawn_out(c.b, out.b, h - 2 * d, low, top, w, u);
}

/// The steps between a colour's largest and its smallest channel.
pub open spec fn spread(c: LedColor) -> int {
    color::peak(c) - hsl_laws::low(c)
}

/// How far apart two channels are drawn.
proof fn lemma_pair(a: u8, b: u8, x: u8, y: u8, low: u8, top: u8, w: int, u: int)
    requires
        is_drawn_out(a, x, low, top, w, u),
        is_drawn_out(b, y, low, top, w, u),
        low <= x <= top,
        low <= y <= top,
        low < top,
        0 <= w,
        1 <= u,
    ensures
        w <= (top - low) * u ==> a - b <= (top - low) + 3,
        w >= (top - low) * u && x == top && y == low ==> a - b >= (top - low) - 3,
{
    let n = top - low;
    let d = n * u;
    assert(d >= 1) by (nonlinear_arith)
        requires
            d == n * u,
            n >= 1,
            u >= 1,
    ;
    let (e1, e2) = (w * (2 * x - top - low), w * (2 * y - top - low));
    let g = w * (x - y);
    assert(e1 - e2 == 2 * g) by (nonlinear_arith)
        requires
            e1 == w * (2 * x - top - low),
            e2 == w * (2 * y - top - low),
            g == w * (x - y),
    ;
    let diff = a - b;
    assert(2 * d * a - 2 * d * b == 2 * (d * diff)) by (nonlinear_arith)
        requires
            diff == a - b,
    ;
    assert(-(4 * d) < d * diff - g < 4 * d);
    if w <= d {
        assert(g <= d * n) by (nonlinear_arith)
            requires
                g == w * (x - y),
                x - y <= n,
                0 <= w <= d,
                n >= 1,
        {
            assert(w * (x - y) <= w * n);
            assert(w * n <= d * n);
        }
        assert(diff <= n + 3) by (nonlinear_arith)
            requires
                d * diff < d * n + 4 * d,
                d >= 1,
        {
            assert(d * n + 4 * d == d * (n + 4));
            assert(diff < n + 4);
        }
    }
    if w >= d && x == top && y == low {
        assert(g >= d * n) by (nonlinear_arith)
            requires
                g == w * n,
                w >= d,
                n >= 1,
        ;
        assert(diff >= n - 3) by (nonlinear_arith)
            requires
                d * diff > d * n - 4 * d,
                d >= 1,
        {
            assert(d * n - 4 * d == d * (n - 4));
            assert(diff > n - 4);
        }
    }
}

/// A saturation offset below zero takes colour away, and one above zero adds to it: the steps
/// between the largest and the smallest channel do not grow, or do not shrink, up to three.
pub proof fn saturation_offset_has_a_direction(c: LedColor, o: HslOffsets)
    requires
        in_reach(o),
        o.h.value() == 0,
        o.l.value() == 0,
        spread(c) >= 3,
    ensures
        o.s.value() <= 0 ==> spread(color::shifted(c, o)) <= spread(c) + 3,
        o.s.value() >= 0 ==> spread(color::shifted(c, o)) >= spread(c) - 3,
{
    let out = color::shifted(c, o);
    let (top, low) = (color::peak(c), hsl_laws::low(c));
    let u = float::unit();
    let d = top - low;
    near::grains_in_one();
    saturation_draws_channels_apart(c, o);
    let k = lemma_hsl(c);
    let most = if top + low <= 255 {
        top + low
    } else {
        510 - top - low
    };
    let v = o.s.value();
    let w = held(d * u + most * v, most * u);
    assert((v <= 0 ==> most * v <= 0) && (v >= 0 ==> most * v >= 0) && d * u >= 1 && d * u <= most
        * u) by (nonlinear_arith)
        requires
            1 <= d <= most,
            u >= 1,
    ;
    lemma_pair(out.r, out.g, c.r, c.g, low, top, w, u);
    lemma_pair(out.g, out.r, c.g, c.r, low, top, w, u);
    lemma_pair(out.r, out.b, c.r, c.b, low, top, w, u);
    lemma_pair(out.b, out.r, c.b, c.r, low, top, w, u);
    lemma_pair(out.g, out.b, c.g, c.b, low, top, w, u);
    lemma_pair(out.b, out.g, c.b, c.g, low, top, w, u);
}

/// A saturation offset of minus one leaves no colour, only grey, whatever else is shifted.
pub proof fn no_saturation_is_grey(c: LedColor, o: HslOffsets)
    requires
        o.s.finite(),
        -(4 * float::unit()) <= o.s.value() <= -float::unit(),
    ensures
        color::shifted(c, o).r == color::shifted(c, o).g,
        color::shifted(c, o).g == color::shifted(c, o).b,
{
    let u = float::unit();
    let w = near::grain();
    near::grains_in_one();
    facts::zero_is_zero();
    hsl_laws::lemma_constants();
    let x = color::hsl(c);
    let (sn, sd) = exact_saturation(c);
    let k = lemma_hsl(c);
    near::near_bounds(x.s, sn, sd, 603, 0, 1);
    near::sum_error(x.s, o.s);
    let s = color::unit_clamped(float::sum(x.s, o.s));
    assert(s.finite() && 0 <= s.value() <= 604 * w) by {
        facts::one_is_unit();
    }
    hsl_laws::lemma_kept_in_range(s);
}

/// The exact channel rises with the lightness.
proof fn lemma_lightness_rises(n: int, m: int, lq: int, sn: int, sq: int, t: int, q: int)
    requires
        0 <= n <= m <= lq,
        0 <= sn <= sq,
        0 <= t <= q,
    ensures
        (n * sq - sn * room(n, lq)) * q + (2 * (sn * room(n, lq))) * t <= (m * sq - sn * room(
            m,
            lq,
        )) * q + (2 * (sn * room(m, lq))) * t,
{
    let (r1, r2) = (room(n, lq), room(m, lq));
    let step = m - n;
    assert(-step <= r2 - r1 <= step);
    let (h1, h2) = (sn * r1, sn * r2);
    let dh = h2 - h1;
    let ss = step * sq;
    assert(-ss <= dh <= ss) by (nonlinear_arith)
        requires
            dh == sn * r2 - sn * r1,
            ss == step * sq,
            -step <= r2 - r1 <= step,
            0 <= sn <= sq,
            0 <= step,
    {
        assert(dh == sn * (r2 - r1));
        assert(sn * (r2 - r1) <= sn * step);
        assert(sn * (r2 - r1) >= sn * (-step));
        assert(sn * step <= sq * step);
    }
    let a1 = (n * sq - h1) * q + (2 * h1) * t;
    let a2 = (m * sq - h2) * q + (2 * h2) * t;
    let f = 2 * t - q;
    assert(a2 - a1 == ss * q + dh * f) by (nonlinear_arith)
        requires
            a1 == (n * sq - h1) * q + (2 * h1) * t,
            a2 == (m * sq - h2) * q + (2 * h2) * t,
            dh == h2 - h1,
            f == 2 * t - q,
            ss == step * sq,
            step == m - n,
    {
        assert(a1 == (n * sq) * q + h1 * f);
        assert(a2 == (m * sq) * q + h2 * f);
        assert(dh * f == h2 * f - h1 * f);
        assert(ss == m * sq - n * sq);
        assert(ss * q == (m * sq) * q - (n * sq) * q);
    }
    assert(dh * f >= -(ss * q)) by (nonlinear_arith)
        requires
            -ss <= dh <= ss,
            -q <= f <= q,
            0 <= q,
    {
        assert(ss >= 0);
        if f >= 0 {
            assert(dh * f >= (-ss) * f);
            assert(ss * f <= ss * q);
            assert((-ss) * f == -(ss * f));
        } else {
            assert(dh * f >= ss * f);
            assert(ss * f >= ss * (-q));
            assert(ss * (-q) == -(ss * q));
        }
    }
}

/// A channel whose exact value is above, or below, another channel.
proof fn lemma_beyond(c: u8, ch: u8, exact: int, den: int)
    requires
        den > 0,
        -(19 * den) < 10 * (c * den - 255 * exact) < 19 * den,
    ensures
        255 * exact >= ch * den ==> c >= ch - 1,
        255 * exact <= ch * den ==> c <= ch + 1,
{
    let d = c - ch;
    assert(c * den - ch * den == d * den) by (nonlinear_arith)
        requires
            d == c - ch,
    ;
    if 255 * exact >= ch * den {
        assert(d > -2) by (nonlinear_arith)
            requires
                d * den > -(2 * den),
                den > 0,
        ;
    }
    if 255 * exact <= ch * den {
        assert(d < 2) by (nonlinear_arith)
            requires
                d * den < 2 * den,
                den > 0,
        ;
    }
}

/// The exact value of a colour's own channel.
proof fn lemma_own_value(ch: u8, p: int, d: int, m: int, sd: int, sum: int, u: int)
    requires
        trapezoid(p, 6 * d) == 6 * (ch - m),
        1 <= d <= sd,
        1 <= u,
        sd == room(sum, 510),
        0 <= sum <= 510,
        2 * m + d == sum,
    ensures
        ({
            let q = 6 * (d * u);
            let half = (d * u) * room(sum * u, 510 * u);
            let exact = ((sum * u) * (sd * u) - half) * q + (2 * half) * trapezoid(p * u, q);
            let den = ((510 * u) * (sd * u)) * q;
            &&& 255 * exact == ch * den
            &&& den > 0
        }),
{
    lemma_trapezoid_scaled(p, 6 * d, u);
    let g = d * u;
    let q = 6 * g;
    assert(u * p == p * u && u * (6 * d) == q) by (nonlinear_arith)
        requires
            q == 6 * g,
            g == d * u,
    ;
    let r = room(sum * u, 510 * u);
    let s = sd * u;
    assert(r == s) by (nonlinear_arith)
        requires
            r == if 2 * (sum * u) <= 510 * u {
                sum * u
            } else {
                510 * u - sum * u
            },
            s == sd * u,
            sd == if 2 * sum <= 510 {
                sum
            } else {
                510 - sum
            },
            u >= 1,
    {
        assert(2 * (sum * u) == (2 * sum) * u);
        assert(((2 * sum) * u <= 510 * u) == (2 * sum <= 510));
        assert((510 - sum) * u == 510 * u - sum * u);
    }
    let half = g * r;
    let t = trapezoid(p * u, q);
    let k = ch - m;
    let exact = ((sum * u) * s - half) * q + (2 * half) * t;
    let den = ((510 * u) * s) * q;
    let su = s * u;
    let sg = su * g;
    assert(half * q == 6 * (sg * d) && ((sum * u) * s) * q == 6 * (sg * sum) && (2 * half) * t == 6
        * (sg * (2 * k)) && den == 3060 * sg) by {
        assert(half * q == 6 * (sg * d)) by (nonlinear_arith)
            requires
                half == g * s,
                q == 6 * g,
                sg == su * g,
                su == s * u,
                g == d * u,
        {
            assert((g * s) * (6 * (d * u)) == 6 * (((s * u) * g) * d));
        }
        assert(((sum * u) * s) * q == 6 * (sg * sum)) by (nonlinear_arith)
            requires
                q == 6 * g,
                sg == su * g,
                su == s * u,
        {
            assert((sum * u) * s == sum * su);
            assert((sum * su) * (6 * g) == 6 * ((su * g) * sum));
        }
        assert((2 * half) * t == 6 * (sg * (2 * k))) by (nonlinear_arith)
            requires
                half == g * s,
                t == u * (6 * k),
                sg == su * g,
                su == s * u,
        {
            assert((2 * (g * s)) * (u * (6 * k)) == 12 * (((s * u) * g) * k));
        }
        assert(den == 3060 * sg) by (nonlinear_arith)
            requires
                den == ((510 * u) * s) * q,
                q == 6 * g,
                sg == su * g,
                su == s * u,
        {
            assert((510 * u) * s == 510 * su);
        }
    }
    assert(((sum * u) * s - half) * q == ((sum * u) * s) * q - half * q) by (nonlinear_arith);
    assert(sg * sum - sg * d + sg * (2 * k) == sg * (2 * ch)) by (nonlinear_arith)
        requires
            sum - d + 2 * k == 2 * ch,
    ;
    assert(sg * (2 * ch) == 2 * (sg * ch) && ch * den == 3060 * (sg * ch)) by (nonlinear_arith)
        requires
            den == 3060 * sg,
    ;
    assert(sg > 0) by (nonlinear_arith)
        requires
            sg == su * g,
            su == s * u,
            s == sd * u,
            g == d * u,
            sd >= 1,
            d >= 1,
            u >= 1,
    {
        assert(sd * u >= 1);
        assert((sd * u) * u >= 1);
        assert(d * u >= 1);
    }
}

/// One channel with its lightness shifted.
proof fn lemma_lighter_channel(
    ch: u8,
    out: u8,
    p: int,
    d: int,
    m: int,
    sd: int,
    sum: int,
    light: int,
    u: int,
)
    requires
        trapezoid(p, 6 * d) == 6 * (ch - m),
        1 <= d <= sd,
        1 <= u,
        sd == room(sum, 510),
        0 <= sum <= 510,
        2 * m + d == sum,
        0 <= light <= 510 * u,
        is_hsl_channel(out, p * u, 6 * (d * u), d * u, sd * u, light, 510 * u),
    ensures
        light >= sum * u ==> out >= ch - 1,
        light <= sum * u ==> out <= ch + 1,
{
    let q = 6 * (d * u);
    let t = trapezoid(p * u, q);
    let (sn, sq, lq) = (d * u, sd * u, 510 * u);
    let n = sum * u;
    assert(0 < sn <= sq && 0 <= n <= lq && q > 0) by (nonlinear_arith)
        requires
            sn == d * u,
            sq == sd * u,
            n == sum * u,
            lq == 510 * u,
            q == 6 * (d * u),
            1 <= d <= sd,
            0 <= sum <= 510,
            u >= 1,
    ;
    lemma_trapezoid_range(p * u, q);
    lemma_own_value(ch, p, d, m, sd, sum, u);
    let half = sn * room(light, lq);
    let exact = (light * sq - half) * q + (2 * half) * t;
    let den = (lq * sq) * q;
    if light >= n {
        lemma_lightness_rises(n, light, lq, sn, sq, t, q);
    }
    if light <= n {
        lemma_lightness_rises(light, n, lq, sn, sq, t, q);
    }
    lemma_beyond(out, ch, exact, den);
}

/// A lightness offset alone moves every channel its own way: above zero none gets darker, and
/// below zero none lighter, up to one step.
pub proof fn lightness_offset_has_a_direction(c: LedColor, o: HslOffsets)
    requires
        in_reach(o),
        o.h.value() == 0,
        o.s.value() == 0,
        spread(c) >= 3,
    ensures
        ({
            let out = color::shifted(c, o);
            &&& o.l.value() >= 0 ==> out.r >= c.r - 1 && out.g >= c.g - 1 && out.b >= c.b - 1
            &&& o.l.value() <= 0 ==> out.r <= c.r + 1 && out.g <= c.g + 1 && out.b <= c.b + 1
        }),
{
    let out = color::shifted(c, o);
    let u = float::unit();
    near::grains_in_one();
    let m = hsl_laws::low(c) as int;
    let d = color::peak(c) - m;
    let sum = color::peak(c) + m;
    let h = hsl_laws::hue_steps(c);
    let sd = room(sum, 510);
    let v = o.l.value();
    let light = held(sum * u + 510 * v, 510 * u);
    let k = lemma_hsl(c);
    lemma_only_lightness(c, o);
    lemma_own_hue(c);
    assert(0 <= sum * u <= 510 * u) by (nonlinear_arith)
        requires
            0 <= sum <= 510,
            u >= 1,
    ;
    lemma_lighter_channel(c.r, out.r, h + 2 * d, d, m, sd, sum, light, u);
    lemma_lighter_channel(c.g, out.g, h, d, m, sd, sum, light, u);
    lemma_lighter_channel(c.b, out.b, h - 2 * d, d, m, sd, sum, light, u);
}

/// What is_shifted says where only the lightness is shifted.
proof fn lemma_only_lightness(c: LedColor, o: HslOffsets)
    requires
        in_reach(o),
        o.h.value() == 0,
        o.s.value() == 0,
        color::peak(c) - hsl_laws::low(c) >= 3,
    ensures
        ({
            let out = color::shifted(c, o);
            let u = float::unit();
            let d = color::peak(c) - hsl_laws::low(c);
            let sum = color::peak(c) + hsl_laws::low(c);
            let h = hsl_laws::hue_steps(c);
            let sd = room(sum, 510);
            let light = held(sum * u + 510 * o.l.value(), 510 * u);
            let q = 6 * (d * u);
            &&& is_hsl_channel(out.r, (h + 2 * d) * u, q, d * u, sd * u, light, 510 * u)
            &&& is_hsl_channel(out.g, h * u, q, d * u, sd * u, light, 510 * u)
            &&& is_hsl_channel(out.b, (h - 2 * d) * u, q, d * u, sd * u, light, 510 * u)
            &&& d <= sd
        }),
{
    let u = float::unit();
    near::grains_in_one();
    let d = color::peak(c) - hsl_laws::low(c);
    let sum = color::peak(c) + hsl_laws::low(c);
    let sd = room(sum, 510);
    let k = lemma_hsl(c);
    shift_does_what_the_offsets_say(c, o);
    lemma_own_places(c);
    assert((6 * d) * 0 == 0 && sd * 0 == 0);
    assert(0 <= d * u <= sd * u) by (nonlinear_arith)
        requires
            1 <= d <= sd,
            u >= 1,
    ;
}

/// What is_shifted says where only the hue is shifted.
proof fn lemma_only_hue(c: LedColor, o: HslOffsets)
    requires
        in_reach(o),
        o.s.value() == 0,
        o.l.value() == 0,
        color::peak(c) - hsl_laws::low(c) >= 3,
    ensures
        ({
            let out = color::shifted(c, o);
            let u = float::unit();
            let d = color::peak(c) - hsl_laws::low(c);
            let sum = color::peak(c) + hsl_laws::low(c);
            let h = hsl_laws::hue_steps(c);
            let sd = room(sum, 510);
            let p = h * u + (6 * d) * o.h.value();
            let q = 6 * (d * u);
            &&& is_hsl_channel(out.r, p + 2 * (d * u), q, d * u, sd * u, sum * u, 510 * u)
            &&& is_hsl_channel(out.g, p, q, d * u, sd * u, sum * u, 510 * u)
            &&& is_hsl_channel(out.b, p - 2 * (d * u), q, d * u, sd * u, sum * u, 510 * u)
            &&& d <= sd
        }),
{
    let u = float::unit();
    near::grains_in_one();
    let d = color::peak(c) - hsl_laws::low(c);
    let sum = color::peak(c) + hsl_laws::low(c);
    let sd = room(sum, 510);
    let k = lemma_hsl(c);
    shift_does_what_the_offsets_say(c, o);
    assert(sd * 0 == 0 && 3 * (2 * (d * u)) == 6 * (d * u));
    assert(0 <= d * u <= sd * u && 0 <= sum * u <= 510 * u) by (nonlinear_arith)
        requires
            1 <= d <= sd,
            0 <= sum <= 510,
            u >= 1,
    ;
}

/// One channel with its hue turned to where another channel's was, but for some grains.
proof fn lemma_turned_channel(
    ch: u8,
    out: u8,
    at: int,
    p: int,
    d: int,
    m: int,
    sd: int,
    sum: int,
)
    requires
        trapezoid(p, 6 * d) == 6 * (ch - m),
        1 <= d <= sd,
        sd == room(sum, 510),
        0 <= sum <= 510,
        2 * m + d == sum,
        -(6 * (d * near::grain())) <= at - p * float::unit() <= 6 * (d * near::grain()),
        is_hsl_channel(
            out,
            at,
            6 * (d * float::unit()),
            d * float::unit(),
            sd * float::unit(),
            sum * float::unit(),
            510 * float::unit(),
        ),
    ensures
        ch - 1 <= out <= ch + 1,
{
    let u = float::unit();
    let w = near::grain();
    near::grains_in_one();
    let q = 6 * (d * u);
    let place = p * u;
    assert(q >= 6 && d * w >= 0) by (nonlinear_arith)
        requires
            q == 6 * (d * u),
            d >= 1,
            u >= 1,
            w > 0,
    {
        assert(d * u >= 1);
    }
    if at <= place {
        lemma_trapezoid_is_steady(at, place, q);
    } else {
        lemma_trapezoid_is_steady(place, at, q);
    }
    lemma_own_value(ch, p, d, m, sd, sum, u);
    let (sn, sq, lq) = (d * u, sd * u, 510 * u);
    let n = sum * u;
    let half = sn * room(n, lq);
    let (t1, t2) = (trapezoid(at, q), trapezoid(place, q));
    let off = 36 * (d * w);
    assert(-off <= t1 - t2 <= off);
    let base = (n * sq - half) * q;
    let e1 = base + (2 * half) * t1;
    let e2 = base + (2 * half) * t2;
    let ls = lq * sq;
    let den = ls * q;
    assert(0 <= sn <= sq && 0 <= n <= lq && sq > 0 && lq > 0) by (nonlinear_arith)
        requires
            sn == d * u,
            sq == sd * u,
            n == sum * u,
            lq == 510 * u,
            1 <= d <= sd,
            0 <= sum <= 510,
            u >= 1,
    ;
    assert(0 <= 2 * half <= ls) by (nonlinear_arith)
        requires
            half == sn * room(n, lq),
            ls == lq * sq,
            0 <= room(n, lq),
            2 * room(n, lq) <= lq,
            0 <= sn <= sq,
    {
        let r = room(n, lq);
        assert(sn * (2 * r) <= sq * (2 * r));
        assert(sq * (2 * r) <= sq * lq);
        assert(sn * r >= 0);
    }
    let lo = ls * off;
    assert(-lo <= e1 - e2 <= lo) by (nonlinear_arith)
        requires
            e1 == base + (2 * half) * t1,
            e2 == base + (2 * half) * t2,
            -off <= t1 - t2 <= off,
            0 <= 2 * half <= ls,
            lo == ls * off,
            off >= 0,
    {
        let g = t1 - t2;
        assert(e1 - e2 == (2 * half) * g);
        assert((2 * half) * g <= (2 * half) * off);
        assert((2 * half) * g >= (2 * half) * (-off));
        assert((2 * half) * off <= ls * off);
        assert((2 * half) * (-off) == -((2 * half) * off));
    }
    // A grain is one part in 2^22 of a turn's unit.
    assert(0x40_0000 * lo == 6 * den) by (nonlinear_arith)
        requires
            lo == ls * off,
            off == 36 * (d * w),
            den == ls * q,
            q == 6 * (d * u),
            u == 0x40_0000 * w,
    {
        assert(ls * (36 * (d * w)) == 36 * (ls * (d * w)));
        assert(ls * (6 * (d * (0x40_0000 * w))) == (6 * 0x40_0000) * (ls * (d * w)));
    }
    let diff = out - ch;
    assert(out * den - ch * den == diff * den) by (nonlinear_arith)
        requires
            diff == out - ch,
    ;
    assert(-(2 * den) < diff * den < 2 * den);
    assert(-2 < diff < 2) by (nonlinear_arith)
        requires
            -(2 * den) < diff * den < 2 * den,
            den > 0,
    ;
}

/// A hue offset of a third of a turn alone rotates the channels: red becomes green, green blue, and
/// blue red, up to one step.
pub proof fn hue_offset_of_a_third_rotates_the_channels(c: LedColor, o: HslOffsets)
    requires
        in_reach(o),
        o.s.value() == 0,
        o.l.value() == 0,
        -(3 * near::grain()) <= 3 * o.h.value() - float::unit() <= 3 * near::grain(),
        spread(c) >= 3,
    ensures
        ({
            let out = color::shifted(c, o);
            &&& c.r - 1 <= out.g <= c.r + 1
            &&& c.g - 1 <= out.b <= c.g + 1
            &&& c.b - 1 <= out.r <= c.b + 1
        }),
{
    let out = color::shifted(c, o);
    let u = float::unit();
    let w = near::grain();
    near::grains_in_one();
    let m = hsl_laws::low(c) as int;
    let d = color::peak(c) - m;
    let sum = color::peak(c) + m;
    let h = hsl_laws::hue_steps(c);
    let sd = room(sum, 510);
    let v = o.h.value();
    lemma_only_hue(c, o);
    lemma_own_hue(c);
    lemma_trapezoid_period(h - 2 * d, 6 * d, 1);
    let (dw, du, hu, dv) = (d * w, d * u, h * u, d * v);
    assert(-(3 * dw) <= 3 * dv - du <= 3 * dw && (6 * d) * v == 6 * dv) by (nonlinear_arith)
        requires
            dw == d * w,
            du == d * u,
            dv == d * v,
            -(3 * w) <= 3 * v - u <= 3 * w,
            d >= 1,
    {
        assert(d * (3 * v - u) == 3 * dv - du);
        assert(d * (3 * v - u) <= d * (3 * w));
        assert(d * (3 * v - u) >= d * (-(3 * w)));
    }
    assert((h + 4 * d) * u == hu + 4 * du && (h + 2 * d) * u == hu + 2 * du) by (nonlinear_arith)
        requires
            hu == h * u,
            du == d * u,
    ;
    let at = hu + 6 * dv;
    lemma_turned_channel(c.b, out.r, at + 2 * du, h + 4 * d, d, m, sd, sum);
    lemma_turned_channel(c.r, out.g, at, h + 2 * d, d, m, sd, sum);
    lemma_turned_channel(c.g, out.b, at - 2 * du, h, d, m, sd, sum);
}

/// Half a turn away, a channel is as far down as it was up.
proof fn lemma_half_turn(p: int, d: int)
    requires
        d >= 1,
    ensures
        trapezoid(p + 3 * d, 6 * d) == 6 * d - trapezoid(p, 6 * d),
{
    let q = 6 * d;
    let r = p % q;
    let k = p / q;
    lemma_fundamental_div_mod(p, q);
    lemma_mod_bound(p, q);
    if r < 3 * d {
        assert(p + 3 * d == k * q + (r + 3 * d)) by (nonlinear_arith)
            requires
                p == q * k + r,
        ;
        lemma_fundamental_div_mod_converse(p + 3 * d, q, k, r + 3 * d);
    } else {
        assert(p + 3 * d == (k + 1) * q + (r - 3 * d)) by (nonlinear_arith)
            requires
                p == q * k + r,
                q == 6 * d,
        ;
        lemma_fundamental_div_mod_converse(p + 3 * d, q, k + 1, r - 3 * d);
    }
}

/// A hue offset of half a turn alone gives the complement: what was largest becomes smallest, and
/// every channel lies as far from the one end as it did from the other, up to one step.
pub proof fn hue_offset_of_a_half_complements(c: LedColor, o: HslOffsets)
    requires
        in_reach(o),
        o.s.value() == 0,
        o.l.value() == 0,
        2 * o.h.value() == float::unit(),
        spread(c) >= 3,
    ensures
        ({
            let out = color::shifted(c, o);
            let both = color::peak(c) + hsl_laws::low(c);
            &&& both - 1 <= out.r + c.r <= both + 1
            &&& both - 1 <= out.g + c.g <= both + 1
            &&& both - 1 <= out.b + c.b <= both + 1
        }),
{
    let out = color::shifted(c, o);
    let u = float::unit();
    let w = near::grain();
    near::grains_in_one();
    let m = hsl_laws::low(c) as int;
    let d = color::peak(c) - m;
    let sum = color::peak(c) + m;
    let h = hsl_laws::hue_steps(c);
    let sd = room(sum, 510);
    let v = o.h.value();
    lemma_only_hue(c, o);
    lemma_own_hue(c);
    lemma_half_turn(h + 2 * d, d);
    lemma_half_turn(h, d);
    lemma_half_turn(h - 2 * d, d);
    let (du, hu) = (d * u, h * u);
    assert((6 * d) * v == 3 * du && 0 <= d * w) by (nonlinear_arith)
        requires
            du == d * u,
            2 * v == u,
            d >= 1,
            w > 0,
    ;
    assert((h + 2 * d + 3 * d) * u == hu + 5 * du && (h + 3 * d) * u == hu + 3 * du && (h - 2 * d
        + 3 * d) * u == hu + du) by (nonlinear_arith)
        requires
            hu == h * u,
            du == d * u,
    ;
    let at = hu + 3 * du;
    lemma_turned_channel((sum - c.r) as u8, out.r, at + 2 * du, h + 2 * d + 3 * d, d, m, sd, sum);
    lemma_turned_channel((sum - c.g) as u8, out.g, at, h + 3 * d, d, m, sd, sum);
    lemma_turned_channel((sum - c.b) as u8, out.b, at - 2 * du, h - 2 * d + 3 * d, d, m, sd, sum);
}

/// A lightness offset of one gives white, and one of minus one black, up to one step, whatever else
/// is shifted.
pub proof fn lightness_ends_at_black_and_white(c: LedColor, o: HslOffsets)
    requires
        in_reach(o),
    ensures
        ({
            let out = color::shifted(c, o);
            &&& o.l.value() >= float::unit() ==> out.r >= 254 && out.g >= 254 && out.b >= 254
            &&& o.l.value() <= -float::unit() ==> out.r <= 1 && out.g <= 1 && out.b <= 1
        }),
{
    let u = float::unit();
    near::grains_in_one();
    let out = color::shifted(c, o);
    let (hn, hd) = exact_hue(c);
    let (sn, sd) = exact_saturation(c);
    let sum = color::peak(c) + hsl_laws::low(c);
    let k = lemma_hsl(c);
    shift_does_what_the_offsets_say(c, o);
    let p = hn * u + (6 * hd) * o.h.value();
    let third = 2 * (hd * u);
    let sat = held(sn * u + sd * o.s.value(), sd * u);
    let light = held(sum * u + 510 * o.l.value(), 510 * u);
    assert(0 <= sum * u <= 510 * u && third > 0 && sd * u > 0) by (nonlinear_arith)
        requires
            0 <= sum <= 510,
            third == 2 * (hd * u),
            hd >= 1,
            sd >= 1,
            u >= 1,
    ;
    if o.l.value() >= u || o.l.value() <= -u {
        assert(light == 0 || light == 510 * u);
        lemma_end_channel(out.r, p + third, 3 * third, sat, sd * u, light, 510 * u);
        lemma_end_channel(out.g, p, 3 * third, sat, sd * u, light, 510 * u);
        lemma_end_channel(out.b, p - third, 3 * third, sat, sd * u, light, 510 * u);
    }
}

proof fn lemma_end_channel(c: u8, p: int, q: int, sn: int, sq: int, ln: int, lq: int)
    requires
        is_hsl_channel(c, p, q, sn, sq, ln, lq),
        q > 0,
        sq > 0,
        lq > 0,
        ln == 0 || ln == lq,
    ensures
        ln == lq ==> c >= 254,
        ln == 0 ==> c <= 1,
{
    let half = sn * room(ln, lq);
    assert(half == 0) by (nonlinear_arith)
        requires
            half == sn * room(ln, lq),
            room(ln, lq) == 0,
    ;
    let t = trapezoid(p, q);
    let exact = (ln * sq - half) * q + (2 * half) * t;
    let den = (lq * sq) * q;
    assert(den > 0 && (ln == lq ==> exact == den) && (ln == 0 ==> exact == 0)) by (nonlinear_arith)
        requires
            exact == (ln * sq - half) * q + (2 * half) * t,
            den == (lq * sq) * q,
            half == 0,
            lq > 0,
            sq > 0,
            q > 0,
    {
        assert(lq * sq > 0);
        assert((2 * 0) * t == 0);
    }
    assert(0 * den == 0);
    if ln == lq {
        lemma_beyond(c, 255, exact, den);
    } else {
        lemma_beyond(c, 0, exact, den);
    }
}

/// A share with an offset of two or more is full, and with one of minus two or less nothing.
proof fn lemma_far_offset(x: F32, o: F32)
    requires
        x.finite(),
        -float::unit() <= 2 * x.value() <= 3 * float::unit(),
        !o.nan(),
    ensures
        o.value() >= 2 * float::unit() ==> color::unit_clamped(float::sum(x, o)) == color::lit(ONE),
        o.value() <= -(2 * float::unit()) ==> color::unit_clamped(float::sum(x, o)) == color::lit(0),
{
    let u = float::unit();
    facts::one_is_unit();
    facts::zero_is_zero();
    order::magnitudes_are_not_negative(x);
    let v = x.value() + o.value();
    let a = float::sum(x, o);
    lemma2_to64();
    round::lemma_form(126, 0xC0_0000);
    round::lemma_form(125, 0x80_0000);
    lemma_pow2_adds(23, 126);
    lemma_pow2_adds(1, 125);
    if o.value() >= 2 * u {
        if !o.infinite() {
            facts::nearest_exists(v, 1);
            facts::rounding_stays_above(v, 1, 0x3FC0_0000);
            round::lemma_monotone(0x3FC0_0000, a.mag_bits());
        }
    } else if o.value() <= -(2 * u) {
        if !o.infinite() {
            facts::nearest_exists(-v, 1);
            facts::rounding_stays_above(-v, 1, 0x3F00_0000);
            round::lemma_monotone(0x3F00_0000, float::nearest(-v, 1) as int);
        }
    }
}

/// Whether two offsets are the same, or both so far out that it makes no difference.
pub open spec fn alike(a: F32, b: F32) -> bool {
    let far = 2 * float::unit();
    ||| a == b
    ||| !a.nan() && !b.nan() && a.value() >= far && b.value() >= far
    ||| !a.nan() && !b.nan() && a.value() <= -far && b.value() <= -far
}

/// Saturation and lightness end at their ends: offsets of two or more do what one of two does, and
/// those of minus two or less what one of minus two does, however large they are.
pub proof fn far_offsets_are_alike(c: LedColor, o: HslOffsets, p: HslOffsets)
    requires
        o.h == p.h,
        alike(o.s, p.s),
        alike(o.l, p.l),
    ensures
        color::shifted(c, o) == color::shifted(c, p),
{
    let u = float::unit();
    near::grains_in_one();
    facts::one_is_unit();
    facts::zero_is_zero();
    let x = color::hsl(c);
    let (sn, sd) = exact_saturation(c);
    let k = lemma_hsl(c);
    near::near_bounds(x.s, sn, sd, 603, 0, 1);
    hsl_laws::lemma_lightness(c);
    if o.s != p.s {
        lemma_far_offset(x.s, o.s);
        lemma_far_offset(x.s, p.s);
        assert(!o.s.zero() && !p.s.zero());
    }
    if o.l != p.l {
        lemma_far_offset(x.l, o.l);
        lemma_far_offset(x.l, p.l);
        assert(!o.l.zero() && !p.l.zero());
    }
}

/// A colour's hue is where its channels lie on the turn, its saturation the steps between its
/// largest and its smallest channel of those that its lightness leaves room for, and its lightness
/// half way between these two channels: up to 2070, 603 and 4 grains, of which one has 2^22. The
/// hue is counted up to a whole turn.
pub proof fn colors_have_their_hue_saturation_and_lightness(c: LedColor) -> (turns: int)
    ensures
        ({
            let x = color::hsl(c);
            let (hn, hd) = exact_hue(c);
            let (sn, sd) = exact_saturation(c);
            &&& near::near(x.h, hn + turns * (6 * hd), 6 * hd, 2070)
            &&& 0 <= hn + turns * (6 * hd) <= 6 * hd
            &&& near::near(x.s, sn, sd, 603)
            &&& near::near(x.l, color::peak(c) + hsl_laws::low(c), 510, 4)
        }),
{
    lemma_hsl(c)
}

/// Hue, saturation and lightness give the colour that has them, each brought between zero and one
/// first: every channel is less than two steps from where they put it.
pub proof fn hue_saturation_and_lightness_give_their_color(x: color::Hsl)
    requires
        x.h.finite(),
        x.s.finite(),
        x.l.finite(),
    ensures
        ({
            let c = color::rgb(x);
            let u = float::unit();
            let h = 3 * held(x.h.value(), u);
            let s = held(x.s.value(), u);
            let l = held(x.l.value(), u);
            &&& is_hsl_channel(c.r, h + u, 3 * u, s, u, l, u)
            &&& is_hsl_channel(c.g, h, 3 * u, s, u, l, u)
            &&& is_hsl_channel(c.b, h - u, 3 * u, s, u, l, u)
        }),
{
    let u = float::unit();
    near::grains_in_one();
    lemma_self(x.h);
    lemma_self(x.s);
    lemma_self(x.l);
    lemma_clamped(x.h, x.h.value(), u, 0);
    lemma_clamped(x.s, x.s.value(), u, 0);
    lemma_clamped(x.l, x.l.value(), u, 0);
    let y = color::Hsl {
        h: color::unit_clamped(x.h),
        s: color::unit_clamped(x.s),
        l: color::unit_clamped(x.l),
    };
    hsl_laws::lemma_kept_in_range(y.h);
    hsl_laws::lemma_kept_in_range(y.s);
    hsl_laws::lemma_kept_in_range(y.l);
    assert(color::rgb(x) == color::rgb(y));
    let h = held(x.h.value(), u);
    near::near_scaled(y.h, h, u, 0, 3);
    near::near_loosened(y.h, 3 * h, 3 * u, 0, 2077);
    near::near_loosened(y.s, held(x.s.value(), u), u, 0, 604);
    near::near_loosened(y.l, held(x.l.value(), u), u, 0, 5);
    lemma_rgb(y, 3 * h, u, held(x.s.value(), u), u, held(x.l.value(), u), u);
}

/// Whether a channel is what a hue, a saturation and a lightness give, as for [`is_hsl_channel`],
/// up to 0.9 steps: it is rounded to the nearest and not cut.
pub open spec fn is_close_channel(
    c: u8,
    p: int,
    q: int,
    sn: int,
    sq: int,
    ln: int,
    lq: int,
) -> bool {
    let half = sn * room(ln, lq);
    let exact = (ln * sq - half) * q + (2 * half) * trapezoid(p, q);
    let den = (lq * sq) * q;
    -(90 * den) < 100 * (c * den - 255 * exact) < 90 * den
}

proof fn lemma_close_channel(
    v1: F32,
    v2: F32,
    hue: F32,
    p: int,
    q: int,
    sn: int,
    sq: int,
    ln: int,
    lq: int,
)
    requires
        ({
            let half = sn * room(ln, lq);
            let den = lq * sq;
            &&& near::near(v2, ln * sq + half, den, 1250)
            &&& near::near(v1, ln * sq - half, den, 1250)
            &&& 0 <= half
            &&& 0 <= ln * sq - half
            &&& ln * sq + half <= den
        }),
        near::near(hue, p, q, 8),
        -float::unit() <= hue.value() <= 2 * float::unit(),
        -2 * q <= p <= 3 * q,
        q >= 6,
    ensures
        is_close_channel(
            color::channel(float::product(color::lit(BYTE_MAX), color::hue_level(v1, v2, hue))),
            p,
            q,
            sn,
            sq,
            ln,
            lq,
        ),
{
    let half = sn * room(ln, lq);
    let den = lq * sq;
    let low = ln * sq - half;
    let wide = 2 * half;
    let t = trapezoid(p, q);
    lemma_trapezoid_range(p, q);
    lemma_close_level(v1, v2, hue, low, wide, den, p, q);
    let exact = low * q + wide * t;
    assert(0 <= exact <= den * q) by (nonlinear_arith)
        requires
            exact == low * q + wide * t,
            0 <= low,
            0 <= wide,
            low + wide <= den,
            0 <= t <= q,
    {
        assert(wide * t <= wide * q);
        assert(wide * t >= 0);
        assert(low * q >= 0);
        assert((low + wide) * q <= den * q);
        assert((low + wide) * q == low * q + wide * q);
    }
    lemma_channel(color::hue_level(v1, v2, hue), exact, den * q, 5200);
}

/// Hue, saturation and lightness between zero and one give every channel to less than a step, where
/// the saturation is 1/99 or more. One of 1/101 or less gives a grey, its lightness rounded.
pub proof fn channels_are_rounded_to_their_level(x: color::Hsl)
    requires
        x.h.finite() && 0 <= x.h.value() <= float::unit(),
        x.s.finite() && 0 <= x.s.value() <= float::unit(),
        x.l.finite() && 0 <= x.l.value() <= float::unit(),
    ensures
        ({
            let c = color::rgb(x);
            let u = float::unit();
            let (h, s, l) = (3 * x.h.value(), x.s.value(), x.l.value());
            &&& 99 * s >= u ==> {
                &&& is_close_channel(c.r, h + u, 3 * u, s, u, l, u)
                &&& is_close_channel(c.g, h, 3 * u, s, u, l, u)
                &&& is_close_channel(c.b, h - u, 3 * u, s, u, l, u)
            }
            &&& 101 * s <= u ==> {
                &&& c.r == c.g && c.g == c.b
                &&& -(51 * u) < 100 * (c.r * u - 255 * l) < 51 * u
            }
        }),
{
    let u = float::unit();
    let w = near::grain();
    near::grains_in_one();
    hsl_laws::lemma_constants();
    hsl_laws::lemma_kept_in_range(x.h);
    hsl_laws::lemma_kept_in_range(x.s);
    hsl_laws::lemma_kept_in_range(x.l);
    lemma_self(x.h);
    lemma_self(x.s);
    lemma_self(x.l);
    let (v, s, l) = (x.h.value(), x.s.value(), x.l.value());
    if 101 * s <= u {
        facts::product_commutes(x.l, color::lit(BYTE_MAX));
        lemma_channel(x.l, l, u, 0);
    }
    if 99 * s >= u {
        let t = color::lit(THIRD);
        near::near_loosened(x.s, s, u, 0, 604);
        near::near_loosened(x.l, l, u, 0, 5);
        lemma_levels(x.s, x.l, s, u, l, u);
        let v2 = hsl_laws::upper(x.s, x.l);
        let v1 = float::difference(float::product(color::lit(TWO), x.l), v2);
        let (p, q) = (3 * v, 3 * u);
        near::near_scaled(x.h, v, u, 0, 3);
        near::near_scaled(t, 1, 3, 1, u);
        assert(u * 1 == u && u * 3 == q);
        near::near_sum(x.h, t, p, u, q, 0, 1);
        near::near_difference(x.h, t, p, u, q, 0, 1);
        let up = float::sum(x.h, t);
        let down = float::difference(x.h, t);
        near::near_loosened(x.h, p, q, 0, 8);
        near::near_loosened(up, p + u, q, 2, 8);
        near::near_loosened(down, p - u, q, 2, 8);
        near::near_bounds(up, p + u, q, 8, 0, 2);
        near::near_bounds(down, p - u, q, 8, -1, 1);
        order::negated_value(t);
        near::sum_error(x.h, t);
        near::sum_error(x.h, float::negation(t));
        lemma_close_channel(v1, v2, up, p + u, q, s, u, l, u);
        lemma_close_channel(v1, v2, x.h, p, q, s, u, l, u);
        lemma_close_channel(v1, v2, down, p - u, q, s, u, l, u);
    }
}

} // verus!
