//! What every step of colour correction makes of every channel.

use vstd::prelude::*;
use vstd::arithmetic::power2::*;

use crate::float;
use crate::float::facts;
use crate::float::near;
use crate::float::order;
use crate::float::round;
use crate::float::{F32, ONE};

use super::blend_laws;
use super::color;
use super::color::{
    GammaLut, KelvinPlan, KelvinTerms, WhiteFactors, BLUE_LOG_FACTOR, BLUE_LOG_OFFSET, BYTE_MAX,
    GREEN_LOG_FACTOR, GREEN_LOG_OFFSET, GREEN_POWER_FACTOR, HUNDRED, RED_POWER_FACTOR,
    SEVEN_TENTHS, SIXTY, TEN, THIRTY, THREE_TENTHS,
};
use super::color_laws;
use super::hsl_laws;
use super::laws;
use super::LedColor;

verus! {

/// Whether a channel is the fraction `n / d`, rounded to an integer: it is off by at most one half
/// and 2^-11.
pub open spec fn is_rounded(c: u8, n: int, d: int) -> bool {
    &&& 2048 * (c * d - n) <= 1025 * d
    &&& 2048 * (n - c * d) <= 1025 * d
}

/// A sum up to 512 is off by at most 2^-16.
proof fn lemma_wide_sum(x: F32, y: F32)
    requires
        x.finite(),
        y.finite(),
        -(512 * float::unit()) <= x.value() + y.value() <= 512 * float::unit(),
    ensures
        float::sum(x, y).finite(),
        0x1_0000 * (float::sum(x, y).value() - (x.value() + y.value())) <= float::unit(),
        0x1_0000 * ((x.value() + y.value()) - float::sum(x, y).value()) <= float::unit(),
{
    facts::one_is_unit();
    facts::zero_is_zero();
    laws::lemma_powers();
    let t = x.value() + y.value();
    let m = if t < 0 {
        -t
    } else {
        t
    };
    facts::overshoot(m, 1, 136);
    facts::undershoot(m, 1, 136);
    round::lemma_monotone(0, float::nearest(m, 1) as int);
}

/// A product up to 512 is off by at most 2^-16.
proof fn lemma_wide_product(x: F32, y: F32)
    requires
        x.finite(),
        y.finite(),
        x.mag() * y.mag() <= (512 * float::unit()) * float::unit(),
    ensures
        ({
            let p = float::product(x, y);
            let u = float::unit();
            &&& p.finite()
            &&& 0x1_0000 * (p.value() * u - x.value() * y.value()) <= u * u
            &&& 0x1_0000 * (x.value() * y.value() - p.value() * u) <= u * u
        }),
{
    let u = float::unit();
    facts::one_is_unit();
    facts::zero_is_zero();
    laws::lemma_powers();
    order::magnitudes_are_not_negative(x);
    order::magnitudes_are_not_negative(y);
    let (xm, ym) = (x.mag(), y.mag());
    let num = xm * ym;
    assert(0 <= num) by (nonlinear_arith)
        requires
            num == xm * ym,
            xm >= 0,
            ym >= 0,
    ;
    facts::overshoot(num, u, 136);
    facts::undershoot(num, u, 136);
    let m = float::magnitude(float::nearest(num, u) as int);
    round::lemma_monotone(0, float::nearest(num, u) as int);
    let s = pow2(133) as int;
    assert(0x1_0000 * (s * u) == u * u) by (nonlinear_arith)
        requires
            0x1_0000 * s == u,
    ;
    assert((-xm) * ym == -(xm * ym) && xm * (-ym) == -(xm * ym) && (-xm) * (-ym) == xm * ym && (-m)
        * u == -(m * u)) by (nonlinear_arith);
}

/// The channel of a number that is almost a fraction.
proof fn lemma_to_channel(z: F32, n: int, d: int)
    requires
        z.finite(),
        0 < d,
        0 <= n <= 255 * d,
        2048 * (z.value() * d - n * float::unit()) <= d * float::unit(),
        2048 * (n * float::unit() - z.value() * d) <= d * float::unit(),
    ensures
        is_rounded(color::channel(z), n, d),
{
    let u = float::unit();
    facts::one_is_unit();
    order::magnitudes_are_not_negative(z);
    let v = z.value();
    let c = color::channel(z) as int;
    let (vd, nu, ud, cd) = (v * d, n * u, d * u, c * d);
    let cdu = cd * u;
    assert(0 <= nu <= 255 * ud && ud > 0) by (nonlinear_arith)
        requires
            nu == n * u,
            ud == d * u,
            0 <= n <= 255 * d,
            d > 0,
            u > 0,
    ;
    if z.negative() {
        assert(cdu == 0 && vd <= 0) by (nonlinear_arith)
            requires
                cdu == cd * u,
                cd == c * d,
                c == 0,
                vd == v * d,
                v <= 0,
                d > 0,
        ;
    } else if 2 * v >= 511 * u {
        assert(2 * vd >= 511 * ud) by (nonlinear_arith)
            requires
                vd == v * d,
                ud == d * u,
                2 * v >= 511 * u,
                d > 0,
        {
            assert((2 * v) * d >= (511 * u) * d);
        }
    } else {
        blend_laws::lemma_channel_is_close(z);
        let g = 2 * (c * u - v);
        assert(2 * cdu - 2 * vd <= ud && 2 * vd - 2 * cdu <= ud) by (nonlinear_arith)
            requires
                g == 2 * (c * u - v),
                g <= u,
                -g <= u,
                cdu == cd * u,
                cd == c * d,
                vd == v * d,
                ud == d * u,
                d > 0,
        {
            assert(g * d <= u * d);
            assert((-g) * d <= u * d);
            assert(g * d == 2 * ((c * d) * u) - 2 * (v * d));
        }
    }
    let m = cd - n;
    assert(2048 * m <= 1025 * d && -(2048 * m) <= 1025 * d) by (nonlinear_arith)
        requires
            2048 * (cdu - nu) <= 1025 * ud,
            2048 * (nu - cdu) <= 1025 * ud,
            m == cd - n,
            cdu == cd * u,
            nu == n * u,
            ud == d * u,
            u > 0,
    {
        assert(m * u == cdu - nu);
        assert((2048 * m - 1025 * d) * u <= 0);
        assert((-(2048 * m) - 1025 * d) * u <= 0);
    }
}

/// A channel times a factor.
proof fn lemma_scaled(c: u8, f: F32)
    requires
        f.finite(),
        !f.negative(),
        c * f.mag() <= 256 * float::unit(),
    ensures
        ({
            let z = float::product(color::number(c), f);
            &&& z.finite()
            &&& 0x1_0000 * (z.value() - c * f.mag()) <= float::unit()
            &&& 0x1_0000 * (c * f.mag() - z.value()) <= float::unit()
        }),
{
    let u = float::unit();
    facts::one_is_unit();
    color_laws::lemma_number(c);
    order::magnitudes_are_not_negative(f);
    let fm = f.mag();
    assert((c * u) * fm <= (512 * u) * u) by (nonlinear_arith)
        requires
            c * fm <= 256 * u,
            u > 0,
    {
        assert((c * u) * fm == (c * fm) * u);
        assert((c * fm) * u <= (256 * u) * u);
        assert(u * u > 0);
    }
    lemma_wide_product(color::number(c), f);
    let z = float::product(color::number(c), f).value();
    let x = c * fm;
    assert(0x1_0000 * (z - x) <= u && 0x1_0000 * (x - z) <= u) by (nonlinear_arith)
        requires
            0x1_0000 * (z * u - (c * u) * fm) <= u * u,
            0x1_0000 * ((c * u) * fm - z * u) <= u * u,
            x == c * fm,
            u > 0,
    {
        assert((c * u) * fm == x * u);
        assert((0x1_0000 * (z - x)) * u <= u * u);
        assert((0x1_0000 * (x - z)) * u <= u * u);
    }
}

/// A channel times the ratio of `m` to a channel that is not smaller.
proof fn lemma_ratio(c: u8, m: u8, p: u8)
    requires
        c <= p,
        0 < p,
    ensures
        is_rounded(
            color::scaled_channel(c, float::quotient(color::number(m), color::number(p))),
            c * m,
            p as int,
        ),
{
    let u = float::unit();
    facts::one_is_unit();
    facts::zero_is_zero();
    color_laws::lemma_number(m);
    color_laws::lemma_number(p);
    let f = float::quotient(color::number(m), color::number(p));
    let (mu, pu) = (m * u, p * u);
    assert(pu >= u && (m == 0 ==> mu == 0) && (m > 0 ==> mu >= u)) by (nonlinear_arith)
        requires
            mu == m * u,
            pu == p * u,
            p >= 1,
            m >= 0,
            u > 0,
    ;
    let num = mu * u;
    lemma2_to64();
    lemma_pow2_adds(8, 149);
    lemma_pow2_strictly_increases(34, 149);
    lemma_pow2_adds(32, 2);
    assert(0 <= num && num <= (0x100 * u) * pu) by (nonlinear_arith)
        requires
            num == mu * u,
            0 <= mu <= 255 * u,
            pu >= u,
            u > 0,
    {
        assert(mu * u <= (255 * u) * u);
        assert((255 * u) * u <= (0x100 * u) * u);
        assert((0x100 * u) * u <= (0x100 * u) * pu);
    }
    facts::overshoot(num, pu, 135);
    round::lemma_monotone(0, float::nearest(num, pu) as int);
    let fm = f.mag();
    assert(f == (F32 { bits: float::nearest(num, pu) })) by {
        if m == 0 {
            assert(0 * u == 0);
        }
    }
    let fp = fm * p;
    if m > 0 {
        assert(0x200_0000 * pu <= num) by (nonlinear_arith)
            requires
                num == mu * u,
                mu >= u,
                pu <= 255 * u,
                u >= 0x4_0000_0000,
        {
            assert(mu * u >= u * u);
            assert(u * u >= 0x4_0000_0000 * u);
        }
        facts::relative_error(num, pu);
        assert(0x100_0000 * (mu - fp) <= fp && 0x100_0000 * (fp - mu) <= fp) by (nonlinear_arith)
            requires
                0x100_0000 * (num - fm * pu) <= fm * pu,
                0x100_0000 * (fm * pu - num) <= fm * pu,
                num == mu * u,
                pu == p * u,
                fp == fm * p,
                u > 0,
        {
            assert(fm * pu == fp * u);
            assert((0x100_0000 * (mu - fp) - fp) * u <= 0);
            assert((0x100_0000 * (fp - mu) - fp) * u <= 0);
        }
    } else {
        assert(0 * u == 0 && 0 * pu == 0);
        facts::rounding_stays_below(0, pu, 0);
        assert(fm == 0);
        assert(fp == 0) by (nonlinear_arith)
            requires
                fp == fm * p,
                fm == 0,
        ;
    }
    let x = c * fm;
    assert(0 <= x <= fp) by (nonlinear_arith)
        requires
            x == c * fm,
            fp == fm * p,
            0 <= c <= p,
            0 <= fm,
    ;
    lemma_scaled(c, f);
    let z = float::product(color::number(c), f);
    let v = z.value();
    let n = c * m;
    let (vp, xp, nu) = (v * p, x * p, n * u);
    assert(0x1_0000 * (vp - xp) <= pu && 0x1_0000 * (xp - vp) <= pu) by (nonlinear_arith)
        requires
            vp == v * p,
            xp == x * p,
            pu == p * u,
            0x1_0000 * (v - x) <= u,
            0x1_0000 * (x - v) <= u,
            p > 0,
    {
        assert((0x1_0000 * (v - x)) * p <= u * p);
        assert((0x1_0000 * (x - v)) * p <= u * p);
    }
    assert(0x100_0000 * (nu - xp) <= xp && 0x100_0000 * (xp - nu) <= xp) by (nonlinear_arith)
        requires
            nu == n * u,
            n == c * m,
            xp == x * p,
            x == c * fm,
            fp == fm * p,
            mu == m * u,
            0x100_0000 * (mu - fp) <= fp,
            0x100_0000 * (fp - mu) <= fp,
            c >= 0,
    {
        assert(nu == c * mu);
        assert(xp == c * fp);
        assert(c * (0x100_0000 * (mu - fp)) <= c * fp);
        assert(c * (0x100_0000 * (fp - mu)) <= c * fp);
    }
    assert(xp <= 256 * pu) by (nonlinear_arith)
        requires
            xp == x * p,
            pu == p * u,
            x <= 256 * u,
            p > 0,
    ;
    assert(0 <= n <= 255 * p) by (nonlinear_arith)
        requires
            n == c * m,
            0 <= c <= p,
            0 <= m <= 255,
    ;
    lemma_to_channel(z, n, p as int);
}

/// The brightness limit takes all channels of a colour down in proportion: where the largest is
/// above the limit, every channel is multiplied by the limit over the largest.
pub proof fn brightness_limit_keeps_proportions(c: LedColor, max_byte: u8)
    requires
        color::peak(c) > max_byte,
    ensures
        ({
            let out = color::limited(c, max_byte);
            let top = color::peak(c) as int;
            &&& is_rounded(out.r, c.r * max_byte, top)
            &&& is_rounded(out.g, c.g * max_byte, top)
            &&& is_rounded(out.b, c.b * max_byte, top)
        }),
{
    lemma_ratio(c.r, max_byte, color::peak(c));
    lemma_ratio(c.g, max_byte, color::peak(c));
    lemma_ratio(c.b, max_byte, color::peak(c));
}

/// The luminosity floor is a share of full. A colour whose largest channel is below it is brought
/// up in proportion, and black becomes a grey at the floor; a brighter colour is kept.
pub proof fn luminosity_floor_keeps_proportions(c: LedColor, floor: F32)
    requires
        !floor.nan(),
    ensures
        ({
            let out = color::raised(c, floor);
            let low = color::floor_byte(floor);
            let top = color::peak(c);
            &&& is_rounded(low, 255 * blend_laws::weight(floor), float::unit())
            &&& floor.value() <= 0 ==> out == c
            &&& floor.value() > 0 && top >= low && top > 0 ==> out == c
            &&& floor.value() > 0 && top == 0 ==> out == (LedColor { r: low, g: low, b: low })
            &&& floor.value() > 0 && 0 < top < low ==> {
                &&& is_rounded(out.r, c.r * low, top as int)
                &&& is_rounded(out.g, c.g * low, top as int)
                &&& is_rounded(out.b, c.b * low, top as int)
            }
        }),
{
    let u = float::unit();
    let low = color::floor_byte(floor);
    let top = color::peak(c);
    facts::zero_is_zero();
    facts::one_is_unit();
    if 0 < top < low {
        lemma_ratio(c.r, low, top);
        lemma_ratio(c.g, low, top);
        lemma_ratio(c.b, low, top);
    }
    let s = color::unit_clamped(floor);
    lemma_share_is_a_number(floor);
    laws::lemma_full_is_255();
    let w = s.value();
    assert(255 * s.mag() <= 256 * u);
    if s.negative() {
        // Zero with a sign.
        lemma_negative_share(s);
    } else {
        lemma_scaled(255, s);
        facts::product_commutes(s, color::lit(BYTE_MAX));
        let z = float::product(color::lit(BYTE_MAX), s);
        assert(z.value() * u - (255 * w) * u == (z.value() - 255 * w) * u && (255 * w) * u
            - z.value() * u == (255 * w - z.value()) * u) by (nonlinear_arith);
        let d = z.value() - 255 * w;
        assert(2048 * (d * u) <= u * u && 2048 * (-(d * u)) <= u * u) by (nonlinear_arith)
            requires
                0x1_0000 * d <= u,
                -(0x1_0000 * d) <= u,
                u > 0,
        {
            assert(2048 * d <= u && -(2048 * d) <= u);
            assert((2048 * d) * u <= u * u);
            assert((-(2048 * d)) * u <= u * u);
        }
        assert((255 * w - z.value()) * u == -(d * u)) by (nonlinear_arith)
            requires
                d == z.value() - 255 * w,
        ;
        lemma_to_channel(z, 255 * w, u);
    }
}

/// A share is a number from zero to one.
proof fn lemma_share_is_a_number(x: F32)
    requires
        !x.nan(),
    ensures
        ({
            let s = color::unit_clamped(x);
            &&& s.finite()
            &&& s.value() == blend_laws::weight(x)
            &&& 0 <= s.value() <= float::unit()
            &&& s.negative() ==> s.mag() == 0
            &&& 0 <= s.mag() <= float::unit()
        }),
{
    let s = color::unit_clamped(x);
    facts::zero_is_zero();
    facts::one_is_unit();
    order::magnitudes_are_not_negative(s);
    if !s.finite() {
        round::lemma_monotone(ONE as int + 1, float::INFINITY as int);
        round::lemma_monotone(ONE as int, ONE as int + 1);
    }
}

proof fn lemma_negative_share(s: F32)
    requires
        s.finite(),
        s.negative(),
        s.mag() == 0,
    ensures
        is_rounded(
            color::channel(float::product(s, color::lit(BYTE_MAX))),
            0,
            float::unit(),
        ),
{
    let u = float::unit();
    facts::one_is_unit();
    facts::zero_is_zero();
    laws::lemma_full_is_255();
    color_laws::lemma_number(255);
    let full = color::lit(BYTE_MAX);
    let z = float::product(s, full);
    assert(0 * full.mag() == 0 && 0 * u == 0);
    facts::rounding_stays_below(0, u, 0);
    assert(z.mag_bits() == 0);
    assert(z.negative());
    assert(0 * u == 0);
}

/// A channel times a factor that does not take it past 255.
proof fn lemma_times(c: u8, f: F32)
    requires
        f.finite(),
        0 <= f.value(),
        c * f.mag() <= 255 * float::unit(),
    ensures
        is_rounded(color::scaled_channel(c, f), c * f.mag(), float::unit()),
{
    let u = float::unit();
    facts::one_is_unit();
    facts::zero_is_zero();
    order::magnitudes_are_not_negative(f);
    let fm = f.mag();
    let n = c * fm;
    assert(0 <= n) by (nonlinear_arith)
        requires
            n == c * fm,
            c >= 0,
            fm >= 0,
    ;
    let z = float::product(color::number(c), f);
    if f.negative() {
        assert(fm == 0);
        color_laws::lemma_number(c);
        assert((c * u) * 0 == 0 && c * 0 == 0 && 0 * u == 0);
        facts::rounding_stays_below(0, u, 0);
        assert(z.mag_bits() == 0);
    } else {
        lemma_scaled(c, f);
        let d = z.value() - n;
        assert(2048 * (z.value() * u - n * u) <= u * u && 2048 * (n * u - z.value() * u) <= u * u)
            by (nonlinear_arith)
            requires
                d == z.value() - n,
                0x1_0000 * d <= u,
                -(0x1_0000 * d) <= u,
                u > 0,
        {
            assert(2048 * d <= u && -(2048 * d) <= u);
            assert((2048 * d) * u <= u * u);
            assert((-(2048 * d)) * u <= u * u);
            assert(d * u == z.value() * u - n * u);
        }
        lemma_to_channel(z, n, u);
    }
}

/// A gain that takes the largest channel just past 255, and that rounding keeps there.
proof fn lemma_just_full(c: u8, p: u8, gain: F32)
    requires
        c <= p,
        0 < p,
        gain.finite(),
        !gain.negative(),
        p * gain.mag() > 255 * float::unit(),
        0x100_0000 * (p * gain.mag() - 255 * float::unit()) <= 255 * float::unit(),
    ensures
        is_rounded(color::scaled_channel(c, gain), c * 255, p as int),
{
    let u = float::unit();
    facts::one_is_unit();
    order::magnitudes_are_not_negative(gain);
    let g = gain.mag();
    let x = p * g;
    let y = c * g;
    assert(0 <= y <= x) by (nonlinear_arith)
        requires
            x == p * g,
            y == c * g,
            0 <= c <= p,
            g >= 0,
    ;
    lemma_scaled(c, gain);
    let z = float::product(color::number(c), gain);
    let v = z.value();
    let n = c * 255;
    let pu = p * u;
    let (vp, yp, nu) = (v * p, y * p, n * u);
    assert(0x1_0000 * (vp - yp) <= pu && 0x1_0000 * (yp - vp) <= pu) by (nonlinear_arith)
        requires
            vp == v * p,
            yp == y * p,
            pu == p * u,
            0x1_0000 * (v - y) <= u,
            0x1_0000 * (y - v) <= u,
            p > 0,
    {
        assert((0x1_0000 * (v - y)) * p <= u * p);
        assert((0x1_0000 * (y - v)) * p <= u * p);
    }
    assert(0 <= yp - nu && 0x100_0000 * (yp - nu) <= 255 * pu) by (nonlinear_arith)
        requires
            yp == y * p,
            y == c * g,
            x == p * g,
            nu == n * u,
            n == c * 255,
            pu == p * u,
            x > 255 * u,
            0x100_0000 * (x - 255 * u) <= 255 * u,
            0 <= c <= p,
            u > 0,
    {
        let over = x - 255 * u;
        assert(yp == c * x);
        assert(yp - nu == c * over);
        assert(c * over >= 0);
        assert(c * (0x100_0000 * over) <= c * (255 * u));
        assert(c * (255 * u) <= p * (255 * u));
    }
    assert(0 <= n <= 255 * p);
    assert(pu > 0) by (nonlinear_arith)
        requires
            pu == p * u,
            p > 0,
            u > 0,
    ;
    lemma_to_channel(z, n, p as int);
}

/// A brightness gain multiplies every channel, as far as the largest reaches 255; beyond that all
/// are brought up in proportion until it does.
pub proof fn gain_multiplies_until_full(c: LedColor, gain: F32)
    requires
        gain.finite(),
        !gain.negative(),
    ensures
        ({
            let out = color::boosted(c, gain);
            let top = color::peak(c);
            let u = float::unit();
            &&& top * gain.mag() <= 255 * u ==> {
                &&& is_rounded(out.r, c.r * gain.mag(), u)
                &&& is_rounded(out.g, c.g * gain.mag(), u)
                &&& is_rounded(out.b, c.b * gain.mag(), u)
            }
            &&& top * gain.mag() > 255 * u ==> {
                &&& is_rounded(out.r, c.r * 255, top as int)
                &&& is_rounded(out.g, c.g * 255, top as int)
                &&& is_rounded(out.b, c.b * 255, top as int)
            }
        }),
{
    let u = float::unit();
    let top = color::peak(c);
    let g = gain.mag();
    let x = top * g;
    facts::one_is_unit();
    facts::zero_is_zero();
    laws::lemma_full_is_255();
    color_laws::lemma_number(255);
    color_laws::lemma_number(top);
    order::magnitudes_are_not_negative(gain);
    let num = (top * u) * g;
    assert(num == x * u && 0 <= num && 0 <= x) by (nonlinear_arith)
        requires
            num == (top * u) * g,
            x == top * g,
            top >= 0,
            g >= 0,
            u > 0,
    ;
    let prod = float::product(color::number(top), gain);
    facts::nearest_exists(num, u);
    assert(prod == (F32 { bits: float::nearest(num, u) }));
    round::lemma_monotone(0, prod.bits as int);
    assert(c.r * g <= x && c.g * g <= x && c.b * g <= x) by (nonlinear_arith)
        requires
            x == top * g,
            c.r <= top,
            c.g <= top,
            c.b <= top,
            g >= 0,
    ;
    if x <= 255 * u {
        assert(num <= (255 * u) * u) by (nonlinear_arith)
            requires
                num == x * u,
                x <= 255 * u,
                u > 0,
        ;
        facts::rounding_stays_below(num, u, BYTE_MAX);
        round::lemma_monotone(prod.bits as int, BYTE_MAX as int);
        lemma_times(c.r, gain);
        lemma_times(c.g, gain);
        lemma_times(c.b, gain);
        if gain == color::lit(ONE) {
            lemma_own(c.r);
            lemma_own(c.g);
            lemma_own(c.b);
        }
    } else {
        assert(top > 0) by (nonlinear_arith)
            requires
                x == top * g,
                x > 0,
                top >= 0,
        ;
        assert(gain != color::lit(ONE)) by {
            assert(top * u <= 255 * u) by (nonlinear_arith)
                requires
                    top <= 255,
                    u > 0,
            ;
        }
        if float::less(color::lit(BYTE_MAX), prod) {
            lemma_ratio(c.r, 255, top);
            lemma_ratio(c.g, 255, top);
            lemma_ratio(c.b, 255, top);
        } else {
            assert(prod.mag() <= 255 * u);
            if prod.bits >= float::INFINITY {
                round::lemma_monotone(BYTE_MAX as int + 1, prod.bits as int);
                round::lemma_monotone(BYTE_MAX as int, BYTE_MAX as int + 1);
                round::lemma_step(BYTE_MAX as int);
                lemma_pow2_pos(round::form_exponent(BYTE_MAX as int) as nat);
            }
            lemma2_to64();
            lemma_pow2_strictly_increases(25, 149);
            assert(0x200_0000 * u <= num) by (nonlinear_arith)
                requires
                    num == x * u,
                    x > 255 * u,
                    u >= 0x200_0000,
            ;
            facts::relative_error(num, u);
            let m = prod.mag();
            assert(0x100_0000 * (x - m) <= m) by (nonlinear_arith)
                requires
                    0x100_0000 * (num - m * u) <= m * u,
                    num == x * u,
                    u > 0,
            {
                assert((0x100_0000 * (x - m) - m) * u <= 0);
            }
            lemma_just_full(c.r, top, gain);
            lemma_just_full(c.g, top, gain);
            lemma_just_full(c.b, top, gain);
        }
    }
}

proof fn lemma_own(c: u8)
    ensures
        is_rounded(c, c * float::unit(), float::unit()),
{
    facts::one_is_unit();
}

/// White balance multiplies every channel by its own factor; the neutral temperature is left as it
/// is.
pub proof fn white_balance_multiplies(c: LedColor, kelvin: u32, f: WhiteFactors)
    requires
        f.r.finite() && 0 <= f.r.value() <= float::unit(),
        f.g.finite() && 0 <= f.g.value() <= float::unit(),
        f.b.finite() && 0 <= f.b.value() <= float::unit(),
    ensures
        ({
            let out = color::balanced(c, kelvin, f);
            let u = float::unit();
            &&& kelvin == 6500 ==> out == c
            &&& kelvin != 6500 ==> {
                &&& is_rounded(out.r, c.r * f.r.value(), u)
                &&& is_rounded(out.g, c.g * f.g.value(), u)
                &&& is_rounded(out.b, c.b * f.b.value(), u)
            }
        }),
{
    lemma_factor(c.r, f.r);
    lemma_factor(c.g, f.g);
    lemma_factor(c.b, f.b);
}

proof fn lemma_factor(c: u8, f: F32)
    requires
        f.finite(),
        0 <= f.value() <= float::unit(),
    ensures
        is_rounded(color::scaled_channel(c, f), c * f.value(), float::unit()),
{
    let u = float::unit();
    facts::one_is_unit();
    order::magnitudes_are_not_negative(f);
    assert(f.mag() == f.value());
    assert(c * f.mag() <= 255 * u) by (nonlinear_arith)
        requires
            c <= 255,
            0 <= f.mag() <= u,
    {
        assert(c * f.mag() <= 255 * f.mag());
    }
    lemma_times(c, f);
}

/// Gamma correction looks every channel up on its own.
pub proof fn gamma_maps_every_channel(c: LedColor, lut: GammaLut)
    ensures
        color::corrected(c, lut).r == lut.entries()[c.r as int],
        color::corrected(c, lut).g == lut.entries()[c.g as int],
        color::corrected(c, lut).b == lut.entries()[c.b as int],
{
}

/// An entry of the gamma table is its power's share of full.
pub proof fn gamma_entries_are_shares_of_full(lut: GammaLut, powers: Seq<F32>, i: u8)
    requires
        powers.len() == 256,
        lut.entries() == Seq::new(
            256,
            |j: int| color::channel(float::product(powers[j], color::lit(BYTE_MAX))),
        ),
        powers[i as int].finite(),
        0 <= powers[i as int].value() <= float::unit(),
    ensures
        is_rounded(lut.entries()[i as int], 255 * powers[i as int].value(), float::unit()),
{
    let x = powers[i as int];
    laws::lemma_full_is_255();
    facts::product_commutes(x, color::lit(BYTE_MAX));
    lemma_factor(255, x);
}

/// What the constants of night light stand for.
proof fn lemma_tenths()
    ensures
        near::near(color::lit(SEVEN_TENTHS), 7, 10, 1),
        near::near(color::lit(THREE_TENTHS), 3, 10, 1),
        color::lit(THIRTY).finite(),
        color::lit(THIRTY).value() == 30 * float::unit(),
        0 <= color::lit(SEVEN_TENTHS).value() <= float::unit(),
        0 <= color::lit(THREE_TENTHS).value() <= float::unit(),
{
    lemma2_to64();
    near::grains_in_one();
    round::lemma_form(125, 0xB3_3333);
    round::lemma_form(124, 0x99_999A);
    round::lemma_form(130, 0xF0_0000);
    lemma_pow2_adds(19, 130);
    lemma_pow2_adds(24, 125);
    lemma_pow2_adds(25, 124);
    lemma_pow2_adds(2, 125);
    lemma_pow2_adds(3, 124);
    lemma_pow2_pos(124);
    lemma_pow2_pos(125);
}

/// A product of a number and a share.
proof fn lemma_times_share(x: F32, s: F32)
    requires
        x.finite(),
        -(300 * float::unit()) <= x.value() <= 300 * float::unit(),
        s.finite(),
        0 <= s.value() <= float::unit(),
    ensures
        ({
            let p = float::product(x, s);
            let u = float::unit();
            &&& p.finite()
            &&& 0x1_0000 * (p.value() * u - x.value() * s.value()) <= u * u
            &&& 0x1_0000 * (x.value() * s.value() - p.value() * u) <= u * u
            &&& -(301 * u) <= p.value() <= 301 * u
        }),
{
    let u = float::unit();
    facts::one_is_unit();
    order::magnitudes_are_not_negative(x);
    order::magnitudes_are_not_negative(s);
    let (xm, sm) = (x.mag(), s.mag());
    assert(xm * sm <= (300 * u) * u) by (nonlinear_arith)
        requires
            0 <= xm <= 300 * u,
            0 <= sm <= u,
    {
        assert(xm * sm <= (300 * u) * sm);
        assert((300 * u) * sm <= (300 * u) * u);
    }
    assert((300 * u) * u <= (512 * u) * u) by (nonlinear_arith)
        requires
            u > 0,
    ;
    lemma_wide_product(x, s);
    let p = float::product(x, s).value();
    let (v, t) = (x.value(), s.value());
    assert(-((300 * u) * u) <= v * t <= (300 * u) * u) by (nonlinear_arith)
        requires
            -(300 * u) <= v <= 300 * u,
            0 <= t <= u,
    {
        assert(v * t <= (300 * u) * t);
        assert(v * t >= (-(300 * u)) * t);
        assert((300 * u) * t <= (300 * u) * u);
        assert((-(300 * u)) * t == -((300 * u) * t));
    }
    assert(-(301 * u) <= p <= 301 * u) by (nonlinear_arith)
        requires
            0x1_0000 * (p * u - v * t) <= u * u,
            0x1_0000 * (v * t - p * u) <= u * u,
            -((300 * u) * u) <= v * t <= (300 * u) * u,
            u > 0,
    {
        assert(p * u <= (301 * u) * u);
        assert((-(301 * u)) * u <= p * u);
    }
}

/// A channel that night light takes `k` tenths of, times its strength, blended in by its strength.
proof fn lemma_dimmed(c: u8, tenths: F32, k: int, s: F32)
    requires
        k == 3 || k == 7,
        near::near(tenths, k, 10, 1),
        0 <= tenths.value() <= float::unit(),
        s.finite(),
        0 <= s.value() <= float::unit(),
    ensures
        ({
            let u = float::unit();
            let x = color::number(c);
            let f = float::difference(color::lit(ONE), float::product(tenths, s));
            let y = color::blend(x, float::product(x, f), s);
            let n = c * (10 * (u * u) - k * (s.value() * s.value()));
            is_rounded(color::channel(y), n, 10 * (u * u))
        }),
{
    let u = float::unit();
    let w = near::grain();
    let one = color::lit(ONE);
    let x = color::number(c);
    let t = s.value();
    near::grains_in_one();
    hsl_laws::lemma_constants();
    facts::one_is_unit();
    facts::zero_is_zero();
    color_laws::lemma_number(c);
    // The share that is taken.
    lemma_self(s);
    hsl_laws::lemma_factors(tenths, s, 4, 4);
    near::near_product(tenths, s, k, 10, 1, t, u, 0, 1, 1, 1, 1, 2);
    let p = float::product(tenths, s);
    let q = 10 * u;
    assert(1 * q == q && 0 <= k * t <= 7 * u) by (nonlinear_arith)
        requires
            0 <= t <= u,
            k == 3 || k == 7,
    ;
    hsl_laws::lemma_integer(one, 1, q);
    near::near_difference(one, p, q, k * t, q, 0, 2);
    let f = float::difference(one, p);
    let b = f.value();
    let e2 = 10 * b - (10 * u - k * t);
    assert(-(30 * w) <= e2 <= 30 * w) by (nonlinear_arith)
        requires
            b * (10 * u) - (10 * u - k * t) * u <= (3 * w) * (10 * u),
            (10 * u - k * t) * u - b * (10 * u) <= (3 * w) * (10 * u),
            e2 == 10 * b - (10 * u - k * t),
            u > 0,
    {
        assert(e2 * u == b * (10 * u) - (10 * u - k * t) * u);
        assert(e2 * u <= (30 * w) * u);
        assert((-(30 * w)) * u <= e2 * u);
    }
    order::magnitudes_are_not_negative(f);
    // The warm channel.
    let cb = c * b;
    assert(x.mag() * f.mag() <= (512 * u) * u) by (nonlinear_arith)
        requires
            0 <= x.mag() <= 255 * u,
            0 <= f.mag() <= 2 * u,
            u > 0,
    {
        assert(x.mag() * f.mag() <= (255 * u) * f.mag());
        assert((255 * u) * f.mag() <= (255 * u) * (2 * u));
        assert((255 * u) * (2 * u) <= (512 * u) * u);
    }
    lemma_wide_product(x, f);
    let warm = float::product(x, f);
    let e1 = warm.value() - cb;
    assert(-u <= 0x1_0000 * e1 <= u) by (nonlinear_arith)
        requires
            0x1_0000 * (warm.value() * u - (c * u) * b) <= u * u,
            0x1_0000 * ((c * u) * b - warm.value() * u) <= u * u,
            e1 == warm.value() - cb,
            cb == c * b,
            u > 0,
    {
        assert((c * u) * b == cb * u);
        assert((0x1_0000 * e1) * u <= u * u);
        assert((-u) * u <= (0x1_0000 * e1) * u);
    }
    let ce = c * e2;
    assert(-(7650 * w) <= ce <= 7650 * w && 10 * cb == 10 * (c * u) - c * (k * t) + ce)
        by (nonlinear_arith)
        requires
            ce == c * e2,
            cb == c * b,
            -(30 * w) <= e2 <= 30 * w,
            10 * b == 10 * u - k * t + e2,
            0 <= c <= 255,
            w > 0,
    {
        assert(c * e2 <= c * (30 * w));
        assert(c * e2 >= c * (-(30 * w)));
        assert(c * (30 * w) <= 255 * (30 * w));
        assert(c * (10 * b) == c * (10 * u) - c * (k * t) + c * e2);
    }
    let ckt = c * (k * t);
    assert(0 <= ckt <= 1785 * u && 0 <= c * u <= 255 * u) by (nonlinear_arith)
        requires
            ckt == c * (k * t),
            0 <= c <= 255,
            0 <= k * t <= 7 * u,
    {
        assert(c * (k * t) <= 255 * (k * t));
    }
    // Its distance.
    order::negated_value(x);
    lemma_wide_sum(warm, float::negation(x));
    let diff = float::difference(warm, x);
    let e3 = diff.value() - (warm.value() - c * u);
    assert(-u <= 0x1_0000 * e3 <= u);
    let big = 10 * diff.value() + ckt;
    assert(big == ce + 10 * e1 + 10 * e3);
    assert(-(140 * u) <= 0x1_0000 * big <= 140 * u);
    lemma_times_share(diff, s);
    let prod = float::product(diff, s);
    let e4 = prod.value() * u - diff.value() * t;
    let dv = diff.value();
    let pv = prod.value();
    assert(pv <= 2 * u) by (nonlinear_arith)
        requires
            0x1_0000 * (pv * u - dv * t) <= u * u,
            dv <= u,
            0 <= t <= u,
            u > 0,
    {
        assert(dv * t <= u * t);
        assert(u * t <= u * u);
        assert(pv * u <= (2 * u) * u);
    }
    lemma_wide_sum(x, prod);
    let y = float::sum(x, prod);
    let e5 = y.value() - (c * u + prod.value());
    let n = c * (10 * (u * u) - k * (t * t));
    let (uu, bt) = (u * u, big * t);
    assert(-(140 * uu) <= 0x1_0000 * bt <= 140 * uu) by (nonlinear_arith)
        requires
            bt == big * t,
            uu == u * u,
            -(140 * u) <= 0x1_0000 * big <= 140 * u,
            0 <= t <= u,
    {
        let g = 0x1_0000 * big;
        assert(g * t <= (140 * u) * t);
        assert(g * t >= (-(140 * u)) * t);
        assert((140 * u) * t <= (140 * u) * u);
        assert((-(140 * u)) * t == -((140 * u) * t));
    }
    let ue5 = u * e5;
    assert(-uu <= 0x1_0000 * ue5 <= uu) by (nonlinear_arith)
        requires
            ue5 == u * e5,
            uu == u * u,
            -u <= 0x1_0000 * e5 <= u,
            u > 0,
    {
        assert(u * (0x1_0000 * e5) <= u * u);
        assert(u * (0x1_0000 * e5) >= u * (-u));
    }
    let yu = y.value() * u;
    assert(10 * yu - n == bt + 10 * e4 + 10 * ue5) by (nonlinear_arith)
        requires
            yu == y.value() * u,
            n == c * (10 * (u * u) - k * (t * t)),
            e5 == y.value() - (c * u + prod.value()),
            e4 == prod.value() * u - diff.value() * t,
            big == 10 * diff.value() + ckt,
            ckt == c * (k * t),
            bt == big * t,
            ue5 == u * e5,
    {
        assert(yu == (c * u) * u + prod.value() * u + ue5);
        assert(bt == 10 * (diff.value() * t) + (c * (k * t)) * t);
        assert((c * (k * t)) * t == c * (k * (t * t)));
        assert(n == 10 * ((c * u) * u) - c * (k * (t * t)));
    }
    let off = 10 * yu - n;
    assert(-(160 * uu) <= 0x1_0000 * off <= 160 * uu);
    let d = 10 * uu;
    let v = y.value();
    assert(2048 * (v * d - n * u) <= d * u && 2048 * (n * u - v * d) <= d * u && 0 <= n && n <= 255
        * d && d > 0) by (nonlinear_arith)
        requires
            off == 10 * yu - n,
            yu == v * u,
            d == 10 * uu,
            uu == u * u,
            -(160 * uu) <= 0x1_0000 * off <= 160 * uu,
            n == c * (10 * (u * u) - k * (t * t)),
            k == 3 || k == 7,
            0 <= t <= u,
            0 <= c <= 255,
            u > 0,
    {
        assert(v * d == (10 * yu) * u);
        assert(v * d - n * u == off * u);
        assert((0x1_0000 * off) * u <= (160 * uu) * u);
        assert((-(160 * uu)) * u <= (0x1_0000 * off) * u);
        assert(uu * u > 0);
        assert(0 <= t * t <= u * u);
        let g = 10 * (u * u) - k * (t * t);
        assert(0 <= g <= 10 * (u * u));
        assert(0 <= c * g <= 255 * g);
    }
    lemma_to_channel(y, n, d);
}

proof fn lemma_self(x: F32)
    requires
        x.finite(),
    ensures
        near::near(x, x.value(), float::unit(), 0),
{
    near::grains_in_one();
    let (u, w) = (float::unit(), near::grain());
    assert((0 * w) * u == 0) by (nonlinear_arith);
}

/// The red that a strength adds: thirty steps times the strength, cut to an integer.
proof fn lemma_boost_steps(s: F32)
    requires
        s.finite(),
        0 <= s.value() <= float::unit(),
    ensures
        ({
            let k = color::red_boost(s);
            let u = float::unit();
            &&& 0 <= k <= 30
            &&& 0x1_0000 * (k * u - 30 * s.value()) <= u
            &&& k < 30 ==> 0x1_0000 * (30 * s.value() - (k + 1) * u) <= u
        }),
{
    let u = float::unit();
    facts::one_is_unit();
    facts::zero_is_zero();
    lemma_tenths();
    let thirty = color::lit(THIRTY);
    lemma_times_share(thirty, s);
    let z = float::product(thirty, s);
    order::magnitudes_are_not_negative(z);
    let (v, t) = (z.value(), s.value());
    assert(0x1_0000 * (v - 30 * t) <= u && 0x1_0000 * (30 * t - v) <= u) by (nonlinear_arith)
        requires
            0x1_0000 * (v * u - (30 * u) * t) <= u * u,
            0x1_0000 * ((30 * u) * t - v * u) <= u * u,
            u > 0,
    {
        let d = v - 30 * t;
        assert(d * u == v * u - (30 * u) * t);
        assert((0x1_0000 * d) * u <= u * u);
        assert((-(0x1_0000 * d)) * u <= u * u);
    }
    if z.negative() {
        assert(0 * u == 0 && 1 * u == u);
    } else {
        let f = z.mag() / u;
        assert(0 <= f && f * u <= z.mag() < (f + 1) * u) by (nonlinear_arith)
            requires
                f == z.mag() / u,
                0 <= z.mag(),
                u > 0,
        ;
        if f > 30 {
            assert(30 * u <= f * u) by (nonlinear_arith)
                requires
                    f >= 30,
                    u > 0,
            ;
        }
    }
}

/// Red under night light, on a bright colour.
proof fn lemma_reddened(c: u8, s: F32)
    requires
        s.finite(),
        0 <= s.value() <= float::unit(),
    ensures
        ({
            let u = float::unit();
            let x = color::number(c);
            let k = color::red_boost(s);
            let warm = float::smaller(float::sum(x, float::from_int(k)), color::lit(BYTE_MAX));
            let y = color::blend(x, warm, s);
            let t = if k <= 255 - c {
                k
            } else {
                255 - c
            };
            is_rounded(color::channel(y), c * u + t * s.value(), u)
        }),
{
    let u = float::unit();
    facts::one_is_unit();
    facts::zero_is_zero();
    laws::lemma_full_is_255();
    lemma_boost_steps(s);
    let x = color::number(c);
    let k = color::red_boost(s);
    color_laws::lemma_number(c);
    color_laws::lemma_number(255);
    facts::small_integers_are_exact(k);
    assert(c * u + k * u == (c + k) * u) by (nonlinear_arith);
    color_laws::lemma_whole_sum(x, float::from_int(k), c + k);
    let sum = float::sum(x, float::from_int(k));
    let full = color::lit(BYTE_MAX);
    let warm = float::smaller(sum, full);
    let t = if k <= 255 - c {
        k
    } else {
        255 - c
    };
    assert(((c + k) * u <= 255 * u) == (c + k <= 255)) by (nonlinear_arith)
        requires
            u > 0,
    ;
    assert(warm.value() == (c + t) * u && warm.finite());
    order::negated_value(x);
    assert((c + t) * u - c * u == t * u) by (nonlinear_arith);
    color_laws::lemma_whole_sum(warm, float::negation(x), t);
    let diff = float::difference(warm, x);
    let v = s.value();
    assert(0 <= t * u <= 300 * u && 0 <= t * v <= t * u && (t * u) * v == (t * v) * u)
        by (nonlinear_arith)
        requires
            0 <= t <= 255,
            0 <= v <= u,
    ;
    lemma_times_share(diff, s);
    let prod = float::product(diff, s);
    let n = c * u + t * v;
    let e = prod.value() - t * v;
    assert(-u <= 0x1_0000 * e <= u) by (nonlinear_arith)
        requires
            0x1_0000 * (prod.value() * u - (t * v) * u) <= u * u,
            0x1_0000 * ((t * v) * u - prod.value() * u) <= u * u,
            e == prod.value() - t * v,
            u > 0,
    {
        assert(e * u == prod.value() * u - (t * v) * u);
        assert((0x1_0000 * e) * u <= u * u);
        assert((-u) * u <= (0x1_0000 * e) * u);
    }
    lemma_wide_sum(x, prod);
    let y = float::sum(x, prod);
    let off = y.value() - n;
    assert(-(2 * u) <= 0x1_0000 * off <= 2 * u);
    assert((c + t) * u <= 255 * u && c * u + t * u == (c + t) * u) by (nonlinear_arith)
        requires
            c + t <= 255,
            u > 0,
    ;
    assert(2048 * (y.value() * u - n * u) <= u * u && 2048 * (n * u - y.value() * u) <= u * u)
        by (nonlinear_arith)
        requires
            off == y.value() - n,
            -(2 * u) <= 0x1_0000 * off <= 2 * u,
            u > 0,
    {
        assert(off * u == y.value() * u - n * u);
        assert(2048 * off <= u && -(2048 * off) <= u);
        assert((2048 * off) * u <= u * u);
        assert((-(2048 * off)) * u <= u * u);
    }
    lemma_to_channel(y, n, u);
}

/// Night light of strength `s` takes seven tenths of `s` squared from blue. From a colour brighter
/// than half it also takes three tenths of `s` squared from green, and adds to red `s` times the
/// whole steps in thirty times `s`, as far as red has room.
pub proof fn night_light_takes_its_shares(c: LedColor, strength: F32) -> (steps: int)
    requires
        !strength.nan(),
        strength.value() > 0,
    ensures
        ({
            let out = color::warmed(c, strength);
            let u = float::unit();
            let s = blend_laws::weight(strength);
            let d = 10 * (u * u);
            let more = if steps <= 255 - c.r {
                steps
            } else {
                255 - c.r
            };
            &&& 0 <= steps <= 30
            &&& 0x1_0000 * (steps * u - 30 * s) <= u
            &&& steps < 30 ==> 0x1_0000 * (30 * s - (steps + 1) * u) <= u
            &&& is_rounded(out.b, c.b * (10 * (u * u) - 7 * (s * s)), d)
            &&& c.r + c.g + c.b <= 382 ==> out.r == c.r && out.g == c.g
            &&& c.r + c.g + c.b >= 383 ==> {
                &&& is_rounded(out.g, c.g * (10 * (u * u) - 3 * (s * s)), d)
                &&& is_rounded(out.r, c.r * u + more * s, u)
            }
        }),
{
    facts::zero_is_zero();
    let s = color::unit_clamped(strength);
    lemma_share_is_a_number(strength);
    lemma_tenths();
    lemma_dimmed(c.b, color::lit(SEVEN_TENTHS), 7, s);
    color_laws::night_light_warms(c, strength);
    color_laws::lemma_bright(c);
    lemma_boost_steps(s);
    if c.r + c.g + c.b >= 383 {
        lemma_reddened(c.r, s);
        lemma_dimmed(c.g, color::lit(THREE_TENTHS), 3, s);
        lemma_warm_green(c.g, s);
    }
    color::red_boost(s)
}

/// Green stays above zero by itself.
proof fn lemma_warm_green(c: u8, s: F32)
    requires
        s.finite(),
        0 <= s.value() <= float::unit(),
    ensures
        ({
            let x = color::number(c);
            let f = float::difference(
                color::lit(ONE),
                float::product(color::lit(THREE_TENTHS), s),
            );
            let y = float::product(x, f);
            float::larger(y, color::lit(0)) == y
        }),
{
    let u = float::unit();
    let x = color::number(c);
    let t = s.value();
    let one = color::lit(ONE);
    near::grains_in_one();
    hsl_laws::lemma_constants();
    facts::one_is_unit();
    facts::zero_is_zero();
    lemma_tenths();
    color_laws::lemma_number(c);
    lemma_self(s);
    let k = color::lit(THREE_TENTHS);
    hsl_laws::lemma_factors(k, s, 4, 4);
    near::near_product(k, s, 3, 10, 1, t, u, 0, 1, 1, 1, 1, 2);
    let p = float::product(k, s);
    let q = 10 * u;
    assert(1 * q == q);
    hsl_laws::lemma_integer(one, 1, q);
    near::near_difference(one, p, q, 3 * t, q, 0, 2);
    let f = float::difference(one, p);
    let b = f.value();
    assert(b > 0 && b <= 2 * u) by (nonlinear_arith)
        requires
            b * (10 * u) - (10 * u - 3 * t) * u <= (3 * near::grain()) * (10 * u),
            (10 * u - 3 * t) * u - b * (10 * u) <= (3 * near::grain()) * (10 * u),
            0 <= t <= u,
            u == 0x40_0000 * near::grain(),
            near::grain() > 0,
    {
        let w = near::grain();
        let g = 10 * u - 3 * t;
        assert((10 * b) * u >= (g - 30 * w) * u);
        assert((10 * b) * u <= (g + 30 * w) * u);
        assert(10 * b >= g - 30 * w);
        assert(10 * b <= g + 30 * w);
    }
    order::magnitudes_are_not_negative(f);
    assert(x.mag() * f.mag() <= (512 * u) * u && 0 <= x.mag() * f.mag()) by (nonlinear_arith)
        requires
            0 <= x.mag() <= 255 * u,
            0 <= f.mag() <= 2 * u,
            u > 0,
    {
        assert(x.mag() * f.mag() <= (255 * u) * f.mag());
        assert((255 * u) * f.mag() <= (255 * u) * (2 * u));
        assert((255 * u) * (2 * u) <= (512 * u) * u);
    }
    lemma_wide_product(x, f);
    let y = float::product(x, f);
    facts::nearest_exists(x.mag() * f.mag(), u);
    order::magnitudes_are_not_negative(y);
}

/// Whether a factor is the share of full that a level has, brought between black and full, up to
/// 0.002 steps. The level is counted in 100,000 parts of a step, in units of 2^-149.
pub open spec fn is_share_of(f: F32, level: int) -> bool {
    let top = 25_500_000 * float::unit();
    let held = if level < 0 {
        0
    } else if level > top {
        top
    } else {
        level
    };
    &&& f.finite()
    &&& 0 <= f.value() <= float::unit()
    &&& 25_500_000 * f.value() - held <= 200 * float::unit()
    &&& held - 25_500_000 * f.value() <= 200 * float::unit()
}

/// A level as a share of full.
proof fn lemma_level_share(y: F32, level: int)
    requires
        y.finite(),
        100_000 * y.value() - level <= 100 * float::unit(),
        level - 100_000 * y.value() <= 100 * float::unit(),
    ensures
        is_share_of(color::level_fraction(y), level),
{
    let u = float::unit();
    let w = near::grain();
    near::grains_in_one();
    facts::one_is_unit();
    facts::zero_is_zero();
    laws::lemma_full_is_255();
    color_laws::lemma_number(255);
    let full = color::lit(BYTE_MAX);
    let x = float::clamped(y, color::lit(0), full);
    order::magnitudes_are_not_negative(x);
    let v = x.value();
    assert(x.finite() && 0 <= v <= 255 * u);
    near::quotient_error(x, full);
    let f = color::level_fraction(y);
    let z = f.value();
    assert(255 * z - v <= 255 * w && v - 255 * z <= 255 * w) by (nonlinear_arith)
        requires
            z * (255 * u) - v * u <= w * (255 * u),
            v * u - z * (255 * u) <= w * (255 * u),
            u > 0,
    {
        let d = 255 * z - v;
        assert(d * u <= (255 * w) * u);
        assert((-d) * u <= (255 * w) * u);
    }
    // Between zero and one.
    let num = x.mag() * u;
    assert(0 <= num <= u * (255 * u)) by (nonlinear_arith)
        requires
            num == x.mag() * u,
            0 <= x.mag() <= 255 * u,
            u > 0,
    ;
    facts::rounding_stays_below(num, 255 * u, ONE);
    let b = float::nearest(num, 255 * u);
    round::lemma_monotone(0, b as int);
    round::lemma_monotone(b as int, ONE as int);
    if x.negative() {
        assert(0 * u == 0);
        facts::rounding_stays_below(0, 255 * u, 0);
    }
}

/// A product up to 2048 is off by at most 2^-14.
proof fn lemma_wider_product(x: F32, y: F32)
    requires
        x.finite(),
        y.finite(),
        0 <= x.value(),
        0 <= y.value(),
        x.mag() * y.mag() <= (2048 * float::unit()) * float::unit(),
    ensures
        ({
            let p = float::product(x, y);
            let u = float::unit();
            &&& p.finite()
            &&& 0x4000 * (p.value() * u - x.value() * y.value()) <= u * u
            &&& 0x4000 * (x.value() * y.value() - p.value() * u) <= u * u
        }),
{
    let u = float::unit();
    facts::one_is_unit();
    facts::zero_is_zero();
    lemma2_to64();
    lemma_pow2_adds(11, 149);
    lemma_pow2_adds(14, 135);
    order::magnitudes_are_not_negative(x);
    order::magnitudes_are_not_negative(y);
    let (xm, ym) = (x.mag(), y.mag());
    let num = xm * ym;
    assert(0 <= num) by (nonlinear_arith)
        requires
            num == xm * ym,
            xm >= 0,
            ym >= 0,
    ;
    facts::overshoot(num, u, 138);
    facts::undershoot(num, u, 138);
    let m = float::magnitude(float::nearest(num, u) as int);
    round::lemma_monotone(0, float::nearest(num, u) as int);
    let s = pow2(135) as int;
    assert(0x4000 * (s * u) == u * u) by (nonlinear_arith)
        requires
            0x4000 * s == u,
    ;
    assert(x.value() == xm && y.value() == ym);
    if num == 0 {
        assert(0 * u == 0);
        facts::rounding_stays_below(0, u, 0);
    } else {
        assert(xm > 0 && ym > 0) by (nonlinear_arith)
            requires
                num == xm * ym,
                num > 0,
                xm >= 0,
                ym >= 0,
        ;
        assert(!x.negative() && !y.negative());
    }
    assert((-0) * u == 0);
}

/// A sum up to 2048 is off by at most 2^-14.
pub proof fn lemma_wider_sum(x: F32, y: F32)
    requires
        x.finite(),
        y.finite(),
        -(2048 * float::unit()) <= x.value() + y.value() <= 2048 * float::unit(),
    ensures
        float::sum(x, y).finite(),
        0x4000 * (float::sum(x, y).value() - (x.value() + y.value())) <= float::unit(),
        0x4000 * ((x.value() + y.value()) - float::sum(x, y).value()) <= float::unit(),
{
    facts::one_is_unit();
    facts::zero_is_zero();
    lemma2_to64();
    lemma_pow2_adds(11, 149);
    lemma_pow2_adds(14, 135);
    let t = x.value() + y.value();
    let m = if t < 0 {
        -t
    } else {
        t
    };
    facts::overshoot(m, 1, 138);
    facts::undershoot(m, 1, 138);
    round::lemma_monotone(0, float::nearest(m, 1) as int);
}

/// A factor times a term.
proof fn lemma_term(k: F32, kn: int, x: F32)
    requires
        k.finite(),
        0 <= k.value() <= 330 * float::unit(),
        0 <= 100_000 * k.value() - kn * float::unit() + float::unit() <= 2 * float::unit(),
        x.finite(),
        0 <= x.value(),
        330 * x.value() <= 2000 * float::unit(),
    ensures
        ({
            let p = float::product(k, x);
            let u = float::unit();
            &&& p.finite()
            &&& -u <= p.value() <= 2001 * u
            &&& 100_000 * p.value() - kn * x.value() <= 14 * u
            &&& kn * x.value() - 100_000 * p.value() <= 14 * u
        }),
{
    let u = float::unit();
    facts::one_is_unit();
    order::magnitudes_are_not_negative(k);
    order::magnitudes_are_not_negative(x);
    let (a, v) = (k.value(), x.value());
    assert(k.mag() == a && x.mag() == v);
    assert(0 <= a * v <= (2000 * u) * u) by (nonlinear_arith)
        requires
            0 <= a <= 330 * u,
            0 <= v,
            330 * v <= 2000 * u,
            u > 0,
    {
        assert(a * v <= (330 * u) * v);
        assert((330 * u) * v == (330 * v) * u);
        assert((330 * v) * u <= (2000 * u) * u);
    }
    assert((2000 * u) * u <= (2048 * u) * u) by (nonlinear_arith)
        requires
            u > 0,
    ;
    lemma_wider_product(k, x);
    let p = float::product(k, x).value();
    let e = 100_000 * a - kn * u;
    let off = 100_000 * p - kn * v;
    assert(off <= 14 * u && -off <= 14 * u && -u <= p <= 2001 * u) by (nonlinear_arith)
        requires
            0x4000 * (p * u - a * v) <= u * u,
            0x4000 * (a * v - p * u) <= u * u,
            e == 100_000 * a - kn * u,
            -u <= e <= u,
            off == 100_000 * p - kn * v,
            0 <= v,
            330 * v <= 2000 * u,
            0 <= a * v <= (2000 * u) * u,
            u > 0,
    {
        assert(off * u == 100_000 * (p * u - a * v) + e * v) by {
            assert(e * v == 100_000 * (a * v) - (kn * u) * v);
            assert(off * u == 100_000 * (p * u) - (kn * v) * u);
            assert((kn * u) * v == (kn * v) * u);
        }
        assert(e * v <= u * v);
        assert(e * v >= (-u) * v);
        assert(v <= 7 * u);
        assert(u * v <= u * (7 * u));
        assert(100_000 * (p * u - a * v) <= 7 * (u * u));
        assert(100_000 * (a * v - p * u) <= 7 * (u * u));
        assert(off * u <= (14 * u) * u);
        assert((-off) * u <= (14 * u) * u);
        assert(p * u <= (2001 * u) * u);
        assert((-u) * u <= p * u);
    }
}

/// A level that is linear in a logarithm.
proof fn lemma_linear_level(k: F32, kn: int, o: F32, on: int, x: F32)
    requires
        k.finite(),
        0 <= k.value() <= 330 * float::unit(),
        0 <= 100_000 * k.value() - kn * float::unit() + float::unit() <= 2 * float::unit(),
        o.finite(),
        0 <= o.value() <= 400 * float::unit(),
        0 <= 100_000 * o.value() - on * float::unit() + float::unit() <= 2 * float::unit(),
        x.finite(),
        0 <= x.value() <= 6 * float::unit(),
    ensures
        is_share_of(
            color::level_fraction(float::difference(float::product(k, x), o)),
            kn * x.value() - on * float::unit(),
        ),
{
    let u = float::unit();
    facts::one_is_unit();
    lemma_term(k, kn, x);
    let p = float::product(k, x);
    order::negated_value(o);
    lemma_wider_sum(p, float::negation(o));
    let y = float::difference(p, o);
    lemma_level_share(y, kn * x.value() - on * u);
}

/// What the constants of colour temperatures stand for.
proof fn lemma_kelvin_constants()
    ensures
        ({
            let u = float::unit();
            let near = |bits: u32, n: int|
                0 <= 100_000 * color::lit(bits).value() - n * u + u <= 2 * u && 0 <= color::lit(
                    bits,
                ).value() <= 330 * u;
            &&& near(GREEN_LOG_FACTOR, 9_947_080)
            &&& near(GREEN_LOG_OFFSET, 16_111_957)
            &&& near(BLUE_LOG_FACTOR, 13_851_773)
            &&& near(BLUE_LOG_OFFSET, 30_504_480)
            &&& near(RED_POWER_FACTOR, 32_969_873)
            &&& near(GREEN_POWER_FACTOR, 28_812_216)
        }),
{
    lemma2_to64();
    facts::one_is_unit();
    round::lemma_form(132, 0xC6_F10D);
    round::lemma_form(133, 0xA1_1E9C);
    round::lemma_form(133, 0x8A_848A);
    round::lemma_form(134, 0x98_85BC);
    round::lemma_form(134, 0xA4_D970);
    round::lemma_form(134, 0x90_0FA3);
    lemma_pow2_adds(17, 132);
    lemma_pow2_adds(16, 133);
    lemma_pow2_adds(15, 134);
    lemma_pow2_pos(132);
    lemma_pow2_pos(133);
    lemma_pow2_pos(134);
}

/// The factors of a colour temperature are levels as shares of full. Up to 6600 K red is full,
/// green is 99.4708 times the first logarithm less 161.11957, and blue 138.51773 times the second
/// less 305.0448, or nothing without one. Above, red is 329.69873 times the first power, green
/// 288.12216 times the second, and blue is full.
pub proof fn white_factors_follow_their_terms(terms: KelvinTerms)
    requires
        match terms {
            KelvinTerms::Warm { green_log, blue_log } => {
                &&& green_log.finite() && 0 <= green_log.value() <= 6 * float::unit()
                &&& blue_log matches Some(x) ==> x.finite() && 0 <= x.value() <= 6 * float::unit()
            },
            KelvinTerms::Cool { red_power, green_power } => {
                &&& red_power.finite() && 0 <= red_power.value() <= float::unit()
                &&& green_power.finite() && 0 <= green_power.value() <= float::unit()
            },
        },
    ensures
        ({
            let f = color::factors_of(terms);
            let u = float::unit();
            match terms {
                KelvinTerms::Warm { green_log, blue_log } => {
                    &&& f.r == (F32 { bits: ONE })
                    &&& is_share_of(f.g, 9_947_080 * green_log.value() - 16_111_957 * u)
                    &&& match blue_log {
                        Some(x) => is_share_of(f.b, 13_851_773 * x.value() - 30_504_480 * u),
                        None => f.b == (F32 { bits: 0 }),
                    }
                },
                KelvinTerms::Cool { red_power, green_power } => {
                    &&& is_share_of(f.r, 32_969_873 * red_power.value())
                    &&& is_share_of(f.g, 28_812_216 * green_power.value())
                    &&& f.b == (F32 { bits: ONE })
                },
            }
        }),
{
    let full = color::lit(BYTE_MAX);
    facts::zero_is_zero();
    facts::one_is_unit();
    laws::lemma_full_is_255();
    color_laws::lemma_number(255);
    facts::quotient_by_itself(full);
    facts::zero_over_a_number(full);
    lemma_kelvin_constants();
    match terms {
        KelvinTerms::Warm { green_log, blue_log } => {
            lemma_linear_level(
                color::lit(GREEN_LOG_FACTOR),
                9_947_080,
                color::lit(GREEN_LOG_OFFSET),
                16_111_957,
                green_log,
            );
            match blue_log {
                Some(x) => {
                    lemma_linear_level(
                        color::lit(BLUE_LOG_FACTOR),
                        13_851_773,
                        color::lit(BLUE_LOG_OFFSET),
                        30_504_480,
                        x,
                    );
                },
                None => {},
            }
        },
        KelvinTerms::Cool { red_power, green_power } => {
            lemma_term(color::lit(RED_POWER_FACTOR), 32_969_873, red_power);
            lemma_term(color::lit(GREEN_POWER_FACTOR), 28_812_216, green_power);
            lemma_level_share(
                float::product(color::lit(RED_POWER_FACTOR), red_power),
                32_969_873 * red_power.value(),
            );
            lemma_level_share(
                float::product(color::lit(GREEN_POWER_FACTOR), green_power),
                28_812_216 * green_power.value(),
            );
        },
    }
}

/// Whether a number is `n` hundredths, up to 1/6400.
pub open spec fn is_hundredths(x: F32, n: int) -> bool {
    &&& x.finite()
    &&& 64 * (100 * x.value() - n * float::unit()) <= float::unit()
    &&& 64 * (n * float::unit() - 100 * x.value()) <= float::unit()
}

/// A temperature in hundreds.
proof fn lemma_hundreds(kelvin: u32)
    requires
        kelvin <= 200_000,
    ensures
        ({
            let temp = float::quotient(float::from_int(kelvin as int), color::lit(HUNDRED));
            let u = float::unit();
            &&& temp.finite()
            &&& 0 <= temp.value()
            &&& 0x4000 * (100 * temp.value() - kelvin * u) <= 100 * u
            &&& 0x4000 * (kelvin * u - 100 * temp.value()) <= 100 * u
        }),
{
    let u = float::unit();
    let n = float::from_int(kelvin as int);
    let hundred = color::lit(HUNDRED);
    facts::one_is_unit();
    facts::zero_is_zero();
    lemma2_to64();
    round::lemma_form(132, 0xC8_0000);
    lemma_pow2_adds(17, 132);
    lemma_pow2_adds(11, 149);
    lemma_pow2_adds(14, 135);
    facts::small_integers_are_exact(kelvin as int);
    assert(hundred.mag() == 100 * u && !hundred.zero() && hundred.finite());
    let num = (kelvin * u) * u;
    let den = 100 * u;
    assert(0 <= num <= (2048 * u) * den) by (nonlinear_arith)
        requires
            num == (kelvin * u) * u,
            den == 100 * u,
            kelvin <= 200_000,
            u > 0,
    {
        assert(kelvin * u <= 200_000 * u);
        assert((kelvin * u) * u <= (200_000 * u) * u);
    }
    facts::overshoot(num, den, 138);
    facts::undershoot(num, den, 138);
    let temp = float::quotient(n, hundred);
    let m = float::magnitude(float::nearest(num, den) as int);
    assert(temp == float::rounded(false, num, den));
    assert(temp.mag() == m);
    order::magnitudes_are_not_negative(temp);
    let g = pow2(135) as int;
    assert(100 * m - kelvin * u <= 100 * g && kelvin * u - 100 * m <= 100 * g) by (nonlinear_arith)
        requires
            m * den <= num + g * den,
            num <= m * den + g * den,
            num == (kelvin * u) * u,
            den == 100 * u,
            u > 0,
    {
        let k = kelvin * u;
        assert((100 * m - k) * u <= (100 * g) * u);
        assert((k - 100 * m) * u <= (100 * g) * u);
    }
}

/// A colour temperature up to 6600 K takes the logarithm of its hundreds, though at least of one,
/// for green, and that of ten hundreds less for blue, which it has above 1900 K only. One above
/// 6600 K takes powers of what it has above 6000 K, in hundreds.
pub proof fn white_balance_goes_by_the_hundreds(kelvin: u32)
    requires
        kelvin <= 200_000,
    ensures
        match color::plan_of(kelvin) {
            KelvinPlan::Warm { green, blue } => {
                &&& kelvin <= 6600
                &&& is_hundredths(
                    green,
                    if kelvin < 100 {
                        100
                    } else {
                        kelvin as int
                    },
                )
                &&& match blue {
                    Some(x) => kelvin > 1900 && is_hundredths(x, kelvin - 1000),
                    None => kelvin <= 1900,
                }
            },
            KelvinPlan::Cool { base } => kelvin > 6600 && is_hundredths(base, kelvin - 6000),
        },
{
    let u = float::unit();
    let temp = float::quotient(float::from_int(kelvin as int), color::lit(HUNDRED));
    facts::one_is_unit();
    color_laws::lemma_kelvin(kelvin);
    lemma_hundreds(kelvin);
    lemma2_to64();
    round::lemma_form(129, 0xA0_0000);
    round::lemma_form(131, 0xF0_0000);
    round::lemma_form(130, 0x98_0000);
    lemma_pow2_adds(20, 129);
    lemma_pow2_adds(18, 131);
    lemma_pow2_adds(19, 130);
    let (ten, sixty) = (color::lit(TEN), color::lit(SIXTY));
    assert(ten.value() == 10 * u && sixty.value() == 60 * u);
    order::negated_value(ten);
    order::negated_value(sixty);
    let k = kelvin as int;
    let ku = k * u;
    assert(0 <= ku <= 200_000 * u && (k - 1000) * u == ku - 1000 * u && (k - 6000) * u == ku - 6000
        * u && (k > 1900 ==> ku >= 1901 * u) && (k <= 99 ==> ku <= 99 * u) && (k >= 100 ==> ku
        >= 100 * u)) by (nonlinear_arith)
        requires
            ku == k * u,
            0 <= k <= 200_000,
            u > 0,
    ;
    lemma_wider_sum(temp, float::negation(ten));
    if kelvin > 6600 {
        lemma_wider_sum(temp, float::negation(sixty));
    }
}

/// What is raised to the gamma is the channel's share of full: `c` over 255, up to a part in 2^24
/// of it, from nothing at black to one at white.
pub proof fn gamma_raises_shares_of_full(c: u8)
    ensures
        ({
            let x = color::fraction_of_full(c);
            let u = float::unit();
            &&& x.finite() && !x.negative()
            &&& 0x100_0000 * (255 * x.value() - c * u) <= 255 * x.value()
            &&& 0x100_0000 * (c * u - 255 * x.value()) <= 255 * x.value()
            &&& c == 0 ==> x == (F32 { bits: 0 })
            &&& c == 255 ==> x == (F32 { bits: ONE })
        }),
{
    let u = float::unit();
    let full = color::lit(BYTE_MAX);
    facts::one_is_unit();
    facts::zero_is_zero();
    laws::lemma_full_is_255();
    color_laws::lemma_number(255);
    color_laws::lemma_number(c);
    color_laws::lemma_fraction(c);
    facts::quotient_by_itself(full);
    facts::zero_over_a_number(full);
    let x = color::fraction_of_full(c);
    if c == 0 {
        facts::zero_converts_to_zero();
        assert(0 * u == 0);
    } else {
        lemma2_to64();
        lemma_pow2_adds(32, 117);
        lemma_pow2_adds(8, 109);
        lemma_pow2_pos(109);
        let num = (c * u) * u;
        let den = 255 * u;
        assert(0x200_0000 * den <= num && num <= u * den) by (nonlinear_arith)
            requires
                num == (c * u) * u,
                den == 255 * u,
                1 <= c <= 255,
                u >= 0x1_0000_0000 * 0x100,
        {
            assert((c * u) * u >= u * u);
            assert(u * u >= (0x1_0000_0000 * 0x100) * u);
            assert((c * u) * u <= (255 * u) * u);
        }
        facts::rounding_stays_below(num, den, ONE);
        facts::relative_error(num, den);
        let m = float::magnitude(float::nearest(num, den) as int);
        assert(!full.zero() && !color::number(c).zero()) by {
            assert(c * u > 0) by (nonlinear_arith)
                requires
                    c >= 1,
                    u > 0,
            ;
        }
        assert(x == float::rounded(false, num, den));
        assert(x.mag() == m);
        let cu = c * u;
        assert(0x100_0000 * (255 * m - cu) <= 255 * m && 0x100_0000 * (cu - 255 * m) <= 255 * m)
            by (nonlinear_arith)
            requires
                0x100_0000 * (num - m * den) <= m * den,
                0x100_0000 * (m * den - num) <= m * den,
                num == cu * u,
                den == 255 * u,
                u > 0,
        {
            let k = 255 * m;
            assert(m * den == k * u);
            assert((0x100_0000 * (cu - k)) * u <= k * u);
            assert((0x100_0000 * (k - cu)) * u <= k * u);
        }
    }
}

/// A gamma is taken as it is where it is positive; any other setting leaves colours alone.
pub proof fn gamma_must_be_positive(gamma: F32)
    ensures
        !gamma.nan() && gamma.value() > 0 ==> color::exponent(gamma) == gamma,
        gamma.nan() || gamma.value() <= 0 ==> color::exponent(gamma) == (F32 { bits: ONE }),
{
    facts::zero_is_zero();
}

/// A colour is as bright as its largest channel, whichever of the three that is.
pub proof fn peak_is_the_largest_channel(c: LedColor)
    ensures
        c.r <= color::peak(c) && c.g <= color::peak(c) && c.b <= color::peak(c),
        color::peak(c) == c.r || color::peak(c) == c.g || color::peak(c) == c.b,
{
}

/// What is not above the limit is kept as it is, and so is everything where night light is off.
pub proof fn corrections_keep_what_they_need_not_change(c: LedColor, max_byte: u8, strength: F32)
    ensures
        c.r <= max_byte && c.g <= max_byte && c.b <= max_byte ==> color::limited(c, max_byte) == c,
        !strength.nan() && strength.value() <= 0 ==> color::warmed(c, strength) == c,
{
    facts::zero_is_zero();
}

} // verus!
