//! A blend is the weighted mean of the last colour and the current one.

use vstd::prelude::*;
use vstd::arithmetic::power2::*;

use crate::float;
use crate::float::facts;
use crate::float::round;
use crate::float::{F32, ONE};

use super::color;
use super::laws;
use super::smoothing;
use super::LedColor;

verus! {

/// The weight that a blend factor gives to the current colour, in units of 2^-149: the factor
/// itself, brought into the range from zero to one.
pub open spec fn weight(alpha: F32) -> int {
    if alpha.value() < 0 {
        0
    } else if alpha.value() > float::unit() {
        float::unit()
    } else {
        alpha.value()
    }
}

/// Whether a channel is `(1 - w) * last + w * cur`, rounded to an integer: it is off by at most
/// one half and 2^-11.
pub open spec fn is_weighted_mean(next: u8, last: u8, cur: u8, w: int) -> bool {
    let exact = (float::unit() - w) * last + w * cur;
    &&& 2048 * (next * float::unit() - exact) <= 1025 * float::unit()
    &&& 2048 * (exact - next * float::unit()) <= 1025 * float::unit()
}

/// Rounding to a channel is off by at most one half.
pub proof fn lemma_channel_is_close(z: F32)
    requires
        z.finite(),
        z.negative() ==> z.mag() == 0,
        0 <= 2 * z.mag() < 511 * float::unit(),
    ensures
        2 * (color::channel(z) * float::unit() - z.mag()) <= float::unit(),
        2 * (z.mag() - color::channel(z) * float::unit()) <= float::unit(),
{
    let u = float::unit();
    let m = z.mag();
    facts::one_is_unit();
    if z.negative() {
        assert(0 * u == 0);
    } else {
        let r = (2 * m + u) / (2 * u);
        assert(0 <= r <= 255 && 2 * (r * u) <= 2 * m + u && 2 * m < 2 * (r * u) + u)
            by (nonlinear_arith)
            requires
                r == (2 * m + u) / (2 * u),
                0 <= 2 * m < 511 * u,
                u > 0,
        {
            assert((2 * u) * r <= 2 * m + u);
            assert(2 * m + u < (2 * u) * r + 2 * u);
            assert((2 * u) * r < (2 * u) * 256);
            assert((2 * u) * r > (2 * u) * (-1));
        }
        assert(float::round_to(z, 255) == r);
    }
}

/// A sum of two numbers below 256 is off by at most 2^-16.
proof fn lemma_sum(x: F32, y: F32)
    requires
        x.finite(),
        y.finite(),
        0 <= x.value(),
        0 <= y.value(),
        x.value() + y.value() <= 512 * float::unit(),
    ensures
        ({
            let z = float::sum(x, y);
            &&& z.finite()
            &&& z.negative() ==> z.mag() == 0
            &&& 0 <= z.mag()
            &&& 0x1_0000 * (z.mag() - (x.value() + y.value())) <= float::unit()
            &&& 0x1_0000 * ((x.value() + y.value()) - z.mag()) <= float::unit()
        }),
{
    facts::one_is_unit();
    facts::zero_is_zero();
    laws::lemma_powers();
    let t = x.value() + y.value();
    if t > 0 {
        facts::overshoot(t, 1, 136);
        facts::undershoot(t, 1, 136);
        round::lemma_monotone(0, float::nearest(t, 1) as int);
    }
}

proof fn lemma_blended_channel(last: u8, cur: u8, alpha: F32)
    requires
        !alpha.nan(),
    ensures
        is_weighted_mean(
            smoothing::blended_channel(last, cur, color::unit_clamped(alpha)),
            last,
            cur,
            weight(alpha),
        ),
{
    let a = color::unit_clamped(alpha);
    let u = float::unit();
    facts::one_is_unit();
    facts::zero_is_zero();
    let p = float::difference(F32 { bits: ONE }, a);
    let x = float::product(color::number(last), p);
    let y = float::product(color::number(cur), a);
    let z = float::sum(x, y);
    laws::lemma_powers();
    round::lemma_monotone(0, a.mag_bits());
    if a.mag_bits() >= float::INFINITY {
        round::lemma_monotone(ONE as int, a.mag_bits());
    }
    let w = a.value();
    assert(0 <= w <= u);
    assert(w == weight(alpha));
    laws::lemma_complement(a);
    laws::lemma_share(last, p);
    laws::lemma_share(cur, a);
    let pm = p.mag();
    let first = last * pm;
    let kept = (u - w) * last;
    let taken = w * cur;
    assert(0x200_0000 * (first - kept) <= 255 * u && 0x200_0000 * (kept - first) <= 255 * u && 0
        <= kept && 0 <= taken && kept + taken <= 255 * u && cur * w == taken) by (nonlinear_arith)
        requires
            first == last * pm,
            kept == (u - w) * last,
            taken == w * cur,
            0x200_0000 * pm <= 0x200_0000 * (u - w) + u,
            0x200_0000 * (u - w) <= 0x200_0000 * pm + u,
            0 <= w <= u,
            0 <= last <= 255,
            0 <= cur <= 255,
    {
        let d = 0x200_0000 * (pm - (u - w));
        assert(0x200_0000 * (first - kept) == last * d);
        assert(last * d <= last * u);
        assert(last * (-d) <= last * u);
        assert(last * u <= 255 * u);
        assert((u - w) * last <= (u - w) * 255);
        assert(w * cur <= w * 255);
        assert((u - w) * last >= 0);
    }
    lemma_sum(x, y);
    lemma_channel_is_close(z);
}

/// With a blend factor `w`, every channel becomes `(1 - w) * last + w * cur`, rounded, whether it
/// rises or falls.
pub proof fn blend_is_the_weighted_mean(last: LedColor, cur: LedColor, alpha: F32)
    requires
        !alpha.nan(),
    ensures
        ({
            let next = smoothing::blended(last, cur, alpha);
            &&& is_weighted_mean(next.r, last.r, cur.r, weight(alpha))
            &&& is_weighted_mean(next.g, last.g, cur.g, weight(alpha))
            &&& is_weighted_mean(next.b, last.b, cur.b, weight(alpha))
        }),
{
    lemma_blended_channel(last.r, cur.r, alpha);
    lemma_blended_channel(last.g, cur.g, alpha);
    lemma_blended_channel(last.b, cur.b, alpha);
}

/// A step blends every LED with its own last colour; where the number of LEDs has changed, it
/// takes the current colours as they are.
pub proof fn smoothing_blends_led_by_led(
    last: Seq<LedColor>,
    cur: Seq<LedColor>,
    alpha: F32,
    i: int,
)
    requires
        !alpha.nan(),
        0 <= i < cur.len(),
    ensures
        ({
            let next = smoothing::smoothed(last, cur, alpha);
            &&& next.len() == cur.len()
            &&& last.len() != cur.len() ==> next[i] == cur[i]
            &&& last.len() == cur.len() ==> {
                &&& is_weighted_mean(next[i].r, last[i].r, cur[i].r, weight(alpha))
                &&& is_weighted_mean(next[i].g, last[i].g, cur[i].g, weight(alpha))
                &&& is_weighted_mean(next[i].b, last[i].b, cur[i].b, weight(alpha))
            }
        }),
{
    if last.len() == cur.len() {
        blend_is_the_weighted_mean(last[i], cur[i], alpha);
    }
}

/// The step that brightens and the step that darkens mirror each other: swapping the two colours
/// and taking the rest of the weight gives the same channel, up to one.
pub proof fn blend_mirrors(last: u8, cur: u8, alpha: F32, rest: F32)
    requires
        alpha.finite(),
        rest.finite(),
        0 <= alpha.value(),
        0 <= rest.value(),
        alpha.value() + rest.value() == float::unit(),
    ensures
        ({
            let one_way = smoothing::blended(
                LedColor { r: last, g: last, b: last },
                LedColor { r: cur, g: cur, b: cur },
                alpha,
            );
            let other_way = smoothing::blended(
                LedColor { r: cur, g: cur, b: cur },
                LedColor { r: last, g: last, b: last },
                rest,
            );
            -1 <= one_way.r - other_way.r <= 1
        }),
{
    let u = float::unit();
    facts::one_is_unit();
    lemma_blended_channel(last, cur, alpha);
    lemma_blended_channel(cur, last, rest);
    let w = alpha.value();
    let a = smoothing::blended_channel(last, cur, color::unit_clamped(alpha)) as int;
    let b = smoothing::blended_channel(cur, last, color::unit_clamped(rest)) as int;
    assert((u - w) * last + w * cur == (u - (u - w)) * cur + (u - w) * last);
    assert(-1 <= a - b <= 1) by (nonlinear_arith)
        requires
            2048 * (a * u - b * u) <= 2050 * u,
            2048 * (b * u - a * u) <= 2050 * u,
            u > 0,
    {
        assert((a - b) * u == a * u - b * u);
        if a - b >= 2 {
            assert((a - b) * u >= 2 * u);
        }
        if b - a >= 2 {
            assert((b - a) * u >= 2 * u);
        }
    }
}

} // verus!
