//! Numbers that almost are a given fraction, and what operations make of them.

use vstd::prelude::*;
use vstd::arithmetic::power2::*;

use super::facts;
use super::order;
use super::round;
use super::{F32, ONE};

verus! {

/// The unit that errors are counted in: 2^-22, in units of 2^-149.
pub open spec fn grain() -> int {
    pow2(127) as int
}

/// Whether a number is the fraction `p / q` but for `e` grains.
pub open spec fn near(x: F32, p: int, q: int, e: int) -> bool {
    &&& x.finite()
    &&& q > 0
    &&& x.value() * q - p * super::unit() <= (e * grain()) * q
    &&& p * super::unit() - x.value() * q <= (e * grain()) * q
}

/// There are 2^22 grains in one.
pub proof fn grains_in_one()
    ensures
        super::unit() == 0x40_0000 * grain(),
        grain() > 0,
{
    lemma2_to64();
    lemma_pow2_adds(22, 127);
    lemma_pow2_pos(127);
}

/// Rounding a number up to eight is off by at most one grain.
proof fn lemma_rounding(num: int, den: int)
    requires
        0 <= num <= (8 * super::unit()) * den,
        0 < den,
    ensures
        super::nearest(num, den) < super::INFINITY,
        super::magnitude(super::nearest(num, den) as int) >= 0,
        super::magnitude(super::nearest(num, den) as int) * den <= num + grain() * den,
        num <= super::magnitude(super::nearest(num, den) as int) * den + grain() * den,
{
    lemma2_to64();
    lemma_pow2_adds(3, 149);
    facts::overshoot(num, den, 130);
    facts::undershoot(num, den, 130);
    round::lemma_monotone(0, super::nearest(num, den) as int);
}

/// A sum up to eight is off by at most one grain.
pub proof fn sum_error(a: F32, b: F32)
    requires
        a.finite(),
        b.finite(),
        -8 * super::unit() <= a.value() + b.value() <= 8 * super::unit(),
    ensures
        super::sum(a, b).finite(),
        super::sum(a, b).value() - (a.value() + b.value()) <= grain(),
        (a.value() + b.value()) - super::sum(a, b).value() <= grain(),
{
    let v = a.value() + b.value();
    grains_in_one();
    facts::zero_is_zero();
    if v > 0 {
        lemma_rounding(v, 1);
    } else if v < 0 {
        lemma_rounding(-v, 1);
    }
}

/// A product up to eight is off by at most one grain.
pub proof fn product_error(a: F32, b: F32)
    requires
        a.finite(),
        b.finite(),
        a.mag() * b.mag() <= (8 * super::unit()) * super::unit(),
    ensures
        super::product(a, b).finite(),
        super::product(a, b).value() * super::unit() - a.value() * b.value() <= grain()
            * super::unit(),
        a.value() * b.value() - super::product(a, b).value() * super::unit() <= grain()
            * super::unit(),
{
    let u = super::unit();
    grains_in_one();
    order::magnitudes_are_not_negative(a);
    order::magnitudes_are_not_negative(b);
    let (am, bm) = (a.mag(), b.mag());
    assert(0 <= am * bm) by (nonlinear_arith)
        requires
            am >= 0,
            bm >= 0,
    ;
    lemma_rounding(am * bm, u);
    let m = super::magnitude(super::nearest(am * bm, u) as int);
    assert((-am) * bm == -(am * bm) && am * (-bm) == -(am * bm) && (-am) * (-bm) == am * bm && (-m)
        * u == -(m * u)) by (nonlinear_arith);
    facts::zero_is_zero();
}

/// A quotient up to eight by a positive number is off by at most one grain.
pub proof fn quotient_error(a: F32, b: F32)
    requires
        a.finite(),
        b.finite(),
        !b.negative(),
        b.mag() > 0,
        a.mag() <= 8 * b.mag(),
    ensures
        super::quotient(a, b).finite(),
        super::quotient(a, b).value() * b.value() - a.value() * super::unit() <= grain()
            * b.value(),
        a.value() * super::unit() - super::quotient(a, b).value() * b.value() <= grain()
            * b.value(),
{
    let u = super::unit();
    grains_in_one();
    facts::zero_is_zero();
    order::magnitudes_are_not_negative(a);
    let (am, bm) = (a.mag(), b.mag());
    assert(0 <= am * u <= (8 * u) * bm) by (nonlinear_arith)
        requires
            0 <= am <= 8 * bm,
            u > 0,
    ;
    lemma_rounding(am * u, bm);
    let m = super::magnitude(super::nearest(am * u, bm) as int);
    assert((-am) * u == -(am * u) && (-m) * bm == -(m * bm)) by (nonlinear_arith);
}

/// A fraction can be expanded, and reduced.
pub proof fn near_scaled(x: F32, p: int, q: int, e: int, k: int)
    requires
        k > 0,
        q > 0,
    ensures
        near(x, p, q, e) <==> near(x, k * p, k * q, e),
{
    let u = super::unit();
    let v = x.value();
    let w = e * grain();
    assert(v * (k * q) == k * (v * q) && (k * p) * u == k * (p * u) && w * (k * q) == k * (w * q)
        && k * q > 0) by (nonlinear_arith)
        requires
            k > 0,
            q > 0,
    ;
    let d = v * q - p * u;
    let b = w * q;
    assert((d <= b) == (k * d <= k * b) && (-d <= b) == (k * (-d) <= k * b)) by (nonlinear_arith)
        requires
            k > 0,
    ;
    assert(k * d == k * (v * q) - k * (p * u)) by (nonlinear_arith)
        requires
            d == v * q - p * u,
    ;
    assert(k * (-d) == k * (p * u) - k * (v * q)) by (nonlinear_arith)
        requires
            d == v * q - p * u,
    ;
}

/// A looser bound.
pub proof fn near_loosened(x: F32, p: int, q: int, e: int, f: int)
    requires
        near(x, p, q, e),
        e <= f,
    ensures
        near(x, p, q, f),
{
    grains_in_one();
    assert((e * grain()) * q <= (f * grain()) * q) by (nonlinear_arith)
        requires
            e <= f,
            grain() > 0,
            q > 0,
    {
        assert(e * grain() <= f * grain());
    }
}

/// The bounds of a number that is near a fraction between two integers.
pub proof fn near_bounds(x: F32, p: int, q: int, e: int, lo: int, hi: int)
    requires
        near(x, p, q, e),
        lo * q <= p <= hi * q,
    ensures
        lo * super::unit() - e * grain() <= x.value() <= hi * super::unit() + e * grain(),
{
    let u = super::unit();
    let v = x.value();
    let w = e * grain();
    grains_in_one();
    assert(lo * u - w <= v <= hi * u + w) by (nonlinear_arith)
        requires
            v * q - p * u <= w * q,
            p * u - v * q <= w * q,
            lo * q <= p <= hi * q,
            q > 0,
            u > 0,
    {
        assert((lo * q) * u <= p * u <= (hi * q) * u);
        assert((lo * q) * u == (lo * u) * q);
        assert((hi * q) * u == (hi * u) * q);
        assert((lo * u - w) * q <= v * q);
        assert(v * q <= (hi * u + w) * q);
    }
}

/// The negated number.
pub proof fn near_negated(x: F32, p: int, q: int, e: int)
    requires
        near(x, p, q, e),
    ensures
        near(super::negation(x), -p, q, e),
{
    order::negated_value(x);
    let v = x.value();
    let u = super::unit();
    assert((-v) * q == -(v * q) && (-p) * u == -(p * u)) by (nonlinear_arith);
}

/// A sum.
pub proof fn near_sum(a: F32, b: F32, p: int, r: int, q: int, e: int, f: int)
    requires
        near(a, p, q, e),
        near(b, r, q, f),
        -7 * q <= p + r <= 7 * q,
        0 <= e <= 0x8_0000,
        0 <= f <= 0x8_0000,
    ensures
        near(super::sum(a, b), p + r, q, e + f + 1),
{
    let u = super::unit();
    let w = grain();
    grains_in_one();
    let (x, y) = (a.value(), b.value());
    let t = x + y;
    assert(t * q - (p + r) * u <= ((e + f) * w) * q && (p + r) * u - t * q <= ((e + f) * w) * q)
        by (nonlinear_arith)
        requires
            t == x + y,
            x * q - p * u <= (e * w) * q,
            p * u - x * q <= (e * w) * q,
            y * q - r * u <= (f * w) * q,
            r * u - y * q <= (f * w) * q,
    {
        assert(t * q == x * q + y * q);
        assert((p + r) * u == p * u + r * u);
        assert(((e + f) * w) * q == (e * w) * q + (f * w) * q);
    }
    assert(-8 * u <= t <= 8 * u) by (nonlinear_arith)
        requires
            t * q - (p + r) * u <= ((e + f) * w) * q,
            (p + r) * u - t * q <= ((e + f) * w) * q,
            -7 * q <= p + r <= 7 * q,
            0 <= e <= 0x8_0000,
            0 <= f <= 0x8_0000,
            u == 0x40_0000 * w,
            w > 0,
            q > 0,
    {
        assert((e + f) * w <= u);
        assert(((e + f) * w) * q <= u * q);
        assert((p + r) * u <= (7 * q) * u);
        assert((-7 * q) * u <= (p + r) * u);
        assert(t * q <= (8 * u) * q);
        assert((-8 * u) * q <= t * q);
    }
    sum_error(a, b);
    let s = super::sum(a, b).value();
    assert(s * q - (p + r) * u <= ((e + f + 1) * w) * q && (p + r) * u - s * q <= ((e + f + 1) * w)
        * q) by (nonlinear_arith)
        requires
            t * q - (p + r) * u <= ((e + f) * w) * q,
            (p + r) * u - t * q <= ((e + f) * w) * q,
            s - t <= w,
            t - s <= w,
            q > 0,
    {
        assert(((e + f + 1) * w) * q == ((e + f) * w) * q + w * q);
        assert((s - t) * q <= w * q);
        assert((t - s) * q <= w * q);
        assert(s * q == t * q + (s - t) * q);
        assert(s * q == t * q - (t - s) * q);
    }
}

/// A difference.
pub proof fn near_difference(a: F32, b: F32, p: int, r: int, q: int, e: int, f: int)
    requires
        near(a, p, q, e),
        near(b, r, q, f),
        -7 * q <= p - r <= 7 * q,
        0 <= e <= 0x8_0000,
        0 <= f <= 0x8_0000,
    ensures
        near(super::difference(a, b), p - r, q, e + f + 1),
{
    near_negated(b, r, q, f);
    near_sum(a, super::negation(b), p, -r, q, e, f);
}

/// An error in three parts, two of them known up to a factor.
proof fn lemma_error_parts(
    all: int,
    off: int,
    s1: int,
    s2: int,
    k: int,
    ad: int,
    bd: int,
    f: int,
    e: int,
    g: int,
)
    requires
        all == off + s1 + s2,
        -k <= off <= k,
        ad * s1 <= f * k,
        -(ad * s1) <= f * k,
        bd * s2 <= e * k,
        -(bd * s2) <= e * k,
        (ad * bd) * g >= ad * bd + bd * f + ad * e,
        ad > 0,
        bd > 0,
        k > 0,
    ensures
        all <= g * k,
        -all <= g * k,
{
    let c = ad * bd;
    assert(c > 0) by (nonlinear_arith)
        requires
            c == ad * bd,
            ad > 0,
            bd > 0,
    ;
    let (t1, t2) = (c * s1, c * s2);
    let (f1, e1) = (bd * (f * k), ad * (e * k));
    assert(-f1 <= t1 <= f1) by (nonlinear_arith)
        requires
            t1 == (ad * bd) * s1,
            f1 == bd * (f * k),
            ad * s1 <= f * k,
            -(ad * s1) <= f * k,
            bd > 0,
    {
        assert(t1 == bd * (ad * s1));
    }
    assert(-e1 <= t2 <= e1) by (nonlinear_arith)
        requires
            t2 == (ad * bd) * s2,
            e1 == ad * (e * k),
            bd * s2 <= e * k,
            -(bd * s2) <= e * k,
            ad > 0,
    {
        assert(t2 == ad * (bd * s2));
    }
    let ck = c * k;
    assert(-ck <= c * off <= ck) by (nonlinear_arith)
        requires
            -k <= off <= k,
            ck == c * k,
            c > 0,
    ;
    assert(c * all == c * off + t1 + t2) by (nonlinear_arith)
        requires
            all == off + s1 + s2,
            t1 == c * s1,
            t2 == c * s2,
    ;
    assert(c * (g * k) >= ck + f1 + e1) by {
        let (cg, h) = (c * g, c + bd * f + ad * e);
        assert(cg * k >= h * k) by (nonlinear_arith)
            requires
                cg >= h,
                k > 0,
        ;
        let (bf, ae) = (bd * f, ad * e);
        assert((c + bf + ae) * k == c * k + bf * k + ae * k) by (nonlinear_arith);
        assert((c * g) * k == c * (g * k)) by (nonlinear_arith);
        assert((bd * f) * k == bd * (f * k)) by (nonlinear_arith);
        assert((ad * e) * k == ad * (e * k)) by (nonlinear_arith);
    }
    let gk = g * k;
    assert(all <= gk && -all <= gk) by (nonlinear_arith)
        requires
            c * all <= c * gk,
            -(c * all) <= c * gk,
            c > 0,
    ;
}

/// A product, where the first factor is at most `an / ad`, and the fraction near the second at
/// most `bn / bd`.
pub proof fn near_product(
    a: F32,
    b: F32,
    p: int,
    q: int,
    e: int,
    r: int,
    t: int,
    f: int,
    an: int,
    ad: int,
    bn: int,
    bd: int,
    g: int,
)
    requires
        near(a, p, q, e),
        near(b, r, t, f),
        -an * super::unit() <= a.value() * ad <= an * super::unit(),
        -bn * t <= r * bd <= bn * t,
        0 <= an,
        0 < ad,
        0 <= bn,
        0 < bd,
        0 <= e,
        0 <= f,
        a.mag() * b.mag() <= (8 * super::unit()) * super::unit(),
        (ad * bd) * g >= ad * bd + bd * (an * f) + ad * (bn * e),
    ensures
        near(super::product(a, b), p * r, q * t, g),
{
    let u = super::unit();
    let w = grain();
    grains_in_one();
    product_error(a, b);
    let (x, y) = (a.value(), b.value());
    let z = super::product(a, b).value();
    let d1 = x * q - p * u;
    let d2 = y * t - r * u;
    // The two parts of the error.
    let s1 = (x * q) * d2;
    let s2 = (r * u) * d1;
    assert((x * y) * (q * t) - (p * r) * (u * u) == s1 + s2) by (nonlinear_arith)
        requires
            d1 == x * q - p * u,
            d2 == y * t - r * u,
            s1 == (x * q) * d2,
            s2 == (r * u) * d1,
    {
        assert(s1 == (x * q) * (y * t) - (x * q) * (r * u));
        assert(s2 == (r * u) * (x * q) - (r * u) * (p * u));
        assert((x * q) * (y * t) == (x * y) * (q * t));
        assert((r * u) * (p * u) == (p * r) * (u * u));
        assert((r * u) * (x * q) == (x * q) * (r * u));
    }
    let k = (w * u) * (q * t);
    assert(k > 0 && q * t > 0) by (nonlinear_arith)
        requires
            k == (w * u) * (q * t),
            w > 0,
            u > 0,
            q > 0,
            t > 0,
    {
        assert(w * u > 0);
        assert(q * t > 0);
    }
    assert(ad * s1 <= (an * f) * k && -(ad * s1) <= (an * f) * k) by {
        let xq = (x * ad) * q;
        let lim = (an * u) * q;
        let b2 = (f * w) * t;
        assert(-lim <= xq <= lim) by (nonlinear_arith)
            requires
                xq == (x * ad) * q,
                lim == (an * u) * q,
                -an * u <= x * ad <= an * u,
                q > 0,
        ;
        assert(xq * d2 <= lim * b2 && -(xq * d2) <= lim * b2) by (nonlinear_arith)
            requires
                -lim <= xq <= lim,
                -b2 <= d2 <= b2,
        ;
        assert(lim * b2 == (an * f) * k && xq * d2 == ad * s1) by (nonlinear_arith)
            requires
                lim == (an * u) * q,
                b2 == (f * w) * t,
                k == (w * u) * (q * t),
                xq == (x * ad) * q,
                s1 == (x * q) * d2,
        ;
    }
    assert(bd * s2 <= (bn * e) * k && -(bd * s2) <= (bn * e) * k) by {
        let ru = (r * bd) * u;
        let lim = (bn * t) * u;
        let b1 = (e * w) * q;
        assert(-lim <= ru <= lim) by (nonlinear_arith)
            requires
                ru == (r * bd) * u,
                lim == (bn * t) * u,
                -bn * t <= r * bd <= bn * t,
                u > 0,
        ;
        assert(ru * d1 <= lim * b1 && -(ru * d1) <= lim * b1) by (nonlinear_arith)
            requires
                -lim <= ru <= lim,
                -b1 <= d1 <= b1,
        ;
        assert(lim * b1 == (bn * e) * k && ru * d1 == bd * s2) by (nonlinear_arith)
            requires
                lim == (bn * t) * u,
                b1 == (e * w) * q,
                k == (w * u) * (q * t),
                ru == (r * bd) * u,
                s2 == (r * u) * d1,
        ;
    }
    let big = (z * u) * (q * t) - (p * r) * (u * u);
    let off = (z * u - x * y) * (q * t);
    assert(big == off + s1 + s2) by (nonlinear_arith)
        requires
            big == (z * u) * (q * t) - (p * r) * (u * u),
            off == (z * u - x * y) * (q * t),
            (x * y) * (q * t) - (p * r) * (u * u) == s1 + s2,
    ;
    assert(-k <= off <= k) by (nonlinear_arith)
        requires
            off == (z * u - x * y) * (q * t),
            k == (w * u) * (q * t),
            -(w * u) <= z * u - x * y <= w * u,
            q * t > 0,
    ;
    lemma_error_parts(big, off, s1, s2, k, ad, bd, an * f, bn * e, g);
    let n = z * (q * t) - (p * r) * u;
    assert(big == n * u && g * k == ((g * w) * (q * t)) * u) by (nonlinear_arith)
        requires
            big == (z * u) * (q * t) - (p * r) * (u * u),
            n == z * (q * t) - (p * r) * u,
            k == (w * u) * (q * t),
    ;
    let lim = (g * w) * (q * t);
    assert(n <= lim && -n <= lim) by (nonlinear_arith)
        requires
            n * u <= lim * u,
            -(n * u) <= lim * u,
            u > 0,
    ;
}

/// A ratio of a fraction to one that is at least as large, and not below 1/85.
pub proof fn near_ratio(a: F32, b: F32, p: int, q: int, c: int, e: int, f: int)
    requires
        near(a, p, c, e),
        near(b, q, c, f),
        0 <= p <= q,
        85 * q >= c,
        0 <= e,
        0 <= f,
        e + f <= 16,
    ensures
        near(super::quotient(a, b), p, q, 86 * (e + f) + 1),
{
    let u = super::unit();
    let w = grain();
    grains_in_one();
    let (x, y) = (a.value(), b.value());
    assert(86 * y >= u) by (nonlinear_arith)
        requires
            q * u - y * c <= (f * w) * c,
            85 * q >= c,
            0 <= f <= 16,
            u == 0x40_0000 * w,
            w > 0,
            c > 0,
    {
        assert((f * w) * c <= (16 * w) * c);
        assert((85 * q) * u >= c * u);
        assert(85 * (y * c) >= c * u - 85 * ((16 * w) * c));
        assert((85 * y) * c >= (u - 1360 * w) * c);
        assert(85 * y >= u - 1360 * w);
    }
    order::magnitudes_are_not_negative(b);
    order::magnitudes_are_not_negative(a);
    let d1 = x * c - p * u;
    let d2 = y * c - q * u;
    let s = x * q - p * y;
    let m = q * ((e + f) * w);
    assert(s <= m && -s <= m) by {
        assert(c * s == q * d1 - p * d2) by (nonlinear_arith)
            requires
                s == x * q - p * y,
                d1 == x * c - p * u,
                d2 == y * c - q * u,
        ;
        let (b1, b2) = ((e * w) * c, (f * w) * c);
        assert(q * d1 <= q * b1 && -(q * d1) <= q * b1) by (nonlinear_arith)
            requires
                -b1 <= d1 <= b1,
                q >= 0,
        ;
        assert(p * d2 <= q * b2 && -(p * d2) <= q * b2) by (nonlinear_arith)
            requires
                -b2 <= d2 <= b2,
                0 <= p <= q,
        ;
        assert(q * b1 + q * b2 == c * m) by (nonlinear_arith)
            requires
                b1 == (e * w) * c,
                b2 == (f * w) * c,
                m == q * ((e + f) * w),
        ;
        assert(s <= m && -s <= m) by (nonlinear_arith)
            requires
                c * s <= c * m,
                -(c * s) <= c * m,
                c > 0,
        ;
    }
    assert(q > 0);
    assert(-8 * y <= x <= 8 * y) by (nonlinear_arith)
        requires
            s == x * q - p * y,
            s <= m,
            -s <= m,
            m == q * ((e + f) * w),
            0 <= p <= q,
            q > 0,
            0 <= e + f <= 16,
            86 * y >= u,
            u == 0x40_0000 * w,
            w > 0,
    {
        assert((e + f) * w <= 16 * w);
        assert(16 * w <= y);
        assert(m <= q * y);
        assert(0 <= p * y <= q * y);
        assert(x * q <= (2 * y) * q);
        assert(-(x * q) <= (2 * y) * q);
    }
    quotient_error(a, b);
    let k = super::quotient(a, b).value();
    let g = 86 * (e + f) + 1;
    let n = k * q - p * u;
    let lim = (g * w) * q;
    assert(n <= lim && -n <= lim) by {
        let off = k * y - x * u;
        assert(n * y == off * q + u * s) by (nonlinear_arith)
            requires
                n == k * q - p * u,
                off == k * y - x * u,
                s == x * q - p * y,
        ;
        assert(off * q <= (w * y) * q && -(off * q) <= (w * y) * q) by (nonlinear_arith)
            requires
                -(w * y) <= off <= w * y,
                q > 0,
        ;
        assert(u * s <= (86 * y) * m && -(u * s) <= (86 * y) * m) by (nonlinear_arith)
            requires
                s <= m,
                -s <= m,
                0 < u <= 86 * y,
        {
            assert(m >= 0);
            assert(u * s <= u * m);
            assert(u * (-s) <= u * m);
            assert(u * m <= (86 * y) * m);
        }
        assert((w * y) * q + (86 * y) * m == lim * y) by (nonlinear_arith)
            requires
                m == q * ((e + f) * w),
                lim == (g * w) * q,
                g == 86 * (e + f) + 1,
        ;
        assert(n <= lim && -n <= lim) by (nonlinear_arith)
            requires
                n * y <= lim * y,
                -(n * y) <= lim * y,
                y > 0,
        ;
    }
}

/// A number over a small integer.
pub proof fn near_over(a: F32, b: F32, k: int, p: int, q: int, e: int)
    requires
        near(a, p, q, e),
        0 <= e,
        1 <= k <= 8,
        b.finite(),
        !b.negative(),
        b.mag() == k * super::unit(),
        -4 * super::unit() <= a.value() <= 4 * super::unit(),
    ensures
        near(super::quotient(a, b), p, k * q, e + 1),
{
    let u = super::unit();
    let w = grain();
    grains_in_one();
    let x = a.value();
    assert(k * u >= u) by (nonlinear_arith)
        requires
            k >= 1,
            u > 0,
    ;
    quotient_error(a, b);
    let z = super::quotient(a, b).value();
    let y = b.value();
    let d = z * k - x;
    assert(d <= w * k && -d <= w * k) by (nonlinear_arith)
        requires
            z * y - x * u <= w * y,
            x * u - z * y <= w * y,
            y == k * u,
            d == z * k - x,
            u > 0,
    {
        assert(z * y == (z * k) * u);
        assert(w * y == (w * k) * u);
        assert(d * u <= (w * k) * u);
        assert((-d) * u <= (w * k) * u);
    }
    let n = z * (k * q) - p * u;
    let lim = ((e + 1) * w) * (k * q);
    assert(n <= lim && -n <= lim && k * q > 0) by (nonlinear_arith)
        requires
            n == z * (k * q) - p * u,
            lim == ((e + 1) * w) * (k * q),
            d == z * k - x,
            d <= w * k,
            -d <= w * k,
            x * q - p * u <= (e * w) * q,
            p * u - x * q <= (e * w) * q,
            q > 0,
            k >= 1,
            e >= 0,
            w > 0,
    {
        assert(n == d * q + (x * q - p * u));
        assert(d * q <= (w * k) * q);
        assert((-d) * q <= (w * k) * q);
        assert(e * w >= 0);
        assert((e * w) * q >= 0);
        assert((e * w) * q <= ((e * w) * q) * k);
        assert(lim == ((e * w) * q) * k + (w * k) * q);
    }
}

/// A number that was brought between zero and one.
pub proof fn near_clamped(x: F32, p: int, q: int, e: int)
    requires
        near(x, p, q, e),
        0 <= p <= q,
    ensures
        near(super::clamped(x, F32 { bits: 0 }, F32 { bits: ONE }), p, q, e),
        0 <= super::clamped(x, F32 { bits: 0 }, F32 { bits: ONE }).value() <= super::unit(),
{
    let u = super::unit();
    facts::zero_is_zero();
    facts::one_is_unit();
    let v = x.value();
    assert(0 <= p * u <= u * q && 0 * q == 0) by (nonlinear_arith)
        requires
            0 <= p <= q,
            u > 0,
    ;
    if v < 0 {
        assert(v * q <= 0) by (nonlinear_arith)
            requires
                v < 0,
                q > 0,
        ;
    } else if v > u {
        assert(u * q <= v * q) by (nonlinear_arith)
            requires
                v > u,
                q > 0,
        ;
    }
}

} // verus!
