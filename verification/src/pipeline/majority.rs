//! A colour that most of a zone has is almost what the zone's dominant colour is made of.

use vstd::prelude::*;
use vstd::arithmetic::power2::*;

use crate::float;
use crate::float::facts;
use crate::float::near;
use crate::float::round;
use crate::float::F32;

use super::dominant;
use super::dominant::{K, MAX_ITERS};
use super::linear;
use super::linear::{Linear, TransferTables};
use super::reduce::Channel;
use super::solid;
use super::LedColor;

verus! {

/// A channel of a colour in linear light.
pub open spec fn light_of(l: Linear, ch: Channel) -> F32 {
    match ch {
        Channel::Red => l.r,
        Channel::Green => l.g,
        Channel::Blue => l.b,
    }
}

/// The unit that errors are counted in: 2^-23, in units of 2^-149.
pub open spec fn speck() -> int {
    pow2(126) as int
}

pub proof fn lemma_specks_in_one()
    ensures
        float::unit() == 0x80_0000 * speck(),
        near::grain() == 2 * speck(),
        speck() > 0,
{
    lemma2_to64();
    lemma_pow2_adds(23, 126);
    lemma_pow2_adds(1, 126);
    lemma_pow2_pos(126);
}

/// Adding the light of one more pixel to that of `k` is off by at most `k + 1` specks.
pub proof fn lemma_one_more(s: F32, v: F32, k: int)
    requires
        s.finite(),
        !s.negative(),
        linear::is_light(v),
        0 <= k < 0x40_0000,
        0 <= s.mag() <= k * float::unit() + (k * k) * speck(),
    ensures
        ({
            let r = float::sum(s, v);
            &&& r.finite()
            &&& !r.negative()
            &&& 0 <= r.mag()
            &&& r.mag() <= s.mag() + v.mag() + (k + 1) * speck()
            &&& s.mag() + v.mag() <= r.mag() + (k + 1) * speck()
        }),
{
    let u = float::unit();
    let g = speck();
    let num = s.mag() + v.mag();
    lemma_specks_in_one();
    facts::zero_is_zero();
    round::lemma_monotone(0, v.mag_bits());
    assert((k * k) * g <= k * (0x40_0000 * g) && (k + 1) * g >= g && k * (0x80_0000 * g) + 0x80_0000
        * g == (k + 1) * (0x80_0000 * g) && k * (0x40_0000 * g) <= (k + 1) * (0x40_0000 * g)
        && (k + 1) * (0x80_0000 * g) == 0x80_0000 * ((k + 1) * g) && (k + 1) * (0x40_0000 * g)
        == 0x40_0000 * ((k + 1) * g)) by (nonlinear_arith)
        requires
            0 <= k < 0x40_0000,
            g > 0,
    ;
    let e = (k + 1) * g;
    assert(num <= 0xC0_0000 * e);
    assert(e <= 0x40_0000 * g) by (nonlinear_arith)
        requires
            e == (k + 1) * g,
            k < 0x40_0000,
            g > 0,
    ;
    lemma2_to64();
    lemma_pow2_adds(46, 126);
    lemma_pow2_adds(22, 24);
    assert(pow2(172) == 0x4000_0000_0000 * g) by (nonlinear_arith)
        requires
            pow2(172) == pow2(46) * pow2(126),
            pow2(46) == 0x4000_0000_0000,
            g == pow2(126),
    ;
    facts::overshoot(num, 1, 150);
    let m = float::magnitude(float::nearest(num, 1) as int);
    round::lemma_monotone(0, float::nearest(num, 1) as int);
    if num < 0x200_0000 {
        facts::overshoot(num, 1, 3);
        facts::undershoot(num, 1, 3);
    } else {
        facts::relative_error(num, 1);
    }
}

/// The light in the cluster that a colour falls to: what the colour's own pixels bring, and
/// between nothing and one for every other pixel, but for rounding.
proof fn lemma_cluster_light(
    centers: Seq<Linear>,
    pixels: Seq<Linear>,
    x: Linear,
    ch: Channel,
)
    requires
        centers.len() > 0,
        pixels.len() <= 0x40_0000,
        linear::is_light(light_of(x, ch)),
        forall|i: int|
            0 <= i < pixels.len() ==> linear::is_light(light_of(#[trigger] pixels[i], ch)),
    ensures
        ({
            let w = dominant::nearest_among(centers, x, centers.len() as int);
            let c = dominant::clusters(centers, pixels)[w];
            let s = light_of(c.sum, ch);
            let h = dominant::held(pixels, x);
            let v = light_of(x, ch).mag();
            let k = c.count;
            &&& s.finite()
            &&& !s.negative()
            &&& 0 <= s.mag()
            &&& 0 <= h <= k <= pixels.len()
            &&& s.mag() <= h * v + (k - h) * float::unit() + (k * k) * speck()
            &&& h * v <= s.mag() + (k * k) * speck()
        }),
    decreases pixels.len(),
{
    let n = centers.len() as int;
    let w = dominant::nearest_among(centers, x, n);
    let u = float::unit();
    let g = speck();
    let v = light_of(x, ch).mag();
    lemma_specks_in_one();
    facts::zero_is_zero();
    dominant::lemma_nearest_bound(centers, x, n);
    if pixels.len() == 0 {
        assert(0 * v == 0 && 0 * u == 0 && (0 * 0) * g == 0) by (nonlinear_arith);
    } else {
        let rest = pixels.drop_last();
        let p = pixels.last();
        let before = dominant::clusters(centers, rest);
        assert forall|i: int| 0 <= i < rest.len() implies linear::is_light(
            light_of(#[trigger] rest[i], ch),
        ) by {
            assert(rest[i] == pixels[i]);
        }
        lemma_cluster_light(centers, rest, x, ch);
        dominant::lemma_clusters_len(centers, rest);
        dominant::lemma_nearest_bound(centers, p, n);
        assert(linear::is_light(light_of(pixels[pixels.len() - 1], ch)));
        if dominant::nearest_among(centers, p, n) == w {
            let s = light_of(before[w].sum, ch);
            let k = before[w].count;
            let h = dominant::held(rest, x);
            let a = light_of(p, ch);
            round::lemma_monotone(0, a.mag_bits());
            assert(h * v <= h * u && h * u + (k - h) * u == k * u) by (nonlinear_arith)
                requires
                    0 <= h,
                    v <= u,
            ;
            lemma_one_more(s, a, k);
            assert((k * k) * g + (k + 1) * g <= ((k + 1) * (k + 1)) * g && (h + 1) * v == h * v + v
                && (k + 1 - h) * u == (k - h) * u + u) by (nonlinear_arith)
                requires
                    0 <= k,
                    g > 0,
            {
                assert((k * k) + (k + 1) <= (k + 1) * (k + 1));
                assert(((k * k) + (k + 1)) * g == (k * k) * g + (k + 1) * g);
            }
        }
    }
}

/// Dividing by the number of pixels adds at most two specks.
pub proof fn lemma_mean(s: F32, k: int)
    requires
        s.finite(),
        !s.negative(),
        1 <= k <= 0x40_0000,
        0 <= s.mag() <= 8 * (k * float::unit()),
    ensures
        ({
            let q = float::quotient(s, float::from_int(k));
            &&& q.finite()
            &&& !q.negative()
            &&& 0 <= q.mag()
            &&& k * q.mag() <= s.mag() + (2 * k) * speck()
            &&& s.mag() <= k * q.mag() + (2 * k) * speck()
        }),
{
    let u = float::unit();
    let g = speck();
    let count = float::from_int(k);
    lemma_specks_in_one();
    facts::small_integers_are_exact(k);
    let cm = count.mag();
    assert(cm > 0) by (nonlinear_arith)
        requires
            cm == k * u,
            k >= 1,
            u > 0,
    ;
    near::quotient_error(s, count);
    let q = float::quotient(s, count);
    assert(s.mag() * u >= 0) by (nonlinear_arith)
        requires
            s.mag() >= 0,
            u > 0,
    ;
    facts::nearest_exists(s.mag() * u, cm);
    round::lemma_monotone(0, q.mag_bits());
    let qm = q.mag();
    let sm = s.mag();
    let kq = k * qm;
    let kg = (2 * k) * g;
    assert(kq <= sm + kg && sm <= kq + kg) by (nonlinear_arith)
        requires
            qm * (k * u) - sm * u <= (2 * g) * (k * u),
            sm * u - qm * (k * u) <= (2 * g) * (k * u),
            kq == k * qm,
            kg == (2 * k) * g,
            u > 0,
    {
        assert(qm * (k * u) == kq * u);
        assert((2 * g) * (k * u) == kg * u);
        assert((kq - sm - kg) * u <= 0);
        assert((sm - kq - kg) * u <= 0);
    }
}

/// What holds of a mean holds of the whole, where the other pixels of the whole are strangers
/// too.
proof fn lemma_whole(d: int, k: int, h: int, n: int)
    requires
        1 <= k <= n,
        0 <= h <= k,
        k * d <= (k - h) * float::unit() + (k * (k + 2)) * speck(),
    ensures
        n * d <= (n - h) * float::unit() + (n * (n + 2)) * speck(),
{
    let u = float::unit();
    let g = speck();
    lemma_specks_in_one();
    let a = (k - h) * u;
    let b = (n - h) * u;
    let e = (k * (k + 2)) * g;
    let f = (n * (n + 2)) * g;
    assert(n * a <= k * b) by (nonlinear_arith)
        requires
            a == (k - h) * u,
            b == (n - h) * u,
            1 <= k <= n,
            0 <= h,
            u > 0,
    {
        assert(n * (k - h) <= k * (n - h)) by {
            assert(h * k <= h * n);
        }
        assert((n * (k - h)) * u <= (k * (n - h)) * u);
        assert(n * ((k - h) * u) == (n * (k - h)) * u);
        assert(k * ((n - h) * u) == (k * (n - h)) * u);
    }
    assert(n * e <= k * f) by (nonlinear_arith)
        requires
            e == (k * (k + 2)) * g,
            f == (n * (n + 2)) * g,
            1 <= k <= n,
            g > 0,
    {
        let c = n * k;
        assert(c * (k + 2) <= c * (n + 2)) by {
            assert(c > 0);
        }
        assert((c * (k + 2)) * g <= (c * (n + 2)) * g);
        assert(n * ((k * (k + 2)) * g) == (c * (k + 2)) * g);
        assert(k * ((n * (n + 2)) * g) == (c * (n + 2)) * g);
    }
    assert(n * d <= b + f) by (nonlinear_arith)
        requires
            k * d <= a + e,
            n * a <= k * b,
            n * e <= k * f,
            1 <= k <= n,
    {
        assert(n * (k * d) <= n * (a + e));
        assert(n * (a + e) == n * a + n * e);
        assert(n * (k * d) == k * (n * d));
        assert(k * (b + f) == k * b + k * f);
        assert(k * (n * d) <= k * (b + f));
    }
}

/// The mean of a cluster that holds a colour.
proof fn lemma_mean_of_cluster(s: F32, v: int, k: int, h: int, n: int)
    requires
        s.finite(),
        !s.negative(),
        1 <= k <= n <= 0x40_0000,
        0 <= h <= k,
        0 <= v <= float::unit(),
        0 <= s.mag() <= h * v + (k - h) * float::unit() + (k * k) * speck(),
        h * v <= s.mag() + (k * k) * speck(),
    ensures
        ({
            let q = float::quotient(s, float::from_int(k));
            &&& q.finite()
            &&& !q.negative()
            &&& n * (q.mag() - v) <= (n - h) * float::unit() + (n * (n + 2)) * speck()
            &&& n * (v - q.mag()) <= (n - h) * float::unit() + (n * (n + 2)) * speck()
        }),
{
    let u = float::unit();
    let g = speck();
    lemma_specks_in_one();
    assert(h * v <= h * u && h * u + (k - h) * u == k * u && (k - h) * v <= (k - h) * u && h * v + (k
        - h) * v == k * v && 0 <= (k - h) * v) by (nonlinear_arith)
        requires
            0 <= h <= k,
            0 <= v <= u,
    ;
    assert((k * k) * g <= k * u && k * u >= 0) by (nonlinear_arith)
        requires
            1 <= k <= 0x40_0000,
            u == 0x80_0000 * g,
            g > 0,
    {
        assert(k * g <= 0x40_0000 * g);
        assert((k * k) * g == k * (k * g));
        assert(k * (k * g) <= k * (0x40_0000 * g));
    }
    lemma_mean(s, k);
    let q = float::quotient(s, float::from_int(k)).mag();
    assert((k * (k + 2)) * g == (k * k) * g + (2 * k) * g && k * (q - v) == k * q - k * v && k * (v
        - q) == k * v - k * q) by (nonlinear_arith);
    lemma_whole(q - v, k, h, n);
    lemma_whole(v - q, k, h, n);
}

/// A colour that more than half of the pixels have is recovered up to what the others can do: in
/// every channel, the light of the dominant colour differs from this colour's by at most the
/// share that the other pixels have in the whole. Rounding adds at most `(n + 2) / 2^23` for `n`
/// pixels, of which there are at most 2^22.
pub proof fn majority_light_is_recovered(
    t: TransferTables,
    pixels: Seq<LedColor>,
    x: LedColor,
    ch: Channel,
)
    requires
        t.valid(),
        pixels.len() <= 0x40_0000,
        2 * dominant::held(pixels, x) > pixels.len(),
    ensures
        ({
            let light = dominant::dominant_light(t, pixels);
            let got = light_of(light, ch);
            let want = light_of(t.linear(x), ch);
            let n = pixels.len() as int;
            let others = n - dominant::held(pixels, x);
            let bound = (0x80_0000 * others + n * (n + 2)) * float::unit();
            &&& dominant::dominant(t, pixels) == dominant::encoded(t, light)
            &&& got.finite()
            &&& !got.negative()
            &&& 0x80_0000 * (n * (got.mag() - want.mag())) <= bound
            &&& 0x80_0000 * (n * (want.mag() - got.mag())) <= bound
        }),
{
    let all = dominant::linear_pixels(t, pixels);
    let centers = dominant::last_centers(dominant::seeds(), all, MAX_ITERS as nat);
    let l = t.linear(x);
    let w = dominant::nearest_among(centers, l, K as int);
    let n = pixels.len() as int;
    let u = float::unit();
    let g = speck();
    lemma_light_of_color(t, x, ch);
    assert forall|i: int| 0 <= i < all.len() implies linear::is_light(
        light_of(#[trigger] all[i], ch),
    ) by {
        lemma_light_of_color(t, pixels[i], ch);
    }
    dominant::majority_color_is_in_the_winning_cluster(t, pixels, x);
    dominant::lemma_last_round(dominant::seeds(), all, MAX_ITERS as nat);
    dominant::lemma_held_in_light(t, pixels, x);
    lemma_cluster_light(centers, all, l, ch);
    let c = dominant::clusters(centers, all)[w];
    let few = dominant::held(pixels, x);
    let h = dominant::held(all, l);
    let v = light_of(l, ch).mag();
    round::lemma_monotone(0, light_of(l, ch).mag_bits());
    lemma_specks_in_one();
    lemma_mean_of_cluster(light_of(c.sum, ch), v, c.count, h, n);
    let bound = (0x80_0000 * (n - few) + n * (n + 2)) * u;
    assert(0x80_0000 * ((n - h) * u + (n * (n + 2)) * g) <= bound) by (nonlinear_arith)
        requires
            bound == (0x80_0000 * (n - few) + n * (n + 2)) * u,
            few <= h,
            u == 0x80_0000 * g,
            g > 0,
    {
        assert((n - h) * u <= (n - few) * u);
        assert(0x80_0000 * ((n * (n + 2)) * g) == (n * (n + 2)) * (0x80_0000 * g));
        assert((0x80_0000 * (n - few)) * u == 0x80_0000 * ((n - few) * u));
    }
}

/// The light of a colour lies between zero and one.
pub proof fn lemma_light_of_color(t: TransferTables, c: LedColor, ch: Channel)
    requires
        t.valid(),
    ensures
        linear::is_light(light_of(t.linear(c), ch)),
{
    solid::lemma_table_values(t, c.r as int);
    solid::lemma_table_values(t, c.g as int);
    solid::lemma_table_values(t, c.b as int);
}

} // verus!
