//! The dominant colour is the mean of the largest of clusters that have settled.

use vstd::prelude::*;
use vstd::arithmetic::power2::*;

use crate::float;
use crate::float::facts;
use crate::float::near;
use crate::float::order;
use crate::float::round;
use crate::float::{F32, ONE};

use super::dominant;
use super::dominant::Cluster;
use super::linear;
use super::linear::{Linear, TransferTables};
use super::majority;
use super::reduce::Channel;
use super::solid;
use super::LedColor;

verus! {

/// Whether centre `j` is nearest to a colour, and the first of those that are.
pub open spec fn is_first_nearest(centers: Seq<Linear>, p: Linear, j: int) -> bool {
    &&& 0 <= j < centers.len()
    &&& forall|i: int|
        #![trigger centers[i]]
        0 <= i < centers.len() ==> dominant::distance(centers[j], p).value()
            <= dominant::distance(centers[i], p).value()
    &&& forall|i: int|
        #![trigger centers[i]]
        0 <= i < j ==> dominant::distance(centers[j], p).value() < dominant::distance(
            centers[i],
            p,
        ).value()
}

/// The colours to which centre `j` is nearest.
pub open spec fn members(centers: Seq<Linear>, pixels: Seq<Linear>, j: int) -> Seq<Linear> {
    pixels.filter(|p: Linear| is_first_nearest(centers, p, j))
}

/// The sum of something over a number of colours.
pub open spec fn total(pixels: Seq<Linear>, of: spec_fn(Linear) -> int) -> int {
    pixels.fold_left(0int, |s: int, p: Linear| s + of(p))
}

/// Whether a number is the mean of `n` numbers whose sum is given, up to `(n + 2) / 2^23`.
pub open spec fn is_mean(x: F32, sum: int, n: int) -> bool {
    &&& x.finite()
    &&& !x.negative()
    &&& 0x80_0000 * (n * x.mag() - sum) <= (n * (n + 2)) * float::unit()
    &&& 0x80_0000 * (sum - n * x.mag()) <= (n * (n + 2)) * float::unit()
}

/// Whether every centre has moved to the mean of the colours to which it was nearest; one without
/// such colours stays where it was.
#[verifier::opaque]
pub open spec fn is_moved(before: Seq<Linear>, after: Seq<Linear>, pixels: Seq<Linear>) -> bool {
    &&& after.len() == before.len()
    &&& forall|j: int|
        #![trigger after[j]]
        #![trigger before[j]]
        0 <= j < before.len() ==> {
            let mine = members(before, pixels, j);
            let n = mine.len() as int;
            if n == 0 {
                after[j] == before[j]
            } else {
                &&& is_mean(after[j].r, total(mine, |p: Linear| p.r.mag()), n)
                &&& is_mean(after[j].g, total(mine, |p: Linear| p.g.mag()), n)
                &&& is_mean(after[j].b, total(mine, |p: Linear| p.b.mag()), n)
            }
        }
}

/// Whether every centre that has colours has moved by less than 0.004.
#[verifier::opaque]
pub open spec fn is_calm(before: Seq<Linear>, after: Seq<Linear>, pixels: Seq<Linear>) -> bool {
    let bound = F32 { bits: 0x3B83_126F };
    forall|j: int|
        #![trigger after[j]]
        #![trigger before[j]]
        0 <= j < before.len() && members(before, pixels, j).len() > 0 ==> dominant::distance(
            after[j],
            before[j],
        ).value() < float::product(bound, bound).value()
}

/// Whether a colour lies between zero and two in every channel.
spec fn tame(l: Linear) -> bool {
    l.r.bits <= 0x4000_0000 && l.g.bits <= 0x4000_0000 && l.b.bits <= 0x4000_0000
}

/// Whether the channels of a colour are light.
spec fn lit(l: Linear) -> bool {
    linear::is_light(l.r) && linear::is_light(l.g) && linear::is_light(l.b)
}

proof fn lemma_squared_gap(a: F32, b: F32)
    requires
        a.bits <= 0x4000_0000,
        b.bits <= 0x4000_0000,
    ensures
        ({
            let d = float::difference(a, b);
            float::product(d, d).bits <= 0x4080_0000
        }),
{
    let u = float::unit();
    facts::one_is_unit();
    facts::zero_is_zero();
    lemma2_to64();
    solid::lemma_power_pattern(128);
    solid::lemma_power_pattern(129);
    lemma_pow2_adds(1, 149);
    lemma_pow2_adds(2, 149);
    round::lemma_monotone(0, a.bits as int);
    round::lemma_monotone(a.bits as int, 0x4000_0000);
    round::lemma_monotone(0, b.bits as int);
    round::lemma_monotone(b.bits as int, 0x4000_0000);
    let d = float::difference(a, b);
    let gap = if a.mag() < b.mag() {
        b.mag() - a.mag()
    } else {
        a.mag() - b.mag()
    };
    assert(float::negation(b).value() == -b.mag());
    facts::rounding_stays_below(gap, 1, 0x4000_0000);
    if gap == 0 {
        facts::rounding_stays_below(0, 1, 0);
    }
    assert(d.mag_bits() == float::nearest(gap, 1));
    let m = d.mag();
    round::lemma_monotone(0, d.mag_bits());
    round::lemma_monotone(d.mag_bits(), 0x4000_0000);
    assert(float::product(d, d) == (F32 { bits: float::nearest(m * m, u) }));
    assert(0 <= m * m <= (4 * u) * u) by (nonlinear_arith)
        requires
            0 <= m <= 2 * u,
    ;
    facts::rounding_stays_below(m * m, u, 0x4080_0000);
}

/// The distance of two tame colours is a number.
proof fn lemma_distance_is_finite(a: Linear, b: Linear)
    requires
        tame(a),
        tame(b),
    ensures
        dominant::distance(a, b).finite(),
        !dominant::distance(a, b).negative(),
{
    lemma_squared_gap(a.r, b.r);
    lemma_squared_gap(a.g, b.g);
    lemma_squared_gap(a.b, b.b);
    let dr = float::difference(a.r, b.r);
    let dg = float::difference(a.g, b.g);
    let db = float::difference(a.b, b.b);
    let r = float::product(dr, dr);
    let g = float::product(dg, dg);
    solid::lemma_sum_of_two(r, g, 129);
    solid::lemma_sum_of_two(float::sum(r, g), float::product(db, db), 130);
}

/// The distance of two colours is the sum of the squared differences of their channels, up to
/// 2^-17.
pub proof fn distance_is_the_squared_distance(a: Linear, b: Linear)
    requires
        a.r.finite() && a.g.finite() && a.b.finite(),
        b.r.finite() && b.g.finite() && b.b.finite(),
        0 <= 5 * a.r.value() <= 8 * float::unit(),
        0 <= 5 * a.g.value() <= 8 * float::unit(),
        0 <= 5 * a.b.value() <= 8 * float::unit(),
        0 <= 5 * b.r.value() <= 8 * float::unit(),
        0 <= 5 * b.g.value() <= 8 * float::unit(),
        0 <= 5 * b.b.value() <= 8 * float::unit(),
    ensures
        ({
            let r = a.r.value() - b.r.value();
            let g = a.g.value() - b.g.value();
            let l = a.b.value() - b.b.value();
            let exact = r * r + g * g + l * l;
            let d = dominant::distance(a, b);
            &&& d.finite()
            &&& 0x2_0000 * (d.value() * float::unit() - exact) <= float::unit() * float::unit()
            &&& 0x2_0000 * (exact - d.value() * float::unit()) <= float::unit() * float::unit()
        }),
{
    let u = float::unit();
    let w = near::grain();
    near::grains_in_one();
    lemma_square_of_difference(a.r, b.r);
    lemma_square_of_difference(a.g, b.g);
    lemma_square_of_difference(a.b, b.b);
    let dr = float::difference(a.r, b.r);
    let dg = float::difference(a.g, b.g);
    let db = float::difference(a.b, b.b);
    let x = float::product(dr, dr);
    let y = float::product(dg, dg);
    let z = float::product(db, db);
    near::sum_error(x, y);
    let xy = float::sum(x, y);
    near::sum_error(xy, z);
    let d = float::sum(xy, z);
    let e = d.value() - (x.value() + y.value() + z.value());
    assert(-2 * w <= e <= 2 * w);
    let uw = u * w;
    assert(d.value() * u == x.value() * u + y.value() * u + z.value() * u + e * u && -(2 * uw) <= e
        * u <= 2 * uw && u * u == 0x40_0000 * uw && uw > 0) by (nonlinear_arith)
        requires
            e == d.value() - (x.value() + y.value() + z.value()),
            -2 * w <= e <= 2 * w,
            uw == u * w,
            u == 0x40_0000 * w,
            w > 0,
    ;
}

/// The square of a difference is off by at most six grains.
proof fn lemma_square_of_difference(a: F32, b: F32)
    requires
        a.finite(),
        b.finite(),
        0 <= 5 * a.value() <= 8 * float::unit(),
        0 <= 5 * b.value() <= 8 * float::unit(),
    ensures
        ({
            let d = float::difference(a, b);
            let s = float::product(d, d);
            let t = a.value() - b.value();
            &&& s.finite()
            &&& -near::grain() <= s.value()
            &&& 100 * s.value() <= 257 * float::unit()
            &&& s.value() * float::unit() - t * t <= 6 * (float::unit() * near::grain())
            &&& t * t - s.value() * float::unit() <= 6 * (float::unit() * near::grain())
        }),
{
    let u = float::unit();
    let w = near::grain();
    near::grains_in_one();
    order::negated_value(b);
    near::sum_error(a, float::negation(b));
    let d = float::difference(a, b);
    let t = a.value() - b.value();
    let v = d.value();
    order::magnitudes_are_not_negative(d);
    assert(d.mag() * d.mag() == v * v) by (nonlinear_arith)
        requires
            v == d.mag() || v == -d.mag(),
    ;
    assert(v * v <= (8 * u) * u && v * v - t * t <= 5 * (u * w) && t * t - v * v <= 5 * (u * w)
        && 25 * (t * t) <= 64 * (u * u)) by (nonlinear_arith)
        requires
            -8 * u <= 5 * t <= 8 * u,
            -w <= v - t <= w,
            u == 0x40_0000 * w,
            w > 0,
    {
        let o = v - t;
        assert(v * v - t * t == o * (v + t));
        assert(-4 * u <= v + t <= 4 * u);
        assert(o * (v + t) <= w * (4 * u)) by {
            assert(o <= w && -o <= w);
            if v + t >= 0 {
                assert(o * (v + t) <= w * (v + t));
                assert(w * (v + t) <= w * (4 * u));
            } else {
                assert((-o) * (-(v + t)) <= w * (-(v + t)));
                assert(w * (-(v + t)) <= w * (4 * u));
                assert((-o) * (-(v + t)) == o * (v + t));
            }
        }
        assert(-(o * (v + t)) <= w * (4 * u)) by {
            if v + t >= 0 {
                assert((-o) * (v + t) <= w * (v + t));
                assert(w * (v + t) <= w * (4 * u));
                assert((-o) * (v + t) == -(o * (v + t)));
            } else {
                assert(o * (-(v + t)) <= w * (-(v + t)));
                assert(w * (-(v + t)) <= w * (4 * u));
                assert(o * (-(v + t)) == -(o * (v + t)));
            }
        }
        assert(w * (4 * u) == 4 * (u * w));
        assert((5 * t) * (5 * t) <= (8 * u) * (8 * u)) by {
            if t >= 0 {
                assert((5 * t) * (5 * t) <= (8 * u) * (5 * t));
                assert((8 * u) * (5 * t) <= (8 * u) * (8 * u));
            } else {
                assert((-(5 * t)) * (-(5 * t)) <= (8 * u) * (-(5 * t)));
                assert((8 * u) * (-(5 * t)) <= (8 * u) * (8 * u));
                assert((-(5 * t)) * (-(5 * t)) == (5 * t) * (5 * t));
            }
        }
        assert(v * v <= t * t + 4 * (u * w));
        assert(u * u == 0x40_0000 * (u * w));
        assert(u * w > 0);
    }
    near::product_error(d, d);
    let s = float::product(d, d).value();
    assert(w * u == u * w) by (nonlinear_arith);
    assert(0 <= v * v && 0 <= t * t) by (nonlinear_arith);
    assert(-w <= s && 100 * s <= 257 * u) by (nonlinear_arith)
        requires
            v * v - s * u <= u * w,
            s * u - t * t <= 6 * (u * w),
            0 <= v * v,
            25 * (t * t) <= 64 * (u * u),
            u == 0x40_0000 * w,
            w > 0,
    {
        assert((-w) * u == -(u * w));
        assert((-w) * u <= s * u);
        assert(u * u == 0x40_0000 * (u * w));
        assert((100 * s) * u <= (257 * u) * u) by {
            assert(u * w > 0);
            assert((100 * s) * u == 100 * (s * u));
            assert((257 * u) * u == 257 * (u * u));
        }
    }
}

/// The nearest centre is the first of the nearest, and no other is.
proof fn lemma_nearest(centers: Seq<Linear>, p: Linear, n: int)
    requires
        1 <= n <= centers.len(),
        forall|i: int|
            0 <= i < centers.len() ==> dominant::distance(#[trigger] centers[i], p).finite(),
    ensures
        ({
            let w = dominant::nearest_among(centers, p, n);
            &&& 0 <= w < n
            &&& forall|i: int|
                #![trigger centers[i]]
                0 <= i < n ==> dominant::distance(centers[w], p).value() <= dominant::distance(
                    centers[i],
                    p,
                ).value()
            &&& forall|i: int|
                #![trigger centers[i]]
                0 <= i < w ==> dominant::distance(centers[w], p).value() < dominant::distance(
                    centers[i],
                    p,
                ).value()
        }),
    decreases n,
{
    if n > 1 {
        lemma_nearest(centers, p, n - 1);
        assert(dominant::distance(centers[n - 1], p).finite());
        assert(dominant::distance(
            centers[dominant::nearest_among(centers, p, n - 1)],
            p,
        ).finite());
    }
}

proof fn lemma_one_nearest(centers: Seq<Linear>, p: Linear, j: int)
    requires
        centers.len() > 0,
        forall|i: int|
            0 <= i < centers.len() ==> dominant::distance(#[trigger] centers[i], p).finite(),
    ensures
        is_first_nearest(centers, p, j) <==> j == dominant::nearest_among(
            centers,
            p,
            centers.len() as int,
        ),
{
    lemma_nearest(centers, p, centers.len() as int);
    let w = dominant::nearest_among(centers, p, centers.len() as int);
    if is_first_nearest(centers, p, j) {
        assert(dominant::distance(centers[j], p).value() <= dominant::distance(
            centers[w],
            p,
        ).value());
        assert(dominant::distance(centers[w], p).value() <= dominant::distance(
            centers[j],
            p,
        ).value());
    }
}

/// Every colour is sorted to the first of the centres nearest to it.
pub proof fn colors_are_sorted_to_a_nearest_center(centers: Seq<Linear>, p: Linear, j: int)
    requires
        centers.len() > 0,
        linear::is_light(p.r) && linear::is_light(p.g) && linear::is_light(p.b),
        forall|i: int|
            #![trigger centers[i]]
            0 <= i < centers.len() ==> {
                &&& centers[i].r.bits <= 0x4000_0000
                &&& centers[i].g.bits <= 0x4000_0000
                &&& centers[i].b.bits <= 0x4000_0000
            },
    ensures
        is_first_nearest(centers, p, j) <==> j == dominant::nearest_among(
            centers,
            p,
            centers.len() as int,
        ),
{
    lemma_light_is_tame(p);
    assert forall|i: int| 0 <= i < centers.len() implies dominant::distance(
        #[trigger] centers[i],
        p,
    ).finite() by {
        lemma_distance_is_finite(centers[i], p);
    }
    lemma_one_nearest(centers, p, j);
}

proof fn lemma_light_is_tame(p: Linear)
    requires
        lit(p),
    ensures
        tame(p),
{
    facts::one_is_unit();
    lemma_light_bits(p.r);
    lemma_light_bits(p.g);
    lemma_light_bits(p.b);
}

proof fn lemma_light_bits(x: F32)
    requires
        linear::is_light(x),
    ensures
        x.bits <= ONE + 0x7F_FFFF,
        x.bits <= 0x4000_0000,
{
    facts::one_is_unit();
    lemma2_to64();
    solid::lemma_power_pattern(128);
    lemma_pow2_adds(1, 149);
    if x.bits > 0x4000_0000 {
        round::lemma_monotone(0x4000_0000, x.bits as int);
    }
    if x.bits > ONE + 0x7F_FFFF {
        round::lemma_monotone(0x4000_0000, x.bits as int);
    }
}

proof fn lemma_members_step(centers: Seq<Linear>, pixels: Seq<Linear>, j: int)
    requires
        pixels.len() > 0,
    ensures
        members(centers, pixels, j) == if is_first_nearest(centers, pixels.last(), j) {
            members(centers, pixels.drop_last(), j).push(pixels.last())
        } else {
            members(centers, pixels.drop_last(), j)
        },
{
    reveal(Seq::filter);
}

/// What a further colour makes of a cluster.
#[verifier::rlimit(40)]
proof fn lemma_cluster_step(centers: Seq<Linear>, pixels: Seq<Linear>, j: int)
    requires
        0 <= j < centers.len(),
        pixels.len() > 0,
        forall|i: int| 0 <= i < centers.len() ==> tame(#[trigger] centers[i]),
        lit(pixels.last()),
    ensures
        ({
            let rest = pixels.drop_last();
            let p = pixels.last();
            let before = dominant::clusters(centers, rest)[j];
            let after = dominant::clusters(centers, pixels)[j];
            let mine = members(centers, rest, j);
            ||| after == dominant::joined(before, p) && members(centers, pixels, j) == mine.push(p)
            ||| after == before && members(centers, pixels, j) == mine
        }),
{
    let n = centers.len() as int;
    let p = pixels.last();
    colors_are_sorted_to_a_nearest_center(centers, p, j);
    lemma_members_step(centers, pixels, j);
    dominant::lemma_clusters_len(centers, pixels.drop_last());
    dominant::lemma_nearest_bound(centers, p, n);
}

/// How far a sum can be off after one more light.
proof fn lemma_grown(s: F32, a: F32, k: int, sum: int)
    requires
        s.finite(),
        !s.negative(),
        0 <= s.mag(),
        linear::is_light(a),
        0 <= k < 0x40_0000,
        0 <= sum <= k * float::unit(),
        s.mag() <= sum + (k * k) * majority::speck(),
        sum <= s.mag() + (k * k) * majority::speck(),
    ensures
        ({
            let r = float::sum(s, a);
            let next = sum + a.mag();
            &&& r.finite()
            &&& !r.negative()
            &&& 0 <= r.mag()
            &&& 0 <= next <= (k + 1) * float::unit()
            &&& r.mag() <= next + ((k + 1) * (k + 1)) * majority::speck()
            &&& next <= r.mag() + ((k + 1) * (k + 1)) * majority::speck()
        }),
{
    let u = float::unit();
    let g = majority::speck();
    majority::lemma_specks_in_one();
    round::lemma_monotone(0, a.mag_bits());
    majority::lemma_one_more(s, a, k);
    assert((k * k) * g + (k + 1) * g <= ((k + 1) * (k + 1)) * g && (k + 1) * u == k * u + u)
        by (nonlinear_arith)
        requires
            0 <= k,
            g > 0,
    {
        assert((k * k) + (k + 1) <= (k + 1) * (k + 1));
        assert(((k * k) + (k + 1)) * g == (k * k) * g + (k + 1) * g);
    }
}

/// Whether a cluster holds a number of colours and their sum in a channel, off by as much as adding
/// them up one after the other can be.
#[verifier::opaque]
spec fn holds(c: Cluster, mine: Seq<Linear>, ch: Channel, of: spec_fn(Linear) -> int) -> bool {
    let s = majority::light_of(c.sum, ch);
    let k = mine.len() as int;
    let sum = total(mine, of);
    &&& c.count == k
    &&& s.finite()
    &&& !s.negative()
    &&& 0 <= s.mag()
    &&& 0 <= sum <= k * float::unit()
    &&& s.mag() <= sum + (k * k) * majority::speck()
    &&& sum <= s.mag() + (k * k) * majority::speck()
}

proof fn lemma_holds_nothing(ch: Channel, of: spec_fn(Linear) -> int)
    ensures
        holds(dominant::empty_cluster(), Seq::empty(), ch, of),
{
    let g = majority::speck();
    let u = float::unit();
    reveal(holds);
    facts::zero_is_zero();
    assert((0 * 0) * g == 0 && 0 * u == 0) by (nonlinear_arith);
}

proof fn lemma_holds_one_more(
    c: Cluster,
    mine: Seq<Linear>,
    p: Linear,
    ch: Channel,
    of: spec_fn(Linear) -> int,
)
    requires
        holds(c, mine, ch, of),
        lit(p),
        of(p) == majority::light_of(p, ch).mag(),
        mine.len() < 0x40_0000,
    ensures
        holds(dominant::joined(c, p), mine.push(p), ch, of),
{
    reveal(holds);
    assert(mine.push(p).drop_last() =~= mine);
    lemma_grown(
        majority::light_of(c.sum, ch),
        majority::light_of(p, ch),
        mine.len() as int,
        total(mine, of),
    );
}

/// What a cluster holds: the number of its members, and their sum in a channel.
#[verifier::rlimit(40)]
proof fn lemma_cluster(
    centers: Seq<Linear>,
    pixels: Seq<Linear>,
    j: int,
    ch: Channel,
    of: spec_fn(Linear) -> int,
)
    requires
        0 <= j < centers.len(),
        pixels.len() <= 0x40_0000,
        forall|i: int| 0 <= i < centers.len() ==> tame(#[trigger] centers[i]),
        forall|i: int| 0 <= i < pixels.len() ==> lit(#[trigger] pixels[i]),
        forall|p: Linear| #[trigger] of(p) == majority::light_of(p, ch).mag(),
    ensures
        holds(dominant::clusters(centers, pixels)[j], members(centers, pixels, j), ch, of),
        dominant::clusters(centers, pixels)[j].count == members(centers, pixels, j).len(),
        members(centers, pixels, j).len() <= pixels.len(),
    decreases pixels.len(),
{
    if pixels.len() == 0 {
        reveal(Seq::filter);
        lemma_holds_nothing(ch, of);
        assert(members(centers, pixels, j) =~= Seq::<Linear>::empty());
    } else {
        let rest = pixels.drop_last();
        let p = pixels.last();
        assert forall|i: int| 0 <= i < rest.len() implies lit(#[trigger] rest[i]) by {
            assert(rest[i] == pixels[i]);
        }
        lemma_cluster(centers, rest, j, ch, of);
        assert(lit(pixels[pixels.len() - 1]));
        lemma_cluster_step(centers, pixels, j);
        assert(of(p) == majority::light_of(p, ch).mag());
        lemma_holds_one_more(
            dominant::clusters(centers, rest)[j],
            members(centers, rest, j),
            p,
            ch,
            of,
        );
    }
}

/// The mean of a sum that is off by as much as adding up can be.
proof fn lemma_mean_of_sum(s: F32, sum: int, k: int)
    requires
        s.finite(),
        !s.negative(),
        0 <= s.mag(),
        1 <= k <= 0x40_0000,
        0 <= sum <= k * float::unit(),
        s.mag() <= sum + (k * k) * majority::speck(),
        sum <= s.mag() + (k * k) * majority::speck(),
    ensures
        is_mean(float::quotient(s, float::from_int(k)), sum, k),
        float::quotient(s, float::from_int(k)).bits <= 0x4000_0000,
{
    let u = float::unit();
    let g = majority::speck();
    majority::lemma_specks_in_one();
    assert((k * k) * g <= k * (0x40_0000 * g) && k * (0x40_0000 * g) * 2 == k * u && k * u > 0)
        by (nonlinear_arith)
        requires
            1 <= k <= 0x40_0000,
            u == 0x80_0000 * g,
            g > 0,
    ;
    majority::lemma_mean(s, k);
    let x = float::quotient(s, float::from_int(k));
    let m = x.mag();
    assert((k * (k + 2)) * u == 0x80_0000 * ((k * k) * g + (2 * k) * g)) by (nonlinear_arith)
        requires
            u == 0x80_0000 * g,
    ;
    assert(m <= 2 * u) by (nonlinear_arith)
        requires
            k * m <= s.mag() + (2 * k) * g,
            2 * s.mag() <= 3 * (k * u),
            u == 0x80_0000 * g,
            g > 0,
            k >= 1,
    {
        assert((2 * k) * g == 2 * (k * g));
        assert(k * u == 0x80_0000 * (k * g));
        assert(k * g > 0);
        assert(k * m <= k * (2 * u));
    }
    lemma2_to64();
    solid::lemma_power_pattern(128);
    lemma_pow2_adds(1, 149);
    if x.bits > 0x4000_0000 {
        round::lemma_monotone(0x4000_0001, x.bits as int);
        round::lemma_step(0x4000_0000);
        lemma_pow2_pos(round::form_exponent(0x4000_0000) as nat);
    }
}

/// The mean of a cluster's members, in a channel.
proof fn lemma_cluster_mean(
    centers: Seq<Linear>,
    pixels: Seq<Linear>,
    j: int,
    ch: Channel,
    of: spec_fn(Linear) -> int,
)
    requires
        0 <= j < centers.len(),
        pixels.len() <= 0x40_0000,
        forall|i: int| 0 <= i < centers.len() ==> tame(#[trigger] centers[i]),
        forall|i: int| 0 <= i < pixels.len() ==> lit(#[trigger] pixels[i]),
        forall|p: Linear| #[trigger] of(p) == majority::light_of(p, ch).mag(),
        members(centers, pixels, j).len() > 0,
    ensures
        ({
            let x = majority::light_of(
                dominant::center(dominant::clusters(centers, pixels)[j]),
                ch,
            );
            let mine = members(centers, pixels, j);
            &&& is_mean(x, total(mine, of), mine.len() as int)
            &&& x.bits <= 0x4000_0000
        }),
{
    lemma_cluster(centers, pixels, j, ch, of);
    reveal(holds);
    let c = dominant::clusters(centers, pixels)[j];
    lemma_mean_of_sum(
        majority::light_of(c.sum, ch),
        total(members(centers, pixels, j), of),
        c.count,
    );
}

/// One round moves every centre to the mean of the colours nearest to it.
#[verifier::rlimit(40)]
proof fn lemma_round(centers: Seq<Linear>, pixels: Seq<Linear>)
    requires
        centers.len() > 0,
        pixels.len() <= 0x40_0000,
        forall|i: int| 0 <= i < centers.len() ==> tame(#[trigger] centers[i]),
        forall|i: int| 0 <= i < pixels.len() ==> lit(#[trigger] pixels[i]),
    ensures
        ({
            let found = dominant::clusters(centers, pixels);
            let next = dominant::moved(centers, found);
            &&& is_moved(centers, next, pixels)
            &&& found.len() == centers.len()
            &&& forall|i: int| 0 <= i < centers.len() ==> tame(#[trigger] next[i])
            &&& forall|i: int|
                0 <= i < centers.len() ==> (#[trigger] found[i]).count == members(
                    centers,
                    pixels,
                    i,
                ).len()
        }),
{
    let found = dominant::clusters(centers, pixels);
    let next = dominant::moved(centers, found);
    reveal(is_moved);
    dominant::lemma_clusters_len(centers, pixels);
    assert forall|j: int|
        #![trigger next[j]]
        #![trigger found[j]]
        #![trigger centers[j]]
        0 <= j < centers.len() implies {
        let mine = members(centers, pixels, j);
        let n = mine.len() as int;
        &&& found[j].count == n
        &&& tame(next[j])
        &&& if n == 0 {
            next[j] == centers[j]
        } else {
            &&& is_mean(next[j].r, total(mine, |p: Linear| p.r.mag()), n)
            &&& is_mean(next[j].g, total(mine, |p: Linear| p.g.mag()), n)
            &&& is_mean(next[j].b, total(mine, |p: Linear| p.b.mag()), n)
        }
    } by {
        assert(tame(centers[j]));
        lemma_cluster(centers, pixels, j, Channel::Red, |p: Linear| p.r.mag());
        if members(centers, pixels, j).len() > 0 {
            lemma_cluster_mean(centers, pixels, j, Channel::Red, |p: Linear| p.r.mag());
            lemma_cluster_mean(centers, pixels, j, Channel::Green, |p: Linear| p.g.mag());
            lemma_cluster_mean(centers, pixels, j, Channel::Blue, |p: Linear| p.b.mag());
        }
    }
}

proof fn lemma_bound()
    ensures
        ({
            let b = F32 { bits: 0x3B83_126F };
            &&& float::product(b, b).finite()
            &&& 0 < float::product(b, b).value()
            &&& dominant::CONVERGENCE_EPSILON == 0x3B83_126F
        }),
{
    let b = F32 { bits: 0x3B83_126F };
    let u = float::unit();
    facts::one_is_unit();
    facts::zero_is_zero();
    lemma2_to64();
    // The bound lies between 2^-8 and one.
    solid::lemma_power_pattern(119);
    lemma_pow2_adds(8, 141);
    round::lemma_monotone(0x3B80_0000, 0x3B83_126F);
    round::lemma_monotone(0x3B83_126F, ONE as int);
    let m = b.mag();
    let h = pow2(141) as int;
    lemma_pow2_adds(133, 149);
    lemma_pow2_adds(141, 141);
    solid::lemma_power_pattern(111);
    assert(pow2(133) * u <= m * m <= u * u) by (nonlinear_arith)
        requires
            h <= m <= u,
            h > 0,
            pow2(133) * u == h * h,
    ;
    facts::rounding_stays_below(m * m, u, ONE);
    facts::rounding_stays_above(m * m, u, 0x3780_0000);
    round::lemma_monotone(0x3780_0000, float::nearest(m * m, u) as int);
    lemma_pow2_pos(133);
}

/// The largest shift is below a bound where every shift is.
proof fn lemma_shift(centers: Seq<Linear>, found: Seq<Cluster>, n: int, b: F32)
    requires
        0 <= n <= centers.len(),
        centers.len() == found.len(),
        b.finite(),
        0 < b.value(),
        forall|i: int|
            #![trigger centers[i]]
            0 <= i < n && found[i].count != 0 ==> dominant::distance(
                dominant::center(found[i]),
                centers[i],
            ).finite(),
    ensures
        dominant::largest_shift(centers, found, n).finite(),
        dominant::largest_shift(centers, found, n).value() < b.value() <==> forall|i: int|
            #![trigger centers[i]]
            0 <= i < n && found[i].count != 0 ==> dominant::distance(
                dominant::center(found[i]),
                centers[i],
            ).value() < b.value(),
    decreases n,
{
    facts::zero_is_zero();
    if n > 0 {
        lemma_shift(centers, found, n - 1, b);
        let c = centers[n - 1];
    }
}

/// The centres have settled where every one that has colours has moved by little.
#[verifier::rlimit(40)]
proof fn lemma_settled(centers: Seq<Linear>, pixels: Seq<Linear>)
    requires
        centers.len() > 0,
        pixels.len() <= 0x40_0000,
        forall|i: int| 0 <= i < centers.len() ==> tame(#[trigger] centers[i]),
        forall|i: int| 0 <= i < pixels.len() ==> lit(#[trigger] pixels[i]),
    ensures
        ({
            let found = dominant::clusters(centers, pixels);
            dominant::settled(centers, found) <==> is_calm(
                centers,
                dominant::moved(centers, found),
                pixels,
            )
        }),
{
    let found = dominant::clusters(centers, pixels);
    let next = dominant::moved(centers, found);
    let n = centers.len() as int;
    let bound = F32 { bits: 0x3B83_126F };
    let b = float::product(bound, bound);
    reveal(is_calm);
    lemma_bound();
    lemma_round(centers, pixels);
    assert forall|i: int|
        #![trigger centers[i]]
        0 <= i < n && found[i].count != 0 implies dominant::distance(
        dominant::center(found[i]),
        centers[i],
    ).finite() && next[i] == dominant::center(found[i]) by {
        assert(tame(next[i]));
        lemma_distance_is_finite(next[i], centers[i]);
    }
    lemma_shift(centers, found, n, b);
    if dominant::settled(centers, found) {
        assert forall|j: int|
            #![trigger next[j]]
            #![trigger centers[j]]
            0 <= j < n && members(centers, pixels, j).len() > 0 implies dominant::distance(
            next[j],
            centers[j],
        ).value() < b.value() by {
            let c = centers[j];
            assert(found[j].count != 0);
        }
    }
    if is_calm(centers, next, pixels) {
        assert forall|i: int|
            #![trigger centers[i]]
            0 <= i < n && found[i].count != 0 implies dominant::distance(
            dominant::center(found[i]),
            centers[i],
        ).value() < b.value() by {
            assert(found[i].count == members(centers, pixels, i).len());
            assert(next[i] == dominant::center(found[i]));
        }
    }
}

/// Whether the centres of a track go from round to round, to the end and not beyond it.
spec fn is_track(track: Seq<Seq<Linear>>, pixels: Seq<Linear>, rounds: int) -> bool {
    &&& 2 <= track.len() <= rounds + 1
    &&& forall|k: int|
        #![trigger track[k]]
        0 <= k < track.len() - 1 ==> is_moved(track[k], track[k + 1], pixels)
    &&& forall|k: int|
        #![trigger track[k]]
        0 <= k < track.len() - 2 ==> !is_calm(track[k], track[k + 1], pixels)
    &&& track.len() == rounds + 1 || is_calm(
        track[track.len() - 2],
        track[track.len() - 1],
        pixels,
    )
}

proof fn lemma_longer(
    centers: Seq<Linear>,
    rest: Seq<Seq<Linear>>,
    pixels: Seq<Linear>,
    rounds: int,
)
    requires
        is_track(rest, pixels, rounds - 1),
        is_moved(centers, rest[0], pixels),
        !is_calm(centers, rest[0], pixels),
    ensures
        ({
            let track = seq![centers] + rest;
            &&& is_track(track, pixels, rounds)
            &&& track[0] == centers
            &&& track[track.len() - 2] == rest[rest.len() - 2]
            &&& track[track.len() - 1] == rest[rest.len() - 1]
        }),
{
    let track = seq![centers] + rest;
    assert forall|k: int| #![trigger track[k]] 0 <= k < track.len() - 1 implies is_moved(
        track[k],
        track[k + 1],
        pixels,
    ) by {
        assert(track[k + 1] == rest[k]);
        if k > 0 {
            assert(track[k] == rest[k - 1]);
        }
    }
    assert forall|k: int| #![trigger track[k]] 0 <= k < track.len() - 2 implies !is_calm(
        track[k],
        track[k + 1],
        pixels,
    ) by {
        assert(track[k + 1] == rest[k]);
        if k > 0 {
            assert(track[k] == rest[k - 1]);
        }
    }
}

/// The centres round by round.
#[verifier::rlimit(40)]
proof fn lemma_track(centers: Seq<Linear>, pixels: Seq<Linear>, rounds: nat) -> (track: Seq<
    Seq<Linear>,
>)
    requires
        centers.len() == 4,
        rounds >= 1,
        pixels.len() <= 0x40_0000,
        forall|i: int| 0 <= i < centers.len() ==> tame(#[trigger] centers[i]),
        forall|i: int| 0 <= i < pixels.len() ==> lit(#[trigger] pixels[i]),
    ensures
        is_track(track, pixels, rounds as int),
        track[0] == centers,
        ({
            let last = track[track.len() - 2];
            let found = dominant::clusters(last, pixels);
            &&& dominant::converged(centers, pixels, rounds) == (track[track.len() - 1], found)
            &&& found.len() == 4
            &&& forall|i: int|
                0 <= i < 4 ==> (#[trigger] found[i]).count == members(last, pixels, i).len()
        }),
    decreases rounds,
{
    let found = dominant::clusters(centers, pixels);
    let next = dominant::moved(centers, found);
    lemma_round(centers, pixels);
    lemma_settled(centers, pixels);
    if rounds <= 1 || dominant::settled(centers, found) {
        seq![centers, next]
    } else {
        let rest = lemma_track(next, pixels, (rounds - 1) as nat);
        lemma_longer(centers, rest, pixels, rounds as int);
        seq![centers] + rest
    }
}

/// The dominant colour is found by rounds of clustering. The centres start at black, green, white
/// and red. In every round each colour goes to the centre nearest to it, and each centre to the
/// mean of its colours. The rounds end with the first in which no centre moves by 0.004 or more,
/// or with the sixteenth. The colour is the mean of the most colours that went to one centre, the
/// first of equals.
///
/// `track` holds the centres before the first round and after each, and `w` is the one that wins.
#[verifier::rlimit(40)]
pub proof fn dominant_color_is_found_in_rounds(t: TransferTables, pixels: Seq<LedColor>) -> (r: (
    Seq<Seq<Linear>>,
    int,
))
    requires
        t.valid(),
        0 < pixels.len() <= 0x40_0000,
    ensures
        ({
            let (track, w) = r;
            let all = pixels.map_values(|c: LedColor| t.linear(c));
            let zero = F32 { bits: 0 };
            let one = F32 { bits: 0x3F80_0000 };
            let last = track[track.len() - 2];
            &&& 2 <= track.len() <= 17
            &&& track[0] == seq![
                Linear { r: zero, g: zero, b: zero },
                Linear { r: zero, g: one, b: zero },
                Linear { r: one, g: one, b: one },
                Linear { r: one, g: zero, b: zero },
            ]
            &&& forall|k: int|
                #![trigger track[k]]
                0 <= k < track.len() - 1 ==> is_moved(track[k], track[k + 1], all)
            &&& forall|k: int|
                #![trigger track[k]]
                0 <= k < track.len() - 2 ==> !is_calm(track[k], track[k + 1], all)
            &&& track.len() == 17 || is_calm(last, track[track.len() - 1], all)
            &&& 0 <= w < 4
            &&& forall|j: int|
                0 <= j < 4 ==> #[trigger] members(last, all, j).len() <= members(last, all, w).len()
            &&& forall|j: int|
                0 <= j < w ==> #[trigger] members(last, all, j).len() < members(last, all, w).len()
            &&& dominant::dominant(t, pixels) == (LedColor {
                r: t.byte(track[track.len() - 1][w].r),
                g: t.byte(track[track.len() - 1][w].g),
                b: t.byte(track[track.len() - 1][w].b),
            })
        }),
{
    lemma_all_lit(t, pixels);
    lemma_found_in_rounds(t, pixels)
}

#[verifier::rlimit(40)]
proof fn lemma_found_in_rounds(t: TransferTables, pixels: Seq<LedColor>) -> (r: (
    Seq<Seq<Linear>>,
    int,
))
    requires
        0 < pixels.len() <= 0x40_0000,
        ({
            let all = dominant::linear_pixels(t, pixels);
            forall|i: int| 0 <= i < all.len() ==> lit(#[trigger] all[i])
        }),
    ensures
        ({
            let (track, w) = r;
            let all = pixels.map_values(|c: LedColor| t.linear(c));
            let zero = F32 { bits: 0 };
            let one = F32 { bits: 0x3F80_0000 };
            let last = track[track.len() - 2];
            &&& 2 <= track.len() <= 17
            &&& track[0] == seq![
                Linear { r: zero, g: zero, b: zero },
                Linear { r: zero, g: one, b: zero },
                Linear { r: one, g: one, b: one },
                Linear { r: one, g: zero, b: zero },
            ]
            &&& forall|k: int|
                #![trigger track[k]]
                0 <= k < track.len() - 1 ==> is_moved(track[k], track[k + 1], all)
            &&& forall|k: int|
                #![trigger track[k]]
                0 <= k < track.len() - 2 ==> !is_calm(track[k], track[k + 1], all)
            &&& track.len() == 17 || is_calm(last, track[track.len() - 1], all)
            &&& 0 <= w < 4
            &&& forall|j: int|
                0 <= j < 4 ==> #[trigger] members(last, all, j).len() <= members(last, all, w).len()
            &&& forall|j: int|
                0 <= j < w ==> #[trigger] members(last, all, j).len() < members(last, all, w).len()
            &&& dominant::dominant(t, pixels) == (LedColor {
                r: t.byte(track[track.len() - 1][w].r),
                g: t.byte(track[track.len() - 1][w].g),
                b: t.byte(track[track.len() - 1][w].b),
            })
        }),
{
    let all = dominant::linear_pixels(t, pixels);
    assert(all =~= pixels.map_values(|c: LedColor| t.linear(c)));
    let track = lemma_track(dominant::seeds(), all, 16);
    let w = lemma_winner(track[track.len() - 2], all);
    (track, w)
}

proof fn lemma_all_lit(t: TransferTables, pixels: Seq<LedColor>)
    requires
        t.valid(),
    ensures
        ({
            let all = dominant::linear_pixels(t, pixels);
            forall|i: int| 0 <= i < all.len() ==> lit(#[trigger] all[i])
        }),
{
    let all = dominant::linear_pixels(t, pixels);
    assert forall|i: int| 0 <= i < all.len() implies lit(#[trigger] all[i]) by {
        majority::lemma_light_of_color(t, pixels[i], Channel::Red);
        majority::lemma_light_of_color(t, pixels[i], Channel::Green);
        majority::lemma_light_of_color(t, pixels[i], Channel::Blue);
    }
}

proof fn lemma_winner(last: Seq<Linear>, all: Seq<Linear>) -> (w: int)
    requires
        dominant::clusters(last, all).len() == 4,
        forall|i: int|
            0 <= i < 4 ==> (#[trigger] dominant::clusters(last, all)[i]).count == members(
                last,
                all,
                i,
            ).len(),
    ensures
        0 <= w < 4,
        w == dominant::largest_among(dominant::clusters(last, all), 4),
        forall|j: int|
            0 <= j < 4 ==> #[trigger] members(last, all, j).len() <= members(last, all, w).len(),
        forall|j: int|
            0 <= j < w ==> #[trigger] members(last, all, j).len() < members(last, all, w).len(),
{
    let found = dominant::clusters(last, all);
    dominant::winner_is_first_largest(found, 4);
    let w = dominant::largest_among(found, 4);
    assert(found[w].count == members(last, all, w).len());
    assert forall|j: int| 0 <= j < 4 implies #[trigger] members(last, all, j).len() <= members(
        last,
        all,
        w,
    ).len() && (j < w ==> members(last, all, j).len() < members(last, all, w).len()) by {
        assert(found[j].count == members(last, all, j).len());
    }
    w
}

/// The centres after a number of rounds, settled or not.
pub open spec fn after_rounds(
    centers: Seq<Linear>,
    pixels: Seq<Linear>,
    rounds: nat,
) -> Seq<Linear>
    decreases rounds,
{
    if rounds == 0 {
        centers
    } else {
        let before = after_rounds(centers, pixels, (rounds - 1) as nat);
        dominant::moved(before, dominant::clusters(before, pixels))
    }
}

/// However many colours there are, clustering ends with the first round in which the centres have
/// settled, or with the sixteenth.
#[verifier::rlimit(40)]
pub proof fn clustering_ends_when_it_has_settled(t: TransferTables, pixels: Seq<LedColor>) -> (m:
    nat)
    requires
        pixels.len() > 0,
    ensures
        ({
            let all = pixels.map_values(|c: LedColor| t.linear(c));
            let last = after_rounds(dominant::seeds(), all, (m - 1) as nat);
            let found = dominant::clusters(last, all);
            let w = dominant::largest_among(found, 4);
            &&& 1 <= m <= 16
            &&& m == 16 || dominant::settled(last, found)
            &&& forall|k: nat|
                k < m - 1 ==> {
                    let early = #[trigger] after_rounds(dominant::seeds(), all, k);
                    !dominant::settled(early, dominant::clusters(early, all))
                }
            &&& dominant::last_centers(dominant::seeds(), all, 16) == last
            &&& dominant::dominant(t, pixels) == dominant::encoded(
                t,
                after_rounds(dominant::seeds(), all, m)[w],
            )
        }),
{
    let all = dominant::linear_pixels(t, pixels);
    assert(all =~= pixels.map_values(|c: LedColor| t.linear(c)));
    lemma_ends(dominant::seeds(), all, 0, 16)
}

#[verifier::rlimit(40)]
proof fn lemma_ends(seeds: Seq<Linear>, pixels: Seq<Linear>, done: nat, rounds: nat) -> (m: nat)
    requires
        rounds >= 1,
    ensures
        ({
            let last = after_rounds(seeds, pixels, (m - 1) as nat);
            let found = dominant::clusters(last, pixels);
            let start = after_rounds(seeds, pixels, done);
            &&& done + 1 <= m <= done + rounds
            &&& m == done + rounds || dominant::settled(last, found)
            &&& forall|k: nat|
                done <= k < m - 1 ==> {
                    let early = #[trigger] after_rounds(seeds, pixels, k);
                    !dominant::settled(early, dominant::clusters(early, pixels))
                }
            &&& dominant::converged(start, pixels, rounds) == (
                after_rounds(seeds, pixels, m),
                found,
            )
            &&& dominant::last_centers(start, pixels, rounds) == last
        }),
    decreases rounds,
{
    let start = after_rounds(seeds, pixels, done);
    let found = dominant::clusters(start, pixels);
    if rounds <= 1 || dominant::settled(start, found) {
        assert(after_rounds(seeds, pixels, done + 1) == dominant::moved(start, found));
        done + 1
    } else {
        assert(after_rounds(seeds, pixels, done + 1) == dominant::moved(start, found));
        let m = lemma_ends(seeds, pixels, done + 1, (rounds - 1) as nat);
        m
    }
}

/// A cluster's sums are those of all its members, added up one after the other, however many they
/// are; its centre moves to the sums over their number, and stays where there are none.
#[verifier::rlimit(40)]
pub proof fn clusters_add_up_their_members(centers: Seq<Linear>, pixels: Seq<Linear>, j: int)
    requires
        0 <= j < centers.len(),
        forall|i: int|
            #![trigger centers[i]]
            0 <= i < centers.len() ==> {
                &&& centers[i].r.bits <= 0x4000_0000
                &&& centers[i].g.bits <= 0x4000_0000
                &&& centers[i].b.bits <= 0x4000_0000
            },
        forall|i: int|
            #![trigger pixels[i]]
            0 <= i < pixels.len() ==> linear::is_light(pixels[i].r) && linear::is_light(
                pixels[i].g,
            ) && linear::is_light(pixels[i].b),
    ensures
        ({
            let found = dominant::clusters(centers, pixels);
            let mine = members(centers, pixels, j);
            let zero = F32 { bits: 0 };
            let n = float::from_int(mine.len() as int);
            let next = dominant::moved(centers, found)[j];
            &&& found.len() == centers.len()
            &&& found[j].count == mine.len()
            &&& found[j].sum.r == mine.fold_left(zero, |s: F32, p: Linear| float::sum(s, p.r))
            &&& found[j].sum.g == mine.fold_left(zero, |s: F32, p: Linear| float::sum(s, p.g))
            &&& found[j].sum.b == mine.fold_left(zero, |s: F32, p: Linear| float::sum(s, p.b))
            &&& mine.len() == 0 ==> next == centers[j]
            &&& mine.len() > 0 ==> next == (Linear {
                r: float::quotient(found[j].sum.r, n),
                g: float::quotient(found[j].sum.g, n),
                b: float::quotient(found[j].sum.b, n),
            })
        }),
    decreases pixels.len(),
{
    dominant::lemma_clusters_len(centers, pixels);
    let mine = members(centers, pixels, j);
    if pixels.len() == 0 {
        reveal(Seq::filter);
        assert(mine =~= Seq::<Linear>::empty());
    } else {
        let rest = pixels.drop_last();
        let p = pixels.last();
        assert forall|i: int| #![trigger rest[i]] 0 <= i < rest.len() implies linear::is_light(
            rest[i].r,
        ) && linear::is_light(rest[i].g) && linear::is_light(rest[i].b) by {
            assert(rest[i] == pixels[i]);
        }
        clusters_add_up_their_members(centers, rest, j);
        assert(lit(pixels[pixels.len() - 1]));
        assert forall|i: int| 0 <= i < centers.len() implies tame(#[trigger] centers[i]) by {}
        lemma_cluster_step(centers, pixels, j);
        let before = members(centers, rest, j);
        assert(before.push(p).drop_last() =~= before);
    }
}

} // verus!
