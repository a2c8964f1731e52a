//! The dominant colour of a zone: the centre of its largest cluster in linear light.
//!
//! Where a mean turns contrast into grey, this picks the colour that most of the zone has.
//! Seeds, the number of clusters, the convergence bound and the iteration cap are fixed.

use vstd::prelude::*;

use crate::capture::Frame;
use crate::float;
use crate::float::{F32, ONE};

use super::linear::{Linear, TransferTables};
use super::zones;
use super::zones::{collect_samples, ScaledZone};
use super::LedColor;

verus! {

/// The number of clusters.
pub const K: usize = 4;

/// The cap on iterations, so that no frame can stall the pipeline.
pub const MAX_ITERS: u32 = 16;

/// The pattern of 0.004, the centre shift below which the clusters have settled.
pub const CONVERGENCE_EPSILON: u32 = 0x3B83_126F;

/// The centres to start from: black, green, white, red.
pub open spec fn seeds() -> Seq<Linear> {
    let zero = F32 { bits: 0 };
    let one = F32 { bits: ONE };
    seq![
        Linear { r: zero, g: zero, b: zero },
        Linear { r: zero, g: one, b: zero },
        Linear { r: one, g: one, b: one },
        Linear { r: one, g: zero, b: zero },
    ]
}

/// The squared distance of two colours.
pub open spec fn distance(a: Linear, b: Linear) -> F32 {
    let dr = float::difference(a.r, b.r);
    let dg = float::difference(a.g, b.g);
    let db = float::difference(a.b, b.b);
    float::sum(
        float::sum(float::product(dr, dr), float::product(dg, dg)),
        float::product(db, db),
    )
}

/// The first of the nearest among the first `n` centres.
pub open spec fn nearest_among(centers: Seq<Linear>, p: Linear, n: int) -> int
    decreases n,
{
    if n <= 1 {
        0
    } else {
        let best = nearest_among(centers, p, n - 1);
        if float::less(distance(centers[n - 1], p), distance(centers[best], p)) {
            n - 1
        } else {
            best
        }
    }
}

/// The colours that fell to one centre: their sum and their number.
pub struct Cluster {
    pub sum: Linear,
    pub count: int,
}

/// A cluster with one more colour.
pub open spec fn joined(c: Cluster, p: Linear) -> Cluster {
    Cluster {
        sum: Linear {
            r: float::sum(c.sum.r, p.r),
            g: float::sum(c.sum.g, p.g),
            b: float::sum(c.sum.b, p.b),
        },
        count: c.count + 1,
    }
}

/// A cluster with no colour.
pub open spec fn empty_cluster() -> Cluster {
    let zero = F32 { bits: 0 };
    Cluster { sum: Linear { r: zero, g: zero, b: zero }, count: 0 }
}

/// The clusters of a number of colours, each with its nearest centre.
pub open spec fn clusters(centers: Seq<Linear>, pixels: Seq<Linear>) -> Seq<Cluster>
    decreases pixels.len(),
{
    if pixels.len() == 0 {
        Seq::new(centers.len(), |i: int| empty_cluster())
    } else {
        let rest = clusters(centers, pixels.drop_last());
        let p = pixels.last();
        let c = nearest_among(centers, p, centers.len() as int);
        rest.update(c, joined(rest[c], p))
    }
}

/// The mean of a cluster.
pub open spec fn center(c: Cluster) -> Linear {
    let n = float::from_int(c.count);
    Linear {
        r: float::quotient(c.sum.r, n),
        g: float::quotient(c.sum.g, n),
        b: float::quotient(c.sum.b, n),
    }
}

/// Where the centres move to: to the mean of their cluster, if it has any colour.
pub open spec fn moved(centers: Seq<Linear>, found: Seq<Cluster>) -> Seq<Linear> {
    Seq::new(
        centers.len(),
        |i: int|
            if found[i].count == 0 {
                centers[i]
            } else {
                center(found[i])
            },
    )
}

/// The largest squared shift of the first `n` centres.
pub open spec fn largest_shift(centers: Seq<Linear>, found: Seq<Cluster>, n: int) -> F32
    decreases n,
{
    if n <= 0 {
        F32 { bits: 0 }
    } else {
        let before = largest_shift(centers, found, n - 1);
        let shift = distance(center(found[n - 1]), centers[n - 1]);
        if found[n - 1].count != 0 && float::less(before, shift) {
            shift
        } else {
            before
        }
    }
}

/// Whether the centres moved so little that they have settled.
pub open spec fn settled(centers: Seq<Linear>, found: Seq<Cluster>) -> bool {
    let bound = F32 { bits: CONVERGENCE_EPSILON };
    float::less(
        largest_shift(centers, found, centers.len() as int),
        float::product(bound, bound),
    )
}

/// The centres and clusters after at most `rounds` rounds.
pub open spec fn converged(
    centers: Seq<Linear>,
    pixels: Seq<Linear>,
    rounds: nat,
) -> (Seq<Linear>, Seq<Cluster>)
    decreases rounds,
{
    let found = clusters(centers, pixels);
    let next = moved(centers, found);
    if rounds <= 1 || settled(centers, found) {
        (next, found)
    } else {
        converged(next, pixels, (rounds - 1) as nat)
    }
}

/// The first of the largest among the first `n` clusters.
pub open spec fn largest_among(found: Seq<Cluster>, n: int) -> int
    decreases n,
{
    if n <= 1 {
        0
    } else {
        let best = largest_among(found, n - 1);
        if found[n - 1].count > found[best].count {
            n - 1
        } else {
            best
        }
    }
}

/// The linear light of a number of colours.
pub open spec fn linear_pixels(t: TransferTables, pixels: Seq<LedColor>) -> Seq<Linear> {
    Seq::new(pixels.len(), |i: int| t.linear(pixels[i]))
}

/// The colour whose linear channels are given.
pub open spec fn encoded(t: TransferTables, l: Linear) -> LedColor {
    LedColor { r: t.byte(l.r), g: t.byte(l.g), b: t.byte(l.b) }
}

/// The centre of the largest cluster of a number of pixels.
pub open spec fn dominant_light(t: TransferTables, pixels: Seq<LedColor>) -> Linear {
    let (centers, found) = converged(seeds(), linear_pixels(t, pixels), MAX_ITERS as nat);
    centers[largest_among(found, K as int)]
}

/// The dominant colour of a number of pixels; black for none.
pub open spec fn dominant(t: TransferTables, pixels: Seq<LedColor>) -> LedColor {
    if pixels.len() == 0 {
        LedColor { r: 0, g: 0, b: 0 }
    } else {
        encoded(t, dominant_light(t, pixels))
    }
}

fn sq_dist(a: &Linear, b: &Linear) -> (d: F32)
    ensures
        d == distance(*a, *b),
{
    let dr: F32 = a.r.minus(b.r);
    let dg: F32 = a.g.minus(b.g);
    let db: F32 = a.b.minus(b.b);
    dr.times(dr).plus(dg.times(dg)).plus(db.times(db))
}

/// The nearest of some centres is one of them.
pub proof fn lemma_nearest_bound(centers: Seq<Linear>, p: Linear, n: int)
    requires
        1 <= n <= centers.len(),
    ensures
        0 <= nearest_among(centers, p, n) < n,
    decreases n,
{
    if n > 1 {
        lemma_nearest_bound(centers, p, n - 1);
    }
}

fn nearest_cluster(centers: &Vec<Linear>, p: &Linear) -> (best: usize)
    requires
        centers@.len() > 0,
    ensures
        best == nearest_among(centers@, *p, centers@.len() as int),
        best < centers@.len(),
{
    let mut best: usize = 0;
    let mut best_d: F32 = sq_dist(&centers[0], p);
    let mut i: usize = 1;
    while i < centers.len()
        invariant
            1 <= i <= centers@.len(),
            best < i,
            best == nearest_among(centers@, *p, i as int),
            best_d == distance(centers@[best as int], *p),
        decreases centers@.len() - i,
    {
        let d: F32 = sq_dist(&centers[i], p);
        if d.lt(best_d) {
            best_d = d;
            best = i;
        }
        i += 1;
    }
    best
}

/// A cluster while it is being filled.
#[derive(Clone, Copy)]
struct Bin {
    sum: Linear,
    count: u64,
}

impl Bin {
    spec fn model(self) -> Cluster {
        Cluster { sum: self.sum, count: self.count as int }
    }
}

spec fn models(bins: Seq<Bin>) -> Seq<Cluster> {
    Seq::new(bins.len(), |i: int| bins[i].model())
}

/// There is a cluster for every centre.
pub proof fn lemma_clusters_len(centers: Seq<Linear>, pixels: Seq<Linear>)
    requires
        centers.len() > 0,
    ensures
        clusters(centers, pixels).len() == centers.len(),
    decreases pixels.len(),
{
    if pixels.len() > 0 {
        lemma_clusters_len(centers, pixels.drop_last());
        lemma_nearest_bound(centers, pixels.last(), centers.len() as int);
    }
}

/// Sorts every colour to its nearest centre.
fn assign(centers: &Vec<Linear>, pixels: &Vec<Linear>) -> (bins: Vec<Bin>)
    requires
        centers@.len() > 0,
    ensures
        bins@.len() == centers@.len(),
        models(bins@) == clusters(centers@, pixels@),
{
    let zero: F32 = F32 { bits: 0 };
    let none: Bin = Bin { sum: Linear { r: zero, g: zero, b: zero }, count: 0 };
    let mut bins: Vec<Bin> = Vec::new();
    let mut k: usize = 0;
    while k < centers.len()
        invariant
            k <= centers@.len(),
            bins@.len() == k,
            forall|j: int| 0 <= j < k ==> (#[trigger] bins@[j]).model() == empty_cluster(),
            none.model() == empty_cluster(),
        decreases centers@.len() - k,
    {
        bins.push(none);
        k += 1;
    }
    let mut i: usize = 0;
    assert(pixels@.take(0) =~= Seq::<Linear>::empty());
    assert(models(bins@) =~= clusters(centers@, pixels@.take(0)));
    while i < pixels.len()
        invariant
            centers@.len() > 0,
            i <= pixels@.len(),
            bins@.len() == centers@.len(),
            models(bins@) == clusters(centers@, pixels@.take(i as int)),
            forall|j: int| 0 <= j < bins@.len() ==> (#[trigger] bins@[j]).count <= i,
        decreases pixels@.len() - i,
    {
        let p: Linear = pixels[i];
        let c: usize = nearest_cluster(centers, &p);
        let b: Bin = bins[c];
        assert(b.count <= i);
        let next: Bin = Bin {
            sum: Linear { r: b.sum.r.plus(p.r), g: b.sum.g.plus(p.g), b: b.sum.b.plus(p.b) },
            count: b.count + 1,
        };
        let ghost before = bins@;
        bins.set(c, next);
        proof {
            let taken = pixels@.take(i + 1);
            assert(taken.drop_last() =~= pixels@.take(i as int));
            assert(taken.last() == p);
            assert(models(before)[c as int] == before[c as int].model());
            assert(models(bins@) =~= models(before).update(c as int, next.model()));
        }
        i += 1;
    }
    assert(pixels@.take(i as int) =~= pixels@);
    bins
}

/// Moves every centre to the mean of its cluster, and tells whether all have settled.
fn update(centers: &mut Vec<Linear>, bins: &Vec<Bin>) -> (done: bool)
    requires
        bins@.len() == old(centers)@.len(),
    ensures
        final(centers)@ == moved(old(centers)@, models(bins@)),
        done == settled(old(centers)@, models(bins@)),
{
    let ghost start = centers@;
    let ghost found = models(bins@);
    let mut max_shift: F32 = F32 { bits: 0 };
    let mut i: usize = 0;
    while i < bins.len()
        invariant
            i <= bins@.len(),
            found == models(bins@),
            centers@.len() == bins@.len(),
            start.len() == bins@.len(),
            max_shift == largest_shift(start, found, i as int),
            forall|j: int| 0 <= j < i ==> #[trigger] centers@[j] == moved(start, found)[j],
            forall|j: int| i <= j < centers@.len() ==> #[trigger] centers@[j] == start[j],
        decreases bins@.len() - i,
    {
        let b: Bin = bins[i];
        assert(found[i as int] == b.model());
        if b.count != 0 {
            let n: F32 = F32::from_u64(b.count);
            let c: Linear = Linear {
                r: b.sum.r.over(n),
                g: b.sum.g.over(n),
                b: b.sum.b.over(n),
            };
            let shift: F32 = sq_dist(&c, &centers[i]);
            if max_shift.lt(shift) {
                max_shift = shift;
            }
            centers.set(i, c);
        }
        i += 1;
    }
    assert(centers@ =~= moved(start, found));
    let bound: F32 = F32 { bits: CONVERGENCE_EPSILON };
    max_shift.lt(bound.times(bound))
}

fn seed_palette() -> (r: Vec<Linear>)
    ensures
        r@ == seeds(),
{
    let zero: F32 = F32 { bits: 0 };
    let one: F32 = F32 { bits: ONE };
    let mut r: Vec<Linear> = Vec::new();
    r.push(Linear { r: zero, g: zero, b: zero });
    r.push(Linear { r: zero, g: one, b: zero });
    r.push(Linear { r: one, g: one, b: one });
    r.push(Linear { r: one, g: zero, b: zero });
    assert(r@ =~= seeds());
    r
}

fn largest(bins: &Vec<Bin>) -> (winner: usize)
    requires
        bins@.len() == K,
    ensures
        winner < K,
        winner == largest_among(models(bins@), K as int),
{
    let mut winner: usize = 0;
    let mut k: usize = 1;
    let ghost found = models(bins@);
    while k < K
        invariant
            1 <= k <= K,
            bins@.len() == K,
            found == models(bins@),
            winner < k,
            winner == largest_among(found, k as int),
        decreases K - k,
    {
        assert(found[k as int] == bins@[k as int].model());
        assert(found[winner as int] == bins@[winner as int].model());
        if bins[k].count > bins[winner].count {
            winner = k;
        }
        k += 1;
    }
    winner
}

/// Runs the rounds until the centres have settled, or the cap is reached.
fn settle(pixels: &Vec<Linear>) -> (r: (Vec<Linear>, Vec<Bin>))
    ensures
        (r.0@, models(r.1@)) == converged(seeds(), pixels@, MAX_ITERS as nat),
        r.0@.len() == K,
        r.1@.len() == K,
{
    let mut centers: Vec<Linear> = seed_palette();
    let mut bins: Vec<Bin> = assign(&centers, pixels);
    let mut done: bool = update(&mut centers, &bins);
    let mut rounds: u32 = 1;
    while !done && rounds < MAX_ITERS
        invariant
            1 <= rounds <= MAX_ITERS,
            centers@.len() == K,
            bins@.len() == K,
            converged(seeds(), pixels@, MAX_ITERS as nat) == if done || rounds == MAX_ITERS {
                (centers@, models(bins@))
            } else {
                converged(centers@, pixels@, (MAX_ITERS - rounds) as nat)
            },
        decreases MAX_ITERS - rounds,
    {
        bins = assign(&centers, pixels);
        done = update(&mut centers, &bins);
        rounds += 1;
    }
    (centers, bins)
}

/// The dominant colour of a number of pixels, black for none; `scratch` is working space that
/// the caller keeps for the next call.
pub fn dominant_of(
    pixels: &Vec<LedColor>,
    tables: &TransferTables,
    scratch: &mut Vec<Linear>,
) -> (c: LedColor)
    requires
        tables.valid(),
    ensures
        c == dominant(*tables, pixels@),
{
    scratch.clear();
    let mut i: usize = 0;
    while i < pixels.len()
        invariant
            tables.valid(),
            i <= pixels@.len(),
            scratch@ == linear_pixels(*tables, pixels@.take(i as int)),
        decreases pixels@.len() - i,
    {
        scratch.push(tables.decode_color(pixels[i]));
        i += 1;
        assert(scratch@ =~= linear_pixels(*tables, pixels@.take(i as int)));
    }
    assert(pixels@.take(i as int) =~= pixels@);
    if pixels.len() == 0 {
        return LedColor { r: 0, g: 0, b: 0 };
    }
    let (centers, bins): (Vec<Linear>, Vec<Bin>) = settle(scratch);
    let winner: usize = largest(&bins);
    let l: Linear = centers[winner];
    LedColor { r: tables.encode(l.r), g: tables.encode(l.g), b: tables.encode(l.b) }
}

/// The dominant colour of a zone's sampled pixels.
pub fn dominant_adv_pixels(
    frame: &Frame,
    zone: &ScaledZone,
    step: u32,
    tables: &TransferTables,
    samples: &mut Vec<LedColor>,
    scratch: &mut Vec<Linear>,
) -> (c: LedColor)
    requires
        step > 0,
        zone.x + zone.w <= u32::MAX + 1,
        zone.y + zone.h <= u32::MAX + 1,
        tables.valid(),
    ensures
        c == dominant(*tables, zones::samples(*frame, *zone, step as int)),
{
    collect_samples(frame, zone, step, samples);
    dominant_of(samples, tables, scratch)
}

/// No cluster is larger than the one that wins, and the earlier ones are smaller.
pub proof fn winner_is_first_largest(found: Seq<Cluster>, n: int)
    requires
        1 <= n <= found.len(),
    ensures
        ({
            let w = largest_among(found, n);
            &&& 0 <= w < n
            &&& forall|i: int| 0 <= i < n ==> (#[trigger] found[i]).count <= found[w].count
            &&& forall|i: int| 0 <= i < w ==> (#[trigger] found[i]).count < found[w].count
        }),
    decreases n,
{
    if n > 1 {
        winner_is_first_largest(found, n - 1);
    }
}

/// Every colour falls to exactly one cluster.
pub proof fn clusters_share_out_the_pixels(centers: Seq<Linear>, pixels: Seq<Linear>)
    requires
        centers.len() > 0,
    ensures
        total(clusters(centers, pixels), centers.len() as int) == pixels.len(),
    decreases pixels.len(),
{
    let n = centers.len() as int;
    lemma_clusters_len(centers, pixels);
    if pixels.len() == 0 {
        lemma_total_empty(clusters(centers, pixels), n);
    } else {
        let rest = clusters(centers, pixels.drop_last());
        clusters_share_out_the_pixels(centers, pixels.drop_last());
        lemma_clusters_len(centers, pixels.drop_last());
        let c = nearest_among(centers, pixels.last(), n);
        lemma_nearest_bound(centers, pixels.last(), n);
        lemma_total_update(rest, c, joined(rest[c], pixels.last()), n);
    }
}

/// The number of colours in the first `n` clusters.
pub open spec fn total(found: Seq<Cluster>, n: int) -> int
    decreases n,
{
    if n <= 0 {
        0
    } else {
        total(found, n - 1) + found[n - 1].count
    }
}

proof fn lemma_total_empty(found: Seq<Cluster>, n: int)
    requires
        0 <= n <= found.len(),
        forall|i: int| 0 <= i < n ==> (#[trigger] found[i]).count == 0,
    ensures
        total(found, n) == 0,
    decreases n,
{
    if n > 0 {
        lemma_total_empty(found, n - 1);
    }
}

proof fn lemma_total_update(found: Seq<Cluster>, c: int, next: Cluster, n: int)
    requires
        0 <= n <= found.len(),
        0 <= c < found.len(),
    ensures
        total(found.update(c, next), n) == total(found, n) + if c < n {
            next.count - found[c].count
        } else {
            0
        },
    decreases n,
{
    if n > 0 {
        lemma_total_update(found, c, next, n - 1);
    }
}

/// How many of a number of colours are `x`.
pub open spec fn held<A>(pixels: Seq<A>, x: A) -> int
    decreases pixels.len(),
{
    if pixels.len() == 0 {
        0
    } else {
        held(pixels.drop_last(), x) + if pixels.last() == x {
            1int
        } else {
            0
        }
    }
}

/// The centres that the last of at most `rounds` rounds started from.
pub open spec fn last_centers(
    centers: Seq<Linear>,
    pixels: Seq<Linear>,
    rounds: nat,
) -> Seq<Linear>
    decreases rounds,
{
    let found = clusters(centers, pixels);
    if rounds <= 1 || settled(centers, found) {
        centers
    } else {
        last_centers(moved(centers, found), pixels, (rounds - 1) as nat)
    }
}

/// Equal colours fall to one cluster, so a colour that more than half of the pixels have is in
/// the winning cluster, whatever the centres are and whatever the other pixels are.
pub proof fn majority_wins(centers: Seq<Linear>, pixels: Seq<Linear>, x: Linear)
    requires
        centers.len() > 0,
        2 * held(pixels, x) > pixels.len(),
    ensures
        ({
            let found = clusters(centers, pixels);
            let w = nearest_among(centers, x, centers.len() as int);
            &&& largest_among(found, centers.len() as int) == w
            &&& found[w].count >= held(pixels, x)
        }),
{
    let n = centers.len() as int;
    let found = clusters(centers, pixels);
    let w = nearest_among(centers, x, n);
    lemma_clusters_len(centers, pixels);
    lemma_nearest_bound(centers, x, n);
    lemma_equal_colors_meet(centers, pixels, x);
    clusters_share_out_the_pixels(centers, pixels);
    winner_is_first_largest(found, n);
    let first = largest_among(found, n);
    if first != w {
        lemma_total_of_two(found, first, w, n);
    }
}

/// The dominant colour of pixels of which more than half have one colour is the mean, in linear
/// light, of the cluster that this colour fell to.
pub proof fn majority_color_is_in_the_winning_cluster(
    t: TransferTables,
    pixels: Seq<LedColor>,
    x: LedColor,
)
    requires
        2 * held(pixels, x) > pixels.len(),
    ensures
        ({
            let all = linear_pixels(t, pixels);
            let centers = last_centers(seeds(), all, MAX_ITERS as nat);
            let found = clusters(centers, all);
            let w = nearest_among(centers, t.linear(x), K as int);
            &&& dominant(t, pixels) == encoded(t, dominant_light(t, pixels))
            &&& dominant_light(t, pixels) == center(found[w])
            &&& found[w].count >= held(pixels, x)
        }),
{
    let all = linear_pixels(t, pixels);
    let centers = last_centers(seeds(), all, MAX_ITERS as nat);
    let found = clusters(centers, all);
    lemma_held_in_light(t, pixels, x);
    lemma_last_round(seeds(), all, MAX_ITERS as nat);
    majority_wins(centers, all, t.linear(x));
    lemma_nearest_bound(centers, t.linear(x), K as int);
}

/// A colour's light occurs at least as often as the colour.
pub proof fn lemma_held_in_light(t: TransferTables, pixels: Seq<LedColor>, x: LedColor)
    ensures
        0 <= held(pixels, x) <= held(linear_pixels(t, pixels), t.linear(x)),
        held(pixels, x) <= pixels.len(),
    decreases pixels.len(),
{
    if pixels.len() > 0 {
        lemma_held_in_light(t, pixels.drop_last(), x);
        let all = linear_pixels(t, pixels);
        assert(all.drop_last() =~= linear_pixels(t, pixels.drop_last()));
        assert(all.last() == t.linear(pixels.last()));
    }
}

/// The clusters that come out are those of the last round.
pub proof fn lemma_last_round(centers: Seq<Linear>, pixels: Seq<Linear>, rounds: nat)
    ensures
        ({
            let last = last_centers(centers, pixels, rounds);
            let found = clusters(last, pixels);
            &&& converged(centers, pixels, rounds) == (moved(last, found), found)
            &&& last.len() == centers.len()
        }),
    decreases rounds,
{
    let found = clusters(centers, pixels);
    if rounds > 1 && !settled(centers, found) {
        lemma_last_round(moved(centers, found), pixels, (rounds - 1) as nat);
    }
}

/// The cluster that a colour falls to holds all of its pixels.
proof fn lemma_equal_colors_meet(centers: Seq<Linear>, pixels: Seq<Linear>, x: Linear)
    requires
        centers.len() > 0,
    ensures
        ({
            let found = clusters(centers, pixels);
            let w = nearest_among(centers, x, centers.len() as int);
            &&& found[w].count >= held(pixels, x) >= 0
            &&& forall|i: int| 0 <= i < centers.len() ==> (#[trigger] found[i]).count >= 0
        }),
    decreases pixels.len(),
{
    let n = centers.len() as int;
    lemma_nearest_bound(centers, x, n);
    lemma_clusters_len(centers, pixels);
    if pixels.len() > 0 {
        lemma_equal_colors_meet(centers, pixels.drop_last(), x);
        lemma_clusters_len(centers, pixels.drop_last());
        lemma_nearest_bound(centers, pixels.last(), n);
    }
}

proof fn lemma_total_of_two(found: Seq<Cluster>, i: int, j: int, n: int)
    requires
        0 <= n <= found.len(),
        i != j,
        forall|k: int| 0 <= k < n ==> (#[trigger] found[k]).count >= 0,
    ensures
        total(found, n) >= (if 0 <= i < n {
            found[i].count
        } else {
            0
        }) + (if 0 <= j < n {
            found[j].count
        } else {
            0
        }),
    decreases n,
{
    if n > 0 {
        lemma_total_of_two(found, i, j, n - 1);
    }
}

} // verus!
