//! The averages of a zone are averages of all its pixels.

use vstd::prelude::*;
use vstd::arithmetic::power2::*;

use crate::capture::Frame;
use crate::config::schema::{AveragingMode, LedMatrixConfig};
use crate::float;
use crate::float::facts;
use crate::float::round;
use crate::float::F32;

use super::linear;
use super::linear::TransferTables;
use super::reduce;
use super::reduce::Channel;
use super::solid;
use super::zones;
use super::zones::ScaledZone;
use super::LedColor;

verus! {

/// The sum of something over all pixels.
pub open spec fn total(pixels: Seq<LedColor>, of: spec_fn(LedColor) -> int) -> int {
    pixels.fold_left(0int, |s: int, p: LedColor| s + of(p))
}

/// The sum over the bytes below `k` of how often each occurs times what it stands for.
spec fn grouped(values: Seq<int>, pixels: Seq<LedColor>, ch: Channel, k: int) -> int
    decreases k,
{
    if k <= 0 {
        0
    } else {
        grouped(values, pixels, ch, k - 1) + reduce::occurrences(pixels, ch, k - 1) * values[k - 1]
    }
}

proof fn lemma_grouped_step(values: Seq<int>, pixels: Seq<LedColor>, ch: Channel, k: int)
    requires
        pixels.len() > 0,
        0 <= k,
    ensures
        grouped(values, pixels, ch, k) == grouped(values, pixels.drop_last(), ch, k) + if (
        reduce::channel_of(pixels.last(), ch) < k) {
            values[reduce::channel_of(pixels.last(), ch) as int]
        } else {
            0
        },
    decreases k,
{
    if k > 0 {
        lemma_grouped_step(values, pixels, ch, k - 1);
        let a = reduce::occurrences(pixels.drop_last(), ch, k - 1);
        let v = values[k - 1];
        assert((a + 1) * v == a * v + v) by (nonlinear_arith);
    }
}

proof fn lemma_grouped_empty(values: Seq<int>, pixels: Seq<LedColor>, ch: Channel, k: int)
    requires
        pixels.len() == 0,
    ensures
        grouped(values, pixels, ch, k) == 0,
    decreases k,
{
    if k > 0 {
        lemma_grouped_empty(values, pixels, ch, k - 1);
        assert(0 * values[k - 1] == 0);
    }
}

/// Grouping the pixels by their bytes does not change the sum.
proof fn lemma_grouped(
    values: Seq<int>,
    pixels: Seq<LedColor>,
    ch: Channel,
    of: spec_fn(LedColor) -> int,
)
    requires
        forall|p: LedColor| #[trigger] of(p) == values[reduce::channel_of(p, ch) as int],
    ensures
        grouped(values, pixels, ch, 256) == total(pixels, of),
    decreases pixels.len(),
{
    if pixels.len() == 0 {
        lemma_grouped_empty(values, pixels, ch, 256);
    } else {
        lemma_grouped(values, pixels.drop_last(), ch, of);
        lemma_grouped_step(values, pixels, ch, 256);
        assert(of(pixels.last()) == values[reduce::channel_of(pixels.last(), ch) as int]);
    }
}

proof fn lemma_occurrences(pixels: Seq<LedColor>, ch: Channel, v: int)
    ensures
        0 <= reduce::occurrences(pixels, ch, v) <= pixels.len(),
    decreases pixels.len(),
{
    if pixels.len() > 0 {
        lemma_occurrences(pixels.drop_last(), ch, v);
    }
}

/// The magnitudes of a table.
spec fn mags(values: Seq<F32>) -> Seq<int> {
    values.map_values(|x: F32| x.mag())
}

/// Whether every value of a table lies between zero and one, and is zero or at least `lo`.
spec fn usable(values: Seq<F32>, lo: int) -> bool {
    &&& values.len() == 256
    &&& forall|i: int|
        0 <= i < 256 ==> linear::is_light(#[trigger] values[i]) && (values[i] == (F32 { bits: 0 })
            || lo <= values[i].mag())
}

/// A count times a value is off by at most two parts in 2^23.
proof fn lemma_term(c: int, v: F32)
    requires
        1 <= c <= u64::MAX,
        linear::is_light(v),
        0x400_0000 <= v.mag(),
    ensures
        ({
            let p = float::product(float::from_int(c), v);
            let exact = c * v.mag();
            &&& p.finite()
            &&& !p.negative()
            &&& 0 <= p.mag()
            &&& v.mag() <= exact <= c * float::unit()
            &&& 0x80_0000 * (p.mag() - exact) <= 2 * exact
            &&& 0x80_0000 * (exact - p.mag()) <= 2 * exact
        }),
{
    let u = float::unit();
    let count = float::from_int(c);
    let vm = v.mag();
    facts::one_is_unit();
    facts::zero_is_zero();
    facts::counts_are_finite(c);
    lemma2_to64();
    lemma_pow2_strictly_increases(25, 149);
    let whole = c * u;
    assert(whole >= u) by (nonlinear_arith)
        requires
            whole == c * u,
            c >= 1,
            u > 0,
    ;
    facts::relative_error(whole, 1);
    let f = count.mag();
    let b = f * vm;
    assert(0x400_0000 * u <= b <= f * u) by (nonlinear_arith)
        requires
            b == f * vm,
            0x400_0000 <= vm <= u,
            f >= u,
            u > 0,
    ;
    facts::rounding_stays_below(b, u, count.bits);
    facts::relative_error(b, u);
    let p = float::product(count, v);
    let pm = p.mag();
    round::lemma_monotone(0, p.mag_bits());
    let exact = c * vm;
    let a = exact * u;
    let g = pm * u;
    assert(0x100_0000 * (a - b) <= b && 0x100_0000 * (b - a) <= b && vm <= exact <= c * u)
        by (nonlinear_arith)
        requires
            a == exact * u,
            exact == c * vm,
            b == f * vm,
            whole == c * u,
            0x100_0000 * (whole - f) <= f,
            0x100_0000 * (f - whole) <= f,
            0 < vm <= u,
            c >= 1,
    {
        assert(a == whole * vm);
        assert((0x100_0000 * (whole - f)) * vm <= f * vm);
        assert((0x100_0000 * (f - whole)) * vm <= f * vm);
    }
    assert(0x80_0000 * (g - a) <= 2 * a && 0x80_0000 * (a - g) <= 2 * a);
    assert(0x80_0000 * (pm - exact) <= 2 * exact && 0x80_0000 * (exact - pm) <= 2 * exact)
        by (nonlinear_arith)
        requires
            0x80_0000 * (g - a) <= 2 * a,
            0x80_0000 * (a - g) <= 2 * a,
            a == exact * u,
            g == pm * u,
            u > 0,
    {
        assert((0x80_0000 * (pm - exact) - 2 * exact) * u <= 0);
        assert((0x80_0000 * (exact - pm) - 2 * exact) * u <= 0);
    }
}

/// Adding a term to what was summed so far.
proof fn lemma_plus(x: F32, p: F32, s: int, e: int, k: int)
    requires
        x.finite(),
        !x.negative(),
        0 <= x.mag(),
        p.finite(),
        !p.negative(),
        0 <= p.mag(),
        1 <= k <= 256,
        0 <= s,
        0x400_0000 <= e,
        s + e <= 0x100_0000_0000_0000_0000 * float::unit(),
        0x80_0000 * (x.mag() - s) <= (k + 1) * s,
        0x80_0000 * (s - x.mag()) <= (k + 1) * s,
        0x80_0000 * (p.mag() - e) <= 2 * e,
        0x80_0000 * (e - p.mag()) <= 2 * e,
    ensures
        ({
            let r = float::sum(x, p);
            &&& r.finite()
            &&& !r.negative()
            &&& 0 <= r.mag()
            &&& 0x80_0000 * (r.mag() - (s + e)) <= (k + 2) * (s + e)
            &&& 0x80_0000 * ((s + e) - r.mag()) <= (k + 2) * (s + e)
        }),
{
    let num = x.mag() + p.mag();
    let all = s + e;
    let u = float::unit();
    facts::one_is_unit();
    facts::zero_is_zero();
    assert((k + 1) * s + 2 * e <= (k + 1) * all && (k + 2) * all == (k + 1) * all + all && (k + 1)
        * all <= 257 * all) by (nonlinear_arith)
        requires
            all == s + e,
            0 <= s,
            0 <= e,
            1 <= k <= 256,
    ;
    let off = (k + 1) * all;
    assert(0x80_0000 * (num - all) <= off && 0x80_0000 * (all - num) <= off);
    assert(0x200_0000 <= num <= 2 * all);
    lemma2_to64();
    lemma_pow2_adds(64, 8);
    lemma_pow2_adds(72, 149);
    lemma_pow2_adds(1, 221);
    assert(pow2(222) == 0x200_0000_0000_0000_0000 * u) by (nonlinear_arith)
        requires
            pow2(222) == pow2(1) * pow2(221),
            pow2(221) == pow2(72) * pow2(149),
            pow2(72) == pow2(64) * pow2(8),
            pow2(64) == 0x1_0000_0000_0000_0000,
            pow2(8) == 0x100,
            pow2(1) == 2,
            u == pow2(149),
    ;
    facts::overshoot(num, 1, 200);
    facts::relative_error(num, 1);
    round::lemma_monotone(0, float::nearest(num, 1) as int);
}

/// The light of the bytes below `k`: every addition is off by one part in 2^23 at most.
proof fn lemma_light(values: Seq<F32>, pixels: Seq<LedColor>, ch: Channel, k: int, lo: int)
    requires
        usable(values, lo),
        0x400_0000 <= lo,
        0 < pixels.len() <= u64::MAX,
        0 <= k <= 256,
    ensures
        ({
            let x = reduce::light(values, pixels, ch, k);
            let s = grouped(mags(values), pixels, ch, k);
            &&& x.finite()
            &&& !x.negative()
            &&& 0 <= x.mag()
            &&& s == 0 || lo <= s
            &&& 0 <= s <= k * (pixels.len() * float::unit())
            &&& s == 0 ==> x == (F32 { bits: 0 })
            &&& 0x80_0000 * (x.mag() - s) <= (k + 2) * s
            &&& 0x80_0000 * (s - x.mag()) <= (k + 2) * s
        }),
    decreases k,
{
    let u = float::unit();
    let top = pixels.len() * u;
    facts::one_is_unit();
    facts::zero_is_zero();
    assert(0 <= top <= 0x1_0000_0000_0000_0000 * u) by (nonlinear_arith)
        requires
            top == pixels.len() * u,
            0 <= pixels.len() <= 0x1_0000_0000_0000_0000,
            u > 0,
    ;
    if k > 0 {
        lemma_light(values, pixels, ch, k - 1, lo);
        lemma_occurrences(pixels, ch, k - 1);
        let c = reduce::occurrences(pixels, ch, k - 1);
        let v = values[k - 1];
        assert(mags(values)[k - 1] == v.mag());
        let x = reduce::light(values, pixels, ch, k - 1);
        let s = grouped(mags(values), pixels, ch, k - 1);
        assert(linear::is_light(v));
        assert((k - 1) * top + top == k * top && (k + 1) * s <= (k + 2) * s && (k - 1) * top <= 255
            * top && 0 <= (k - 1) * top) by (nonlinear_arith)
            requires
                0 <= s,
                1 <= k <= 256,
                0 <= top,
        ;
        if c == 0 || v == (F32 { bits: 0 }) {
            assert(c * v.mag() == 0) by (nonlinear_arith)
                requires
                    c == 0 || v.mag() == 0,
            ;
            facts::zero_converts_to_zero();
            if c == 0 {
                facts::product_with_zero(v);
            } else {
                facts::counts_are_finite(c);
                facts::product_with_zero(float::from_int(c));
            }
            facts::sum_with_zero(x);
        } else {
            lemma_term(c, v);
            let e = c * v.mag();
            assert(c * u <= top) by (nonlinear_arith)
                requires
                    top == pixels.len() * u,
                    c <= pixels.len(),
                    u > 0,
            ;
            lemma_plus(x, float::product(float::from_int(c), v), s, e, k);
        }
    } else {
        assert(0 * top == 0 && 2 * 0 == 0);
    }
}

/// The mean light of a channel times the number of pixels is the light of all pixels, up to one
/// part in 2^14.
proof fn lemma_mean_light(values: Seq<F32>, pixels: Seq<LedColor>, ch: Channel, lo: int)
    requires
        usable(values, lo),
        0x400_0000 <= lo,
        0 < pixels.len() <= u64::MAX,
        0x2_0000 * pixels.len() <= lo,
    ensures
        ({
            let q = reduce::mean_light(values, pixels, ch);
            let s = grouped(mags(values), pixels, ch, 256);
            let n = pixels.len() as int;
            &&& q.finite()
            &&& !q.negative()
            &&& 0 <= q.mag()
            &&& 0 <= s
            &&& 0x4000 * (n * q.mag() - s) <= s
            &&& 0x4000 * (s - n * q.mag()) <= s
        }),
{
    let n = pixels.len() as int;
    let u = float::unit();
    let x = reduce::light(values, pixels, ch, 256);
    let s = grouped(mags(values), pixels, ch, 256);
    let count = float::from_int(n);
    facts::one_is_unit();
    facts::zero_is_zero();
    lemma_light(values, pixels, ch, 256, lo);
    facts::counts_are_finite(n);
    if s == 0 {
        facts::zero_over_a_number(count);
        assert(n * 0 == 0);
    } else {
        lemma2_to64();
        lemma_pow2_strictly_increases(25, 149);
        let whole = n * u;
        assert(whole >= u) by (nonlinear_arith)
            requires
                whole == n * u,
                n >= 1,
                u > 0,
        ;
        facts::relative_error(whole, 1);
        let cf = count.mag();
        let num = x.mag() * u;
        let su = s * u;
        assert(0x80_0000 * (num - su) <= 258 * su && 0x80_0000 * (su - num) <= 258 * su)
            by (nonlinear_arith)
            requires
                num == x.mag() * u,
                su == s * u,
                0x80_0000 * (x.mag() - s) <= 258 * s,
                0x80_0000 * (s - x.mag()) <= 258 * s,
                u > 0,
        {
            assert((0x80_0000 * (x.mag() - s)) * u <= (258 * s) * u);
            assert((0x80_0000 * (s - x.mag())) * u <= (258 * s) * u);
        }
        assert(0x2_0000 * whole <= su && su <= (256 * u) * whole && su > 0) by (nonlinear_arith)
            requires
                whole == n * u,
                su == s * u,
                0x2_0000 * n <= s,
                s <= 256 * (n * u),
                n >= 1,
                u > 0,
        {
            assert((0x2_0000 * n) * u <= s * u);
            assert(s * u <= (256 * (n * u)) * u);
        }
        lemma_pow2_adds(10, 149);
        assert(pow2(159) == 0x400 * u);
        assert(num <= (0x400 * u) * cf) by (nonlinear_arith)
            requires
                0x80_0000 * (num - su) <= 258 * su,
                su <= (256 * u) * whole,
                0x100_0000 * (whole - cf) <= cf,
                cf > 0,
                u > 0,
                su > 0,
        {
            assert(num <= 2 * su);
            assert(whole <= 2 * cf);
            assert((256 * u) * whole <= (256 * u) * (2 * cf));
            assert((256 * u) * (2 * cf) == (512 * u) * cf);
            assert(num <= 2 * ((512 * u) * cf));
            assert(2 * ((512 * u) * cf) == (0x400 * u) * cf);
        }
        facts::overshoot(num, cf, 137);
        let q = reduce::mean_light(values, pixels, ch);
        let qm = q.mag();
        round::lemma_monotone(0, q.mag_bits());
        let got = qm * cf;
        if num >= 0x200_0000 * cf {
            facts::relative_error(num, cf);
        } else {
            facts::overshoot(num, cf, 3);
            facts::undershoot(num, cf, 3);
            assert(1 * cf == cf);
        }
        let exact = (n * qm) * u;
        assert(0x100_0000 * (exact - got) <= got && 0x100_0000 * (got - exact) <= got && got >= 0)
            by (nonlinear_arith)
            requires
                exact == (n * qm) * u,
                got == qm * cf,
                whole == n * u,
                0x100_0000 * (whole - cf) <= cf,
                0x100_0000 * (cf - whole) <= cf,
                qm >= 0,
                cf > 0,
        {
            assert(exact == qm * whole);
            assert(qm * (0x100_0000 * (whole - cf)) <= qm * cf);
            assert(qm * (0x100_0000 * (cf - whole)) <= qm * cf);
        }
        assert(0x4000 * (exact - su) <= su);
        assert(0x4000 * (su - exact) <= su);
        let m = n * qm;
        assert(0x4000 * (m - s) <= s && 0x4000 * (s - m) <= s) by (nonlinear_arith)
            requires
                exact == m * u,
                su == s * u,
                0x4000 * (exact - su) <= su,
                0x4000 * (su - exact) <= su,
                u > 0,
        {
            assert((0x4000 * (m - s) - s) * u <= 0);
            assert((0x4000 * (s - m) - s) * u <= 0);
        }
    }
}

/// Whether a byte is what a mean in linear light encodes to, the mean being a sum over `n`
/// pixels: the mean reaches the byte's floor, and not the next one, up to one part in 2^13.
pub open spec fn is_byte_of_mean(t: TransferTables, b: u8, sum: int, n: int) -> bool {
    let floors = t.floor_table();
    &&& b > 0 ==> 0x2000 * (n * floors[b as int].mag()) <= 0x2001 * sum
    &&& b < 255 ==> 0x1FFF * sum <= 0x2000 * (n * floors[b + 1].mag())
}

/// Whether a byte is what the root of a mean of squares encodes to.
pub open spec fn is_byte_of_root(t: TransferTables, b: u8, sum: int, n: int) -> bool {
    let floors = t.floor_table();
    &&& b > 0 ==> 0x1000 * (n * (floors[b as int].mag() * floors[b as int].mag())) <= 0x1001 * sum
    &&& b < 255 ==> 0xFFF * sum <= 0x1000 * (n * (floors[b + 1].mag() * floors[b + 1].mag()))
}

proof fn lemma_level(floors: Seq<F32>, x: F32, n: int)
    requires
        0 <= n,
    ensures
        ({
            let b = linear::level(floors, x, n);
            &&& 0 <= b <= n
            &&& b > 0 ==> float::less_eq(floors[b], x)
            &&& b < n ==> !float::less_eq(floors[b + 1], x)
        }),
    decreases n,
{
    if n > 0 && !float::less_eq(floors[n], x) {
        lemma_level(floors, x, n - 1);
    }
}

proof fn lemma_square_level(floors: Seq<F32>, x: F32, n: int)
    requires
        0 <= n,
    ensures
        ({
            let b = linear::square_level(floors, x, n);
            &&& 0 <= b <= n
            &&& b > 0 ==> float::less_eq(float::product(floors[b], floors[b]), x)
            &&& b < n ==> !float::less_eq(float::product(floors[b + 1], floors[b + 1]), x)
        }),
    decreases n,
{
    if n > 0 && !float::less_eq(float::product(floors[n], floors[n]), x) {
        lemma_square_level(floors, x, n - 1);
    }
}

proof fn lemma_tables_are_usable(t: TransferTables)
    requires
        t.valid(),
    ensures
        usable(t.decode_table(), pow2(99) as int),
        pow2(99) >= 0x2_0000_0000_0000_0000_0000,
{
    assert forall|i: int| 0 <= i < 256 implies linear::is_light(#[trigger] t.decode_table()[i]) && (
    t.decode_table()[i] == (F32 { bits: 0 }) || pow2(99) <= t.decode_table()[i].mag()) by {
        solid::lemma_table_values(t, i);
    }
    lemma2_to64();
    lemma_pow2_adds(64, 32);
    lemma_pow2_adds(96, 3);
}

proof fn lemma_byte_of_mean(t: TransferTables, q: F32, s: int, n: int)
    requires
        t.valid(),
        q.finite(),
        !q.negative(),
        0 < n,
        0 <= s,
        0x4000 * (n * q.mag() - s) <= s,
        0x4000 * (s - n * q.mag()) <= s,
    ensures
        is_byte_of_mean(t, t.byte(q), s, n),
{
    let values = t.decode_table();
    let floors = t.floor_table();
    lemma_level(floors, q, 255);
    let b = linear::level(floors, q, 255);
    if b > 0 {
        linear::lemma_clear(values, floors, b);
        assert(n * floors[b].mag() <= n * q.mag()) by (nonlinear_arith)
            requires
                floors[b].mag() <= q.mag(),
                n > 0,
        ;
    }
    if b < 255 {
        linear::lemma_clear(values, floors, b + 1);
        assert(n * q.mag() <= n * floors[b + 1].mag()) by (nonlinear_arith)
            requires
                q.mag() <= floors[b + 1].mag(),
                n > 0,
        ;
    }
}

proof fn lemma_mean_of_channel(t: TransferTables, pixels: Seq<LedColor>, ch: Channel)
    requires
        t.valid(),
        0 < pixels.len() <= u64::MAX,
    ensures
        ({
            let q = reduce::mean_light(t.decode_table(), pixels, ch);
            let s = grouped(mags(t.decode_table()), pixels, ch, 256);
            let n = pixels.len() as int;
            &&& q.finite()
            &&& !q.negative()
            &&& 0 <= s
            &&& 0x4000 * (n * q.mag() - s) <= s
            &&& 0x4000 * (s - n * q.mag()) <= s
        }),
{
    lemma_tables_are_usable(t);
    lemma_mean_light(t.decode_table(), pixels, ch, pow2(99) as int);
}

proof fn lemma_channel_of_mean(
    t: TransferTables,
    pixels: Seq<LedColor>,
    ch: Channel,
    of: spec_fn(LedColor) -> int,
)
    requires
        t.valid(),
        0 < pixels.len() <= u64::MAX,
        forall|p: LedColor|
            #[trigger] of(p) == t.decode_table()[reduce::channel_of(p, ch) as int].mag(),
    ensures
        is_byte_of_mean(
            t,
            t.byte(reduce::mean_light(t.decode_table(), pixels, ch)),
            total(pixels, of),
            pixels.len() as int,
        ),
{
    let values = t.decode_table();
    lemma_mean_of_channel(t, pixels, ch);
    assert forall|p: LedColor| #[trigger] of(p) == mags(values)[reduce::channel_of(p, ch) as int] by {
        assert(of(p) == values[reduce::channel_of(p, ch) as int].mag());
    }
    lemma_grouped(mags(values), pixels, ch, of);
    lemma_byte_of_mean(
        t,
        reduce::mean_light(values, pixels, ch),
        total(pixels, of),
        pixels.len() as int,
    );
}

/// Averaging gives, for every channel, the byte of the mean of all pixels in linear light: the sum
/// of their linear values over their number.
#[verifier::rlimit(40)]
pub proof fn mean_is_over_all_pixels(t: TransferTables, pixels: Seq<LedColor>)
    requires
        t.valid(),
        0 < pixels.len() <= u64::MAX,
    ensures
        ({
            let c = reduce::linear_mean(t, pixels);
            let n = pixels.len() as int;
            let d = t.decode_table();
            &&& is_byte_of_mean(t, c.r, total(pixels, |p: LedColor| d[p.r as int].mag()), n)
            &&& is_byte_of_mean(t, c.g, total(pixels, |p: LedColor| d[p.g as int].mag()), n)
            &&& is_byte_of_mean(t, c.b, total(pixels, |p: LedColor| d[p.b as int].mag()), n)
        }),
{
    let d = t.decode_table();
    lemma_channel_of_mean(t, pixels, Channel::Red, |p: LedColor| d[p.r as int].mag());
    lemma_channel_of_mean(t, pixels, Channel::Green, |p: LedColor| d[p.g as int].mag());
    lemma_channel_of_mean(t, pixels, Channel::Blue, |p: LedColor| d[p.b as int].mag());
}

/// The squares of a table of linear values.
proof fn lemma_squares(t: TransferTables, i: int)
    requires
        t.valid(),
        0 <= i < 256,
    ensures
        ({
            let v = t.decode_table()[i].mag();
            let x = reduce::squares(t.decode_table())[i];
            &&& linear::is_light(x)
            &&& x == (F32 { bits: 0 }) || pow2(48) <= x.mag()
            &&& 0 <= v * v
            &&& 0x80_0000 * (v * v - x.mag() * float::unit()) <= v * v
            &&& 0x80_0000 * (x.mag() * float::unit() - v * v) <= v * v
        }),
{
    let d = t.decode_table()[i];
    let u = float::unit();
    solid::lemma_table_values(t, i);
    facts::zero_is_zero();
    facts::one_is_unit();
    if d == (F32 { bits: 0 }) {
        facts::product_with_zero(d);
        assert(0 * u == 0);
    } else {
        solid::lemma_square(d);
        let v = d.mag();
        let x = float::product(d, d).mag();
        lemma2_to64();
        lemma_pow2_adds(99, 99);
        lemma_pow2_adds(49, 149);
        lemma_pow2_adds(1, 48);
        lemma_pow2_pos(48);
        let least = pow2(99) as int;
        let h = pow2(48) as int;
        assert(least * least <= v * v) by (nonlinear_arith)
            requires
                0 <= least <= v,
        ;
        assert(2 * (h * u) == least * least) by (nonlinear_arith)
            requires
                least * least == pow2(49) * u,
                pow2(49) == 2 * h,
        ;
        assert(h * u >= 0) by (nonlinear_arith)
            requires
                h > 0,
                u > 0,
        ;
        assert(h * u <= x * u);
        assert(h <= x) by (nonlinear_arith)
            requires
                h * u <= x * u,
                u > 0,
        ;
    }
}

/// The squares of all pixels, rounded one by one, and exactly.
proof fn lemma_total_squares(
    t: TransferTables,
    pixels: Seq<LedColor>,
    rounded: spec_fn(LedColor) -> int,
    exact: spec_fn(LedColor) -> int,
)
    requires
        forall|p: LedColor|
            #![trigger rounded(p)]
            #![trigger exact(p)]
            {
                &&& 0 <= exact(p)
                &&& 0x80_0000 * (exact(p) - rounded(p) * float::unit()) <= exact(p)
                &&& 0x80_0000 * (rounded(p) * float::unit() - exact(p)) <= exact(p)
            },
    ensures
        ({
            let a = total(pixels, rounded) * float::unit();
            let b = total(pixels, exact);
            &&& 0 <= b
            &&& 0x80_0000 * (b - a) <= b
            &&& 0x80_0000 * (a - b) <= b
        }),
    decreases pixels.len(),
{
    let u = float::unit();
    if pixels.len() == 0 {
        assert(0 * u == 0);
    } else {
        lemma_total_squares(t, pixels.drop_last(), rounded, exact);
        let x = rounded(pixels.last());
        let before = total(pixels.drop_last(), rounded);
        assert((before + x) * u == before * u + x * u) by (nonlinear_arith);
        assert(0 <= exact(pixels.last()));
    }
}

/// A floor's square and a mean of squares.
proof fn lemma_floor_square(f: F32, q: int, sum: int, n: int)
    requires
        linear::is_light(f),
        pow2(99) <= f.mag(),
        0 < n,
        0 <= sum,
        0x1800 * ((n * q) * float::unit() - sum) <= sum,
        0x1800 * (sum - (n * q) * float::unit()) <= sum,
    ensures
        float::product(f, f).mag() <= q ==> 0x1000 * (n * (f.mag() * f.mag())) <= 0x1001 * sum,
        q <= float::product(f, f).mag() ==> 0xFFF * sum <= 0x1000 * (n * (f.mag() * f.mag())),
{
    solid::lemma_square(f);
    facts::one_is_unit();
    let u = float::unit();
    let p = float::product(f, f).mag();
    let f2 = f.mag() * f.mag();
    let nf = n * f2;
    let np = (n * p) * u;
    let nq = (n * q) * u;
    assert(0x100_0000 * (nf - np) <= np && 0x100_0000 * (np - nf) <= np) by (nonlinear_arith)
        requires
            nf == n * f2,
            np == (n * p) * u,
            0x100_0000 * (f2 - p * u) <= p * u,
            0x100_0000 * (p * u - f2) <= p * u,
            n > 0,
    {
        assert(np == n * (p * u));
        assert(n * (0x100_0000 * (f2 - p * u)) <= n * (p * u));
        assert(n * (0x100_0000 * (p * u - f2)) <= n * (p * u));
    }
    if p <= q {
        assert(np <= nq) by (nonlinear_arith)
            requires
                np == (n * p) * u,
                nq == (n * q) * u,
                p <= q,
                n > 0,
                u > 0,
        {
            assert(n * p <= n * q);
        }
    }
    if q <= p {
        assert(nq <= np) by (nonlinear_arith)
            requires
                np == (n * p) * u,
                nq == (n * q) * u,
                q <= p,
                n > 0,
                u > 0,
        {
            assert(n * q <= n * p);
        }
    }
}

proof fn lemma_channel_of_root(
    t: TransferTables,
    pixels: Seq<LedColor>,
    ch: Channel,
    of: spec_fn(LedColor) -> int,
)
    requires
        t.valid(),
        0 < pixels.len() <= 0x7FFF_FFFF,
        forall|p: LedColor|
            #[trigger] of(p) == t.decode_table()[reduce::channel_of(p, ch) as int].mag()
                * t.decode_table()[reduce::channel_of(p, ch) as int].mag(),
    ensures
        is_byte_of_root(
            t,
            t.root_byte(reduce::mean_light(reduce::squares(t.decode_table()), pixels, ch)),
            total(pixels, of),
            pixels.len() as int,
        ),
{
    let values = reduce::squares(t.decode_table());
    let floors = t.floor_table();
    let n = pixels.len() as int;
    let u = float::unit();
    facts::one_is_unit();
    assert(usable(values, pow2(48) as int)) by {
        assert forall|i: int| 0 <= i < 256 implies linear::is_light(#[trigger] values[i]) && (
        values[i] == (F32 { bits: 0 }) || pow2(48) <= values[i].mag()) by {
            lemma_squares(t, i);
        }
    }
    lemma2_to64();
    lemma_pow2_adds(32, 16);
    lemma_mean_light(values, pixels, ch, pow2(48) as int);
    let rounded = |p: LedColor| mags(values)[reduce::channel_of(p, ch) as int];
    lemma_grouped(mags(values), pixels, ch, rounded);
    assert forall|p: LedColor|
        #![trigger rounded(p)]
        #![trigger of(p)]
        {
            &&& 0 <= of(p)
            &&& 0x80_0000 * (of(p) - rounded(p) * u) <= of(p)
            &&& 0x80_0000 * (rounded(p) * u - of(p)) <= of(p)
        } by {
        lemma_squares(t, reduce::channel_of(p, ch) as int);
        assert(rounded(p) == values[reduce::channel_of(p, ch) as int].mag());
        assert(of(p) == t.decode_table()[reduce::channel_of(p, ch) as int].mag()
            * t.decode_table()[reduce::channel_of(p, ch) as int].mag());
    }
    lemma_total_squares(t, pixels, rounded, of);
    let q = reduce::mean_light(values, pixels, ch);
    let s = total(pixels, rounded);
    let sum = total(pixels, of);
    let su = s * u;
    let nq = (n * q.mag()) * u;
    assert(0x4000 * (nq - su) <= su && 0x4000 * (su - nq) <= su) by (nonlinear_arith)
        requires
            nq == (n * q.mag()) * u,
            su == s * u,
            0x4000 * (n * q.mag() - s) <= s,
            0x4000 * (s - n * q.mag()) <= s,
            u > 0,
    {
        assert((0x4000 * (n * q.mag() - s)) * u <= s * u);
        assert((0x4000 * (s - n * q.mag())) * u <= s * u);
    }
    assert(0x1800 * (nq - sum) <= sum && 0x1800 * (sum - nq) <= sum);
    lemma_square_level(floors, q, 255);
    let b = linear::square_level(floors, q, 255);
    if b > 0 {
        linear::lemma_clear(t.decode_table(), floors, b);
        lemma_floor_square(floors[b], q.mag(), sum, n);
        solid::lemma_square(floors[b]);
    }
    if b < 255 {
        linear::lemma_clear(t.decode_table(), floors, b + 1);
        lemma_floor_square(floors[b + 1], q.mag(), sum, n);
        solid::lemma_square(floors[b + 1]);
    }
}

/// The root mean square gives, for every channel, the byte of the root of the mean, over all
/// pixels, of the squares of their linear values.
#[verifier::rlimit(40)]
pub proof fn root_mean_square_is_over_all_pixels(t: TransferTables, pixels: Seq<LedColor>)
    requires
        t.valid(),
        0 < pixels.len() <= 0x7FFF_FFFF,
    ensures
        ({
            let c = reduce::root_mean_square(t, pixels);
            let n = pixels.len() as int;
            let d = t.decode_table();
            &&& is_byte_of_root(
                t,
                c.r,
                total(pixels, |p: LedColor| d[p.r as int].mag() * d[p.r as int].mag()),
                n,
            )
            &&& is_byte_of_root(
                t,
                c.g,
                total(pixels, |p: LedColor| d[p.g as int].mag() * d[p.g as int].mag()),
                n,
            )
            &&& is_byte_of_root(
                t,
                c.b,
                total(pixels, |p: LedColor| d[p.b as int].mag() * d[p.b as int].mag()),
                n,
            )
        }),
{
    let d = t.decode_table();
    lemma_channel_of_root(
        t,
        pixels,
        Channel::Red,
        |p: LedColor| d[p.r as int].mag() * d[p.r as int].mag(),
    );
    lemma_channel_of_root(
        t,
        pixels,
        Channel::Green,
        |p: LedColor| d[p.g as int].mag() * d[p.g as int].mag(),
    );
    lemma_channel_of_root(
        t,
        pixels,
        Channel::Blue,
        |p: LedColor| d[p.b as int].mag() * d[p.b as int].mag(),
    );
}

/// The plain mean of a channel, cut to an integer, is the sum over all pixels divided by their
/// number.
pub proof fn plain_mean_is_over_all_pixels(pixels: Seq<LedColor>)
    requires
        0 < pixels.len(),
    ensures
        ({
            let c = zones::mean(pixels);
            let n = pixels.len() as int;
            &&& c.r * n <= total(pixels, |p: LedColor| p.r as int) < (c.r + 1) * n
            &&& c.g * n <= total(pixels, |p: LedColor| p.g as int) < (c.g + 1) * n
            &&& c.b * n <= total(pixels, |p: LedColor| p.b as int) < (c.b + 1) * n
        }),
{
    let n = pixels.len() as int;
    let s = zones::sums(pixels);
    lemma_sums(pixels, |p: LedColor| p.r as int, |p: LedColor| p.g as int, |p: LedColor| p.b as int);
    zones::lemma_sum_bounds(pixels);
    lemma_cut(s.r, n);
    lemma_cut(s.g, n);
    lemma_cut(s.b, n);
}

proof fn lemma_cut(s: int, n: int)
    requires
        0 < n,
        0 <= s <= 255 * n,
    ensures
        0 <= s / n <= 255,
        (s / n) * n <= s < (s / n + 1) * n,
{
    let q = s / n;
    assert(0 <= q <= 255 && q * n <= s < (q + 1) * n) by (nonlinear_arith)
        requires
            q == s / n,
            0 < n,
            0 <= s <= 255 * n,
    ;
}

proof fn lemma_sums(
    pixels: Seq<LedColor>,
    r: spec_fn(LedColor) -> int,
    g: spec_fn(LedColor) -> int,
    b: spec_fn(LedColor) -> int,
)
    requires
        forall|p: LedColor| #[trigger] r(p) == p.r,
        forall|p: LedColor| #[trigger] g(p) == p.g,
        forall|p: LedColor| #[trigger] b(p) == p.b,
    ensures
        zones::sums(pixels).r == total(pixels, r),
        zones::sums(pixels).g == total(pixels, g),
        zones::sums(pixels).b == total(pixels, b),
    decreases pixels.len(),
{
    if pixels.len() > 0 {
        lemma_sums(pixels.drop_last(), r, g, b);
        let p = pixels.last();
        assert(r(p) == p.r && g(p) == p.g && b(p) == p.b);
    }
}

/// A zone of a frame gets the average of its own samples that the averaging mode asks for: the
/// mean in linear light, or the root of the mean square.
#[verifier::rlimit(40)]
pub proof fn zones_are_averaged_over_their_samples(
    frame: Frame,
    cfg: LedMatrixConfig,
    subsample: u32,
    t: TransferTables,
    i: int,
)
    requires
        t.valid(),
        0 <= i < cfg.zones@.len(),
        ({
            let step = if subsample == 0 {
                1
            } else {
                subsample as int
            };
            let n = zones::samples(frame, zones::frame_zone(frame, cfg, i), step).len();
            0 < n <= 0x7FFF_FFFF
        }),
    ensures
        ({
            let step = if subsample == 0 {
                1
            } else {
                subsample as int
            };
            let pixels = zones::samples(frame, zones::frame_zone(frame, cfg, i), step);
            let n = pixels.len() as int;
            let d = t.decode_table();
            let mean = reduce::zone_colors(frame, cfg, subsample, AveragingMode::Mean, t);
            let root = reduce::zone_colors(frame, cfg, subsample, AveragingMode::MeanSquared, t);
            &&& mean.len() == cfg.zones@.len()
            &&& root.len() == cfg.zones@.len()
            &&& is_byte_of_mean(t, mean[i].r, total(pixels, |p: LedColor| d[p.r as int].mag()), n)
            &&& is_byte_of_mean(t, mean[i].g, total(pixels, |p: LedColor| d[p.g as int].mag()), n)
            &&& is_byte_of_mean(t, mean[i].b, total(pixels, |p: LedColor| d[p.b as int].mag()), n)
            &&& is_byte_of_root(
                t,
                root[i].r,
                total(pixels, |p: LedColor| d[p.r as int].mag() * d[p.r as int].mag()),
                n,
            )
            &&& is_byte_of_root(
                t,
                root[i].g,
                total(pixels, |p: LedColor| d[p.g as int].mag() * d[p.g as int].mag()),
                n,
            )
            &&& is_byte_of_root(
                t,
                root[i].b,
                total(pixels, |p: LedColor| d[p.b as int].mag() * d[p.b as int].mag()),
                n,
            )
        }),
{
    let pixels = zones::samples(
        frame,
        zones::frame_zone(frame, cfg, i),
        zones::sampling_step(subsample),
    );
    mean_is_over_all_pixels(t, pixels);
    root_mean_square_is_over_all_pixels(t, pixels);
}

/// A zone without pixels is black, however pixels are averaged.
pub proof fn zones_without_pixels_are_black(
    frame: Frame,
    cfg: LedMatrixConfig,
    subsample: u32,
    mode: AveragingMode,
    t: TransferTables,
    i: int,
)
    requires
        0 <= i < cfg.zones@.len(),
        zones::frame_zone(frame, cfg, i).w == 0 || zones::frame_zone(frame, cfg, i).h == 0
            || frame.buf@.len() < 4,
    ensures
        reduce::zone_colors(frame, cfg, subsample, mode, t)[i] == (LedColor { r: 0, g: 0, b: 0 }),
{
    let z = zones::frame_zone(frame, cfg, i);
    let step = zones::sampling_step(subsample);
    if z.w == 0 || z.h == 0 {
        zones::lemma_empty_zone(frame, z, step, z.h as int);
    } else {
        lemma_nothing_to_read(frame, z, step, 0, z.h as int);
    }
}

proof fn lemma_nothing_to_read(frame: Frame, z: ScaledZone, step: int, dx: int, dy: int)
    requires
        frame.buf@.len() < 4,
    ensures
        zones::samples_before(frame, z, step, dx, dy) == Seq::<LedColor>::empty(),
    decreases dy, dx,
{
    if dx > 0 {
        lemma_nothing_to_read(frame, z, step, dx - 1, dy);
    } else if dy > 0 {
        lemma_nothing_to_read(frame, z, step, z.w as int, dy - 1);
    }
}

proof fn lemma_occurrences_move(
    x: Seq<LedColor>,
    p: LedColor,
    y: Seq<LedColor>,
    ch: Channel,
    v: int,
)
    ensures
        reduce::occurrences(x + seq![p] + y, ch, v) == reduce::occurrences((x + y).push(p), ch, v),
    decreases y.len(),
{
    if y.len() == 0 {
        assert(x + seq![p] + y =~= (x + y).push(p));
    } else {
        let rest = y.drop_last();
        reveal_with_fuel(reduce::occurrences, 3);
        lemma_occurrences_move(x, p, rest, ch, v);
        assert((x + seq![p] + y).drop_last() =~= x + seq![p] + rest);
        assert((x + y).push(p).drop_last() =~= x + y);
        assert((x + y).drop_last() =~= x + rest);
        assert((x + rest).push(p).drop_last() =~= x + rest);
    }
}

proof fn lemma_light_of_same_counts(
    values: Seq<F32>,
    a: Seq<LedColor>,
    b: Seq<LedColor>,
    ch: Channel,
    n: int,
)
    requires
        forall|v: int| #[trigger]
            reduce::occurrences(a, ch, v) == reduce::occurrences(b, ch, v),
    ensures
        reduce::light(values, a, ch, n) == reduce::light(values, b, ch, n),
    decreases n,
{
    if n > 0 {
        lemma_light_of_same_counts(values, a, b, ch, n - 1);
        assert(reduce::occurrences(a, ch, n - 1) == reduce::occurrences(b, ch, n - 1));
    }
}

proof fn lemma_mean_light_moves(
    values: Seq<F32>,
    x: Seq<LedColor>,
    p: LedColor,
    y: Seq<LedColor>,
    ch: Channel,
)
    ensures
        reduce::mean_light(values, x + seq![p] + y, ch) == reduce::mean_light(
            values,
            (x + y).push(p),
            ch,
        ),
{
    let a = x + seq![p] + y;
    let b = (x + y).push(p);
    assert forall|v: int| #[trigger]
        reduce::occurrences(a, ch, v) == reduce::occurrences(b, ch, v) by {
        lemma_occurrences_move(x, p, y, ch, v);
    }
    lemma_light_of_same_counts(values, a, b, ch, 256);
}

/// Where a pixel stands among the others makes no difference to their mean, nor to the root of
/// their mean square, however many there are.
pub proof fn means_do_not_depend_on_the_order(
    t: TransferTables,
    x: Seq<LedColor>,
    p: LedColor,
    y: Seq<LedColor>,
)
    ensures
        reduce::linear_mean(t, x + seq![p] + y) == reduce::linear_mean(t, (x + y).push(p)),
        reduce::root_mean_square(t, x + seq![p] + y) == reduce::root_mean_square(
            t,
            (x + y).push(p),
        ),
{
    let d = t.decode_table();
    let s = reduce::squares(d);
    lemma_mean_light_moves(d, x, p, y, Channel::Red);
    lemma_mean_light_moves(d, x, p, y, Channel::Green);
    lemma_mean_light_moves(d, x, p, y, Channel::Blue);
    lemma_mean_light_moves(s, x, p, y, Channel::Red);
    lemma_mean_light_moves(s, x, p, y, Channel::Green);
    lemma_mean_light_moves(s, x, p, y, Channel::Blue);
}

/// A channel's mean does not depend on the other channels.
pub proof fn channels_are_averaged_apart(t: TransferTables, a: Seq<LedColor>, b: Seq<LedColor>)
    requires
        a.len() == b.len(),
    ensures
        (forall|i: int| 0 <= i < a.len() ==> (#[trigger] a[i]).r == b[i].r) ==> reduce::linear_mean(
            t,
            a,
        ).r == reduce::linear_mean(t, b).r && reduce::root_mean_square(t, a).r
            == reduce::root_mean_square(t, b).r,
        (forall|i: int| 0 <= i < a.len() ==> (#[trigger] a[i]).g == b[i].g) ==> reduce::linear_mean(
            t,
            a,
        ).g == reduce::linear_mean(t, b).g && reduce::root_mean_square(t, a).g
            == reduce::root_mean_square(t, b).g,
        (forall|i: int| 0 <= i < a.len() ==> (#[trigger] a[i]).b == b[i].b) ==> reduce::linear_mean(
            t,
            a,
        ).b == reduce::linear_mean(t, b).b && reduce::root_mean_square(t, a).b
            == reduce::root_mean_square(t, b).b,
{
    lemma_channel_apart(t, a, b, Channel::Red);
    lemma_channel_apart(t, a, b, Channel::Green);
    lemma_channel_apart(t, a, b, Channel::Blue);
}

proof fn lemma_channel_apart(
    t: TransferTables,
    a: Seq<LedColor>,
    b: Seq<LedColor>,
    ch: Channel,
)
    requires
        a.len() == b.len(),
    ensures
        (forall|i: int|
            0 <= i < a.len() ==> reduce::channel_of(#[trigger] a[i], ch) == reduce::channel_of(
                b[i],
                ch,
            )) ==> {
            let d = t.decode_table();
            &&& reduce::mean_light(d, a, ch) == reduce::mean_light(d, b, ch)
            &&& reduce::mean_light(reduce::squares(d), a, ch) == reduce::mean_light(
                reduce::squares(d),
                b,
                ch,
            )
        },
{
    if forall|i: int|
        0 <= i < a.len() ==> reduce::channel_of(#[trigger] a[i], ch) == reduce::channel_of(
            b[i],
            ch,
        ) {
        let d = t.decode_table();
        assert forall|v: int| #[trigger]
            reduce::occurrences(a, ch, v) == reduce::occurrences(b, ch, v) by {
            lemma_same_occurrences(a, b, ch, v);
        }
        lemma_light_of_same_counts(d, a, b, ch, 256);
        lemma_light_of_same_counts(reduce::squares(d), a, b, ch, 256);
    }
}

proof fn lemma_same_occurrences(a: Seq<LedColor>, b: Seq<LedColor>, ch: Channel, v: int)
    requires
        a.len() == b.len(),
        forall|i: int|
            0 <= i < a.len() ==> reduce::channel_of(#[trigger] a[i], ch) == reduce::channel_of(
                b[i],
                ch,
            ),
    ensures
        reduce::occurrences(a, ch, v) == reduce::occurrences(b, ch, v),
    decreases a.len(),
{
    if a.len() > 0 {
        assert forall|i: int| 0 <= i < a.len() - 1 implies reduce::channel_of(
            #[trigger] a.drop_last()[i],
            ch,
        ) == reduce::channel_of(b.drop_last()[i], ch) by {
            assert(a.drop_last()[i] == a[i]);
        }
        lemma_same_occurrences(a.drop_last(), b.drop_last(), ch, v);
        assert(reduce::channel_of(a[a.len() - 1], ch) == reduce::channel_of(b[b.len() - 1], ch));
    }
}

} // verus!
