//! A zone of one colour keeps it, under every averaging.

use vstd::prelude::*;
use vstd::arithmetic::power2::*;

use crate::float;
use crate::float::facts;
use crate::float::round;
use crate::float::{F32, ONE};

use super::dominant;
use super::linear;
use super::linear::{Linear, TransferTables};
use super::reduce;
use super::reduce::Channel;
use super::LedColor;

verus! {

/// How often bytes occur among pixels of one colour.
proof fn lemma_solid_occurrences(pixels: Seq<LedColor>, c: LedColor, ch: Channel, v: int)
    requires
        forall|i: int| 0 <= i < pixels.len() ==> #[trigger] pixels[i] == c,
    ensures
        reduce::occurrences(pixels, ch, v) == if reduce::channel_of(c, ch) == v {
            pixels.len() as int
        } else {
            0
        },
    decreases pixels.len(),
{
    if pixels.len() > 0 {
        lemma_solid_occurrences(pixels.drop_last(), c, ch, v);
    }
}

/// The light of pixels of one colour.
proof fn lemma_solid_light(
    values: Seq<F32>,
    pixels: Seq<LedColor>,
    c: LedColor,
    ch: Channel,
    n: int,
)
    requires
        0 <= n <= 256,
        values.len() == 256,
        forall|i: int| 0 <= i < 256 ==> linear::is_light(#[trigger] values[i]),
        0 < pixels.len() <= u64::MAX,
        forall|i: int| 0 <= i < pixels.len() ==> #[trigger] pixels[i] == c,
    ensures
        ({
            let b = reduce::channel_of(c, ch) as int;
            let all = float::product(float::from_int(pixels.len() as int), values[b]);
            &&& all.finite()
            &&& !all.negative()
            &&& reduce::light(values, pixels, ch, n) == if b < n {
                all
            } else {
                F32 { bits: 0 }
            }
        }),
    decreases n,
{
    let b = reduce::channel_of(c, ch) as int;
    let count = float::from_int(pixels.len() as int);
    let all = float::product(count, values[b]);
    facts::counts_are_finite(pixels.len() as int);
    facts::one_is_unit();
    facts::zero_is_zero();
    let u = float::unit();
    assert(linear::is_light(values[b]));
    round::lemma_monotone(0, values[b].mag_bits());
    assert(0 <= count.mag() * values[b].mag() <= count.mag() * u) by (nonlinear_arith)
        requires
            0 <= values[b].mag() <= u,
            0 <= count.mag(),
    ;
    facts::rounding_stays_below(count.mag() * values[b].mag(), u, count.bits);
    if n > 0 {
        lemma_solid_light(values, pixels, c, ch, n - 1);
        lemma_solid_occurrences(pixels, c, ch, n - 1);
        assert(linear::is_light(values[n - 1]));
        if b == n - 1 {
            facts::sum_with_zero(all);
        } else {
            facts::zero_converts_to_zero();
            facts::product_with_zero(values[n - 1]);
            facts::sum_with_zero(reduce::light(values, pixels, ch, n - 1));
        }
    }
}

/// What a table's values are.
pub proof fn lemma_table_values(t: TransferTables, i: int)
    requires
        t.valid(),
        0 <= i < 256,
    ensures
        linear::is_light(t.decode_table()[i]),
        i > 0 ==> pow2(99) <= t.decode_table()[i].mag(),
        i == 0 ==> t.decode_table()[i] == (F32 { bits: 0 }),
{
    facts::zero_is_zero();
    facts::one_is_unit();
    if i > 0 {
        linear::lemma_clear(t.decode_table(), t.floor_table(), i);
        lemma_pow2_pos(99);
    }
}

/// The mean light of pixels of one colour is almost that colour's.
proof fn lemma_solid_mean_light(values: Seq<F32>, pixels: Seq<LedColor>, c: LedColor, ch: Channel)
    requires
        values.len() == 256,
        forall|i: int| 0 <= i < 256 ==> linear::is_light(#[trigger] values[i]),
        0 < pixels.len() <= u64::MAX,
        forall|i: int| 0 <= i < pixels.len() ==> #[trigger] pixels[i] == c,
        ({
            let x = values[reduce::channel_of(c, ch) as int];
            x == (F32 { bits: 0 }) || x.mag() >= 0x400_0000
        }),
    ensures
        ({
            let x = values[reduce::channel_of(c, ch) as int];
            let q = reduce::mean_light(values, pixels, ch);
            &&& q.finite()
            &&& !q.negative()
            &&& x == (F32 { bits: 0 }) ==> q == x
            &&& 0x40_0000 * (x.mag() - q.mag()) <= x.mag()
            &&& 0x40_0000 * (q.mag() - x.mag()) <= x.mag()
        }),
{
    let x = values[reduce::channel_of(c, ch) as int];
    let count = float::from_int(pixels.len() as int);
    lemma_solid_light(values, pixels, c, ch, 256);
    facts::counts_are_finite(pixels.len() as int);
    facts::one_is_unit();
    facts::zero_is_zero();
    assert(linear::is_light(x));
    if x == (F32 { bits: 0 }) {
        facts::product_with_zero(count);
        facts::zero_over_a_number(count);
    } else {
        facts::scaling_and_back(count, x);
    }
}

/// The mean of pixels that all have one colour is that colour, however many there are.
pub proof fn solid_linear_mean(t: TransferTables, pixels: Seq<LedColor>, c: LedColor)
    requires
        t.valid(),
        0 < pixels.len() <= u64::MAX,
        forall|i: int| 0 <= i < pixels.len() ==> #[trigger] pixels[i] == c,
    ensures
        reduce::linear_mean(t, pixels) == c,
{
    lemma_solid_byte(t, pixels, c, Channel::Red);
    lemma_solid_byte(t, pixels, c, Channel::Green);
    lemma_solid_byte(t, pixels, c, Channel::Blue);
}

proof fn lemma_solid_byte(t: TransferTables, pixels: Seq<LedColor>, c: LedColor, ch: Channel)
    requires
        t.valid(),
        0 < pixels.len() <= u64::MAX,
        forall|i: int| 0 <= i < pixels.len() ==> #[trigger] pixels[i] == c,
    ensures
        t.byte(reduce::mean_light(t.decode_table(), pixels, ch)) == reduce::channel_of(c, ch),
{
    let values = t.decode_table();
    let b = reduce::channel_of(c, ch);
    assert forall|i: int| 0 <= i < 256 implies linear::is_light(#[trigger] values[i]) by {
        lemma_table_values(t, i);
    }
    lemma_table_values(t, b as int);
    lemma2_to64();
    lemma_pow2_strictly_increases(26, 99);
    lemma_solid_mean_light(values, pixels, c, ch);
    linear::lemma_close_values_encode_alike(t, b, reduce::mean_light(values, pixels, ch));
}

/// The square of a number between zero and one.
pub proof fn lemma_square(x: F32)
    requires
        linear::is_light(x),
        pow2(99) <= x.mag(),
    ensures
        ({
            let s = float::product(x, x);
            let exact = x.mag() * x.mag();
            let got = s.mag() * float::unit();
            &&& linear::is_light(s)
            &&& s.mag() >= 0x400_0000
            &&& 0x100_0000 * (exact - got) <= got
            &&& 0x100_0000 * (got - exact) <= got
        }),
{
    let m = x.mag();
    let u = float::unit();
    let exact = m * m;
    facts::one_is_unit();
    lemma2_to64();
    lemma_pow2_adds(99, 99);
    lemma_pow2_adds(149, 49);
    lemma_pow2_strictly_increases(27, 49);
    let least = pow2(99) as int;
    assert(least * least <= exact <= u * u) by (nonlinear_arith)
        requires
            exact == m * m,
            0 <= least <= m <= u,
    ;
    assert(0x800_0000 * u <= exact) by (nonlinear_arith)
        requires
            least * least == u * pow2(49),
            pow2(49) >= 0x800_0000,
            least * least <= exact,
            u > 0,
    ;
    facts::product_is_close(x, x);
    facts::rounding_stays_below(exact, u, ONE);
    let s = float::product(x, x);
    round::lemma_monotone(s.mag_bits(), ONE as int);
    let got = s.mag() * u;
    assert(0x400_0000 * u <= got);
    assert(s.mag() >= 0x400_0000) by (nonlinear_arith)
        requires
            0x400_0000 * u <= s.mag() * u,
            u > 0,
    ;
}

/// The largest byte the square of whose floor a value reaches.
proof fn lemma_square_level(floors: Seq<F32>, x: F32, b: int, n: int)
    requires
        0 <= b <= n,
        b > 0 ==> float::less_eq(float::product(floors[b], floors[b]), x),
        forall|j: int|
            b < j <= n ==> !float::less_eq(
                float::product(#[trigger] floors[j], floors[j]),
                x,
            ),
    ensures
        linear::square_level(floors, x, n) == b,
    decreases n,
{
    if b < n {
        assert(!float::less_eq(float::product(floors[n], floors[n]), x));
        lemma_square_level(floors, x, b, n - 1);
    }
}

/// The root mean square of pixels that all have one colour is that colour, however many there
/// are.
pub proof fn solid_root_mean_square(t: TransferTables, pixels: Seq<LedColor>, c: LedColor)
    requires
        t.valid(),
        0 < pixels.len() <= u64::MAX,
        forall|i: int| 0 <= i < pixels.len() ==> #[trigger] pixels[i] == c,
    ensures
        reduce::root_mean_square(t, pixels) == c,
{
    lemma_solid_root_byte(t, pixels, c, Channel::Red);
    lemma_solid_root_byte(t, pixels, c, Channel::Green);
    lemma_solid_root_byte(t, pixels, c, Channel::Blue);
}

/// A number whose square is compared with another number's square, both rounded, and the latter
/// off by as much as scaling there and back.
proof fn lemma_squares_keep_order(f: F32, x: F32, q: F32)
    requires
        linear::is_light(f),
        linear::is_light(x),
        pow2(99) <= f.mag(),
        pow2(99) <= x.mag(),
        q.finite(),
        !q.negative(),
        ({
            let s = float::product(x, x);
            &&& 0x40_0000 * (s.mag() - q.mag()) <= s.mag()
            &&& 0x40_0000 * (q.mag() - s.mag()) <= s.mag()
        }),
    ensures
        1024 * x.mag() >= 1025 * f.mag() ==> float::product(f, f).mag() <= q.mag(),
        1024 * f.mag() >= 1025 * x.mag() ==> q.mag() < float::product(f, f).mag(),
        linear::is_light(float::product(f, f)),
{
    lemma_square(f);
    lemma_square(x);
    facts::one_is_unit();
    let u = float::unit();
    let fm = f.mag();
    let xm = x.mag();
    let f2 = fm * fm;
    let x2 = xm * xm;
    let g = float::product(f, f).mag() * u;
    let sm = float::product(x, x).mag();
    let s = sm * u;
    let qu = q.mag() * u;
    assert(0x40_0000 * (s - qu) <= s && 0x40_0000 * (qu - s) <= s) by (nonlinear_arith)
        requires
            s == sm * u,
            qu == q.mag() * u,
            0x40_0000 * (sm - q.mag()) <= sm,
            0x40_0000 * (q.mag() - sm) <= sm,
            u > 0,
    ;
    lemma_pow2_pos(99);
    assert(0 < f2 && 0 < x2) by (nonlinear_arith)
        requires
            f2 == fm * fm,
            x2 == xm * xm,
            fm > 0,
            xm > 0,
    ;
    if 1024 * xm >= 1025 * fm {
        assert(0x10_0000 * x2 >= 1_050_625 * f2) by (nonlinear_arith)
            requires
                1024 * xm >= 1025 * fm,
                f2 == fm * fm,
                x2 == xm * xm,
                fm > 0,
                xm > 0,
        ;
        assert(g <= qu);
        assert(float::product(f, f).mag() <= q.mag()) by (nonlinear_arith)
            requires
                float::product(f, f).mag() * u <= q.mag() * u,
                u > 0,
        ;
    }
    if 1024 * fm >= 1025 * xm {
        assert(0x10_0000 * f2 >= 1_050_625 * x2) by (nonlinear_arith)
            requires
                1024 * fm >= 1025 * xm,
                f2 == fm * fm,
                x2 == xm * xm,
                fm > 0,
                xm > 0,
        ;
        assert(qu < g);
        assert(q.mag() < float::product(f, f).mag()) by (nonlinear_arith)
            requires
                q.mag() * u < float::product(f, f).mag() * u,
                u > 0,
        ;
    }
}

proof fn lemma_solid_root_byte(t: TransferTables, pixels: Seq<LedColor>, c: LedColor, ch: Channel)
    requires
        t.valid(),
        0 < pixels.len() <= u64::MAX,
        forall|i: int| 0 <= i < pixels.len() ==> #[trigger] pixels[i] == c,
    ensures
        t.root_byte(reduce::mean_light(reduce::squares(t.decode_table()), pixels, ch)) == reduce::channel_of(c, ch),
{
    let decode = t.decode_table();
    let floors = t.floor_table();
    let values = reduce::squares(decode);
    let b = reduce::channel_of(c, ch) as int;
    facts::zero_is_zero();
    facts::one_is_unit();
    lemma_pow2_pos(99);
    assert forall|i: int| 0 <= i < 256 implies linear::is_light(#[trigger] values[i]) by {
        lemma_table_values(t, i);
        if i > 0 {
            lemma_square(decode[i]);
        } else {
            facts::product_with_zero(decode[i]);
        }
    }
    lemma_table_values(t, b);
    if b > 0 {
        lemma_square(decode[b]);
    } else {
        facts::product_with_zero(decode[b]);
    }
    lemma_solid_mean_light(values, pixels, c, ch);
    let q = reduce::mean_light(values, pixels, ch);
    assert forall|j: int| b < j <= 255 implies !float::less_eq(
        float::product(#[trigger] floors[j], floors[j]),
        q,
    ) by {
        linear::lemma_clear(decode, floors, j);
        assert(linear::is_light(floors[j]));
        if b > 0 {
            linear::lemma_floors_grow(decode, floors, b, j);
            lemma_squares_keep_order(floors[j], decode[b], q);
        } else {
            lemma_square(floors[j]);
        }
    }
    if b > 0 {
        linear::lemma_clear(decode, floors, b);
        lemma_squares_keep_order(floors[b], decode[b], q);
    }
    lemma_square_level(floors, q, b, 255);
}

/// What adding a value to itself comes to: `n` times, one after the other, from zero.
pub open spec fn repeated(v: F32, n: int) -> F32
    decreases n,
{
    if n <= 0 {
        F32 { bits: 0 }
    } else {
        float::sum(repeated(v, n - 1), v)
    }
}

/// The magnitude of a power of two.
pub proof fn lemma_power_pattern(e: int)
    requires
        1 <= e <= 254,
    ensures
        float::magnitude(e * 0x80_0000) == pow2((e + 22) as nat),
{
    round::lemma_form(e - 1, 0x80_0000);
    lemma2_to64();
    lemma_pow2_adds(23, (e - 1) as nat);
}

/// Adding a value to itself is off by a share that grows with the number of additions: by at most
/// half a unit in the last place of the sum for each.
proof fn lemma_repeated(v: F32, n: int)
    requires
        linear::is_light(v),
        pow2(99) <= v.mag(),
        0 <= n <= 0x2_0000,
    ensures
        ({
            let s = repeated(v, n);
            let vm = v.mag();
            &&& s.finite()
            &&& !s.negative()
            &&& s.mag() >= 0
            &&& 0xC800_0000 * (s.mag() - n * vm) <= 101 * (n * (n + 1) * vm)
            &&& 0xC800_0000 * (n * vm - s.mag()) <= 101 * (n * (n + 1) * vm)
        }),
    decreases n,
{
    facts::zero_is_zero();
    facts::one_is_unit();
    lemma_pow2_pos(99);
    let vm = v.mag();
    if n == 0 {
        assert(0 * vm == 0 && 0 * (0 + 1) * vm == 0);
    } else if n == 1 {
        facts::sum_with_zero(v);
        assert(repeated(v, 0) == (F32 { bits: 0 }));
        assert(1 * vm == vm && 1 * (1 + 1) * vm == 2 * vm);
    } else {
        let j = n - 1;
        lemma_repeated(v, j);
        let p = repeated(v, j);
        let a = j * vm;
        let e = j * (j + 1) * vm;
        let u = float::unit();
        assert(n * vm == a + vm && n * (n + 1) * vm == e + 2 * (a + vm)) by (nonlinear_arith)
            requires
                a == j * vm,
                e == j * (j + 1) * vm,
                n == j + 1,
        ;
        assert(vm <= a <= 0x2_0000 * vm && e <= 0x2_0001 * a) by (nonlinear_arith)
            requires
                a == j * vm,
                e == j * (j + 1) * vm,
                1 <= j <= 0x2_0000,
                vm > 0,
        ;
        let num = p.mag() + vm;
        assert(num <= 0x4_0000 * u);
        lemma2_to64();
        lemma_power_pattern(145);
        lemma_pow2_adds(18, 149);
        facts::rounding_stays_below(num, 1, 0x4880_0000);
        lemma_pow2_strictly_increases(25, 99);
        facts::relative_error(num, 1);
        let m = repeated(v, n).mag();
        assert(0x100_0000 * (num - m) <= m);
        assert(0x100_0000 * (m - num) <= m);
    }
}

/// The mean of equal values, taken by adding them up one after the other.
proof fn lemma_mean_of_repeated(v: F32, n: int)
    requires
        linear::is_light(v),
        v == (F32 { bits: 0 }) || pow2(99) <= v.mag(),
        1 <= n <= 0x2_0000,
    ensures
        ({
            let q = float::quotient(repeated(v, n), float::from_int(n));
            let vm = v.mag();
            &&& q.finite()
            &&& !q.negative()
            &&& q.mag() >= 0
            &&& 231 * (vm - q.mag()) <= vm
            &&& 231 * (q.mag() - vm) <= vm
        }),
{
    facts::zero_is_zero();
    facts::one_is_unit();
    facts::small_integers_are_exact(n);
    lemma_pow2_pos(99);
    let u = float::unit();
    let count = float::from_int(n);
    let cm = count.mag();
    assert(cm >= u) by (nonlinear_arith)
        requires
            cm == n * u,
            n >= 1,
            u > 0,
    ;
    if v == (F32 { bits: 0 }) {
        lemma_repeated_zero(n);
        facts::zero_over_a_number(count);
    } else {
        lemma_repeated(v, n);
        let vm = v.mag();
        let s = repeated(v, n).mag();
        let total = n * vm;
        assert(n * (n + 1) * vm <= 0x2_0001 * total && total >= vm && total <= n * u)
            by (nonlinear_arith)
            requires
                total == n * vm,
                1 <= n <= 0x2_0000,
                0 < vm <= u,
        ;
        let num = s * u;
        lemma2_to64();
        lemma_pow2_strictly_increases(26, 99);
        // The quotient lies below two, and the sum above half of what it should be.
        assert(num <= (2 * u) * cm && 0x200_0000 * cm <= num) by (nonlinear_arith)
            requires
                num == s * u,
                cm == n * u,
                total <= n * u,
                s <= 2 * total,
                total <= 2 * s,
                total == n * vm,
                vm >= 0x400_0000,
                u > 0,
                n >= 1,
        {
            assert(s * u <= (2 * total) * u);
            assert((2 * total) * u <= (2 * (n * u)) * u);
            assert((2 * (n * u)) * u == (2 * u) * (n * u));
            assert(n * vm >= n * 0x400_0000);
            assert(2 * (s * u) >= total * u);
            assert(total * u >= (n * 0x400_0000) * u);
            assert((n * 0x400_0000) * u == 0x400_0000 * (n * u));
        }
        lemma_power_pattern(128);
        lemma_pow2_adds(1, 149);
        facts::rounding_stays_below(num, cm, 0x4000_0000);
        facts::relative_error(num, cm);
        let q = float::quotient(repeated(v, n), count);
        let qm = q.mag();
        round::lemma_monotone(0, q.mag_bits());
        let qn = qm * n;
        assert(0x100_0000 * (s - qn) <= qn && 0x100_0000 * (qn - s) <= qn) by (nonlinear_arith)
            requires
                0x100_0000 * (s * u - qm * cm) <= qm * cm,
                0x100_0000 * (qm * cm - s * u) <= qm * cm,
                cm == n * u,
                qn == qm * n,
                u > 0,
        {
            assert(qm * (n * u) == qn * u);
            assert((0x100_0000 * (s - qn)) * u <= qn * u);
            assert((0x100_0000 * (qn - s)) * u <= qn * u);
        }
        assert(231 * (total - qn) <= total && 231 * (qn - total) <= total);
        let down = 231 * (vm - qm);
        let up = 231 * (qm - vm);
        assert(down <= vm && up <= vm) by (nonlinear_arith)
            requires
                down == 231 * (vm - qm),
                up == 231 * (qm - vm),
                total == n * vm,
                qn == qm * n,
                231 * (total - qn) <= total,
                231 * (qn - total) <= total,
                n >= 1,
        {
            assert(n * down <= n * vm);
            assert(n * up <= n * vm);
        }
    }
}

proof fn lemma_repeated_zero(n: int)
    ensures
        repeated(F32 { bits: 0 }, n) == (F32 { bits: 0 }),
    decreases n,
{
    facts::zero_is_zero();
    if n > 0 {
        lemma_repeated_zero(n - 1);
        facts::sum_with_zero(F32 { bits: 0 });
    }
}

/// Numbers that are not negative are ordered as their patterns are.
proof fn lemma_order(a: F32, b: F32)
    requires
        a.bits < float::INFINITY,
        b.bits < float::INFINITY,
    ensures
        float::less(a, b) == (a.bits < b.bits),
{
    if a.bits <= b.bits {
        round::lemma_monotone(a.bits as int, b.bits as int);
    } else {
        round::lemma_monotone(b.bits as int, a.bits as int);
    }
}

/// The squared difference of two channels that lie far apart or close together.
proof fn lemma_squared_difference(a: F32, b: F32)
    requires
        a.bits <= 0x4000_0000,
        b.bits <= ONE,
    ensures
        ({
            let d = float::difference(a, b);
            let s = float::product(d, d);
            let gap = if a.mag() < b.mag() {
                b.mag() - a.mag()
            } else {
                a.mag() - b.mag()
            };
            &&& s.bits <= 0x4080_0000
            &&& 2 * gap >= float::unit() ==> s.bits >= 0x3E80_0000
            &&& 128 * gap <= float::unit() ==> s.bits <= 0x3880_0000
        }),
{
    let u = float::unit();
    facts::one_is_unit();
    facts::zero_is_zero();
    lemma2_to64();
    lemma_power_pattern(128);
    lemma_power_pattern(126);
    lemma_power_pattern(120);
    lemma_power_pattern(129);
    lemma_power_pattern(125);
    lemma_power_pattern(113);
    lemma_pow2_adds(1, 149);
    lemma_pow2_adds(1, 148);
    lemma_pow2_adds(7, 142);
    lemma_pow2_adds(2, 149);
    lemma_pow2_adds(2, 147);
    lemma_pow2_adds(14, 135);
    round::lemma_monotone(0, a.bits as int);
    round::lemma_monotone(a.bits as int, 0x4000_0000);
    round::lemma_monotone(0, b.bits as int);
    round::lemma_monotone(b.bits as int, ONE as int);
    let d = float::difference(a, b);
    let gap = if a.mag() < b.mag() {
        b.mag() - a.mag()
    } else {
        a.mag() - b.mag()
    };
    assert(float::negation(b).value() == -b.mag());
    facts::rounding_stays_below(gap, 1, 0x4000_0000);
    if gap == 0 {
        facts::rounding_stays_below(0, 1, 0);
    }
    assert(d.mag_bits() == float::nearest(gap, 1));
    let m = d.mag();
    round::lemma_monotone(0, d.mag_bits());
    round::lemma_monotone(d.mag_bits(), 0x4000_0000);
    assert(float::product(d, d) == (F32 { bits: float::nearest(m * m, u) }));
    assert(0 <= m * m <= (4 * u) * u) by (nonlinear_arith)
        requires
            0 <= m <= 2 * u,
    ;
    facts::rounding_stays_below(m * m, u, 0x4080_0000);
    if 2 * gap >= u {
        facts::rounding_stays_above(gap, 1, 0x3F00_0000);
        round::lemma_monotone(0x3F00_0000, d.mag_bits());
        let q = pow2(147) as int;
        assert(q * u <= m * m) by (nonlinear_arith)
            requires
                u == 4 * q,
                m >= 2 * q,
                q > 0,
        ;
        facts::rounding_stays_above(m * m, u, 0x3E80_0000);
    }
    if 128 * gap <= u {
        facts::rounding_stays_below(gap, 1, 0x3C00_0000);
        round::lemma_monotone(d.mag_bits(), 0x3C00_0000);
        let q = pow2(135) as int;
        assert(m * m <= q * u) by (nonlinear_arith)
            requires
                u == 0x4000 * q,
                0 <= m <= 128 * q,
                q > 0,
        ;
        facts::rounding_stays_below(m * m, u, 0x3880_0000);
    }
}

/// A sum of two numbers that are not negative is at least each, and at most twice a bound of
/// both.
pub proof fn lemma_sum_of_two(a: F32, b: F32, e: int)
    requires
        1 <= e <= 200,
        a.bits <= e * 0x80_0000,
        b.bits <= e * 0x80_0000,
    ensures
        ({
            let s = float::sum(a, b);
            &&& a.bits <= s.bits
            &&& b.bits <= s.bits
            &&& s.bits <= (e + 1) * 0x80_0000
        }),
{
    lemma2_to64();
    lemma_power_pattern(e);
    lemma_power_pattern(e + 1);
    lemma_pow2_adds(1, (e + 22) as nat);
    round::lemma_monotone(0, a.bits as int);
    round::lemma_monotone(a.bits as int, e * 0x80_0000);
    round::lemma_monotone(0, b.bits as int);
    round::lemma_monotone(b.bits as int, e * 0x80_0000);
    let v = a.mag() + b.mag();
    facts::rounding_stays_below(v, 1, ((e + 1) * 0x80_0000) as u32);
    facts::rounding_stays_above(v, 1, a.bits);
    facts::rounding_stays_above(v, 1, b.bits);
    if v == 0 {
        facts::zero_is_zero();
        facts::rounding_stays_below(0, 1, 0);
    }
}

/// Whether two channels differ by half or more.
spec fn apart(a: F32, b: F32) -> bool {
    2 * (a.mag() - b.mag()) >= float::unit() || 2 * (b.mag() - a.mag()) >= float::unit()
}

/// Whether two channels almost agree.
spec fn close(a: F32, b: F32) -> bool {
    128 * (a.mag() - b.mag()) <= float::unit() && 128 * (b.mag() - a.mag()) <= float::unit()
}

/// The distance of two colours that lie far apart or close together.
proof fn lemma_distance(a: Linear, b: Linear)
    requires
        a.r.bits <= 0x4000_0000,
        a.g.bits <= 0x4000_0000,
        a.b.bits <= 0x4000_0000,
        b.r.bits <= ONE,
        b.g.bits <= ONE,
        b.b.bits <= ONE,
    ensures
        dominant::distance(a, b).bits < float::INFINITY,
        apart(a.r, b.r) || apart(a.g, b.g) || apart(a.b, b.b) ==> dominant::distance(a, b).bits
            >= 0x3E80_0000,
        close(a.r, b.r) && close(a.g, b.g) && close(a.b, b.b) ==> dominant::distance(a, b).bits
            <= 0x3980_0000,
{
    lemma_squared_difference(a.r, b.r);
    lemma_squared_difference(a.g, b.g);
    lemma_squared_difference(a.b, b.b);
    let dr = float::difference(a.r, b.r);
    let dg = float::difference(a.g, b.g);
    let db = float::difference(a.b, b.b);
    let r = float::product(dr, dr);
    let g = float::product(dg, dg);
    let bl = float::product(db, db);
    lemma_sum_of_two(r, g, 129);
    lemma_sum_of_two(float::sum(r, g), bl, 130);
    if close(a.r, b.r) && close(a.g, b.g) && close(a.b, b.b) {
        lemma_sum_of_two(r, g, 113);
        lemma_sum_of_two(float::sum(r, g), bl, 114);
    }
}

/// No centre is nearer than the nearest.
proof fn lemma_nearest_is_least(centers: Seq<Linear>, p: Linear, n: int)
    requires
        1 <= n <= centers.len(),
        forall|i: int|
            0 <= i < n ==> dominant::distance(#[trigger] centers[i], p).bits < float::INFINITY,
    ensures
        0 <= dominant::nearest_among(centers, p, n) < n,
        forall|i: int|
            0 <= i < n ==> dominant::distance(
                centers[dominant::nearest_among(centers, p, n)],
                p,
            ).bits <= dominant::distance(#[trigger] centers[i], p).bits,
    decreases n,
{
    if n > 1 {
        lemma_nearest_is_least(centers, p, n - 1);
        let best = dominant::nearest_among(centers, p, n - 1);
        lemma_order(
            dominant::distance(centers[n - 1], p),
            dominant::distance(centers[best], p),
        );
    }
}

/// A colour lies far from every seed but its nearest.
proof fn lemma_other_seeds_are_far(x: Linear)
    requires
        x.r.bits <= ONE,
        x.g.bits <= ONE,
        x.b.bits <= ONE,
    ensures
        ({
            let c = dominant::nearest_among(dominant::seeds(), x, 4);
            &&& 0 <= c < 4
            &&& forall|i: int|
                0 <= i < 4 && i != c ==> dominant::distance(
                    #[trigger] dominant::seeds()[i],
                    x,
                ).bits >= 0x3E80_0000
        }),
{
    let s = dominant::seeds();
    facts::one_is_unit();
    facts::zero_is_zero();
    round::lemma_monotone(0, x.r.bits as int);
    round::lemma_monotone(x.r.bits as int, ONE as int);
    round::lemma_monotone(0, x.g.bits as int);
    round::lemma_monotone(x.g.bits as int, ONE as int);
    round::lemma_monotone(0, x.b.bits as int);
    round::lemma_monotone(x.b.bits as int, ONE as int);
    lemma_distance(s[0], x);
    lemma_distance(s[1], x);
    lemma_distance(s[2], x);
    lemma_distance(s[3], x);
    lemma_nearest_is_least(s, x, 4);
}

/// What a cluster holds that `n` equal colours fell to.
spec fn full(x: Linear, n: int) -> dominant::Cluster {
    dominant::Cluster {
        sum: Linear { r: repeated(x.r, n), g: repeated(x.g, n), b: repeated(x.b, n) },
        count: n,
    }
}

/// Equal colours all fall to one cluster.
proof fn lemma_one_cluster(centers: Seq<Linear>, pixels: Seq<Linear>, x: Linear, c: int)
    requires
        0 <= c < centers.len(),
        c == dominant::nearest_among(centers, x, centers.len() as int),
        forall|i: int| 0 <= i < pixels.len() ==> #[trigger] pixels[i] == x,
    ensures
        dominant::clusters(centers, pixels) == Seq::new(
            centers.len(),
            |i: int|
                if i == c {
                    full(x, pixels.len() as int)
                } else {
                    dominant::empty_cluster()
                },
        ),
    decreases pixels.len(),
{
    let goal = Seq::new(
        centers.len(),
        |i: int|
            if i == c {
                full(x, pixels.len() as int)
            } else {
                dominant::empty_cluster()
            },
    );
    if pixels.len() > 0 {
        lemma_one_cluster(centers, pixels.drop_last(), x, c);
    }
    assert(dominant::clusters(centers, pixels) =~= goal);
}

/// Once one centre has moved to equal colours, further rounds change nothing.
proof fn lemma_rounds_change_nothing(
    centers: Seq<Linear>,
    found: Seq<dominant::Cluster>,
    pixels: Seq<Linear>,
    x: Linear,
    c: int,
    rounds: nat,
)
    requires
        0 <= c < centers.len(),
        c == dominant::nearest_among(centers, x, centers.len() as int),
        forall|i: int| 0 <= i < pixels.len() ==> #[trigger] pixels[i] == x,
        found == dominant::clusters(centers, pixels),
        centers == dominant::moved(centers, found),
    ensures
        dominant::converged(centers, pixels, rounds) == (centers, found),
    decreases rounds,
{
    if rounds > 1 {
        lemma_rounds_change_nothing(centers, found, pixels, x, c, (rounds - 1) as nat);
    }
}

/// Whether a linear value can be added up with little loss: zero, or not among the tiniest.
spec fn adds_up(v: F32) -> bool {
    linear::is_light(v) && (v == (F32 { bits: 0 }) || pow2(99) <= v.mag())
}

/// The mean of equal values is close to each, and lies within twice the range of light.
proof fn lemma_mean_is_close(v: F32, n: int)
    requires
        adds_up(v),
        1 <= n <= 0x2_0000,
    ensures
        v.bits <= ONE,
        float::quotient(repeated(v, n), float::from_int(n)).bits <= 0x4000_0000,
        close(float::quotient(repeated(v, n), float::from_int(n)), v),
{
    let q = float::quotient(repeated(v, n), float::from_int(n));
    facts::one_is_unit();
    facts::zero_is_zero();
    lemma_mean_of_repeated(v, n);
    if v.bits > ONE {
        round::lemma_monotone(ONE as int, v.bits as int);
    }
    lemma_power_pattern(128);
    lemma2_to64();
    lemma_pow2_adds(1, 149);
    if q.bits > 0x4000_0000 {
        round::lemma_monotone(0x4000_0000, q.bits as int);
    }
}

/// The clusters of equal colours after all rounds: one holds every colour, and its centre is
/// their mean.
proof fn lemma_solid_clusters(pixels: Seq<Linear>, x: Linear)
    requires
        0 < pixels.len() <= 0x2_0000,
        forall|i: int| 0 <= i < pixels.len() ==> #[trigger] pixels[i] == x,
        adds_up(x.r),
        adds_up(x.g),
        adds_up(x.b),
    ensures
        ({
            let (centers, found) = dominant::converged(
                dominant::seeds(),
                pixels,
                dominant::MAX_ITERS as nat,
            );
            centers[dominant::largest_among(found, dominant::K as int)] == dominant::center(
                full(x, pixels.len() as int),
            )
        }),
{
    let n = pixels.len() as int;
    let s = dominant::seeds();
    lemma_mean_is_close(x.r, n);
    lemma_mean_is_close(x.g, n);
    lemma_mean_is_close(x.b, n);
    lemma_other_seeds_are_far(x);
    let c = dominant::nearest_among(s, x, 4);
    lemma_one_cluster(s, pixels, x, c);
    let found = dominant::clusters(s, pixels);
    let next = dominant::moved(s, found);
    let q = dominant::center(full(x, n));
    assert(next[c] == q);
    assert(forall|i: int| 0 <= i < 4 && i != c ==> #[trigger] next[i] == s[i]);
    // The moved centre is now far nearer than any other.
    lemma_distance(q, x);
    assert forall|i: int| 0 <= i < 4 implies dominant::distance(#[trigger] next[i], x).bits
        < float::INFINITY by {
        lemma_distance(s[i], x);
    }
    lemma_nearest_is_least(next, x, 4);
    let again = dominant::nearest_among(next, x, 4);
    assert(dominant::distance(next[again], x).bits <= dominant::distance(next[c], x).bits);
    assert(again == c) by {
        if again != c {
            assert(next[again] == s[again]);
        }
    }
    lemma_one_cluster(next, pixels, x, c);
    assert(dominant::clusters(next, pixels) =~= found);
    assert(dominant::moved(next, found) =~= next);
    lemma_rounds_change_nothing(
        next,
        found,
        pixels,
        x,
        c,
        (dominant::MAX_ITERS - 1) as nat,
    );
    assert(dominant::converged(s, pixels, dominant::MAX_ITERS as nat) == (next, found));
    dominant::winner_is_first_largest(found, dominant::K as int);
    assert(found[c].count == n);
}

/// The dominant colour of up to 2^17 pixels that all have one colour is that colour; a whole frame
/// of 1920 by 1080 pixels, of which every fourth is read each way, has fewer.
///
/// Single precision does not carry it on for ever, as the sum of the pixels loses ever more of
/// each. Under the sRGB transfer function, 353,123 pixels whose channels are 247 come out as 248.
pub proof fn solid_dominant(t: TransferTables, pixels: Seq<LedColor>, c: LedColor)
    requires
        t.valid(),
        0 < pixels.len() <= 0x2_0000,
        forall|i: int| 0 <= i < pixels.len() ==> #[trigger] pixels[i] == c,
    ensures
        dominant::dominant(t, pixels) == c,
{
    let n = pixels.len() as int;
    let x = t.linear(c);
    lemma_table_values(t, c.r as int);
    lemma_table_values(t, c.g as int);
    lemma_table_values(t, c.b as int);
    lemma_solid_clusters(dominant::linear_pixels(t, pixels), x);
    lemma_mean_of_repeated(x.r, n);
    lemma_mean_of_repeated(x.g, n);
    lemma_mean_of_repeated(x.b, n);
    let q = dominant::center(full(x, n));
    linear::lemma_close_values_encode_alike(t, c.r, q.r);
    linear::lemma_close_values_encode_alike(t, c.g, q.g);
    linear::lemma_close_values_encode_alike(t, c.b, q.b);
}

} // verus!
