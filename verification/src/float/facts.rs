//! Facts about rounding: it is total, it keeps the order, it is exact on small integers, and
//! its relative error is at most 2^-24.

use vstd::prelude::*;
use vstd::arithmetic::div_mod::*;
use vstd::arithmetic::power2::*;

use super::round;
use super::{F32, INFINITY, ONE};

verus! {

/// Every number that is not negative has a nearest pattern.
pub proof fn nearest_exists(num: int, den: int)
    requires
        num >= 0,
        den > 0,
    ensures
        super::is_nearest(super::nearest(num, den) as int, num, den),
        super::nearest(num, den) <= INFINITY,
{
    let b = lemma_search(0, num, den);
    assert(super::is_nearest(b as u32 as int, num, den));
}

proof fn lemma_search(b: int, num: int, den: int) -> (r: int)
    requires
        num >= 0,
        den > 0,
        0 <= b <= INFINITY,
        b > 0 ==> {
            let low = (super::magnitude(b - 1) + super::magnitude(b)) * den;
            low < 2 * num || (low == 2 * num && b % 2 == 0)
        },
    ensures
        0 <= r <= INFINITY,
        super::is_nearest(r, num, den),
    decreases INFINITY - b,
{
    if super::is_nearest(b, num, den) {
        b
    } else {
        lemma_search(b + 1, num, den)
    }
}

/// Rounding keeps the order.
pub proof fn rounding_is_monotone(n1: int, d1: int, n2: int, d2: int)
    requires
        0 <= n1,
        0 <= n2,
        0 < d1,
        0 < d2,
        n1 * d2 <= n2 * d1,
    ensures
        super::nearest(n1, d1) <= super::nearest(n2, d2),
{
    nearest_exists(n1, d1);
    nearest_exists(n2, d2);
    lemma_order(super::nearest(n1, d1) as int, n1, d1, super::nearest(n2, d2) as int, n2, d2);
}

proof fn lemma_order(b1: int, n1: int, d1: int, b2: int, n2: int, d2: int)
    requires
        0 < d1,
        0 < d2,
        n1 * d2 <= n2 * d1,
        super::is_nearest(b1, n1, d1),
        super::is_nearest(b2, n2, d2),
    ensures
        b1 <= b2,
{
    if b1 > b2 {
        let s1 = super::magnitude(b1 - 1) + super::magnitude(b1);
        let s2 = super::magnitude(b2) + super::magnitude(b2 + 1);
        round::lemma_monotone(b2, b1 - 1);
        round::lemma_monotone(b2 + 1, b1);
        assert(s2 * d2 * d1 <= s1 * d1 * d2) by (nonlinear_arith)
            requires
                s2 <= s1,
                0 < d1,
                0 < d2,
        ;
        assert(s1 * d1 * d2 <= 2 * n1 * d2) by (nonlinear_arith)
            requires
                s1 * d1 <= 2 * n1,
                0 < d2,
        ;
        assert(2 * n2 * d1 <= s2 * d2 * d1) by (nonlinear_arith)
            requires
                2 * n2 <= s2 * d2,
                0 < d1,
        ;
        assert(2 * n1 * d2 <= 2 * n2 * d1) by (nonlinear_arith)
            requires
                n1 * d2 <= n2 * d1,
        ;
        assert(s1 == s2) by (nonlinear_arith)
            requires
                s1 * d1 * d2 == s2 * d2 * d1,
                0 < d1,
                0 < d2,
        ;
        assert(s1 * d1 == 2 * n1) by (nonlinear_arith)
            requires
                s1 * d1 * d2 == 2 * n1 * d2,
                0 < d2,
        ;
        assert(s2 * d2 == 2 * n2) by (nonlinear_arith)
            requires
                s2 * d2 * d1 == 2 * n2 * d1,
                0 < d1,
        ;
        if b2 + 1 < b1 {
            round::lemma_monotone(b2, b1 - 1);
        }
    }
}

/// A number that a magnitude bounds rounds to at most that magnitude.
pub proof fn rounding_stays_below(num: int, den: int, c: u32)
    requires
        0 <= num,
        0 < den,
        c <= INFINITY,
        num <= super::magnitude(c as int) * den,
    ensures
        super::nearest(num, den) <= c,
{
    let m = super::magnitude(c as int);
    round::lemma_exact(c as int, m * den, den);
    round::lemma_nearest_is(c, m * den, den);
    assert(num * den <= (m * den) * den) by (nonlinear_arith)
        requires
            num <= m * den,
            0 < den,
    ;
    rounding_is_monotone(num, den, m * den, den);
}

/// A number that bounds a magnitude rounds to at least that magnitude.
pub proof fn rounding_stays_above(num: int, den: int, c: u32)
    requires
        0 <= num,
        0 < den,
        c <= INFINITY,
        super::magnitude(c as int) * den <= num,
    ensures
        c <= super::nearest(num, den),
{
    let m = super::magnitude(c as int);
    round::lemma_monotone(0, c as int);
    assert(0 <= m * den) by (nonlinear_arith)
        requires
            0 <= m,
            0 < den,
    ;
    round::lemma_exact(c as int, m * den, den);
    round::lemma_nearest_is(c, m * den, den);
    assert((m * den) * den <= num * den) by (nonlinear_arith)
        requires
            m * den <= num,
            0 < den,
    ;
    rounding_is_monotone(m * den, den, num, den);
}

/// Away from the subnormal numbers and from infinity, the relative error of rounding is at most
/// 2^-24.
pub proof fn relative_error(num: int, den: int)
    requires
        0 < den,
        0x200_0000 * den <= num,
        super::nearest(num, den) < INFINITY,
    ensures
        ({
            let m = super::magnitude(super::nearest(num, den) as int);
            &&& 0x100_0000 * (num - m * den) <= m * den
            &&& 0x100_0000 * (m * den - num) <= m * den
        }),
{
    let b = super::nearest(num, den) as int;
    let m = super::magnitude(b);
    nearest_exists(num, den);
    // The pattern of 2^25 units is a lower bound.
    round::lemma_form(2, 0x80_0000);
    lemma2_to64();
    rounding_stays_above(num, den, 0x180_0000);
    lemma_step_is_small(b - 1);
    lemma_step_is_small(b);
    round::lemma_step(b - 1);
    round::lemma_step(b);
    let below = super::magnitude(b - 1);
    let above = super::magnitude(b + 1);
    assert(0x100_0000 * (num - m * den) <= m * den) by (nonlinear_arith)
        requires
            2 * num <= (m + above) * den,
            0x80_0000 * (above - m) <= m,
            den > 0,
    {
        assert(2 * (num - m * den) <= (above - m) * den);
        assert(0x80_0000 * ((above - m) * den) <= m * den);
    }
    assert(0x100_0000 * (m * den - num) <= m * den) by (nonlinear_arith)
        requires
            (below + m) * den <= 2 * num,
            0x80_0000 * (m - below) <= below,
            below <= m,
            den > 0,
    {
        assert(2 * (m * den - num) <= (m - below) * den);
        assert(0x80_0000 * ((m - below) * den) <= below * den);
        assert(below * den <= m * den);
    }
}

proof fn lemma_step_is_small(b: int)
    requires
        b >= 0x80_0000,
    ensures
        0x80_0000 * (super::magnitude(b + 1) - super::magnitude(b)) <= super::magnitude(b),
{
    round::lemma_step(b);
    let u = round::form_exponent(b);
    let k = b - u * 0x80_0000;
    assert(0x80_0000 <= k < 0x100_0000) by {
        if b >= 0x100_0000 {
            assert(b == 0x80_0000 * (b / 0x80_0000) + b % 0x80_0000);
        }
    }
    round::lemma_form(u, k);
    lemma_pow2_pos(u as nat);
    let p = pow2(u as nat) as int;
    assert(0x80_0000 * p <= k * p) by (nonlinear_arith)
        requires
            0x80_0000 <= k,
            p > 0,
    ;
}

/// Integers up to 2^24 are exact.
pub proof fn small_integers_are_exact(n: int)
    requires
        0 <= n <= 0x100_0000,
    ensures
        super::from_int(n).finite(),
        !super::from_int(n).negative(),
        super::from_int(n).mag() == n * super::unit(),
        super::from_int(n).value() == n * super::unit(),
{
    lemma2_to64();
    let u = super::unit();
    lemma_pow2_pos(149);
    if n == 0 {
        round::lemma_form(0, 0);
        assert(0 * u == 0);
        round::lemma_exact(0, 0, 1);
        round::lemma_nearest_is(0, 0, 1);
    } else {
        assert(n * pow2(0) == n);
        let b = lemma_exact_pattern(n, n, 0);
        round::lemma_exact(b, n * u, 1);
        round::lemma_nearest_is(b as u32, n * u, 1);
    }
}

/// Shifting an integer up to 24 bits gives its pattern.
proof fn lemma_exact_pattern(n: int, k: int, j: int) -> (b: int)
    requires
        0 < k <= 0x100_0000,
        0 <= j <= 24,
        k == n * pow2(j as nat),
        n > 0,
    ensures
        0 < b < INFINITY,
        super::magnitude(b) == n * super::unit(),
    decreases 0x100_0000 - k,
{
    if k >= 0x80_0000 {
        round::lemma_form(149 - j, k);
        lemma_pow2_adds(j as nat, (149 - j) as nat);
        let pj = pow2(j as nat) as int;
        let pr = pow2((149 - j) as nat) as int;
        assert((n * pj) * pr == n * (pj * pr)) by (nonlinear_arith);
        (149 - j) * 0x80_0000 + k
    } else {
        lemma_pow2_unfold((j + 1) as nat);
        let pj = pow2(j as nat) as int;
        assert(n * (2 * pj) == 2 * (n * pj)) by (nonlinear_arith);
        if j == 24 {
            lemma2_to64();
            assert(n * pj >= pj) by (nonlinear_arith)
                requires
                    n >= 1,
                    pj > 0,
            ;
        }
        lemma_exact_pattern(n, 2 * k, j + 1)
    }
}

/// Every integer of 32 bits rounds to a finite number that is not negative, and to a positive
/// one if it is positive.
pub proof fn integers_are_finite(n: u32)
    ensures
        super::from_int(n as int).finite(),
        !super::from_int(n as int).negative(),
        super::from_int(n as int).mag() >= 0,
        n > 0 ==> super::from_int(n as int).mag() >= super::unit(),
{
    let u = super::unit();
    lemma_pow2_pos(149);
    lemma2_to64();
    let num = n * u;
    assert(num >= 0) by (nonlinear_arith)
        requires
            num == n * u,
            n >= 0,
            u > 0,
    ;
    // 2^32 bounds it from above, and one from below.
    round::lemma_form(158, 0x80_0000);
    lemma_pow2_adds(23, 158);
    lemma_pow2_adds(32, 149);
    assert(num <= 0x1_0000_0000 * u) by (nonlinear_arith)
        requires
            num == n * u,
            n <= 0xFFFF_FFFF,
            u > 0,
    ;
    rounding_stays_below(num, 1, 0x4F80_0000);
    round::lemma_monotone(0, super::nearest(num, 1) as int);
    if n > 0 {
        round::lemma_form(126, 0x80_0000);
        lemma_pow2_adds(23, 126);
        assert(num >= u) by (nonlinear_arith)
            requires
                num == n * u,
                n >= 1,
                u > 0,
        ;
        rounding_stays_above(num, 1, ONE);
        round::lemma_monotone(ONE as int, super::nearest(num, 1) as int);
    }
}

/// The pattern of one is one.
pub proof fn one_is_unit()
    ensures
        (F32 { bits: ONE }).mag() == super::unit(),
        (F32 { bits: ONE }).value() == super::unit(),
        super::unit() > 0,
{
    lemma2_to64();
    lemma_pow2_pos(149);
    round::lemma_form(126, 0x80_0000);
    lemma_pow2_adds(23, 126);
}

/// A number over itself is one.
pub proof fn quotient_by_itself(a: F32)
    requires
        a.finite(),
        !a.negative(),
        a.mag() > 0,
    ensures
        super::quotient(a, a) == (F32 { bits: ONE }),
{
    one_is_unit();
    round::lemma_form(0, 0);
    lemma2_to64();
    let m = a.mag();
    let u = super::unit();
    assert(m * u == u * m) by (nonlinear_arith);
    round::lemma_exact(ONE as int, m * u, m);
    round::lemma_nearest_is(ONE, m * u, m);
    assert(!a.zero());
}

/// A number times one is itself.
pub proof fn product_with_one(a: F32)
    requires
        a.finite(),
        !a.negative(),
    ensures
        super::product(a, F32 { bits: ONE }) == a,
{
    one_is_unit();
    round::lemma_exact(a.mag_bits(), a.mag() * super::unit(), super::unit());
    round::lemma_nearest_is(a.bits, a.mag() * super::unit(), super::unit());
}

/// The pattern of zero is zero.
pub proof fn zero_is_zero()
    ensures
        (F32 { bits: 0 }).mag() == 0,
        (F32 { bits: 0 }).value() == 0,
        (F32 { bits: super::SIGN }).value() == 0,
{
    lemma2_to64();
    round::lemma_form(0, 0);
}

/// A finite number times zero is zero.
pub proof fn product_with_zero(a: F32)
    requires
        a.finite(),
        !a.negative(),
    ensures
        super::product(a, F32 { bits: 0 }) == (F32 { bits: 0 }),
        super::product(F32 { bits: 0 }, a) == (F32 { bits: 0 }),
{
    zero_is_zero();
    one_is_unit();
    let m = a.mag();
    assert(m * 0 == 0 && 0 * m == 0);
    assert(0 * super::unit() == 0);
    round::lemma_exact(0, 0, super::unit());
    round::lemma_nearest_is(0, 0, super::unit());
}

/// A number that is not negative plus a zero of either sign is itself.
pub proof fn sum_with_zero(a: F32)
    requires
        a.finite(),
        !a.negative(),
    ensures
        super::sum(a, F32 { bits: 0 }) == a,
        super::sum(F32 { bits: 0 }, a) == a,
        super::sum(a, F32 { bits: super::SIGN }) == a,
{
    zero_is_zero();
    round::lemma_monotone(0, a.mag_bits());
    round::lemma_exact(a.mag_bits(), a.mag(), 1);
    round::lemma_nearest_is(a.bits, a.mag(), 1);
}

/// A product does not depend on the order of its factors.
pub proof fn product_commutes(a: F32, b: F32)
    ensures
        super::product(a, b) == super::product(b, a),
{
    let x = a.mag();
    let y = b.mag();
    assert(x * y == y * x) by (nonlinear_arith);
}

/// An integer up to 2^24 rounds to itself.
pub proof fn small_integers_round_to_themselves(n: int, max: int)
    requires
        0 <= n <= 0x100_0000,
        n <= max,
    ensures
        super::round_to(super::from_int(n), max) == n,
{
    small_integers_are_exact(n);
    one_is_unit();
    let u = super::unit();
    assert(2 * (n * u) + u == n * (2 * u) + u) by (nonlinear_arith);
    lemma_fundamental_div_mod_converse(2 * (n * u) + u, 2 * u, n, u);
}

/// Scaling a small integer `p` by the rounded ratio of `m` to `p` and rounding gives `m`.
pub proof fn ratio_scales_exactly(m: int, p: int)
    requires
        0 <= m <= 255,
        1 <= p <= 255,
    ensures
        ({
            let s = super::quotient(super::from_int(m), super::from_int(p));
            &&& s.finite() && !s.negative() && s.mag() >= 0
            &&& super::round_to(super::product(super::from_int(p), s), 255) == m
        }),
{
    let u = super::unit();
    one_is_unit();
    small_integers_are_exact(m);
    small_integers_are_exact(p);
    lemma2_to64();
    let am = super::from_int(m);
    let ap = super::from_int(p);
    let pu = p * u;
    assert(pu > 0) by (nonlinear_arith)
        requires
            pu == p * u,
            p >= 1,
            u > 0,
    ;
    round::lemma_form(0, 0);
    assert(!ap.zero());
    let num = (m * u) * u;
    let s = super::quotient(am, ap);
    let sb = super::nearest(num, pu);
    if m == 0 {
        assert(0 * u == 0);
        assert(num == 0);
        assert(0 * pu == 0);
        round::lemma_exact(0, 0, pu);
        round::lemma_nearest_is(0, 0, pu);
        assert(am.zero()) by {
            if am.mag_bits() > 0 {
                round::lemma_monotone(0, am.mag_bits());
            }
        }
        assert(s.mag() == 0);
        assert(pu * 0 == 0);
        assert(0 * u == 0);
        round::lemma_exact(0, 0, u);
        round::lemma_nearest_is(0, 0, u);
        let v = super::product(ap, s);
        assert(v == (F32 { bits: 0 }));
        let w = 2 * u;
        assert(u == 0 * w + u) by (nonlinear_arith);
        lemma_fundamental_div_mod_converse(u, w, 0, u);
    } else {
        assert(!am.zero()) by {
            assert(m * u > 0) by (nonlinear_arith)
                requires
                    m >= 1,
                    u > 0,
            ;
        }
        // 256 bounds the ratio from above.
        lemma_256();
        assert(0 <= num <= (256 * u) * pu) by (nonlinear_arith)
            requires
                num == (m * u) * u,
                pu == p * u,
                0 <= m <= 255,
                p >= 1,
                u > 0,
        {
            assert(m <= 256 * p);
            assert((256 * u) * (p * u) == (256 * p) * (u * u));
            assert((m * u) * u == m * (u * u));
            assert(u * u >= 0);
        }
        rounding_stays_below(num, pu, 0x4380_0000);
        // One 512th bounds it from below.
        lemma_pow2_adds(25, 124);
        lemma_pow2_strictly_increases(20, 124);
        assert(0x200_0000 * pu <= num) by (nonlinear_arith)
            requires
                num == (m * u) * u,
                pu == p * u,
                m >= 1,
                1 <= p <= 255,
                u >= 0x200_0000 * 256,
        {
            assert((m * u) * u >= u * u);
            assert(u * u >= (0x200_0000 * 256) * u);
            assert(0x200_0000 * (p * u) <= (0x200_0000 * 256) * u);
        }
        relative_error(num, pu);
        let sm = super::magnitude(sb as int);
        round::lemma_monotone(0, sb as int);
        assert(s == (F32 { bits: sb }));
        // What is scaled: `p * s`, in units.
        let x = p * sm;
        let a = m * u;
        assert(0x100_0000 * (a - x) <= x && 0x100_0000 * (x - a) <= x) by (nonlinear_arith)
            requires
                0x100_0000 * (num - sm * pu) <= sm * pu,
                0x100_0000 * (sm * pu - num) <= sm * pu,
                num == a * u,
                pu == p * u,
                x == p * sm,
                u > 0,
        {
            assert(sm * pu == x * u);
        }
        assert(a <= 255 * u && a >= u) by (nonlinear_arith)
            requires
                a == m * u,
                1 <= m <= 255,
                u > 0,
        ;
        let vn = pu * sm;
        assert(vn == x * u) by (nonlinear_arith)
            requires
                vn == (p * u) * sm,
                x == p * sm,
        ;
        assert(0 <= vn <= (256 * u) * u) by (nonlinear_arith)
            requires
                vn == x * u,
                0 <= x <= 256 * u,
                u > 0,
        ;
        rounding_stays_below(vn, u, 0x4380_0000);
        assert(0x200_0000 * u <= vn) by (nonlinear_arith)
            requires
                vn == x * u,
                x >= 0x200_0000,
                u > 0,
        ;
        relative_error(vn, u);
        let vb = super::nearest(vn, u);
        let v = super::magnitude(vb as int);
        round::lemma_monotone(0, vb as int);
        assert(0x100_0000 * (x - v) <= v && 0x100_0000 * (v - x) <= v) by (nonlinear_arith)
            requires
                0x100_0000 * (vn - v * u) <= v * u,
                0x100_0000 * (v * u - vn) <= v * u,
                vn == x * u,
                u > 0,
        ;
        let r = super::product(ap, s);
        assert(ap.mag() * s.mag() == vn);
        assert(r == (F32 { bits: vb }));
        assert(2 * v + u == m * (2 * u) + (2 * v + u - 2 * a)) by (nonlinear_arith)
            requires
                a == m * u,
        ;
        lemma_fundamental_div_mod_converse(2 * v + u, 2 * u, m, 2 * v + u - 2 * a);
    }
}

proof fn lemma_256()
    ensures
        super::magnitude(0x4380_0000) == 256 * super::unit(),
{
    lemma2_to64();
    round::lemma_form(134, 0x80_0000);
    lemma_pow2_adds(23, 134);
    lemma_pow2_adds(8, 149);
}

/// A smaller integer does not scale to more than a larger one.
pub proof fn scaling_is_monotone(c: int, p: int, s: F32)
    requires
        0 <= c <= p <= 255,
        s.finite(),
        !s.negative(),
        s.mag() >= 0,
    ensures
        super::round_to(super::product(super::from_int(c), s), 255) <= super::round_to(
            super::product(super::from_int(p), s),
            255,
        ),
{
    small_integers_are_exact(c);
    small_integers_are_exact(p);
    one_is_unit();
    let u = super::unit();
    let sm = s.mag();
    let x = (c * u) * sm;
    let y = (p * u) * sm;
    assert(0 <= x <= y && x * u <= y * u) by (nonlinear_arith)
        requires
            x == (c * u) * sm,
            y == (p * u) * sm,
            0 <= c <= p,
            sm >= 0,
            u > 0,
    {
        assert(c * u <= p * u);
        assert(0 <= c * u);
    }
    rounding_is_monotone(x, u, y, u);
    nearest_exists(x, u);
    nearest_exists(y, u);
    let bx = super::nearest(x, u);
    let by_ = super::nearest(y, u);
    round::lemma_monotone(bx as int, by_ as int);
    let mx = super::magnitude(bx as int);
    let my = super::magnitude(by_ as int);
    lemma_div_is_ordered(2 * mx + u, 2 * my + u, 2 * u);
}

/// Rounding a number up to `2^(t + 22)` units adds at most `2^(t - 3)` units.
pub proof fn overshoot(num: int, den: int, t: int)
    requires
        0 <= num,
        0 < den,
        3 <= t <= 254,
        num <= pow2((t + 22) as nat) * den,
    ensures
        super::nearest(num, den) <= t * 0x80_0000,
        super::magnitude(super::nearest(num, den) as int) * den <= num + pow2((t - 3) as nat) * den,
{
    let b = super::nearest(num, den) as int;
    nearest_exists(num, den);
    lemma2_to64();
    round::lemma_form(t - 1, 0x80_0000);
    lemma_pow2_adds(23, (t - 1) as nat);
    rounding_stays_below(num, den, (t * 0x80_0000) as u32);
    let m = super::magnitude(b);
    let add = pow2((t - 3) as nat) as int;
    lemma_pow2_pos((t - 3) as nat);
    assert(add * den >= 0) by (nonlinear_arith)
        requires
            add > 0,
            den > 0,
    ;
    if b > 0 {
        round::lemma_step(b - 1);
        let u = round::form_exponent(b - 1);
        assert(u <= t - 2);
        if u < t - 2 {
            lemma_pow2_strictly_increases(u as nat, (t - 2) as nat);
        }
        lemma_pow2_unfold((t - 2) as nat);
        let below = super::magnitude(b - 1);
        assert(m * den <= num + add * den) by (nonlinear_arith)
            requires
                (below + m) * den <= 2 * num,
                m - below <= 2 * add,
                den > 0,
        {
            assert(2 * (m * den) - (below + m) * den == (m - below) * den);
            assert((m - below) * den <= (2 * add) * den);
        }
    } else {
        round::lemma_form(0, 0);
        assert(0 * den == 0);
    }
}

/// Rounding a number up to `2^(t + 22)` units takes away at most `2^(t - 3)` units.
pub proof fn undershoot(num: int, den: int, t: int)
    requires
        0 <= num,
        0 < den,
        3 <= t <= 254,
        num <= pow2((t + 22) as nat) * den,
    ensures
        num <= super::magnitude(super::nearest(num, den) as int) * den + pow2((t - 3) as nat) * den,
{
    let b = super::nearest(num, den) as int;
    nearest_exists(num, den);
    lemma2_to64();
    round::lemma_form(t - 1, 0x80_0000);
    lemma_pow2_adds(23, (t - 1) as nat);
    rounding_stays_below(num, den, (t * 0x80_0000) as u32);
    let m = super::magnitude(b);
    let add = pow2((t - 3) as nat) as int;
    lemma_pow2_pos((t - 3) as nat);
    assert(add * den >= 0) by (nonlinear_arith)
        requires
            add > 0,
            den > 0,
    ;
    if b < t * 0x80_0000 {
        round::lemma_step(b);
        let u = round::form_exponent(b);
        assert(u <= t - 2);
        if u < t - 2 {
            lemma_pow2_strictly_increases(u as nat, (t - 2) as nat);
        }
        lemma_pow2_unfold((t - 2) as nat);
        let above = super::magnitude(b + 1);
        assert(num <= m * den + add * den) by (nonlinear_arith)
            requires
                2 * num <= (m + above) * den,
                above - m <= 2 * add,
                den > 0,
        {
            assert((m + above) * den - 2 * (m * den) == (above - m) * den);
            assert((above - m) * den <= (2 * add) * den);
        }
    }
}

/// A positive integer below 2^64 is at least one, and finite.
pub proof fn counts_are_finite(n: int)
    requires
        1 <= n <= u64::MAX,
    ensures
        super::from_int(n).finite(),
        !super::from_int(n).negative(),
        super::from_int(n).mag() >= super::unit(),
{
    one_is_unit();
    let u = super::unit();
    let num = n * u;
    lemma2_to64();
    round::lemma_form(190, 0x80_0000);
    lemma_pow2_adds(23, 190);
    lemma_pow2_adds(64, 149);
    assert(u <= num <= 0x1_0000_0000_0000_0000 * u) by (nonlinear_arith)
        requires
            num == n * u,
            1 <= n <= 0x1_0000_0000_0000_0000,
            u > 0,
    ;
    rounding_stays_above(num, 1, ONE);
    rounding_stays_below(num, 1, 0x5F80_0000);
    round::lemma_monotone(ONE as int, super::nearest(num, 1) as int);
}

/// Zero converts to the pattern of zero.
pub proof fn zero_converts_to_zero()
    ensures
        super::from_int(0) == (F32 { bits: 0 }),
{
    zero_is_zero();
    assert(0 * super::unit() == 0);
    round::lemma_exact(0, 0, 1);
    round::lemma_nearest_is(0, 0, 1);
}

/// Zero over a positive number is zero.
pub proof fn zero_over_a_number(a: F32)
    requires
        a.finite(),
        !a.negative(),
        a.mag() > 0,
    ensures
        super::quotient(F32 { bits: 0 }, a) == (F32 { bits: 0 }),
{
    zero_is_zero();
    assert(0 * super::unit() == 0);
    assert(0 * a.mag() == 0);
    round::lemma_exact(0, 0, a.mag());
    round::lemma_nearest_is(0, 0, a.mag());
    assert(!a.zero());
}

/// Scaling by a number that is at least one, and back, gives almost the same number.
pub proof fn scaling_and_back(a: F32, x: F32)
    requires
        a.finite(),
        !a.negative(),
        a.mag() >= super::unit(),
        x.finite(),
        !x.negative(),
        0x400_0000 <= x.mag() <= super::unit(),
    ensures
        ({
            let q = super::quotient(super::product(a, x), a);
            &&& q.finite()
            &&& !q.negative()
            &&& 0x40_0000 * (x.mag() - q.mag()) <= x.mag()
            &&& 0x40_0000 * (q.mag() - x.mag()) <= x.mag()
        }),
{
    one_is_unit();
    zero_is_zero();
    let u = super::unit();
    let am = a.mag();
    let xm = x.mag();
    let s = am * xm;
    assert(0x400_0000 * u <= s <= am * u && 0x400_0000 * am <= s) by (nonlinear_arith)
        requires
            s == am * xm,
            0x400_0000 <= xm <= u,
            am >= u,
            u > 0,
    ;
    rounding_stays_below(s, u, a.bits);
    relative_error(s, u);
    let p = super::product(a, x);
    let t = p.mag() * u;
    assert(t == u * p.mag()) by (nonlinear_arith)
        requires
            t == p.mag() * u,
    ;
    round::lemma_monotone(p.mag_bits(), a.mag_bits());
    assert(t <= u * am && 0x200_0000 * am <= t) by (nonlinear_arith)
        requires
            t == p.mag() * u,
            p.mag() <= am,
            u > 0,
            0x100_0000 * (s - t) <= t,
            0x400_0000 * am <= s,
            am > 0,
    ;
    rounding_stays_below(t, am, ONE);
    relative_error(t, am);
    let q = super::quotient(p, a);
    let v = q.mag() * am;
    assert(0x40_0000 * (s - v) <= s && 0x40_0000 * (v - s) <= s);
    let down = 0x40_0000 * (xm - q.mag());
    let up = 0x40_0000 * (q.mag() - xm);
    assert(down <= xm && up <= xm) by (nonlinear_arith)
        requires
            am > 0,
            s == am * xm,
            v == q.mag() * am,
            down == 0x40_0000 * (xm - q.mag()),
            up == 0x40_0000 * (q.mag() - xm),
            0x40_0000 * (s - v) <= s,
            0x40_0000 * (v - s) <= s,
    ;
}

/// A product is within the rounding error of the exact one.
pub proof fn product_is_close(a: F32, b: F32)
    requires
        a.finite(),
        !a.negative(),
        b.finite(),
        !b.negative(),
        0 <= a.mag() <= super::unit(),
        0 <= b.mag() <= 2 * super::unit(),
        0x200_0000 * super::unit() <= a.mag() * b.mag(),
    ensures
        ({
            let p = super::product(a, b);
            let exact = a.mag() * b.mag();
            let got = p.mag() * super::unit();
            &&& p.finite()
            &&& !p.negative()
            &&& 0x100_0000 * (exact - got) <= got
            &&& 0x100_0000 * (got - exact) <= got
        }),
{
    one_is_unit();
    let u = super::unit();
    let exact = a.mag() * b.mag();
    lemma2_to64();
    round::lemma_form(127, 0x80_0000);
    lemma_pow2_adds(23, 127);
    lemma_pow2_adds(1, 149);
    assert(exact <= (2 * u) * u) by (nonlinear_arith)
        requires
            exact == a.mag() * b.mag(),
            0 <= a.mag() <= u,
            0 <= b.mag() <= 2 * u,
    ;
    rounding_stays_below(exact, u, 0x4000_0000);
    relative_error(exact, u);
}

} // verus!
