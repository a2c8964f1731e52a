//! Rounded operations keep the order of the exact ones.

use vstd::prelude::*;
use vstd::arithmetic::power2::*;

use super::facts;
use super::round;
use super::{F32, ONE};

verus! {

/// Whether a number is finite and not above 2^20, far from where results overflow.
pub open spec fn small(a: F32) -> bool {
    a.finite() && a.mag() <= 0x10_0000 * super::unit()
}

/// A magnitude is not negative.
pub proof fn magnitudes_are_not_negative(a: F32)
    ensures
        a.mag() >= 0,
{
    round::lemma_monotone(0, a.mag_bits());
}

/// What is not above 2^20 rounds to what is not above 2^20.
proof fn lemma_stays_small(num: int, den: int)
    requires
        0 <= num <= (0x10_0000 * super::unit()) * den,
        0 < den,
    ensures
        super::nearest(num, den) <= 0x4980_0000,
        0 <= super::magnitude(super::nearest(num, den) as int) <= 0x10_0000 * super::unit(),
{
    lemma2_to64();
    round::lemma_form(146, 0x80_0000);
    lemma_pow2_adds(23, 146);
    lemma_pow2_adds(20, 149);
    facts::rounding_stays_below(num, den, 0x4980_0000);
    round::lemma_monotone(0, super::nearest(num, den) as int);
    round::lemma_monotone(super::nearest(num, den) as int, 0x4980_0000);
}

/// The value of a small sum, by the magnitude that it rounds to.
proof fn lemma_sum_value(a: F32, b: F32)
    requires
        a.finite(),
        b.finite(),
        -0x10_0000 * super::unit() <= a.value() + b.value() <= 0x10_0000 * super::unit(),
    ensures
        ({
            let s = super::sum(a, b);
            let v = a.value() + b.value();
            &&& small(s)
            &&& v >= 0 ==> s.value() == super::magnitude(super::nearest(v, 1) as int)
            &&& v <= 0 ==> s.value() == -super::magnitude(super::nearest(-v, 1) as int)
        }),
{
    let v = a.value() + b.value();
    facts::zero_is_zero();
    facts::one_is_unit();
    if v >= 0 {
        lemma_stays_small(v, 1);
    }
    if v <= 0 {
        lemma_stays_small(-v, 1);
    }
    if v == 0 {
        facts::rounding_stays_below(0, 1, 0);
    }
}

/// Of two sums of finite numbers, the one that is not above the other exactly is not above it
/// when rounded.
pub proof fn sums_keep_order(a: F32, b: F32, c: F32, d: F32)
    requires
        a.finite(),
        b.finite(),
        c.finite(),
        d.finite(),
        -0x10_0000 * super::unit() <= a.value() + b.value(),
        a.value() + b.value() <= c.value() + d.value(),
        c.value() + d.value() <= 0x10_0000 * super::unit(),
    ensures
        small(super::sum(a, b)),
        small(super::sum(c, d)),
        super::sum(a, b).value() <= super::sum(c, d).value(),
{
    let v = a.value() + b.value();
    let w = c.value() + d.value();
    lemma_sum_value(a, b);
    lemma_sum_value(c, d);
    facts::one_is_unit();
    if v >= 0 {
        facts::rounding_is_monotone(v, 1, w, 1);
        round::lemma_monotone(super::nearest(v, 1) as int, super::nearest(w, 1) as int);
    } else if w <= 0 {
        facts::rounding_is_monotone(-w, 1, -v, 1);
        round::lemma_monotone(super::nearest(-w, 1) as int, super::nearest(-v, 1) as int);
    } else {
        lemma_stays_small(-v, 1);
        lemma_stays_small(w, 1);
    }
}

/// A sum that is exactly not above a small number is not above it when rounded.
pub proof fn sum_stays_below(a: F32, b: F32, x: F32)
    requires
        a.finite(),
        b.finite(),
        small(x),
        !x.negative(),
        -0x10_0000 * super::unit() <= a.value() + b.value() <= x.value(),
    ensures
        small(super::sum(a, b)),
        super::sum(a, b).value() <= x.value(),
{
    facts::zero_is_zero();
    facts::sum_with_zero(x);
    sums_keep_order(a, b, x, F32 { bits: 0 });
}

/// A sum that is exactly not below a small number is not below it when rounded.
pub proof fn sum_stays_above(a: F32, b: F32, x: F32)
    requires
        a.finite(),
        b.finite(),
        small(x),
        !x.negative(),
        x.value() <= a.value() + b.value() <= 0x10_0000 * super::unit(),
    ensures
        small(super::sum(a, b)),
        super::sum(a, b).value() >= x.value(),
{
    facts::zero_is_zero();
    magnitudes_are_not_negative(x);
    facts::sum_with_zero(x);
    sums_keep_order(x, F32 { bits: 0 }, a, b);
}

/// The difference of finite numbers is the sum with the negated one.
pub proof fn negated_value(a: F32)
    requires
        a.finite(),
    ensures
        super::negation(a).finite(),
        super::negation(a).value() == -a.value(),
        super::negation(a).mag() == a.mag(),
{
    facts::zero_is_zero();
}

/// Of two products, the one whose exact magnitude is not above the other's has not the larger
/// magnitude when rounded.
pub proof fn products_keep_order(a: F32, b: F32, c: F32, d: F32)
    requires
        a.finite(),
        b.finite(),
        c.finite(),
        d.finite(),
        a.mag() * b.mag() <= c.mag() * d.mag() <= (0x10_0000 * super::unit()) * super::unit(),
    ensures
        small(super::product(a, b)),
        small(super::product(c, d)),
        super::product(a, b).mag() <= super::product(c, d).mag(),
        !super::product(a, b).negative() <==> a.negative() == b.negative(),
{
    let u = super::unit();
    facts::one_is_unit();
    magnitudes_are_not_negative(a);
    magnitudes_are_not_negative(b);
    magnitudes_are_not_negative(c);
    magnitudes_are_not_negative(d);
    let p = a.mag() * b.mag();
    let q = c.mag() * d.mag();
    assert(0 <= p && 0 <= q && p * u <= q * u) by (nonlinear_arith)
        requires
            p == a.mag() * b.mag(),
            q == c.mag() * d.mag(),
            a.mag() >= 0,
            b.mag() >= 0,
            c.mag() >= 0,
            d.mag() >= 0,
            p <= q,
            u > 0,
    ;
    facts::rounding_is_monotone(p, u, q, u);
    lemma_stays_small(p, u);
    lemma_stays_small(q, u);
    round::lemma_monotone(super::nearest(p, u) as int, super::nearest(q, u) as int);
}

/// A product with a factor that is not above one has no larger magnitude.
pub proof fn product_with_a_fraction(a: F32, s: F32)
    requires
        small(a),
        !a.negative(),
        s.finite(),
        s.mag() <= super::unit(),
    ensures
        small(super::product(a, s)),
        super::product(a, s).mag() <= a.mag(),
        super::product(a, s).negative() == s.negative(),
{
    let one = F32 { bits: ONE };
    let u = super::unit();
    facts::one_is_unit();
    magnitudes_are_not_negative(a);
    assert(a.mag() * s.mag() <= a.mag() * one.mag() <= (0x10_0000 * u) * u) by (nonlinear_arith)
        requires
            0 <= a.mag() <= 0x10_0000 * u,
            s.mag() <= u,
            one.mag() == u,
            u > 0,
    ;
    products_keep_order(a, s, a, one);
    facts::product_with_one(a);
}

/// Of two quotients of small numbers by numbers that are not below one, the one that is not above
/// the other exactly is not above it when rounded.
pub proof fn quotients_keep_order(a: F32, b: F32, c: F32, d: F32)
    requires
        small(a),
        small(b),
        small(c),
        small(d),
        !a.negative(),
        !b.negative(),
        !c.negative(),
        !d.negative(),
        b.mag() >= super::unit(),
        d.mag() >= super::unit(),
        a.mag() * d.mag() <= c.mag() * b.mag(),
    ensures
        small(super::quotient(a, b)),
        small(super::quotient(c, d)),
        !super::quotient(a, b).negative(),
        !super::quotient(c, d).negative(),
        super::quotient(a, b).mag() <= super::quotient(c, d).mag(),
{
    let u = super::unit();
    facts::one_is_unit();
    facts::zero_is_zero();
    magnitudes_are_not_negative(a);
    magnitudes_are_not_negative(c);
    let (am, bm, cm, dm) = (a.mag(), b.mag(), c.mag(), d.mag());
    assert((am * u) * dm <= (cm * u) * bm && 0 <= am * u <= (0x10_0000 * u) * bm && 0 <= cm * u
        <= (0x10_0000 * u) * dm) by (nonlinear_arith)
        requires
            am * dm <= cm * bm,
            0 <= am <= 0x10_0000 * u,
            0 <= cm <= 0x10_0000 * u,
            bm >= u,
            dm >= u,
            u > 0,
    {
        assert((am * u) * dm == (am * dm) * u);
        assert((cm * u) * bm == (cm * bm) * u);
        assert((am * dm) * u <= (cm * bm) * u);
        assert(am * u <= (0x10_0000 * u) * u);
        assert((0x10_0000 * u) * u <= (0x10_0000 * u) * bm);
        assert(cm * u <= (0x10_0000 * u) * u);
        assert((0x10_0000 * u) * u <= (0x10_0000 * u) * dm);
    }
    facts::rounding_is_monotone(am * u, bm, cm * u, dm);
    lemma_stays_small(am * u, bm);
    lemma_stays_small(cm * u, dm);
    round::lemma_monotone(
        super::nearest(am * u, bm) as int,
        super::nearest(cm * u, dm) as int,
    );
}

/// A larger number rounds to no smaller integer.
pub proof fn rounding_to_integers_keeps_order(a: F32, b: F32, max: int)
    requires
        a.finite(),
        b.finite(),
        a.value() <= b.value(),
        max >= 0,
    ensures
        0 <= super::round_to(a, max) <= super::round_to(b, max) <= max,
        0 <= super::floor_to(a, max) <= super::floor_to(b, max) <= max,
{
    let u = super::unit();
    facts::one_is_unit();
    magnitudes_are_not_negative(a);
    magnitudes_are_not_negative(b);
    let (am, bm) = (a.mag(), b.mag());
    vstd::arithmetic::div_mod::lemma_div_pos_is_pos(am, u);
    vstd::arithmetic::div_mod::lemma_div_pos_is_pos(bm, u);
    vstd::arithmetic::div_mod::lemma_div_pos_is_pos(2 * am + u, 2 * u);
    vstd::arithmetic::div_mod::lemma_div_pos_is_pos(2 * bm + u, 2 * u);
    if am <= bm {
        vstd::arithmetic::div_mod::lemma_div_is_ordered(am, bm, u);
        vstd::arithmetic::div_mod::lemma_div_is_ordered(2 * am + u, 2 * bm + u, 2 * u);
    } else if !b.negative() {
        // Only a zero of the other sign can be smaller in value and not in magnitude.
        assert(a.negative());
    }
    if a.value() == 0 && b.negative() {
        assert(bm == 0 && am == 0);
        vstd::arithmetic::div_mod::lemma_small_mod(u as nat, (2 * u) as nat);
        vstd::arithmetic::div_mod::lemma_basic_div(u, 2 * u);
        vstd::arithmetic::div_mod::lemma_basic_div(0, u);
    }
}

} // verus!
