//! What the operations promise: no number is nearer to the exact result than theirs.

use vstd::prelude::*;
use vstd::arithmetic::div_mod::*;
use vstd::arithmetic::power2::*;

use super::facts;
use super::order;
use super::round;
use super::{F32, INFINITY, ONE};

verus! {

/// How far two numbers are apart.
pub open spec fn gap(a: int, b: int) -> int {
    if a < b {
        b - a
    } else {
        a - b
    }
}

/// No pattern is nearer to a fraction than the one that it is rounded to.
pub proof fn rounding_goes_to_the_nearest(num: int, den: int, c: u32)
    requires
        num >= 0,
        den > 0,
        c <= INFINITY,
    ensures
        gap(super::magnitude(super::nearest(num, den) as int) * den, num) <= gap(
            super::magnitude(c as int) * den,
            num,
        ),
{
    let b = super::nearest(num, den) as int;
    facts::nearest_exists(num, den);
    let m = super::magnitude(b);
    let n = super::magnitude(c as int);
    if c > b {
        let next = super::magnitude(b + 1);
        round::lemma_monotone(b, b + 1);
        round::lemma_monotone(b + 1, c as int);
        assert((m + next) * den == m * den + next * den && next * den <= n * den && m * den <= n
            * den) by (nonlinear_arith)
            requires
                m <= next <= n,
                den > 0,
        ;
    } else if c < b {
        let last = super::magnitude(b - 1);
        round::lemma_monotone(b - 1, b);
        round::lemma_monotone(c as int, b - 1);
        assert((last + m) * den == last * den + m * den && n * den <= last * den && n * den <= m
            * den) by (nonlinear_arith)
            requires
                n <= last <= m,
                den > 0,
        ;
    }
}

/// No number is nearer to a sum than what comes out.
pub proof fn sums_are_the_nearest(a: F32, b: F32, c: F32)
    requires
        a.finite(),
        b.finite(),
        c.finite(),
        super::sum(a, b).finite(),
    ensures
        gap(super::sum(a, b).value(), a.value() + b.value()) <= gap(
            c.value(),
            a.value() + b.value(),
        ),
{
    let v = a.value() + b.value();
    let s = super::sum(a, b);
    facts::zero_is_zero();
    order::magnitudes_are_not_negative(c);
    if v != 0 {
        let size = if v < 0 {
            -v
        } else {
            v
        };
        facts::nearest_exists(size, 1);
        rounding_goes_to_the_nearest(size, 1, c.mag_bits() as u32);
        rounding_goes_to_the_nearest(size, 1, 0);
        assert(s.mag() == super::magnitude(super::nearest(size, 1) as int));
    }
}

/// No number is nearer to a product than what comes out.
pub proof fn products_are_the_nearest(a: F32, b: F32, c: F32)
    requires
        a.finite(),
        b.finite(),
        c.finite(),
        super::product(a, b).finite(),
    ensures
        gap(super::product(a, b).value() * super::unit(), a.value() * b.value()) <= gap(
            c.value() * super::unit(),
            a.value() * b.value(),
        ),
{
    let u = super::unit();
    facts::one_is_unit();
    facts::zero_is_zero();
    order::magnitudes_are_not_negative(a);
    order::magnitudes_are_not_negative(b);
    order::magnitudes_are_not_negative(c);
    let (x, y, z) = (a.mag(), b.mag(), c.mag());
    let num = x * y;
    assert(num >= 0 && (-x) * y == -num && x * (-y) == -num && (-x) * (-y) == num && 0 <= z * u
        && (-z) * u == -(z * u)) by (nonlinear_arith)
        requires
            num == x * y,
            x >= 0,
            y >= 0,
            z >= 0,
            u > 0,
    ;
    facts::nearest_exists(num, u);
    rounding_goes_to_the_nearest(num, u, c.mag_bits() as u32);
    rounding_goes_to_the_nearest(num, u, 0);
    let p = super::product(a, b);
    let m = super::magnitude(super::nearest(num, u) as int);
    assert(p.mag() == m);
    assert((-m) * u == -(m * u)) by (nonlinear_arith);
    assert(0 * u == 0);
}

/// No number is nearer to a quotient by a positive number than what comes out.
pub proof fn quotients_are_the_nearest(a: F32, b: F32, c: F32)
    requires
        a.finite(),
        b.finite(),
        c.finite(),
        b.value() > 0,
        super::quotient(a, b).finite(),
    ensures
        gap(super::quotient(a, b).value() * b.value(), a.value() * super::unit()) <= gap(
            c.value() * b.value(),
            a.value() * super::unit(),
        ),
{
    let u = super::unit();
    facts::one_is_unit();
    facts::zero_is_zero();
    order::magnitudes_are_not_negative(a);
    order::magnitudes_are_not_negative(b);
    order::magnitudes_are_not_negative(c);
    let (x, den, z) = (a.mag(), b.mag(), c.mag());
    let num = x * u;
    assert(num >= 0 && (-x) * u == -num && 0 <= z * den && (-z) * den == -(z * den))
        by (nonlinear_arith)
        requires
            num == x * u,
            x >= 0,
            z >= 0,
            den > 0,
            u > 0,
    ;
    facts::nearest_exists(num, den);
    rounding_goes_to_the_nearest(num, den, c.mag_bits() as u32);
    rounding_goes_to_the_nearest(num, den, 0);
    let q = super::quotient(a, b);
    let m = super::magnitude(super::nearest(num, den) as int);
    assert(!b.zero());
    assert(q.mag() == m);
    assert((-m) * den == -(m * den)) by (nonlinear_arith);
    assert(0 * den == 0);
}

/// A number between zero and the largest integer of a range is rounded to the nearest one, half
/// way going up, and cut to the one below it; what is outside goes to the nearer end.
pub proof fn integers_are_the_nearest(a: F32, max: int)
    requires
        a.finite(),
        0 <= max,
    ensures
        ({
            let u = super::unit();
            let n = super::round_to(a, max);
            let k = super::floor_to(a, max);
            &&& a.value() <= 0 ==> n == 0 && k == 0
            &&& 0 <= a.value() < max * u ==> {
                &&& 2 * (n * u) - u <= 2 * a.value() < 2 * (n * u) + u
                &&& k * u <= a.value() < k * u + u
            }
            &&& a.value() >= max * u ==> n == max && k == max
        }),
{
    let u = super::unit();
    facts::one_is_unit();
    order::magnitudes_are_not_negative(a);
    let m = a.mag();
    let r = super::round_mag(a);
    let f = super::floor_mag(a);
    assert((2 * u) * r <= 2 * m + u < (2 * u) * r + 2 * u && u * f <= m < u * f + u)
        by (nonlinear_arith)
        requires
            r == (2 * m + u) / (2 * u),
            f == m / u,
            u > 0,
    ;
    assert((2 * u) * r == 2 * (r * u) && u * f == f * u) by (nonlinear_arith);
    if a.value() < max * u {
        assert(m < max * u ==> r <= max && f < max) by (nonlinear_arith)
            requires
                2 * (r * u) <= 2 * m + u,
                f * u <= m,
                u > 0,
        {
            if m < max * u {
                if r > max {
                    assert(r * u >= (max + 1) * u);
                }
                if f >= max {
                    assert(f * u >= max * u);
                }
            }
        }
        if m == 0 {
            assert(r == 0 && f == 0) by (nonlinear_arith)
                requires
                    2 * (r * u) <= u,
                    u < 2 * (r * u) + 2 * u,
                    f * u <= 0,
                    0 < f * u + u,
                    u > 0,
            ;
        }
        assert(0 <= max * u) by (nonlinear_arith)
            requires
                0 <= max,
                u > 0,
        ;
    } else {
        assert(0 <= max * u) by (nonlinear_arith)
            requires
                0 <= max,
                u > 0,
        ;
        assert(r >= max && f >= max) by (nonlinear_arith)
            requires
                m >= max * u,
                2 * m + u < 2 * (r * u) + 2 * u,
                m < f * u + u,
                u > 0,
        {
            if r < max {
                assert(r * u <= (max - 1) * u);
            }
            if f < max {
                assert(f * u <= (max - 1) * u);
            }
        }
        if m == 0 {
            assert(max == 0) by (nonlinear_arith)
                requires
                    0 >= max * u,
                    max >= 0,
                    u > 0,
            ;
            assert(r == 0 && f == 0) by (nonlinear_arith)
                requires
                    2 * (r * u) <= u,
                    f * u <= 0,
                    r >= 0,
                    f >= 0,
                    u > 0,
            ;
        }
    }
}

/// A number inside a range stays as it is, and one outside goes to the nearer end.
pub proof fn clamping_keeps_what_is_inside(a: F32, lo: F32, hi: F32)
    requires
        a.finite(),
        lo.finite(),
        hi.finite(),
        lo.value() <= hi.value(),
    ensures
        ({
            let c = super::clamped(a, lo, hi);
            &&& lo.value() <= c.value() <= hi.value()
            &&& lo.value() <= a.value() <= hi.value() ==> c == a
            &&& a.value() < lo.value() ==> c == lo
            &&& a.value() > hi.value() ==> c == hi
        }),
{
}

/// Whole turns do not matter: a number from zero to one stays as it is, and one from one to two or
/// from minus one to zero comes out a whole step from itself, up to rounding.
pub proof fn wrapping_takes_whole_steps(a: F32)
    requires
        a.finite(),
        -super::unit() < a.value() < 2 * super::unit(),
    ensures
        ({
            let u = super::unit();
            let w = super::wrapped(a);
            &&& 0 <= a.value() < u ==> w.value() == a.value()
            &&& u <= a.value() ==> 0x100_0000 * gap(w.value(), a.value() - u) <= u
            &&& a.value() < 0 ==> w == super::sum(a, F32 { bits: ONE })
        }),
{
    let u = super::unit();
    facts::one_is_unit();
    facts::zero_is_zero();
    order::magnitudes_are_not_negative(a);
    lemma_fraction(a);
}

proof fn lemma_fraction(a: F32)
    requires
        a.finite(),
        a.mag() < 2 * super::unit(),
    ensures
        ({
            let f = super::fraction(a);
            let u = super::unit();
            &&& f.finite()
            &&& a.mag() < u ==> f == a
            &&& a.mag() >= u ==> {
                &&& f.negative() == a.negative()
                &&& 0 <= f.mag()
                &&& 0x100_0000 * gap(f.mag(), a.mag() - u) <= u
            }
        }),
{
    let u = super::unit();
    facts::one_is_unit();
    order::magnitudes_are_not_negative(a);
    let m = a.mag();
    if m < u {
        lemma_small_mod(m as nat, u as nat);
        round::lemma_exact(a.mag_bits(), m, 1);
        round::lemma_nearest_is(a.mag_bits() as u32, m, 1);
    } else {
        lemma_mod_sub_multiples_vanish(m, u);
        lemma_small_mod((m - u) as nat, u as nat);
        lemma2_to64();
        lemma_pow2_adds(25, 124);
        facts::overshoot(m - u, 1, 127);
        facts::undershoot(m - u, 1, 127);
        round::lemma_monotone(0, super::nearest(m - u, 1) as int);
    }
}

/// Comparisons go by value; the larger and the smaller of two numbers are among them, and a
/// negated number and an absolute one keep their size.
pub proof fn comparisons_go_by_value(a: F32, b: F32)
    requires
        a.finite(),
        b.finite(),
    ensures
        super::less(a, b) <==> a.value() < b.value(),
        super::less_eq(a, b) <==> a.value() <= b.value(),
        super::larger(a, b) == a || super::larger(a, b) == b,
        super::larger(a, b).value() >= a.value() && super::larger(a, b).value() >= b.value(),
        super::smaller(a, b) == a || super::smaller(a, b) == b,
        super::smaller(a, b).value() <= a.value() && super::smaller(a, b).value() <= b.value(),
        super::negation(a).value() == -a.value(),
        super::absolute(a).value() == gap(a.value(), 0),
{
    order::negated_value(a);
    order::magnitudes_are_not_negative(a);
}

/// What is no number compares with nothing, and of it and a number the number is both the larger
/// and the smaller.
pub proof fn no_number_compares_with_nothing(a: F32, b: F32)
    requires
        a.nan(),
    ensures
        !super::less(a, b) && !super::less(b, a) && !super::less_eq(a, b) && !super::less_eq(b, a),
        !b.nan() ==> super::larger(a, b) == b && super::larger(b, a) == b,
        !b.nan() ==> super::smaller(a, b) == b && super::smaller(b, a) == b,
        super::sum(a, b).nan() && super::product(a, b).nan() && super::quotient(a, b).nan(),
        super::round_to(a, 255) == 0,
{
}

} // verus!
