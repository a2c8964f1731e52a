//! IEEE 754 binary32 arithmetic on bit patterns.
//!
//! The colour pipeline is defined in single precision. `F32` carries the bit pattern of such a
//! number, and every operation is specified by the real number that it rounds: a result is the
//! representable number nearest to the exact one, ties going to the even pattern.

use vstd::prelude::*;
use vstd::arithmetic::power2::*;

pub mod arith;
pub mod convert;
pub mod facts;
pub mod laws;
pub mod near;
pub mod order;
pub mod round;

verus! {

/// The bit pattern of positive infinity.
pub const INFINITY: u32 = 0x7F80_0000;

/// The bit pattern that operations without a numeric result return.
pub const NAN: u32 = 0x7FC0_0000;

/// The sign bit.
pub const SIGN: u32 = 0x8000_0000;

/// The bit pattern of one.
pub const ONE: u32 = 0x3F80_0000;

/// A binary32 number, by its bit pattern.
#[derive(Clone, Copy, Debug, PartialEq, Eq, Structural)]
pub struct F32 {
    /// Sign, exponent and fraction, from the top bit down.
    pub bits: u32,
}

/// The number of units of 2^-149 in the magnitude whose pattern is `b`.
///
/// Infinity takes part as the next number after the largest finite one, which is what rounding
/// to nearest compares against.
#[verifier::opaque]
pub open spec fn magnitude(b: int) -> int {
    let e = b / 0x80_0000;
    let m = b % 0x80_0000;
    if e == 0 {
        m
    } else {
        (0x80_0000 + m) * pow2((e - 1) as nat)
    }
}

/// The number of units of 2^-149 in one.
pub open spec fn unit() -> int {
    pow2(149) as int
}

/// Whether the magnitude pattern `b` is the one nearest to `num / den` units of 2^-149, the
/// even pattern being taken half way between two.
pub open spec fn is_nearest(b: int, num: int, den: int) -> bool {
    &&& 0 <= b <= INFINITY
    &&& b > 0 ==> {
        let low = (magnitude(b - 1) + magnitude(b)) * den;
        low < 2 * num || (low == 2 * num && b % 2 == 0)
    }
    &&& b < INFINITY ==> {
        let high = (magnitude(b) + magnitude(b + 1)) * den;
        2 * num < high || (2 * num == high && b % 2 == 0)
    }
}

/// The magnitude pattern nearest to `num / den` units of 2^-149.
pub open spec fn nearest(num: int, den: int) -> u32 {
    choose|b: u32| is_nearest(b as int, num, den)
}

impl F32 {
    /// The pattern without its sign bit.
    pub open spec fn mag_bits(self) -> int {
        self.bits as int % 0x8000_0000
    }

    /// Whether the sign bit is set.
    pub open spec fn negative(self) -> bool {
        self.bits >= SIGN
    }

    /// Whether the pattern stands for no number.
    pub open spec fn nan(self) -> bool {
        self.mag_bits() > INFINITY
    }

    /// Whether the pattern stands for a finite number.
    pub open spec fn finite(self) -> bool {
        self.mag_bits() < INFINITY
    }

    /// Whether the pattern stands for an infinity.
    pub open spec fn infinite(self) -> bool {
        self.mag_bits() == INFINITY
    }

    /// Whether the pattern stands for a zero of either sign.
    pub open spec fn zero(self) -> bool {
        self.mag_bits() == 0
    }

    /// The magnitude, in units of 2^-149.
    pub open spec fn mag(self) -> int {
        magnitude(self.mag_bits())
    }

    /// The number, in units of 2^-149.
    pub open spec fn value(self) -> int {
        if self.negative() {
            -self.mag()
        } else {
            self.mag()
        }
    }
}

/// The number with the given sign and magnitude pattern.
pub open spec fn signed(negative: bool, b: u32) -> F32 {
    if negative {
        F32 { bits: (b + SIGN) as u32 }
    } else {
        F32 { bits: b }
    }
}

/// The result of an operation that has no numeric result.
pub open spec fn not_a_number() -> F32 {
    F32 { bits: NAN }
}

/// The number that `num / den` units of 2^-149 round to, with the given sign.
pub open spec fn rounded(negative: bool, num: int, den: int) -> F32 {
    signed(negative, nearest(num, den))
}

/// The number that the integer `n` rounds to.
pub open spec fn from_int(n: int) -> F32 {
    rounded(false, n * unit(), 1)
}

/// `-a`.
pub open spec fn negation(a: F32) -> F32 {
    signed(!a.negative(), a.mag_bits() as u32)
}

/// `|a|`.
pub open spec fn absolute(a: F32) -> F32 {
    F32 { bits: a.mag_bits() as u32 }
}

/// `a * b`.
pub open spec fn product(a: F32, b: F32) -> F32 {
    let negative = a.negative() != b.negative();
    if a.nan() || b.nan() {
        not_a_number()
    } else if a.infinite() || b.infinite() {
        if a.zero() || b.zero() {
            not_a_number()
        } else {
            signed(negative, INFINITY)
        }
    } else {
        rounded(negative, a.mag() * b.mag(), unit())
    }
}

/// `a / b`.
pub open spec fn quotient(a: F32, b: F32) -> F32 {
    let negative = a.negative() != b.negative();
    if a.nan() || b.nan() || (a.infinite() && b.infinite()) || (a.zero() && b.zero()) {
        not_a_number()
    } else if a.infinite() || b.zero() {
        signed(negative, INFINITY)
    } else if b.infinite() {
        signed(negative, 0)
    } else {
        rounded(negative, a.mag() * unit(), b.mag())
    }
}

/// `a + b`.
pub open spec fn sum(a: F32, b: F32) -> F32 {
    let v = a.value() + b.value();
    if a.nan() || b.nan() || (a.infinite() && b.infinite() && a.negative() != b.negative()) {
        not_a_number()
    } else if a.infinite() {
        a
    } else if b.infinite() {
        b
    } else if v == 0 {
        signed(a.negative() && b.negative(), 0)
    } else if v < 0 {
        rounded(true, -v, 1)
    } else {
        rounded(false, v, 1)
    }
}

/// `a - b`.
pub open spec fn difference(a: F32, b: F32) -> F32 {
    sum(a, negation(b))
}

/// `a < b`.
pub open spec fn less(a: F32, b: F32) -> bool {
    !a.nan() && !b.nan() && a.value() < b.value()
}

/// `a <= b`.
pub open spec fn less_eq(a: F32, b: F32) -> bool {
    !a.nan() && !b.nan() && a.value() <= b.value()
}

/// The larger of two numbers; of a number and no number, the number.
pub open spec fn larger(a: F32, b: F32) -> F32 {
    if a.nan() || less(a, b) {
        b
    } else {
        a
    }
}

/// The smaller of two numbers; of a number and no number, the number.
pub open spec fn smaller(a: F32, b: F32) -> F32 {
    if a.nan() || less(b, a) {
        b
    } else {
        a
    }
}

/// `a`, brought into the range from `lo` to `hi`.
pub open spec fn clamped(a: F32, lo: F32, hi: F32) -> F32 {
    if less(a, lo) {
        lo
    } else if less(hi, a) {
        hi
    } else {
        a
    }
}

/// The integer nearest to the magnitude of a finite `a`, half way going up.
pub open spec fn round_mag(a: F32) -> int {
    (2 * a.mag() + unit()) / (2 * unit())
}

/// The largest integer that is not above the magnitude of a finite `a`.
pub open spec fn floor_mag(a: F32) -> int {
    a.mag() / unit()
}

/// `a` rounded to an integer, half way going away from zero, and brought into the range from
/// zero to `max`; zero where `a` is no number.
pub open spec fn round_to(a: F32, max: int) -> int {
    if a.nan() || a.negative() {
        0
    } else if a.infinite() || round_mag(a) > max {
        max
    } else {
        round_mag(a)
    }
}

/// `a` cut to an integer and brought into the range from zero to `max`; zero where `a` is no
/// number.
pub open spec fn floor_to(a: F32, max: int) -> int {
    if a.nan() || a.negative() {
        0
    } else if a.infinite() || floor_mag(a) > max {
        max
    } else {
        floor_mag(a)
    }
}

/// What is left of `a` when the whole units are taken from it, towards zero.
pub open spec fn fraction(a: F32) -> F32 {
    if a.finite() {
        rounded(a.negative(), a.mag() % unit(), 1)
    } else {
        not_a_number()
    }
}

/// `a` brought into the range from zero to one by whole steps.
pub open spec fn wrapped(a: F32) -> F32 {
    if less(fraction(a), F32 { bits: 0 }) {
        sum(fraction(a), F32 { bits: ONE })
    } else {
        fraction(a)
    }
}

} // verus!
