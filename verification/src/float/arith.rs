//! Sums, products and quotients.

use vstd::prelude::*;
use vstd::arithmetic::power2::*;
use vstd::bits::*;

use super::round;
use super::round::{bit_length, round_pack};
use super::{F32, INFINITY, NAN, SIGN};

verus! {

/// Significand and exponent of a finite magnitude pattern.
pub(super) fn parts(b: u32) -> (r: (u64, i32))
    requires
        b < INFINITY,
    ensures
        r.0 < 0x100_0000,
        0 <= r.1 <= 253,
        r.1 == round::form_exponent(b as int),
        b == r.1 * 0x80_0000 + r.0,
        r.1 == 0 || r.0 >= 0x80_0000,
        super::magnitude(b as int) == r.0 * pow2(r.1 as nat),
        b > 0 <==> r.0 > 0,
{
    let e: u32 = b / 0x80_0000;
    let m: u32 = b % 0x80_0000;
    if e == 0 {
        proof {
            round::lemma_form(0, m as int);
        }
        (m as u64, 0)
    } else {
        proof {
            round::lemma_form(e - 1, 0x80_0000 + m);
        }
        ((0x80_0000 + m) as u64, (e - 1) as i32)
    }
}

/// A quotient of integers times powers of two, in the form that `round_pack` takes.
pub(super) proof fn lemma_scaled(q: int, a: int, d: int, x: int, y: int, num: int, den: int)
    requires
        0 <= x,
        0 <= y,
        d > 0,
        q * d <= a < (q + 1) * d,
        num == a * pow2(x as nat),
        den == d * pow2(y as nat),
    ensures
        den > 0,
        round::scaled(q, x - y, q * d < a, num, den),
{
    let s = x - y;
    let p = pow2((if s >= 0 { s } else { 0 }) as nat) as int;
    let k = pow2((if s >= 0 { 0 } else { -s }) as nat) as int;
    let px = pow2(x as nat) as int;
    let py = pow2(y as nat) as int;
    lemma_pow2_pos(x as nat);
    lemma_pow2_pos(y as nat);
    lemma2_to64();
    let g = if s >= 0 { px } else { py };
    if s >= 0 {
        lemma_pow2_adds(s as nat, y as nat);
        assert(num * k == a * g && p * den == d * g) by (nonlinear_arith)
            requires
                num == a * px,
                den == d * py,
                px == p * py,
                g == px,
                k == 1,
        ;
    } else {
        lemma_pow2_adds(x as nat, (-s) as nat);
        assert(num * k == a * g && p * den == d * g) by (nonlinear_arith)
            requires
                num == a * px,
                den == d * py,
                py == px * k,
                g == py,
                p == 1,
        ;
    }
    let pd = p * den;
    assert(q * pd == (q * d) * g && (q + 1) * pd == ((q + 1) * d) * g) by (nonlinear_arith)
        requires
            pd == d * g,
    ;
    let lo = q * d;
    let hi = (q + 1) * d;
    assert(a * g < hi * g && lo * g <= a * g && (lo < a ==> lo * g < a * g)) by (nonlinear_arith)
        requires
            lo <= a < hi,
            g > 0,
    ;
    assert(den > 0) by (nonlinear_arith)
        requires
            den == d * py,
            d > 0,
            py > 0,
    ;
}

/// The pattern of the product of two finite magnitudes.
fn product_bits(x: u32, y: u32) -> (b: u32)
    requires
        x < INFINITY,
        y < INFINITY,
    ensures
        b == super::nearest(super::magnitude(x as int) * super::magnitude(y as int), super::unit()),
        b <= INFINITY,
{
    let (mx, kx) = parts(x);
    let (my, ky) = parts(y);
    let ghost num = super::magnitude(x as int) * super::magnitude(y as int);
    assert(mx * my < 0x1_0000_0000_0000) by (nonlinear_arith)
        requires
            mx < 0x100_0000,
            my < 0x100_0000,
    ;
    let m: u64 = mx * my;
    proof {
        lemma_pow2_adds(kx as nat, ky as nat);
        let px = pow2(kx as nat) as int;
        let py = pow2(ky as nat) as int;
        assert((mx * px) * (my * py) == (mx * my) * (px * py)) by (nonlinear_arith);
        lemma_scaled(m as int, m as int, 1, kx + ky, 149, num, super::unit());
    }
    let b = round_pack(m, kx + ky - 149, false, Ghost(num), Ghost(super::unit()));
    proof {
        round::lemma_nearest_is(b, num, super::unit());
    }
    b
}

/// The pattern of the quotient of two finite magnitudes.
fn quotient_bits(x: u32, y: u32) -> (b: u32)
    requires
        0 < x < INFINITY,
        0 < y < INFINITY,
    ensures
        b == super::nearest(super::magnitude(x as int) * super::unit(), super::magnitude(y as int)),
        b <= INFINITY,
{
    let (mx, kx) = parts(x);
    let (my, ky) = parts(y);
    let ghost num = super::magnitude(x as int) * super::unit();
    let ghost den = super::magnitude(y as int);
    // Bring the dividend to 51 bits, so that the quotient has at least 26.
    let n: u32 = bit_length(mx);
    proof {
        lemma2_to64();
        if n > 25 {
            lemma_pow2_strictly_increases(24, (n - 1) as nat);
        }
    }
    let lift: u64 = 51 - n as u64;
    proof {
        lemma2_to64_rest();
        lemma_pow2_adds(n as nat, lift as nat);
        lemma_pow2_adds((n - 1) as nat, lift as nat);
        let lo = pow2((n - 1) as nat) as int;
        let hi = pow2(n as nat) as int;
        let pl = pow2(lift as nat) as int;
        lemma_pow2_pos(lift as nat);
        assert(lo * pl <= mx * pl < hi * pl) by (nonlinear_arith)
            requires
                lo <= mx < hi,
                pl > 0,
        ;
        lemma_u64_shl_is_mul(mx, lift);
    }
    let a: u64 = mx << lift;
    let q: u64 = a / my;
    let rest: u64 = a % my;
    proof {
        let x2 = kx + 149 - lift;
        lemma_pow2_adds(kx as nat, 149);
        lemma_pow2_adds(lift as nat, x2 as nat);
        let pl = pow2(lift as nat) as int;
        let px = pow2(x2 as nat) as int;
        let pk = pow2(kx as nat) as int;
        let p149 = pow2(149) as int;
        assert((mx * pk) * p149 == (mx * pl) * px) by (nonlinear_arith)
            requires
                pk * p149 == pl * px,
        ;
        assert(a == q * my + rest && q >= 0x200_0000 && (q + 1) * my > a && q <= a)
            by (nonlinear_arith)
            requires
                q == a / my,
                rest == a % my,
                my > 0,
                my < 0x100_0000,
                a >= 0x4_0000_0000_0000,
        ;
        lemma_scaled(q as int, a as int, my as int, x2, ky as int, num, den);
    }
    let s: i32 = kx + 149 - lift as i32 - ky;
    let b = round_pack(q, s, rest != 0, Ghost(num), Ghost(den));
    proof {
        round::lemma_nearest_is(b, num, den);
    }
    b
}

/// A magnitude far below another's last bit does not move it.
proof fn lemma_far(x: int, y: int)
    requires
        0 <= y <= x < INFINITY,
        round::form_exponent(x) - round::form_exponent(y) >= 26,
        super::magnitude(y) < 0x100_0000 * pow2(round::form_exponent(y) as nat),
    ensures
        super::is_nearest(x, super::magnitude(x) + super::magnitude(y), 1),
        super::is_nearest(x, super::magnitude(x) - super::magnitude(y), 1),
{
    let kx = round::form_exponent(x);
    let ky = round::form_exponent(y);
    round::lemma_step(x);
    round::lemma_step(x - 1);
    round::lemma_monotone(0, y);
    round::lemma_form(0, 0);
    lemma2_to64();
    lemma_pow2_adds(24, ky as nat);
    if ky + 24 < kx - 2 {
        lemma_pow2_strictly_increases((ky + 24) as nat, (kx - 2) as nat);
    }
    lemma_pow2_unfold(kx as nat);
    lemma_pow2_unfold((kx - 1) as nat);
    let below = round::form_exponent(x - 1);
    assert(below == kx || below == kx - 1);
}

/// The pattern of the sum of two finite magnitudes.
fn sum_bits(x: u32, y: u32) -> (b: u32)
    requires
        y <= x < INFINITY,
    ensures
        b == super::nearest(super::magnitude(x as int) + super::magnitude(y as int), 1),
        b <= INFINITY,
{
    let (mx, kx) = parts(x);
    let (my, ky) = parts(y);
    let ghost num = super::magnitude(x as int) + super::magnitude(y as int);
    let d: u64 = (kx - ky) as u64;
    let b: u32;
    if d < 26 {
        proof {
            lemma_aligned(mx, kx as int, d);
            let pd = pow2(d as nat) as int;
            let py = pow2(ky as nat) as int;
            assert(((mx * pd) + my) * py == (mx * pd) * py + my * py) by (nonlinear_arith);
            lemma2_to64();
            lemma_scaled((mx * pd) + my, (mx * pd) + my, 1, ky as int, 0, num, 1);
        }
        b = round_pack((mx << d) + my, ky, false, Ghost(num), Ghost(1));
    } else {
        proof {
            lemma_small(my as int, ky as int);
            lemma_far(x as int, y as int);
        }
        b = x;
    }
    proof {
        round::lemma_nearest_is(b, num, 1);
    }
    b
}

/// The pattern of the difference of two finite magnitudes.
fn difference_bits(x: u32, y: u32) -> (b: u32)
    requires
        y <= x < INFINITY,
    ensures
        b == super::nearest(super::magnitude(x as int) - super::magnitude(y as int), 1),
        b <= INFINITY,
{
    let (mx, kx) = parts(x);
    let (my, ky) = parts(y);
    let ghost num = super::magnitude(x as int) - super::magnitude(y as int);
    let d: u64 = (kx - ky) as u64;
    let b: u32;
    if d < 26 {
        proof {
            lemma_aligned(mx, kx as int, d);
            let pd = pow2(d as nat) as int;
            let py = pow2(ky as nat) as int;
            assert(((mx * pd) - my) * py == (mx * pd) * py - my * py) by (nonlinear_arith);
            lemma2_to64();
            lemma_pow2_pos(ky as nat);
            round::lemma_monotone(y as int, x as int);
            assert((mx * pd) - my >= 0) by (nonlinear_arith)
                requires
                    (mx * pd) * py >= my * py,
                    py > 0,
            ;
            lemma_scaled((mx * pd) - my, (mx * pd) - my, 1, ky as int, 0, num, 1);
        }
        b = round_pack((mx << d) - my, ky, false, Ghost(num), Ghost(1));
    } else {
        proof {
            lemma_small(my as int, ky as int);
            lemma_far(x as int, y as int);
        }
        b = x;
    }
    proof {
        round::lemma_nearest_is(b, num, 1);
    }
    b
}

proof fn lemma_small(m: int, k: int)
    requires
        0 <= m < 0x100_0000,
        k >= 0,
    ensures
        m * pow2(k as nat) < 0x100_0000 * pow2(k as nat),
{
    lemma_pow2_pos(k as nat);
    let p = pow2(k as nat) as int;
    assert(m * p < 0x100_0000 * p) by (nonlinear_arith)
        requires
            m < 0x100_0000,
            p > 0,
    ;
}

/// Shifting a significand up by `d` moves it to the exponent `k - d`.
proof fn lemma_aligned(m: u64, k: int, d: u64)
    requires
        m < 0x100_0000,
        d < 26,
        d <= k,
    ensures
        m << d == m * pow2(d as nat),
        m * pow2(d as nat) < 0x4_0000_0000_0000,
        m * pow2(k as nat) == (m * pow2(d as nat)) * pow2((k - d) as nat),
{
    lemma2_to64();
    if d < 26 {
        lemma_pow2_strictly_increases(d as nat, 26);
    }
    let pd = pow2(d as nat) as int;
    assert(0 <= m * pd < 0x4_0000_0000_0000) by (nonlinear_arith)
        requires
            0 <= m < 0x100_0000,
            0 <= pd < 0x400_0000,
    ;
    lemma_u64_shl_is_mul(m, d);
    lemma_pow2_adds(d as nat, (k - d) as nat);
    let pr = pow2((k - d) as nat) as int;
    assert(m * (pd * pr) == (m * pd) * pr) by (nonlinear_arith);
}

impl F32 {
    /// The pattern without its sign bit.
    pub fn magnitude_bits(self) -> (b: u32)
        ensures
            b == self.mag_bits(),
            b < SIGN,
    {
        self.bits % SIGN
    }

    /// Whether the sign bit is set.
    pub fn is_negative(self) -> (r: bool)
        ensures
            r == self.negative(),
    {
        self.bits >= SIGN
    }

    /// Whether the pattern stands for no number.
    pub fn is_nan(self) -> (r: bool)
        ensures
            r == self.nan(),
    {
        self.magnitude_bits() > INFINITY
    }

    /// The number with the given sign and magnitude pattern.
    pub(super) fn with_sign(negative: bool, b: u32) -> (r: F32)
        requires
            b < SIGN,
        ensures
            r == super::signed(negative, b),
    {
        if negative {
            F32 { bits: b + SIGN }
        } else {
            F32 { bits: b }
        }
    }

    /// `-self`.
    pub fn negated(self) -> (r: F32)
        ensures
            r == super::negation(self),
    {
        F32::with_sign(!self.is_negative(), self.magnitude_bits())
    }

    /// `|self|`.
    pub fn abs(self) -> (r: F32)
        ensures
            r == super::absolute(self),
    {
        F32 { bits: self.magnitude_bits() }
    }

    /// `self * other`.
    pub fn times(self, other: F32) -> (r: F32)
        ensures
            r == super::product(self, other),
    {
        let x: u32 = self.magnitude_bits();
        let y: u32 = other.magnitude_bits();
        let negative: bool = self.is_negative() != other.is_negative();
        if x > INFINITY || y > INFINITY {
            return F32 { bits: NAN };
        }
        if x == INFINITY || y == INFINITY {
            if x == 0 || y == 0 {
                return F32 { bits: NAN };
            }
            return F32::with_sign(negative, INFINITY);
        }
        F32::with_sign(negative, product_bits(x, y))
    }

    /// `self / other`.
    pub fn over(self, other: F32) -> (r: F32)
        ensures
            r == super::quotient(self, other),
    {
        let x: u32 = self.magnitude_bits();
        let y: u32 = other.magnitude_bits();
        let negative: bool = self.is_negative() != other.is_negative();
        if x > INFINITY || y > INFINITY || (x == INFINITY && y == INFINITY) || (x == 0 && y == 0) {
            return F32 { bits: NAN };
        }
        if x == INFINITY || y == 0 {
            return F32::with_sign(negative, INFINITY);
        }
        if y == INFINITY {
            return F32::with_sign(negative, 0);
        }
        if x == 0 {
            proof {
                round::lemma_form(0, 0);
                lemma2_to64();
                round::lemma_monotone(0, y as int - 1);
                round::lemma_step(y as int - 1);
                assert(0 * super::unit() == 0);
                assert(0 * super::magnitude(y as int) == 0);
                round::lemma_exact(0, 0, super::magnitude(y as int));
                round::lemma_nearest_is(0, 0, super::magnitude(y as int));
            }
            return F32::with_sign(negative, 0);
        }
        F32::with_sign(negative, quotient_bits(x, y))
    }

    /// `self + other`.
    pub fn plus(self, other: F32) -> (r: F32)
        ensures
            r == super::sum(self, other),
    {
        let x: u32 = self.magnitude_bits();
        let y: u32 = other.magnitude_bits();
        let nx: bool = self.is_negative();
        let ny: bool = other.is_negative();
        if x > INFINITY || y > INFINITY || (x == INFINITY && y == INFINITY && nx != ny) {
            return F32 { bits: NAN };
        }
        if x == INFINITY {
            return self;
        }
        if y == INFINITY {
            return other;
        }
        proof {
            round::lemma_form(0, 0);
            lemma2_to64();
            round::lemma_monotone(0, x as int);
            round::lemma_monotone(0, y as int);
        }
        if nx == ny {
            if x == 0 && y == 0 {
                return F32::with_sign(nx, 0);
            }
            if x < y {
                F32::with_sign(nx, sum_bits(y, x))
            } else {
                F32::with_sign(nx, sum_bits(x, y))
            }
        } else if x == y {
            F32 { bits: 0 }
        } else if x < y {
            proof {
                round::lemma_monotone(x as int, y as int);
            }
            F32::with_sign(ny, difference_bits(y, x))
        } else {
            proof {
                round::lemma_monotone(y as int, x as int);
            }
            F32::with_sign(nx, difference_bits(x, y))
        }
    }

    /// `self - other`.
    pub fn minus(self, other: F32) -> (r: F32)
        ensures
            r == super::difference(self, other),
    {
        self.plus(other.negated())
    }

    /// `self < other`.
    pub fn lt(self, other: F32) -> (r: bool)
        ensures
            r == super::less(self, other),
    {
        let x: u32 = self.magnitude_bits();
        let y: u32 = other.magnitude_bits();
        if x > INFINITY || y > INFINITY {
            return false;
        }
        proof {
            round::lemma_form(0, 0);
            lemma2_to64();
            round::lemma_monotone(0, x as int);
            round::lemma_monotone(0, y as int);
            if x <= y {
                round::lemma_monotone(x as int, y as int);
            } else {
                round::lemma_monotone(y as int, x as int);
            }
        }
        if self.is_negative() {
            if other.is_negative() {
                y < x
            } else {
                x > 0 || y > 0
            }
        } else {
            !other.is_negative() && x < y
        }
    }

    /// `self <= other`.
    pub fn le(self, other: F32) -> (r: bool)
        ensures
            r == super::less_eq(self, other),
    {
        !self.is_nan() && !other.is_nan() && !other.lt(self)
    }

    /// The larger of two numbers; of a number and no number, the number.
    pub fn max(self, other: F32) -> (r: F32)
        ensures
            r == super::larger(self, other),
    {
        if self.is_nan() || self.lt(other) {
            other
        } else {
            self
        }
    }

    /// The smaller of two numbers; of a number and no number, the number.
    pub fn min(self, other: F32) -> (r: F32)
        ensures
            r == super::smaller(self, other),
    {
        if self.is_nan() || other.lt(self) {
            other
        } else {
            self
        }
    }

    /// The number, brought into the range from `lo` to `hi`.
    pub fn clamp(self, lo: F32, hi: F32) -> (r: F32)
        ensures
            r == super::clamped(self, lo, hi),
    {
        if self.lt(lo) {
            lo
        } else if hi.lt(self) {
            hi
        } else {
            self
        }
    }
}

} // verus!
