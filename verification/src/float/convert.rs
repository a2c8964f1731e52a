//! Conversions between binary32 numbers and integers.

use vstd::prelude::*;
use vstd::arithmetic::power2::*;
use vstd::arithmetic::div_mod::*;
use vstd::bits::*;

use super::arith;
use super::arith::parts;
use super::round;
use super::round::round_pack;
use super::{F32, INFINITY, ONE};

verus! {

/// An integer's pattern, and that it is below infinity.
fn int_bits(n: u64) -> (b: u32)
    ensures
        b == super::nearest(n * super::unit(), 1),
        b <= INFINITY,
{
    let ghost num = n * super::unit();
    proof {
        lemma2_to64();
        arith::lemma_scaled(n as int, n as int, 1, 149, 0, num, 1);
    }
    let b = round_pack(n, 149, false, Ghost(num), Ghost(1));
    proof {
        round::lemma_nearest_is(b, num, 1);
    }
    b
}

/// Whole units and the rest of a magnitude of at least one half and below 2^23, by its
/// significand `m` and exponent `k`: `m / 2^sh` with `sh = 149 - k`.
proof fn lemma_whole(m: int, k: int, sh: int, mag: int)
    requires
        0 <= m,
        0 <= k,
        0 < sh,
        k + sh == 149,
        mag == m * pow2(k as nat),
    ensures
        mag / super::unit() == m / pow2(sh as nat) as int,
        mag % super::unit() == (m % pow2(sh as nat) as int) * pow2(k as nat),
        (2 * mag + super::unit()) / (2 * super::unit()) == (m + pow2((sh - 1) as nat)) / pow2(
            sh as nat,
        ) as int,
{
    let pk = pow2(k as nat) as int;
    let ps = pow2(sh as nat) as int;
    let h = pow2((sh - 1) as nat) as int;
    lemma_pow2_adds(k as nat, sh as nat);
    lemma_pow2_pos(k as nat);
    lemma_pow2_pos(sh as nat);
    lemma_pow2_unfold(sh as nat);
    let u = super::unit();
    assert(u == pk * ps);
    let w = m / ps;
    let r = m % ps;
    assert(m == ps * w + r && 0 <= r < ps) by (nonlinear_arith)
        requires
            w == m / ps,
            r == m % ps,
            ps > 0,
    ;
    assert(mag == w * u + r * pk && 0 <= r * pk < u) by (nonlinear_arith)
        requires
            mag == m * pk,
            u == pk * ps,
            m == ps * w + r,
            0 <= r < ps,
            pk > 0,
    ;
    lemma_fundamental_div_mod_converse(mag, u, w, r * pk);
    let n = m + h;
    let w2 = n / ps;
    let r2 = n % ps;
    assert(n == ps * w2 + r2 && 0 <= r2 < ps) by (nonlinear_arith)
        requires
            w2 == n / ps,
            r2 == n % ps,
            ps > 0,
    ;
    assert(2 * mag + u == w2 * (2 * u) + 2 * (r2 * pk) && 0 <= 2 * (r2 * pk) < 2 * u)
        by (nonlinear_arith)
        requires
            mag == m * pk,
            u == pk * ps,
            ps == 2 * h,
            n == m + h,
            n == ps * w2 + r2,
            0 <= r2 < ps,
            pk > 0,
    {
        assert(2 * mag + u == 2 * (n * pk));
        assert(n * pk == w2 * u + r2 * pk);
    }
    lemma_fundamental_div_mod_converse(2 * mag + u, 2 * u, w2, 2 * (r2 * pk));
}

/// A magnitude of at least 2^23 is whole.
proof fn lemma_all_whole(m: int, k: int, mag: int)
    requires
        0 <= m,
        149 <= k,
        mag == m * pow2(k as nat),
    ensures
        mag / super::unit() == m * pow2((k - 149) as nat),
        mag % super::unit() == 0,
        (2 * mag + super::unit()) / (2 * super::unit()) == m * pow2((k - 149) as nat),
{
    lemma_pow2_adds((k - 149) as nat, 149);
    lemma_pow2_pos(149);
    let u = super::unit();
    let pr = pow2((k - 149) as nat) as int;
    let w = m * pr;
    assert(m * (pr * u) == (m * pr) * u) by (nonlinear_arith);
    assert(mag == w * u + 0);
    lemma_fundamental_div_mod_converse(mag, u, w, 0);
    assert(2 * mag + u == w * (2 * u) + u) by (nonlinear_arith)
        requires
            mag == w * u,
    ;
    lemma_fundamental_div_mod_converse(2 * mag + u, 2 * u, w, u);
}

/// A magnitude below one half rounds to zero, and one below one has no whole unit.
proof fn lemma_no_whole(b: int)
    requires
        0 <= b < ONE,
    ensures
        super::magnitude(b) < super::unit(),
        super::magnitude(b) / super::unit() == 0,
        super::magnitude(b) % super::unit() == super::magnitude(b),
        b < 0x3F00_0000 ==> (2 * super::magnitude(b) + super::unit()) / (2 * super::unit()) == 0,
{
    let u = super::unit();
    lemma2_to64();
    lemma_pow2_adds(23, 126);
    lemma_pow2_adds(23, 125);
    lemma_pow2_unfold(149);
    round::lemma_form(126, 0x80_0000);
    round::lemma_form(125, 0x80_0000);
    round::lemma_monotone(b, ONE as int);
    lemma_fundamental_div_mod_converse(super::magnitude(b), u, 0, super::magnitude(b));
    if b < 0x3F00_0000 {
        round::lemma_monotone(b, 0x3F00_0000);
        let x = 2 * super::magnitude(b) + u;
        lemma_fundamental_div_mod_converse(x, 2 * u, 0, x);
    }
}

impl F32 {
    /// The number that an integer rounds to.
    pub fn from_u32(n: u32) -> (r: F32)
        ensures
            r == super::from_int(n as int),
    {
        F32 { bits: int_bits(n as u64) }
    }

    /// The number that a wide integer rounds to.
    pub fn from_u64(n: u64) -> (r: F32)
        ensures
            r == super::from_int(n as int),
    {
        F32 { bits: int_bits(n) }
    }

    /// `self` rounded to an integer, half way going away from zero, and brought into the range
    /// from zero to `max`; zero where `self` is no number.
    pub fn rounded_at_most(self, max: u32) -> (r: u32)
        ensures
            r == super::round_to(self, max as int),
    {
        let b: u32 = self.magnitude_bits();
        if b > INFINITY || self.is_negative() {
            return 0;
        }
        if b == INFINITY {
            return max;
        }
        if b < 0x3F00_0000 {
            proof {
                lemma_no_whole(b as int);
            }
            return 0;
        }
        let (m, k) = parts(b);
        if k >= 149 {
            proof {
                lemma_all_whole(m as int, k as int, self.mag());
            }
            return whole_at_most(m, (k - 149) as u32, max);
        }
        let sh: u64 = (149 - k) as u64;
        proof {
            lemma_whole(m as int, k as int, sh as int, self.mag());
            lemma_u64_pow2_no_overflow((sh - 1) as nat);
            lemma2_to64();
            if sh < 25 {
                lemma_pow2_strictly_increases((sh - 1) as nat, 24);
            }
            lemma_u64_shl_is_mul(1, (sh - 1) as u64);
        }
        let half: u64 = 1u64 << (sh - 1);
        let n: u64 = (m + half) >> sh;
        proof {
            lemma_u64_shr_is_div((m + half) as u64, sh);
        }
        if n > max as u64 {
            max
        } else {
            n as u32
        }
    }

    /// `self` cut to an integer and brought into the range from zero to `max`; zero where
    /// `self` is no number.
    pub fn floored_at_most(self, max: u32) -> (r: u32)
        ensures
            r == super::floor_to(self, max as int),
    {
        let b: u32 = self.magnitude_bits();
        if b > INFINITY || self.is_negative() {
            return 0;
        }
        if b == INFINITY {
            return max;
        }
        if b < ONE {
            proof {
                lemma_no_whole(b as int);
            }
            return 0;
        }
        let (m, k) = parts(b);
        if k >= 149 {
            proof {
                lemma_all_whole(m as int, k as int, self.mag());
            }
            return whole_at_most(m, (k - 149) as u32, max);
        }
        let sh: u64 = (149 - k) as u64;
        proof {
            lemma_whole(m as int, k as int, sh as int, self.mag());
            lemma_u64_shr_is_div(m, sh);
        }
        let n: u64 = m >> sh;
        if n > max as u64 {
            max
        } else {
            n as u32
        }
    }

    /// What is left when the whole units are taken away, towards zero.
    pub fn fract(self) -> (r: F32)
        ensures
            r == super::fraction(self),
    {
        let b: u32 = self.magnitude_bits();
        if b >= INFINITY {
            return F32 { bits: super::NAN };
        }
        let rest: u32;
        if b < ONE {
            proof {
                lemma_no_whole(b as int);
                round::lemma_exact(b as int, self.mag(), 1);
                round::lemma_nearest_is(b, self.mag(), 1);
            }
            rest = b;
        } else {
            let (m, k) = parts(b);
            if k >= 149 {
                proof {
                    lemma_all_whole(m as int, k as int, self.mag());
                    round::lemma_form(0, 0);
                    lemma2_to64();
                    round::lemma_exact(0, 0, 1);
                    round::lemma_nearest_is(0, 0, 1);
                }
                rest = 0;
            } else {
                let sh: u64 = (149 - k) as u64;
                let ghost num = self.mag() % super::unit();
                proof {
                    lemma_whole(m as int, k as int, sh as int, self.mag());
                    lemma_u64_shr_is_div(m, sh);
                    lemma_pow2_pos(sh as nat);
                    let ps = pow2(sh as nat) as int;
                    let q = m as int / ps;
                    assert(0 <= q * ps <= m && m as int % ps == m - q * ps) by (nonlinear_arith)
                        requires
                            q == m as int / ps,
                            ps > 0,
                            m >= 0,
                    ;
                    lemma_u64_shl_is_mul((m >> sh), sh);
                    lemma2_to64();
                    arith::lemma_scaled(m as int % ps, m as int % ps, 1, k as int, 0, num, 1);
                }
                let low: u64 = m - ((m >> sh) << sh);
                rest = round_pack(low, k, false, Ghost(num), Ghost(1));
                proof {
                    round::lemma_nearest_is(rest, num, 1);
                }
            }
        }
        F32::with_sign(self.is_negative(), rest)
    }

    /// `self` brought into the range from zero to one by whole steps.
    pub fn wrap(self) -> (r: F32)
        ensures
            r == super::wrapped(self),
    {
        let f = self.fract();
        if f.lt(F32 { bits: 0 }) {
            f.plus(F32 { bits: ONE })
        } else {
            f
        }
    }
}

/// `m * 2^e`, or `max` where that is larger.
fn whole_at_most(m: u64, e: u32, max: u32) -> (r: u32)
    requires
        0x80_0000 <= m < 0x100_0000,
    ensures
        r == if m * pow2(e as nat) > max { max as int } else { m * pow2(e as nat) },
{
    proof {
        lemma2_to64();
        lemma_pow2_pos(e as nat);
    }
    if e >= 32 {
        proof {
            if e > 32 {
                lemma_pow2_strictly_increases(32, e as nat);
            }
            let p = pow2(e as nat) as int;
            assert(m * p > 0xFFFF_FFFF) by (nonlinear_arith)
                requires
                    m >= 0x80_0000,
                    p >= 0x1_0000_0000,
            ;
        }
        return max;
    }
    let s: u64 = e as u64;
    proof {
        lemma_pow2_strictly_increases(e as nat, 32);
        let p = pow2(e as nat) as int;
        assert(0 <= m * p < 0x100_0000_0000_0000) by (nonlinear_arith)
            requires
                0 <= m < 0x100_0000,
                0 <= p < 0x1_0000_0000,
        ;
        lemma_u64_shl_is_mul(m, s);
    }
    let n: u64 = m << s;
    if n > max as u64 {
        max
    } else {
        n as u32
    }
}

} // verus!
