//! Rounding to nearest: the order of the representable magnitudes and the packing kernel.

use vstd::prelude::*;
use vstd::arithmetic::power2::*;
use vstd::bits::*;
use vstd::std_specs::bits::*;

use super::INFINITY;

verus! {

/// A significand of at most 24 bits and its exponent spell the magnitude that they denote.
pub proof fn lemma_form(u: int, k: int)
    requires
        0 <= u,
        0 <= k <= 0x100_0000,
        u == 0 || k >= 0x80_0000,
    ensures
        super::magnitude(u * 0x80_0000 + k) == k * pow2(u as nat),
{
    reveal(super::magnitude);
    let b = u * 0x80_0000 + k;
    lemma2_to64();
    if k < 0x80_0000 {
        assert(b / 0x80_0000 == 0 && b % 0x80_0000 == k);
        assert(k * pow2(0) == k);
    } else if k < 0x100_0000 {
        assert(b / 0x80_0000 == u + 1 && b % 0x80_0000 == k - 0x80_0000);
    } else {
        assert(b / 0x80_0000 == u + 2 && b % 0x80_0000 == 0);
        lemma_pow2_unfold((u + 1) as nat);
        assert(0x80_0000 * (2 * pow2(u as nat)) == 0x100_0000 * pow2(u as nat));
    }
}

/// The exponent under which `lemma_form` spells the pattern `b`.
pub open spec fn form_exponent(b: int) -> int {
    if b < 0x100_0000 {
        0
    } else {
        b / 0x80_0000 - 1
    }
}

/// The step from a magnitude to the next is the unit of its exponent.
pub proof fn lemma_step(b: int)
    requires
        0 <= b,
    ensures
        super::magnitude(b + 1) == super::magnitude(b) + pow2(form_exponent(b) as nat),
        super::magnitude(b) < super::magnitude(b + 1),
        super::magnitude(b) >= 0,
{
    let u = form_exponent(b);
    let k = b - u * 0x80_0000;
    assert(0 <= k < 0x100_0000 && (u == 0 || k >= 0x80_0000)) by {
        if b >= 0x100_0000 {
            assert(b == 0x80_0000 * (b / 0x80_0000) + b % 0x80_0000);
        }
    }
    lemma_form(u, k);
    lemma_form(u, k + 1);
    lemma_pow2_pos(u as nat);
    let p = pow2(u as nat) as int;
    assert((k + 1) * p == k * p + p) by (nonlinear_arith);
    assert(k * p >= 0) by (nonlinear_arith)
        requires
            k >= 0,
            p > 0,
    ;
}

/// Magnitudes grow with their patterns.
pub proof fn lemma_monotone(a: int, b: int)
    requires
        0 <= a <= b,
    ensures
        0 <= super::magnitude(a) <= super::magnitude(b),
        a < b ==> super::magnitude(a) < super::magnitude(b),
    decreases b - a,
{
    lemma_step(a);
    if a < b {
        lemma_monotone(a + 1, b);
    }
}

/// There is one nearest pattern.
pub proof fn lemma_nearest_unique(a: int, b: int, num: int, den: int)
    requires
        den > 0,
        super::is_nearest(a, num, den),
        super::is_nearest(b, num, den),
    ensures
        a == b,
{
    if a < b {
        lemma_nearest_order(a, b, num, den);
    } else if b < a {
        lemma_nearest_order(b, a, num, den);
    }
}

proof fn lemma_nearest_order(a: int, b: int, num: int, den: int)
    requires
        den > 0,
        a < b,
        super::is_nearest(a, num, den),
    ensures
        !super::is_nearest(b, num, den),
{
    lemma_monotone(a, b - 1);
    lemma_monotone(a + 1, b);
    let x = super::magnitude(a) + super::magnitude(a + 1);
    let y = super::magnitude(b - 1) + super::magnitude(b);
    assert(x * den <= y * den) by (nonlinear_arith)
        requires
            x <= y,
            den > 0,
    ;
    if a + 1 < b {
        lemma_monotone(a, b - 1);
        assert(x < y);
        assert(x * den < y * den) by (nonlinear_arith)
            requires
                x < y,
                den > 0,
        ;
    }
}

/// Whatever is nearest is what `nearest` names.
pub proof fn lemma_nearest_is(b: u32, num: int, den: int)
    requires
        den > 0,
        super::is_nearest(b as int, num, den),
    ensures
        super::nearest(num, den) == b,
{
    let c = super::nearest(num, den);
    assert(super::is_nearest(c as int, num, den));
    lemma_nearest_unique(b as int, c as int, num, den);
}

/// `is_nearest` with no largest finite number.
spec fn is_nearest_unbounded(b: int, num: int, den: int) -> bool {
    let low = (super::magnitude(b - 1) + super::magnitude(b)) * den;
    let high = (super::magnitude(b) + super::magnitude(b + 1)) * den;
    &&& 0 <= b
    &&& b > 0 ==> low < 2 * num || (low == 2 * num && b % 2 == 0)
    &&& 2 * num < high || (2 * num == high && b % 2 == 0)
}

/// Past the largest finite number, the nearest is infinity.
proof fn lemma_clamp(b: int, num: int, den: int)
    requires
        den > 0,
        is_nearest_unbounded(b, num, den),
    ensures
        super::is_nearest(if b < INFINITY { b } else { INFINITY as int }, num, den),
{
    if b > INFINITY {
        let i = INFINITY as int;
        lemma_monotone(i, b - 1);
        lemma_monotone(i - 1, i);
        lemma_monotone(b - 1, b);
        let x = super::magnitude(i - 1) + super::magnitude(i);
        let y = super::magnitude(b - 1) + super::magnitude(b);
        assert(x * den < y * den) by (nonlinear_arith)
            requires
                x < y,
                den > 0,
        ;
    }
}

/// A magnitude is the nearest to itself.
pub proof fn lemma_exact(b: int, num: int, den: int)
    requires
        den > 0,
        0 <= b,
        num == super::magnitude(b) * den,
    ensures
        super::is_nearest(if b < INFINITY { b } else { INFINITY as int }, num, den),
{
    lemma_step(b);
    let x = super::magnitude(b);
    let z = super::magnitude(b + 1);
    assert((x + z) * den > 2 * (x * den)) by (nonlinear_arith)
        requires
            x < z,
            den > 0,
    ;
    if b > 0 {
        lemma_step(b - 1);
        let y = super::magnitude(b - 1);
        assert((y + x) * den < 2 * (x * den)) by (nonlinear_arith)
            requires
                y < x,
                den > 0,
        ;
    }
    assert(is_nearest_unbounded(b, num, den));
    lemma_clamp(b, num, den);
}

/// That `num / den` is `m * 2^s`, or lies strictly between that and `(m + 1) * 2^s` when bits
/// were dropped below `m`.
pub open spec fn scaled(m: int, s: int, sticky: bool, num: int, den: int) -> bool {
    let p = pow2((if s >= 0 { s } else { 0 }) as nat) as int;
    let q = pow2((if s >= 0 { 0 } else { -s }) as nat) as int;
    if sticky {
        m * (p * den) < num * q < (m + 1) * (p * den)
    } else {
        num * q == m * (p * den)
    }
}

/// `scaled`, with the exponent split into what the result carries and what is rounded off.
proof fn lemma_split_exponent(m: int, u: int, d: int, sticky: bool, num: int, den: int)
    requires
        den > 0,
        u >= 0,
        d >= 0,
        scaled(m, u - d, sticky, num, den),
    ensures
        ({
            let n = num * pow2(d as nat);
            let c = pow2(u as nat) * den;
            if sticky {
                m * c < n < (m + 1) * c
            } else {
                n == m * c
            }
        }),
{
    let s = u - d;
    let p = pow2((if s >= 0 { s } else { 0 }) as nat) as int;
    let q = pow2((if s >= 0 { 0 } else { -s }) as nat) as int;
    let pu = pow2(u as nat) as int;
    let pd = pow2(d as nat) as int;
    lemma_pow2_pos(u as nat);
    lemma_pow2_pos(d as nat);
    lemma2_to64();
    // A common factor turns `p / q` into `pu / pd`.
    let f = if s >= 0 { pd } else { pu };
    if s >= 0 {
        lemma_pow2_adds(s as nat, d as nat);
        assert(p * f == pu && q * f == pd) by (nonlinear_arith)
            requires
                f == pd,
                pu == p * pd,
                q == 1,
        ;
    } else {
        lemma_pow2_adds(u as nat, (-s) as nat);
        assert(p * f == pu && q * f == pd) by (nonlinear_arith)
            requires
                f == pu,
                pd == pu * q,
                p == 1,
        ;
    }
    assert((num * q) * f == num * pd && (m * (p * den)) * f == m * (pu * den) && ((m + 1) * (p
        * den)) * f == (m + 1) * (pu * den)) by (nonlinear_arith)
        requires
            p * f == pu,
            q * f == pd,
    ;
    let x = m * (p * den);
    let y = num * q;
    let z = (m + 1) * (p * den);
    if sticky {
        assert(x * f < y * f < z * f) by (nonlinear_arith)
            requires
                x < y < z,
                f > 0,
        ;
    }
}

/// Rounding half to even picks the nearest magnitude.
proof fn lemma_rounded(u: int, d: int, q: int, r: int, sticky: bool, up: bool, num: int, den: int)
    requires
        den > 0,
        u >= 0,
        d >= 1,
        0 <= q < 0x100_0000,
        u == 0 || q >= 0x80_0000,
        0 <= r < pow2(d as nat),
        scaled(q * pow2(d as nat) + r, u - d, sticky, num, den),
        up == (r > pow2((d - 1) as nat) || (r == pow2((d - 1) as nat) && (sticky || q % 2 == 1))),
    ensures
        ({
            let b = u * 0x80_0000 + q + (if up { 1int } else { 0 });
            super::is_nearest(if b < INFINITY { b } else { INFINITY as int }, num, den)
        }),
{
    let m = q * pow2(d as nat) + r;
    lemma_split_exponent(m, u, d, sticky, num, den);
    let pu = pow2(u as nat) as int;
    let pd = pow2(d as nat) as int;
    let h = pow2((d - 1) as nat) as int;
    let c = pu * den;
    let n = num * pd;
    lemma_pow2_pos(u as nat);
    lemma_pow2_pos(d as nat);
    lemma_pow2_unfold(d as nat);
    assert(c > 0) by (nonlinear_arith)
        requires
            c == pu * den,
            pu > 0,
            den > 0,
    ;
    let b = u * 0x80_0000 + q + (if up { 1int } else { 0 });
    lemma_form(u, q);
    lemma_form(u, q + 1);
    let mid = (2 * q + 1) * c;
    assert((q * pu + (q + 1) * pu) * den == mid) by (nonlinear_arith)
        requires
            mid == (2 * q + 1) * (pu * den),
    ;
    if up {
        lemma_step(b);
        assert(mid < 2 * num || (mid == 2 * num && !sticky && r == h)) by (nonlinear_arith)
            requires
                n == num * pd,
                m == q * pd + r,
                pd == 2 * h,
                pd > 0,
                c > 0,
                mid == (2 * q + 1) * c,
                r >= h,
                if sticky {
                    m * c < n
                } else {
                    n == m * c
                },
        ;
        let x = super::magnitude(b) + super::magnitude(b + 1);
        assert(2 * num < x * den) by (nonlinear_arith)
            requires
                n == num * pd,
                m == q * pd + r,
                r < pd,
                pd > 0,
                c == pu * den,
                c > 0,
                den > 0,
                x > 2 * ((q + 1) * pu),
                if sticky {
                    n < (m + 1) * c
                } else {
                    n == m * c
                },
        {
            assert(n <= (q * pd + pd) * c);
            assert(num <= (q + 1) * c);
            assert(2 * ((q + 1) * pu) * den == 2 * ((q + 1) * c));
            assert(x * den > 2 * ((q + 1) * pu) * den);
        }
    } else {
        assert(2 * num < mid || (mid == 2 * num && !sticky && r == h)) by (nonlinear_arith)
            requires
                n == num * pd,
                m == q * pd + r,
                pd == 2 * h,
                pd > 0,
                c > 0,
                mid == (2 * q + 1) * c,
                r <= h,
                sticky ==> r < h,
                if sticky {
                    n < (m + 1) * c
                } else {
                    n == m * c
                },
        ;
        if b > 0 {
            lemma_step(b - 1);
            let x = super::magnitude(b - 1) + super::magnitude(b);
            assert(x * den < 2 * num) by (nonlinear_arith)
                requires
                    n == num * pd,
                    m == q * pd + r,
                    r >= 0,
                    pd > 0,
                    c == pu * den,
                    c > 0,
                    den > 0,
                    x < 2 * (q * pu),
                    n >= m * c,
            {
                assert(n >= (q * pd) * c);
                assert(num >= q * c);
                assert(2 * (q * pu) * den == 2 * (q * c));
                assert(x * den < 2 * (q * pu) * den);
            }
        }
    }
    assert(is_nearest_unbounded(b, num, den));
    lemma_clamp(b, num, den);
}

/// The number of bits of `m`.
pub fn bit_length(m: u64) -> (n: u32)
    ensures
        n <= 64,
        m < pow2(n as nat),
        m > 0 ==> n > 0 && pow2((n - 1) as nat) <= m,
        m == 0 ==> n == 0,
{
    let z: u32 = m.leading_zeros();
    proof {
        axiom_u64_leading_zeros(m);
        lemma2_to64();
        if z < 64 {
            let top: u64 = (63 - z) as u64;
            lemma_u64_shr_is_div(m, top);
            lemma_pow2_pos(top as nat);
            let p = pow2(top as nat);
            assert(m >> top != 0) by {
                if m >> top == 0 {
                    assert(0u64 & 1u64 == 0u64) by (bit_vector);
                }
            }
            assert(m as nat / p >= 1);
            assert(m >= p) by (nonlinear_arith)
                requires
                    m as nat / p >= 1,
                    p > 0,
            ;
            if z > 0 {
                let over: u64 = (64 - z) as u64;
                lemma_u64_shr_is_div(m, over);
                lemma_pow2_pos(over as nat);
                let q = pow2(over as nat);
                assert(m < q) by (nonlinear_arith)
                    requires
                        m as nat / q == 0,
                        q > 0,
                ;
            }
        }
    }
    64 - z
}

proof fn lemma_no_bits(s: int, num: int, den: int)
    requires
        scaled(0, s, false, num, den),
    ensures
        num == 0,
{
    let q = pow2((if s >= 0 { 0 } else { -s }) as nat) as int;
    let p = pow2((if s >= 0 { s } else { 0 }) as nat) as int;
    lemma_pow2_pos((if s >= 0 { 0 } else { -s }) as nat);
    assert(num == 0) by (nonlinear_arith)
        requires
            num * q == 0 * (p * den),
            q > 0,
    ;
}

/// A significand of `n` bits shifted up by `e` has `n + e` bits.
proof fn lemma_shift_up(m: int, n: int, e: int)
    requires
        n >= 1,
        e >= 0,
        n + e <= 24,
        pow2((n - 1) as nat) <= m < pow2(n as nat),
    ensures
        0 < m * pow2(e as nat) < 0x100_0000,
        n + e == 24 ==> m * pow2(e as nat) >= 0x80_0000,
{
    lemma2_to64();
    lemma_pow2_adds((n - 1) as nat, e as nat);
    lemma_pow2_adds(n as nat, e as nat);
    lemma_pow2_pos((n - 1) as nat);
    lemma_pow2_pos(e as nat);
    let lo = pow2((n - 1) as nat) as int;
    let hi = pow2(n as nat) as int;
    let pe = pow2(e as nat) as int;
    assert(0 < lo * pe <= m * pe < hi * pe) by (nonlinear_arith)
        requires
            0 < lo <= m < hi,
            pe > 0,
    ;
    if n + e < 24 {
        lemma_pow2_strictly_increases((n + e) as nat, 24);
    }
}

/// A significand of `n` bits shifted down by `d` keeps the `n - d` bits on top.
proof fn lemma_shift_down(m: int, n: int, d: int, q: int)
    requires
        n >= 1,
        d >= 1,
        n - d <= 24,
        pow2((n - 1) as nat) <= m < pow2(n as nat),
        q == m / pow2(d as nat) as int,
    ensures
        0 <= q < 0x100_0000,
        n - d == 24 ==> q >= 0x80_0000,
        0 <= m - q * pow2(d as nat) < pow2(d as nat),
{
    lemma2_to64();
    let pd = pow2(d as nat) as int;
    lemma_pow2_pos(d as nat);
    lemma_pow2_adds(24, d as nat);
    lemma_pow2_adds(23, d as nat);
    assert(m == pd * q + m % pd && 0 <= m % pd < pd) by (nonlinear_arith)
        requires
            q == m / pd,
            pd > 0,
    ;
    assert(pd * q == q * pd) by (nonlinear_arith);
    if n < 24 + d {
        lemma_pow2_strictly_increases(n as nat, (24 + d) as nat);
    }
    assert(q < 0x100_0000 && q >= 0) by (nonlinear_arith)
        requires
            m == pd * q + m % pd,
            0 <= m % pd < pd,
            0 <= m < 0x100_0000 * pd,
            pd > 0,
    ;
    if n - d == 24 {
        assert(q >= 0x80_0000) by (nonlinear_arith)
            requires
                m == pd * q + m % pd,
                0 <= m % pd < pd,
                m >= 0x80_0000 * pd,
                pd > 0,
        ;
    }
}

/// The magnitude pattern nearest to `m * 2^s` units, or to a number just above it when
/// `sticky` tells of dropped bits.
pub(super) fn round_pack(
    m: u64,
    s: i32,
    sticky: bool,
    Ghost(num): Ghost<int>,
    Ghost(den): Ghost<int>,
) -> (b: u32)
    requires
        den > 0,
        -400 <= s <= 400,
        m < 0x8000_0000_0000_0000 || s >= 0,
        sticky ==> m >= 0x200_0000,
        scaled(m as int, s as int, sticky, num, den),
    ensures
        super::is_nearest(b as int, num, den),
{
    if m == 0 {
        proof {
            lemma_no_bits(s as int, num, den);
            lemma_form(0, 0);
            lemma2_to64();
            lemma_exact(0, num, den);
        }
        return 0;
    }
    let n: i32 = bit_length(m) as i32;
    let t: i32 = n + s;
    let u: i32 = if t > 24 {
        t - 24
    } else {
        0
    };
    let d: i32 = u - s;
    proof {
        lemma2_to64();
        if sticky && n < 25 {
            lemma_pow2_strictly_increases(n as nat, 25);
        }
    }
    let packed: u64;
    if d <= 0 {
        let e: u64 = (-d) as u64;
        proof {
            lemma_shift_up(m as int, n as int, e as int);
            lemma_pow2_adds(e as nat, u as nat);
            let pe = pow2(e as nat) as int;
            let pu = pow2(u as nat) as int;
            assert(num == ((m * pe) * pu) * den) by (nonlinear_arith)
                requires
                    num * 1 == m * ((pe * pu) * den),
            ;
            lemma_form(u as int, m * pe);
            lemma_exact(u * 0x80_0000 + m * pe, num, den);
            lemma_u64_shl_is_mul(m, e);
        }
        packed = u as u64 * 0x80_0000 + (m << e);
    } else if d >= 64 {
        proof {
            lemma2_to64_rest();
            if d > 64 {
                lemma_pow2_strictly_increases(64, d as nat);
                lemma_pow2_strictly_increases(63, (d - 1) as nat);
            }
            assert(0 * pow2(d as nat) + m == m);
            lemma_rounded(u as int, d as int, 0, m as int, sticky, false, num, den);
        }
        packed = 0;
    } else {
        let e: u64 = d as u64;
        let q: u64 = m >> e;
        let ghost pe = pow2(e as nat) as int;
        proof {
            lemma_u64_shr_is_div(m, e);
            lemma_shift_down(m as int, n as int, d as int, q as int);
            lemma_u64_shl_is_mul(q, e);
            lemma_u64_pow2_no_overflow((e - 1) as nat);
            lemma_u64_shl_is_mul(1, (e - 1) as u64);
        }
        let low: u64 = m - (q << e);
        let half: u64 = 1u64 << (e - 1);
        let up: bool = low > half || (low == half && (sticky || q % 2 == 1));
        proof {
            assert(q * pow2(d as nat) + low == m);
            lemma_rounded(u as int, d as int, q as int, low as int, sticky, up, num, den);
        }
        packed = u as u64 * 0x80_0000 + q + if up {
            1
        } else {
            0
        };
    }
    if packed < INFINITY as u64 {
        packed as u32
    } else {
        INFINITY
    }
}

} // verus!
