//! Linear light: the transfer between channel bytes and linear values.

use vstd::prelude::*;
use vstd::arithmetic::power2::*;

use crate::float;
use crate::float::facts;
use crate::float::round;
use crate::float::{F32, ONE};

use super::LedColor;

verus! {

/// A colour in linear light.
#[derive(Clone, Copy, Debug, PartialEq, Eq, Structural)]
pub struct Linear {
    pub r: F32,
    pub g: F32,
    pub b: F32,
}

/// Whether a number lies between zero and one.
pub open spec fn is_light(x: F32) -> bool {
    x.finite() && !x.negative() && x.mag() <= float::unit()
}

/// The transfer function, as tables: the linear value of every byte, and for every byte the
/// least linear value that encodes to it or to one above it.
#[derive(Clone, Debug)]
pub struct TransferTables {
    decode: Vec<F32>,
    floors: Vec<F32>,
}

/// The bit pattern of 1 + 9/2048, by which the linear value of a byte and the floors around it
/// differ at least.
pub const MARGIN: u32 = 0x3F80_9000;

/// The bit pattern of 2^-50, which the floor of the first byte above black is at least.
pub const LEAST_FLOOR: u32 = 0x2680_0000;

/// Whether two tables describe one transfer function: there is an entry for every byte, black is
/// zero and white at most one, and the linear value of a byte lies between its own floor and the
/// next one, clear of both.
pub open spec fn consistent(decode: Seq<F32>, floors: Seq<F32>) -> bool {
    &&& decode.len() == 256
    &&& floors.len() == 256
    &&& decode[0] == (F32 { bits: 0 })
    &&& float::less_eq(decode[255], F32 { bits: ONE })
    &&& float::less_eq(F32 { bits: LEAST_FLOOR }, floors[1])
    &&& forall|i: int|
        1 <= i < 256 ==> float::less_eq(
            float::product(#[trigger] floors[i], F32 { bits: MARGIN }),
            decode[i],
        )
    &&& forall|i: int|
        1 <= i < 255 ==> float::less_eq(
            float::product(#[trigger] decode[i], F32 { bits: MARGIN }),
            floors[i + 1],
        )
}

/// The largest byte not above `n` whose floor `x` reaches, or zero.
pub open spec fn level(floors: Seq<F32>, x: F32, n: int) -> int
    decreases n,
{
    if n <= 0 {
        0
    } else if float::less_eq(floors[n], x) {
        n
    } else {
        level(floors, x, n - 1)
    }
}

/// The largest byte not above `n` the square of whose floor `x` reaches, or zero.
pub open spec fn square_level(floors: Seq<F32>, x: F32, n: int) -> int
    decreases n,
{
    if n <= 0 {
        0
    } else if float::less_eq(float::product(floors[n], floors[n]), x) {
        n
    } else {
        square_level(floors, x, n - 1)
    }
}

impl TransferTables {
    /// The linear value of every byte.
    pub closed spec fn decode_table(self) -> Seq<F32> {
        self.decode@
    }

    /// The floor of every byte.
    pub closed spec fn floor_table(self) -> Seq<F32> {
        self.floors@
    }

    /// Whether the tables describe one transfer function.
    pub open spec fn valid(self) -> bool {
        consistent(self.decode_table(), self.floor_table())
    }

    /// The linear light of a colour.
    pub open spec fn linear(self, c: LedColor) -> Linear {
        Linear {
            r: self.decode_table()[c.r as int],
            g: self.decode_table()[c.g as int],
            b: self.decode_table()[c.b as int],
        }
    }

    /// The byte that a linear value encodes to.
    pub open spec fn byte(self, x: F32) -> u8 {
        level(self.floor_table(), x, 255) as u8
    }

    /// The byte that the root of a linear value encodes to.
    pub open spec fn root_byte(self, x: F32) -> u8 {
        square_level(self.floor_table(), x, 255) as u8
    }

    /// Takes the two tables, if they describe one transfer function.
    pub fn from_tables(decode: Vec<F32>, floors: Vec<F32>) -> (r: Option<TransferTables>)
        ensures
            r is Some <==> consistent(decode@, floors@),
            r matches Some(t) ==> t.decode_table() == decode@ && t.floor_table() == floors@
                && t.valid(),
    {
        if decode.len() != 256 || floors.len() != 256 {
            return None;
        }
        let margin: F32 = F32 { bits: MARGIN };
        if decode[0].bits != 0 || !decode[255].le(F32 { bits: ONE }) || !(F32 {
            bits: LEAST_FLOOR,
        }).le(floors[1]) {
            return None;
        }
        let mut i: usize = 1;
        while i < 256
            invariant
                1 <= i <= 256,
                margin == (F32 { bits: MARGIN }),
                decode@.len() == 256,
                floors@.len() == 256,
                forall|j: int|
                    1 <= j < i ==> float::less_eq(
                        float::product(#[trigger] floors@[j], F32 { bits: MARGIN }),
                        decode@[j],
                    ),
                forall|j: int|
                    1 <= j < i && j < 255 ==> float::less_eq(
                        float::product(#[trigger] decode@[j], F32 { bits: MARGIN }),
                        floors@[j + 1],
                    ),
            decreases 256 - i,
        {
            if !floors[i].times(margin).le(decode[i]) {
                return None;
            }
            if i < 255 && !decode[i].times(margin).le(floors[i + 1]) {
                return None;
            }
            i += 1;
        }
        Some(TransferTables { decode, floors })
    }

    /// The linear value of every byte.
    pub fn decoded(&self) -> (values: &Vec<F32>)
        ensures
            values@ == self.decode_table(),
    {
        &self.decode
    }

    /// The linear light of a colour.
    pub fn decode_color(&self, c: LedColor) -> (l: Linear)
        requires
            self.valid(),
        ensures
            l == self.linear(c),
    {
        Linear {
            r: self.decode[c.r as usize],
            g: self.decode[c.g as usize],
            b: self.decode[c.b as usize],
        }
    }

    /// The byte that a linear value encodes to.
    pub fn encode(&self, x: F32) -> (r: u8)
        requires
            self.valid(),
        ensures
            r == self.byte(x),
    {
        let mut n: u8 = 255;
        while n > 0
            invariant
                self.valid(),
                level(self.floor_table(), x, n as int) == level(self.floor_table(), x, 255),
            decreases n,
        {
            if self.floors[n as usize].le(x) {
                return n;
            }
            n = n - 1;
        }
        0
    }

    /// The byte that the root of a linear value encodes to.
    pub fn encode_root(&self, x: F32) -> (r: u8)
        requires
            self.valid(),
        ensures
            r == self.root_byte(x),
    {
        let mut n: u8 = 255;
        while n > 0
            invariant
                self.valid(),
                square_level(self.floor_table(), x, n as int) == square_level(
                    self.floor_table(),
                    x,
                    255,
                ),
            decreases n,
        {
            let f: F32 = self.floors[n as usize];
            if f.times(f).le(x) {
                return n;
            }
            n = n - 1;
        }
        0
    }
}

/// The number with the pattern [`MARGIN`] is 2057/2048.
proof fn lemma_margin()
    ensures
        2048 * (F32 { bits: MARGIN }).mag() == 2057 * float::unit(),
{
    lemma2_to64();
    round::lemma_form(126, 0x80_9000);
    lemma_pow2_adds(23, 126);
    let p = pow2(126) as int;
    assert(2048 * (0x80_9000 * p) == 2057 * (0x80_0000 * p)) by (nonlinear_arith);
}

/// The number with the pattern [`LEAST_FLOOR`] is 2^-50.
proof fn lemma_least_floor()
    ensures
        (F32 { bits: LEAST_FLOOR }).value() == pow2(99),
{
    lemma2_to64();
    round::lemma_form(76, 0x80_0000);
    lemma_pow2_adds(23, 76);
}

/// A number times the margin is not smaller.
proof fn lemma_not_narrowed(a: F32)
    requires
        !a.nan(),
        !a.negative(),
    ensures
        !float::product(a, F32 { bits: MARGIN }).negative(),
        float::product(a, F32 { bits: MARGIN }).value() >= a.value(),
{
    lemma_margin();
    facts::one_is_unit();
    if a.finite() {
        let m = (F32 { bits: MARGIN }).mag();
        let u = float::unit();
        round::lemma_monotone(0, a.mag_bits());
        assert(a.mag() * u <= a.mag() * m && 0 <= a.mag() * m) by (nonlinear_arith)
            requires
                0 <= a.mag(),
                2048 * m == 2057 * u,
                u > 0,
        ;
        facts::rounding_stays_above(a.mag() * m, u, a.bits);
        facts::nearest_exists(a.mag() * m, u);
        round::lemma_monotone(a.mag_bits(), float::nearest(a.mag() * m, u) as int);
    }
}

/// A number times the margin is larger by about as much.
proof fn lemma_widened(a: F32)
    requires
        a.finite(),
        !a.negative(),
        0x200_0000 <= a.mag() <= float::unit(),
    ensures
        229 * float::product(a, F32 { bits: MARGIN }).value() >= 230 * a.mag(),
{
    lemma_margin();
    facts::one_is_unit();
    let m = (F32 { bits: MARGIN }).mag();
    let u = float::unit();
    let exact = a.mag() * m;
    let d = a.mag() * u;
    assert(2048 * exact == 2057 * d && 0x200_0000 * u <= exact) by (nonlinear_arith)
        requires
            exact == a.mag() * m,
            d == a.mag() * u,
            2048 * m == 2057 * u,
            0x200_0000 <= a.mag(),
            u > 0,
    ;
    facts::product_is_close(a, F32 { bits: MARGIN });
    let w = float::product(a, F32 { bits: MARGIN }).mag();
    let got = w * u;
    assert(229 * got >= 230 * d);
    assert(229 * w >= 230 * a.mag()) by (nonlinear_arith)
        requires
            229 * got >= 230 * d,
            got == w * u,
            d == a.mag() * u,
            u > 0,
    ;
}

/// What a floor is at least, and its byte's linear value after it.
proof fn lemma_from_below(decode: Seq<F32>, floors: Seq<F32>, i: int)
    requires
        consistent(decode, floors),
        1 <= i < 256,
    ensures
        !floors[i].nan(),
        !floors[i].negative(),
        pow2(99) <= floors[i].value() <= decode[i].value(),
        !decode[i].nan(),
        !decode[i].negative(),
    decreases i,
{
    lemma_least_floor();
    lemma_pow2_pos(99);
    round::lemma_monotone(0, floors[i].mag_bits());
    round::lemma_monotone(0, decode[i].mag_bits());
    if i > 1 {
        lemma_from_below(decode, floors, i - 1);
        assert(float::less_eq(
            float::product(decode[i - 1], F32 { bits: MARGIN }),
            floors[i - 1 + 1],
        ));
        lemma_not_narrowed(decode[i - 1]);
    }
    assert(float::less_eq(float::product(floors[i], F32 { bits: MARGIN }), decode[i]));
    lemma_not_narrowed(floors[i]);
}

/// What the linear value of a byte is at most.
proof fn lemma_from_above(decode: Seq<F32>, floors: Seq<F32>, i: int)
    requires
        consistent(decode, floors),
        1 <= i < 256,
    ensures
        decode[i].value() <= float::unit(),
    decreases 256 - i,
{
    facts::one_is_unit();
    if i < 255 {
        lemma_from_above(decode, floors, i + 1);
        lemma_from_below(decode, floors, i + 1);
        lemma_from_below(decode, floors, i);
        assert(float::less_eq(float::product(decode[i], F32 { bits: MARGIN }), floors[i + 1]));
        lemma_not_narrowed(decode[i]);
    }
}

/// A pattern of a number up to one is finite.
proof fn lemma_finite(a: F32)
    requires
        !a.negative(),
        a.value() <= float::unit(),
    ensures
        a.finite(),
{
    facts::one_is_unit();
    if !a.finite() {
        round::lemma_monotone(ONE as int, a.mag_bits());
    }
}

/// The linear value of a byte is clear of the floors around it.
pub proof fn lemma_clear(decode: Seq<F32>, floors: Seq<F32>, i: int)
    requires
        consistent(decode, floors),
        1 <= i < 256,
    ensures
        floors[i].finite(),
        !floors[i].negative(),
        decode[i].finite(),
        !decode[i].negative(),
        pow2(99) <= floors[i].mag(),
        decode[i].mag() <= float::unit(),
        229 * decode[i].mag() >= 230 * floors[i].mag(),
        i < 255 ==> 229 * floors[i + 1].mag() >= 230 * decode[i].mag(),
{
    lemma_from_below(decode, floors, i);
    lemma_from_above(decode, floors, i);
    lemma_finite(floors[i]);
    lemma_finite(decode[i]);
    lemma2_to64();
    lemma_pow2_strictly_increases(25, 99);
    lemma_widened(floors[i]);
    assert(float::less_eq(float::product(floors[i], F32 { bits: MARGIN }), decode[i]));
    if i < 255 {
        lemma_from_below(decode, floors, i + 1);
        lemma_widened(decode[i]);
        assert(float::less_eq(float::product(decode[i], F32 { bits: MARGIN }), floors[i + 1]));
    }
}

/// The next floors are above the linear value of a byte, and clear of it.
pub proof fn lemma_floors_grow(decode: Seq<F32>, floors: Seq<F32>, i: int, j: int)
    requires
        consistent(decode, floors),
        1 <= i < j < 256,
    ensures
        229 * floors[j].mag() >= 230 * decode[i].mag(),
    decreases j - i,
{
    lemma_clear(decode, floors, i);
    lemma_clear(decode, floors, j);
    if i + 1 < j {
        lemma_floors_grow(decode, floors, i, j - 1);
        lemma_clear(decode, floors, j - 1);
    }
}

/// A value that reaches a byte's floor, and no floor above it, encodes to that byte.
pub proof fn lemma_level(floors: Seq<F32>, x: F32, b: int, n: int)
    requires
        0 <= b <= n,
        b > 0 ==> float::less_eq(floors[b], x),
        forall|j: int| b < j <= n ==> !float::less_eq(#[trigger] floors[j], x),
    ensures
        level(floors, x, n) == b,
    decreases n,
{
    if b < n {
        assert(!float::less_eq(floors[n], x));
        lemma_level(floors, x, b, n - 1);
    }
}

/// Encoding gives back every byte that was decoded.
pub proof fn encode_undoes_decode(t: TransferTables, b: u8)
    requires
        t.valid(),
    ensures
        t.byte(t.decode_table()[b as int]) == b,
{
    facts::zero_is_zero();
    if b > 0 {
        lemma_clear(t.decode_table(), t.floor_table(), b as int);
        lemma_pow2_pos(99);
    }
    lemma_close_values_encode_alike(t, b, t.decode_table()[b as int]);
}

/// A value close to the linear value of a byte encodes to that byte.
pub proof fn lemma_close_values_encode_alike(t: TransferTables, b: u8, x: F32)
    requires
        t.valid(),
        x.finite(),
        !x.negative(),
        231 * (t.decode_table()[b as int].mag() - x.mag()) <= t.decode_table()[b as int].mag(),
        231 * (x.mag() - t.decode_table()[b as int].mag()) <= t.decode_table()[b as int].mag(),
    ensures
        t.byte(x) == b,
{
    let decode = t.decode_table();
    let floors = t.floor_table();
    facts::zero_is_zero();
    lemma_pow2_pos(99);
    assert forall|j: int| b < j <= 255 implies !float::less_eq(#[trigger] floors[j], x) by {
        lemma_clear(decode, floors, j);
        if b > 0 {
            lemma_clear(decode, floors, b as int);
            lemma_floors_grow(decode, floors, b as int, j);
        }
    }
    if b > 0 {
        lemma_clear(decode, floors, b as int);
    }
    lemma_level(floors, x, b as int, 255);
}

/// Whether the value of a byte is 2057/2048 of its floor at least, and at most 2048/2057 of the
/// next floor.
pub open spec fn clear_at(decode: Seq<F32>, floors: Seq<F32>, i: int) -> bool {
    &&& 2057 * floors[i].mag() <= 2048 * decode[i].mag()
    &&& i < 255 ==> 2057 * decode[i].mag() <= 2048 * floors[i + 1].mag()
}

/// Tables are taken where they hold a value and a floor for every byte, black is zero, white is at
/// most one, the first floor is at least 2^-50, and every value is clear of the floors around it.
pub proof fn tables_clear_of_their_floors_are_taken(decode: Seq<F32>, floors: Seq<F32>)
    requires
        decode.len() == 256,
        floors.len() == 256,
        forall|i: int| 0 <= i < 256 ==> #[trigger] is_light(decode[i]),
        forall|i: int| 1 <= i < 256 ==> #[trigger] is_light(floors[i]),
        decode[0] == (F32 { bits: 0 }),
        float::unit() <= pow2(50) * floors[1].mag(),
        forall|i: int| 1 <= i < 256 ==> #[trigger] clear_at(decode, floors, i),
    ensures
        consistent(decode, floors),
{
    let margin = F32 { bits: MARGIN };
    facts::one_is_unit();
    lemma_margin();
    lemma_least_floor();
    lemma_pow2_adds(50, 99);
    lemma_pow2_pos(50);
    let m = floors[1].mag();
    assert(pow2(99) <= m) by (nonlinear_arith)
        requires
            pow2(50) * pow2(99) <= pow2(50) * m,
            pow2(50) > 0,
    ;
    assert(is_light(decode[255]) && is_light(floors[1]));
    assert forall|i: int| 1 <= i < 256 implies float::less_eq(
        float::product(#[trigger] floors[i], margin),
        decode[i],
    ) by {
        assert(clear_at(decode, floors, i) && is_light(floors[i]) && is_light(decode[i]));
        lemma_margin_fits(floors[i], decode[i]);
    }
    assert forall|i: int| 1 <= i < 255 implies float::less_eq(
        float::product(#[trigger] decode[i], margin),
        floors[i + 1],
    ) by {
        assert(clear_at(decode, floors, i) && is_light(decode[i]) && is_light(floors[i + 1]));
        lemma_margin_fits(decode[i], floors[i + 1]);
    }
}

/// A number that is clear of another by the margin stays so when the margin is put on it.
proof fn lemma_margin_fits(a: F32, b: F32)
    requires
        is_light(a),
        is_light(b),
        2057 * a.mag() <= 2048 * b.mag(),
    ensures
        float::less_eq(float::product(a, F32 { bits: MARGIN }), b),
{
    let u = float::unit();
    let g = (F32 { bits: MARGIN }).mag();
    lemma_margin();
    facts::one_is_unit();
    round::lemma_monotone(0, a.mag_bits());
    let (x, y) = (a.mag(), b.mag());
    let num = x * g;
    assert(0 <= num && num <= y * u) by (nonlinear_arith)
        requires
            num == x * g,
            2048 * g == 2057 * u,
            2057 * x <= 2048 * y,
            x >= 0,
            u > 0,
    {
        assert(g >= 0);
        assert(2048 * num == x * (2048 * g));
        assert(x * (2057 * u) == (2057 * x) * u);
        assert((2057 * x) * u <= (2048 * y) * u);
        assert((2048 * y) * u == 2048 * (y * u));
    }
    facts::rounding_stays_below(num, u, b.bits);
    let p = float::product(a, F32 { bits: MARGIN });
    assert(p.bits == float::nearest(num, u));
    round::lemma_monotone(p.bits as int, b.bits as int);
}

} // verus!
