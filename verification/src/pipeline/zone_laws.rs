//! What is read of a frame: which bytes make a pixel, which pixels a zone has, and where a zone
//! lies.

use vstd::prelude::*;
use vstd::arithmetic::div_mod::*;
use vstd::arithmetic::power2::*;

use crate::capture::{Frame, PixelFormat};
use crate::config::schema::LedMatrixConfig;
use crate::float;
use crate::float::facts;
use crate::float::order;

use super::zones;
use super::zones::ScaledZone;
use super::LedColor;

verus! {

/// A pixel is read by its format: blue, green, red and a fourth byte for BGRA and BGRx; red,
/// green, blue and a fourth byte for RGBA; a byte, red, green and blue for xRGB. Rows are a stride
/// apart and pixels four bytes.
pub proof fn pixels_are_read_by_their_format(frame: Frame, x: int, y: int, c: LedColor)
    requires
        0 <= x,
        0 <= y,
        y * frame.stride + 4 * x + 4 <= frame.buf@.len(),
        ({
            let at = y * frame.stride + 4 * x;
            match frame.format {
                PixelFormat::Bgra => {
                    &&& frame.buf@[at] == c.b
                    &&& frame.buf@[at + 1] == c.g
                    &&& frame.buf@[at + 2] == c.r
                },
                PixelFormat::Bgrx => {
                    &&& frame.buf@[at] == c.b
                    &&& frame.buf@[at + 1] == c.g
                    &&& frame.buf@[at + 2] == c.r
                },
                PixelFormat::Rgba => {
                    &&& frame.buf@[at] == c.r
                    &&& frame.buf@[at + 1] == c.g
                    &&& frame.buf@[at + 2] == c.b
                },
                PixelFormat::Xrgb => {
                    &&& frame.buf@[at + 1] == c.r
                    &&& frame.buf@[at + 2] == c.g
                    &&& frame.buf@[at + 3] == c.b
                },
            }
        }),
    ensures
        zones::pixel(frame, x, y) == Some(c),
{
    assert(0 <= y * frame.stride) by (nonlinear_arith)
        requires
            0 <= y,
            0 <= frame.stride,
    ;
}

/// A pixel that the buffer does not hold whole is not read.
pub proof fn pixels_past_the_end_are_not_read(frame: Frame, x: int, y: int)
    requires
        y * frame.stride + 4 * x + 4 > frame.buf@.len(),
    ensures
        zones::pixel(frame, x, y) == None::<LedColor>,
{
}

/// How many grid lines there are below `length`, a `step` apart, the first at zero.
pub open spec fn grid_lines(length: int, step: int) -> int {
    (length + step - 1) / step
}

/// The pixels on a zone's sampling grid, row by row from its top left corner.
pub open spec fn grid(frame: Frame, z: ScaledZone, step: int) -> Seq<Option<LedColor>> {
    let cols = grid_lines(z.w as int, step);
    let rows = grid_lines(z.h as int, step);
    Seq::new(
        (cols * rows) as nat,
        |k: int| zones::pixel(frame, z.x + step * (k % cols), z.y + step * (k / cols)),
    )
}

/// What is there of a number of things.
pub open spec fn present(s: Seq<Option<LedColor>>) -> Seq<LedColor> {
    s.filter(|p: Option<LedColor>| p is Some).map_values(|p: Option<LedColor>| p->0)
}

proof fn lemma_present(s: Seq<Option<LedColor>>, p: Option<LedColor>)
    ensures
        present(s.push(p)) == match p {
            Some(c) => present(s).push(c),
            None => present(s),
        },
{
    reveal(Seq::filter);
    assert(s.push(p).drop_last() =~= s);
    assert(present(s.push(p)) =~= match p {
        Some(c) => present(s).push(c),
        None => present(s),
    });
}

proof fn lemma_grid_lines(length: int, step: int)
    requires
        step > 0,
        length > 0,
    ensures
        ({
            let n = grid_lines(length, step);
            &&& n >= 1
            &&& step * (n - 1) < length <= step * n
        }),
{
    let n = grid_lines(length, step);
    assert(n >= 1 && step * (n - 1) < length <= step * n) by (nonlinear_arith)
        requires
            n == (length + step - 1) / step,
            step > 0,
            length > 0,
    {
        assert(step * n <= length + step - 1);
        assert(length + step - 1 < step * n + step);
    }
}

/// What was sampled before the grid point in column `i` and row `j`.
proof fn lemma_up_to(frame: Frame, z: ScaledZone, step: int, i: int, j: int)
    requires
        step > 0,
        z.w > 0,
        z.h > 0,
        0 <= i <= grid_lines(z.w as int, step),
        0 <= j < grid_lines(z.h as int, step),
    ensures
        ({
            let cols = grid_lines(z.w as int, step);
            let dx = if step * i < z.w {
                step * i
            } else {
                z.w as int
            };
            &&& 0 <= cols * j + i <= grid(frame, z, step).len()
            &&& zones::samples_before(frame, z, step, dx, step * j) == present(
                grid(frame, z, step).take(cols * j + i),
            )
        }),
    decreases j, i,
{
    let cols = grid_lines(z.w as int, step);
    let rows = grid_lines(z.h as int, step);
    let all = grid(frame, z, step);
    lemma_grid_lines(z.w as int, step);
    lemma_grid_lines(z.h as int, step);
    assert(0 <= cols * j && cols * j + cols <= cols * rows && 0 <= cols * rows && step * j <= step
        * (rows - 1)) by (nonlinear_arith)
        requires
            cols >= 1,
            0 <= j < rows,
            step > 0,
    ;
    assert((step * j) % step == 0) by {
        lemma_mod_multiples_basic(j, step);
        assert(step * j == j * step) by (nonlinear_arith);
    }
    if i > 0 {
        lemma_up_to(frame, z, step, i - 1, j);
        let k = cols * j + i - 1;
        let dx = step * (i - 1);
        assert(step * i == dx + step && 0 <= dx <= step * (cols - 1)) by (nonlinear_arith)
            requires
                dx == step * (i - 1),
                1 <= i <= cols,
                step > 0,
        ;
        assert(dx % step == 0) by {
            lemma_mod_multiples_basic(i - 1, step);
            assert(dx == (i - 1) * step) by (nonlinear_arith)
                requires
                    dx == step * (i - 1),
            ;
        }
        zones::lemma_column(
            frame,
            z,
            step,
            dx,
            step * j,
            if dx + step < z.w {
                dx + step
            } else {
                z.w as int
            },
        );
        lemma_fundamental_div_mod_converse(k, cols, j, i - 1);
        assert(all[k] == zones::pixel(frame, z.x + dx, z.y + step * j));
        assert(all.take(k + 1) =~= all.take(k).push(all[k]));
        lemma_present(all.take(k), all[k]);
    } else if j > 0 {
        lemma_up_to(frame, z, step, cols, j - 1);
        let dy = step * (j - 1);
        assert(step * j == dy + step && 0 <= dy && cols * (j - 1) + cols == cols * j)
            by (nonlinear_arith)
            requires
                dy == step * (j - 1),
                j >= 1,
                step > 0,
        ;
        assert(dy % step == 0) by {
            lemma_mod_multiples_basic(j - 1, step);
            assert(dy == (j - 1) * step) by (nonlinear_arith)
                requires
                    dy == step * (j - 1),
            ;
        }
        zones::lemma_row(frame, z, step, dy, dy + step);
        assert(step * 0 == 0);
    } else {
        assert(step * 0 == 0 && cols * 0 == 0);
        reveal(Seq::filter);
        assert(all.take(0) =~= Seq::<Option<LedColor>>::empty());
        assert(present(all.take(0)) =~= Seq::<LedColor>::empty());
    }
}

/// A zone's samples are the pixels on its grid, every `step`-th in both directions from the top
/// left corner, row by row; those that the buffer does not hold are left out.
pub proof fn samples_are_the_pixels_on_the_grid(frame: Frame, z: ScaledZone, step: int)
    requires
        step > 0,
    ensures
        zones::samples(frame, z, step) == present(grid(frame, z, step)),
{
    let cols = grid_lines(z.w as int, step);
    let rows = grid_lines(z.h as int, step);
    let all = grid(frame, z, step);
    if z.w == 0 || z.h == 0 {
        zones::lemma_empty_zone(frame, z, step, z.h as int);
        lemma_small_mod((step - 1) as nat, step as nat);
        lemma_basic_div(step - 1, step);
        assert(cols * rows == 0) by (nonlinear_arith)
            requires
                cols == 0 || rows == 0,
        ;
        reveal(Seq::filter);
        assert(all =~= Seq::<Option<LedColor>>::empty());
        assert(present(all) =~= Seq::<LedColor>::empty());
    } else {
        lemma_grid_lines(z.w as int, step);
        lemma_grid_lines(z.h as int, step);
        lemma_up_to(frame, z, step, cols, rows - 1);
        let dy = step * (rows - 1);
        assert(dy + step == step * rows && 0 <= dy && cols * (rows - 1) + cols == cols * rows)
            by (nonlinear_arith)
            requires
                dy == step * (rows - 1),
                rows >= 1,
                step > 0,
        ;
        assert(dy % step == 0) by {
            lemma_mod_multiples_basic(rows - 1, step);
            assert(dy == (rows - 1) * step) by (nonlinear_arith)
                requires
                    dy == step * (rows - 1),
            ;
        }
        zones::lemma_row(frame, z, step, dy, z.h as int);
        assert(all.take(cols * rows) =~= all);
    }
}

/// What a reference size counts as: one, if it is zero.
pub open spec fn counted(reference: u32) -> int {
    if reference == 0 {
        1
    } else {
        reference as int
    }
}

/// Whether `v` is `n` reference pixels in pixels of a frame that is `size` long: `n` times `size`
/// over the reference, up to 33/64 of a pixel.
pub open spec fn is_scaled(v: int, n: u32, size: u32, reference: u32) -> bool {
    let d = counted(reference);
    &&& 64 * (v * d - n * size) <= 33 * d
    &&& 64 * (n * size - v * d) <= 33 * d
}

/// Whether a length is in reach: no side above 65536 pixels, before or after scaling.
pub open spec fn in_reach(n: u32, size: u32, reference: u32) -> bool {
    &&& n <= 0x1_0000
    &&& size <= 0x1_0000
    &&& reference <= 0x1_0000
    &&& n * size <= 0x1_0000 * counted(reference)
}

/// The factor from reference pixels to frame pixels.
proof fn lemma_factor(size: u32, reference: u32)
    requires
        1 <= size <= 0x1_0000,
        reference <= 0x1_0000,
    ensures
        ({
            let s = zones::scale_factor(size, reference);
            let d = counted(reference);
            let u = float::unit();
            &&& s.finite() && !s.negative()
            &&& s.mag() >= 0x400_0000
            &&& 0x100_0000 * (size * u - s.mag() * d) <= s.mag() * d
            &&& 0x100_0000 * (s.mag() * d - size * u) <= s.mag() * d
        }),
{
    let u = float::unit();
    let d = counted(reference);
    facts::one_is_unit();
    facts::small_integers_are_exact(size as int);
    facts::small_integers_are_exact(d);
    lemma2_to64();
    lemma_pow2_adds(16, 149);
    lemma_pow2_adds(16, 133);
    lemma_pow2_adds(27, 106);
    lemma_pow2_pos(106);
    let num = (size * u) * u;
    let den = d * u;
    assert(0 < den && 0 < size * u && 0x200_0000 * den <= num && 0x800_0000 * den <= num && num <= (
    0x1_0000 * u) * den) by (nonlinear_arith)
        requires
            num == (size * u) * u,
            den == d * u,
            1 <= size <= 0x1_0000,
            1 <= d <= 0x1_0000,
            u >= 0x800_0000 * 0x1_0000,
    {
        assert((size * u) * u >= u * u);
        assert(u * u >= (0x800_0000 * 0x1_0000) * u);
        assert(0x800_0000 * (d * u) <= 0x800_0000 * (0x1_0000 * u));
        assert((size * u) * u <= (0x1_0000 * u) * u);
        assert((0x1_0000 * u) * u <= (0x1_0000 * u) * (d * u));
    }
    facts::overshoot(num, den, 143);
    facts::relative_error(num, den);
    let s = zones::scale_factor(size, reference);
    let m = float::magnitude(float::nearest(num, den) as int);
    facts::zero_is_zero();
    let (fx, dx) = (float::from_int(size as int), float::from_int(d));
    assert(!fx.zero() && !dx.zero());
    assert(s == float::rounded(false, fx.mag() * u, dx.mag()));
    assert(s.mag() == m);
    assert(0x100_0000 * (size * u - m * d) <= m * d && 0x100_0000 * (m * d - size * u) <= m * d
        && m >= 0x400_0000) by (nonlinear_arith)
        requires
            0x100_0000 * (num - m * den) <= m * den,
            0x100_0000 * (m * den - num) <= m * den,
            0x800_0000 * den <= num,
            num == (size * u) * u,
            den == d * u,
            u > 0,
            d >= 1,
    {
        let a = size * u;
        let b = m * d;
        assert(m * den == b * u);
        assert((0x100_0000 * (a - b)) * u <= b * u);
        assert((0x100_0000 * (b - a)) * u <= b * u);
        assert(num <= 2 * (m * den));
        assert(0x800_0000 * den <= (2 * m) * den);
    }
}

/// A scaled length.
proof fn lemma_scaled(n: u32, size: u32, reference: u32)
    requires
        in_reach(n, size, reference),
    ensures
        is_scaled(zones::scaled(n, zones::scale_factor(size, reference)), n, size, reference),
        0 <= zones::scaled(n, zones::scale_factor(size, reference)) <= 0x1_0001,
{
    let u = float::unit();
    let d = counted(reference);
    let s = zones::scale_factor(size, reference);
    facts::one_is_unit();
    facts::zero_is_zero();
    facts::small_integers_are_exact(n as int);
    facts::small_integers_are_exact(d);
    if n == 0 || size == 0 {
        facts::zero_converts_to_zero();
        assert(d * u > 0) by (nonlinear_arith)
            requires
                d >= 1,
                u > 0,
        ;
        if size == 0 {
            facts::zero_over_a_number(float::from_int(d));
            facts::product_with_zero(float::from_int(n as int));
        } else {
            lemma_factor(size, reference);
            facts::product_with_zero(s);
        }
        facts::small_integers_round_to_themselves(0, u32::MAX as int);
        assert(n * size == 0) by (nonlinear_arith)
            requires
                n == 0 || size == 0,
        ;
        assert(0 * d == 0);
    } else {
        lemma_factor(size, reference);
        lemma_product(n, size, reference);
    }
}

/// A length times the factor, rounded.
proof fn lemma_product(n: u32, size: u32, reference: u32)
    requires
        in_reach(n, size, reference),
        n > 0,
        size > 0,
        ({
            let s = zones::scale_factor(size, reference);
            let d = counted(reference);
            let u = float::unit();
            &&& s.finite() && !s.negative()
            &&& s.mag() >= 0x400_0000
            &&& 0x100_0000 * (size * u - s.mag() * d) <= s.mag() * d
            &&& 0x100_0000 * (s.mag() * d - size * u) <= s.mag() * d
        }),
    ensures
        is_scaled(zones::scaled(n, zones::scale_factor(size, reference)), n, size, reference),
        0 <= zones::scaled(n, zones::scale_factor(size, reference)) <= 0x1_0001,
{
    let u = float::unit();
    let d = counted(reference);
    let s = zones::scale_factor(size, reference).mag();
    facts::one_is_unit();
    facts::small_integers_are_exact(n as int);
    lemma2_to64();
    lemma_pow2_adds(17, 149);
    let x = (n * size) * u;
    let a = (n * s) * d;
    assert(0x100_0000 * (x - a) <= a && 0x100_0000 * (a - x) <= a && x <= 0x1_0000 * (d * u))
        by (nonlinear_arith)
        requires
            0x100_0000 * (size * u - s * d) <= s * d,
            0x100_0000 * (s * d - size * u) <= s * d,
            x == (n * size) * u,
            a == (n * s) * d,
            n > 0,
            u > 0,
            n * size <= 0x1_0000 * d,
    {
        let e = size * u - s * d;
        assert(x - a == n * e);
        assert(a == n * (s * d));
        assert(n * (0x100_0000 * e) <= n * (s * d));
        assert(n * (0x100_0000 * (-e)) <= n * (s * d));
        assert((n * size) * u <= (0x1_0000 * d) * u);
    }
    let num = (n * u) * s;
    assert(0x200_0000 * u <= num && num == (n * s) * u && n * s <= 0x2_0000 * u) by (nonlinear_arith)
        requires
            num == (n * u) * s,
            n >= 1,
            s >= 0x400_0000,
            u > 0,
            d >= 1,
            a == (n * s) * d,
            0x100_0000 * (a - x) <= a,
            x <= 0x1_0000 * (d * u),
    {
        assert(n * s >= s);
        assert(num == (n * s) * u);
        assert((n * s) * u >= 0x200_0000 * u);
        assert(a >= 0);
        assert(a <= 2 * x);
        assert((n * s) * d <= (0x2_0000 * u) * d);
    }
    assert(num <= (0x2_0000 * u) * u) by (nonlinear_arith)
        requires
            num == (n * s) * u,
            n * s <= 0x2_0000 * u,
            u > 0,
    ;
    facts::overshoot(num, u, 144);
    facts::relative_error(num, u);
    let p = float::product(float::from_int(n as int), zones::scale_factor(size, reference));
    let m = float::magnitude(float::nearest(num, u) as int);
    assert(p.finite() && !p.negative() && p.mag() == m);
    let b = m * d;
    assert(0x100_0000 * (a - b) <= b && 0x100_0000 * (b - a) <= b) by (nonlinear_arith)
        requires
            0x100_0000 * (num - m * u) <= m * u,
            0x100_0000 * (m * u - num) <= m * u,
            num == (n * s) * u,
            a == (n * s) * d,
            b == m * d,
            u > 0,
            d > 0,
    {
        let e = n * s - m;
        assert((0x100_0000 * e) * u <= m * u);
        assert((0x100_0000 * (-e)) * u <= m * u);
        assert(a - b == e * d);
        assert((0x100_0000 * e) * d <= m * d);
        assert((0x100_0000 * (-e)) * d <= m * d);
    }
    let v = float::round_mag(p);
    order::magnitudes_are_not_negative(p);
    lemma_fundamental_div_mod(2 * m + u, 2 * u);
    let du = d * u;
    let vdu = (v * d) * u;
    assert(64 * (x - b) <= du && 64 * (b - x) <= du);
    assert(2 * vdu - 2 * b <= du && 2 * b - 2 * vdu <= du) by (nonlinear_arith)
        requires
            vdu == (v * d) * u,
            b == m * d,
            du == d * u,
            d > 0,
            (2 * u) * v <= 2 * m + u,
            2 * m + u < (2 * u) * v + 2 * u,
    {
        assert(((2 * u) * v) * d <= (2 * m + u) * d);
        assert((2 * m + u) * d <= ((2 * u) * v + 2 * u) * d);
    }
    let vd = v * d;
    let nf = n * size;
    assert(64 * (vd - nf) <= 33 * d && 64 * (nf - vd) <= 33 * d) by (nonlinear_arith)
        requires
            64 * (vd * u - nf * u) <= 33 * (d * u),
            64 * (nf * u - vd * u) <= 33 * (d * u),
            u > 0,
    {
        assert((64 * (vd - nf)) * u <= (33 * d) * u);
        assert((64 * (nf - vd)) * u <= (33 * d) * u);
    }
    assert(0 <= v <= 0x1_0001) by (nonlinear_arith)
        requires
            64 * (vd - nf) <= 33 * d,
            vd == v * d,
            nf <= 0x1_0000 * d,
            d > 0,
            2 * m + u < (2 * u) * v + 2 * u,
            m >= 0,
            u > 0,
    ;
}

/// A zone is scaled to the frame: its corner and its sides by the frame's width over the reference
/// width from left to right, and by the heights from top to bottom. What of it lies beyond the
/// frame's right or bottom edge is cut off, and nothing else.
pub proof fn zones_are_scaled_to_the_frame(frame: Frame, cfg: LedMatrixConfig, i: int) -> (sides: (
    int,
    int,
))
    requires
        0 <= i < cfg.zones@.len(),
        in_reach(cfg.zones@[i].x, frame.width, cfg.reference_width),
        in_reach(cfg.zones@[i].w, frame.width, cfg.reference_width),
        in_reach(cfg.zones@[i].y, frame.height, cfg.reference_height),
        in_reach(cfg.zones@[i].h, frame.height, cfg.reference_height),
    ensures
        ({
            let zone = cfg.zones@[i];
            let z = zones::frame_zone(frame, cfg, i);
            let (w, h) = sides;
            &&& is_scaled(z.x as int, zone.x, frame.width, cfg.reference_width)
            &&& is_scaled(z.y as int, zone.y, frame.height, cfg.reference_height)
            &&& is_scaled(w, zone.w, frame.width, cfg.reference_width)
            &&& is_scaled(h, zone.h, frame.height, cfg.reference_height)
            &&& forall|k: int|
                (z.x <= k < z.x + z.w) <==> (#[trigger] within(z.x as int, w, k) && k < frame.width)
            &&& forall|k: int|
                (z.y <= k < z.y + z.h) <==> (#[trigger] within(z.y as int, h, k) && k
                    < frame.height)
        }),
{
    let zone = cfg.zones@[i];
    lemma_scaled(zone.x, frame.width, cfg.reference_width);
    lemma_scaled(zone.w, frame.width, cfg.reference_width);
    lemma_scaled(zone.y, frame.height, cfg.reference_height);
    lemma_scaled(zone.h, frame.height, cfg.reference_height);
    (
        zones::scaled(zone.w, zones::scale_factor(frame.width, cfg.reference_width)),
        zones::scaled(zone.h, zones::scale_factor(frame.height, cfg.reference_height)),
    )
}

/// Whether a line is one of a number of lines from the first on.
pub open spec fn within(first: int, count: int, k: int) -> bool {
    first <= k < first + count
}

} // verus!
