//! Zone averaging: every frame is reduced to one colour per configured zone.
//!
//! Zones are given against a reference resolution and are rescaled to the frame's own.

use vstd::prelude::*;
use vstd::arithmetic::div_mod::*;

use crate::capture::{Frame, PixelFormat};
use crate::config::schema::{LedMatrixConfig, LedZone};
use crate::float;
use crate::float::F32;

use super::LedColor;

verus! {

/// A zone in frame pixels, cut at the frame's right and bottom edges.
#[derive(Clone, Copy, Debug, PartialEq, Eq, Structural)]
pub struct ScaledZone {
    pub x: u32,
    pub y: u32,
    pub w: u32,
    pub h: u32,
}

/// `n` scaled by `s` and rounded to the nearest integer.
pub open spec fn scaled(n: u32, s: F32) -> int {
    float::round_to(float::product(float::from_int(n as int), s), u32::MAX as int)
}

/// What is left of `length` from `start` to the edge at `limit`.
pub open spec fn cut(start: int, length: int, limit: u32) -> int {
    if start >= limit {
        0
    } else if length > limit - start {
        limit - start
    } else {
        length
    }
}

/// The zone, scaled to the frame and cut at its edges.
pub open spec fn scaled_zone(zone: LedZone, sx: F32, sy: F32, fw: u32, fh: u32) -> ScaledZone {
    ScaledZone {
        x: scaled(zone.x, sx) as u32,
        y: scaled(zone.y, sy) as u32,
        w: cut(scaled(zone.x, sx), scaled(zone.w, sx), fw) as u32,
        h: cut(scaled(zone.y, sy), scaled(zone.h, sy), fh) as u32,
    }
}

/// The factor from reference pixels to frame pixels; a reference of zero counts as one.
pub open spec fn scale_factor(frame: u32, reference: u32) -> F32 {
    float::quotient(
        float::from_int(frame as int),
        float::from_int(if reference == 0 { 1 } else { reference as int }),
    )
}

/// Where red, green and blue stand in a pixel.
pub open spec fn offsets(format: PixelFormat) -> (int, int, int) {
    match format {
        PixelFormat::Bgra | PixelFormat::Bgrx => (2, 1, 0),
        PixelFormat::Rgba => (0, 1, 2),
        PixelFormat::Xrgb => (1, 2, 3),
    }
}

/// The index in the buffer of the pixel in column `x` and row `y`.
pub open spec fn pixel_index(frame: Frame, x: int, y: int) -> int {
    y * frame.stride + 4 * x
}

/// The pixel in column `x` and row `y`, if the buffer holds all of it.
pub open spec fn pixel(frame: Frame, x: int, y: int) -> Option<LedColor> {
    let at = pixel_index(frame, x, y);
    let (r, g, b) = offsets(frame.format);
    if 0 <= at && at + 4 <= frame.buf@.len() {
        Some(LedColor { r: frame.buf@[at + r], g: frame.buf@[at + g], b: frame.buf@[at + b] })
    } else {
        None
    }
}

/// A zone's sampled pixels up to the one at `(dx, dy)`, in reading order. Sampled is every
/// `step`-th pixel in both directions that the buffer holds.
pub open spec fn samples_before(
    frame: Frame,
    z: ScaledZone,
    step: int,
    dx: int,
    dy: int,
) -> Seq<LedColor>
    decreases dy, dx,
{
    if dx > 0 {
        let before = samples_before(frame, z, step, dx - 1, dy);
        match pixel(frame, z.x + dx - 1, z.y + dy) {
            Some(c) => if (dx - 1) % step == 0 && dy % step == 0 {
                before.push(c)
            } else {
                before
            },
            None => before,
        }
    } else if dy > 0 {
        samples_before(frame, z, step, z.w as int, dy - 1)
    } else {
        Seq::empty()
    }
}

/// A zone's sampled pixels, in reading order.
pub open spec fn samples(frame: Frame, z: ScaledZone, step: int) -> Seq<LedColor> {
    samples_before(frame, z, step, 0, z.h as int)
}

/// Channel sums.
pub struct Sums {
    pub r: int,
    pub g: int,
    pub b: int,
}

/// The channel sums over a number of pixels.
pub open spec fn sums(pixels: Seq<LedColor>) -> Sums
    decreases pixels.len(),
{
    if pixels.len() == 0 {
        Sums { r: 0, g: 0, b: 0 }
    } else {
        let rest = sums(pixels.drop_last());
        let c = pixels.last();
        Sums { r: rest.r + c.r, g: rest.g + c.g, b: rest.b + c.b }
    }
}

/// The mean of a number of pixels, channel by channel, cut to integers; black for none.
pub open spec fn mean(pixels: Seq<LedColor>) -> LedColor {
    let n = pixels.len() as int;
    if n == 0 {
        LedColor { r: 0, g: 0, b: 0 }
    } else {
        LedColor {
            r: (sums(pixels).r / n) as u8,
            g: (sums(pixels).g / n) as u8,
            b: (sums(pixels).b / n) as u8,
        }
    }
}

/// The sampling step that a setting asks for.
pub open spec fn sampling_step(subsample: u32) -> int {
    if subsample == 0 {
        1
    } else {
        subsample as int
    }
}

/// The mean colour of one configured zone.
pub open spec fn mean_color(
    frame: Frame,
    cfg: LedMatrixConfig,
    subsample: u32,
    i: int,
) -> LedColor {
    mean(samples(frame, frame_zone(frame, cfg, i), sampling_step(subsample)))
}

/// The configured zone in the frame's pixels.
pub open spec fn frame_zone(frame: Frame, cfg: LedMatrixConfig, i: int) -> ScaledZone {
    scaled_zone(
        cfg.zones@[i],
        scale_factor(frame.width, cfg.reference_width),
        scale_factor(frame.height, cfg.reference_height),
        frame.width,
        frame.height,
    )
}

fn scale(n: u32, s: F32) -> (r: u32)
    ensures
        r == scaled(n, s),
{
    F32::from_u32(n).times(s).rounded_at_most(u32::MAX)
}

/// Scales a zone to a frame and cuts it at the frame's edges.
pub fn scale_zone(
    zone: &LedZone,
    sx: F32,
    sy: F32,
    frame_width: u32,
    frame_height: u32,
) -> (r: ScaledZone)
    ensures
        r == scaled_zone(*zone, sx, sy, frame_width, frame_height),
        r.w > 0 ==> r.x + r.w <= frame_width,
        r.h > 0 ==> r.y + r.h <= frame_height,
{
    let x: u32 = scale(zone.x, sx);
    let y: u32 = scale(zone.y, sy);
    let w_raw: u32 = scale(zone.w, sx);
    let h_raw: u32 = scale(zone.h, sy);
    let w_max: u32 = frame_width.saturating_sub(x);
    let h_max: u32 = frame_height.saturating_sub(y);
    let w: u32 = if w_raw < w_max {
        w_raw
    } else {
        w_max
    };
    let h: u32 = if h_raw < h_max {
        h_raw
    } else {
        h_max
    };
    ScaledZone { x, y, w, h }
}

/// Where red, green and blue stand in a pixel.
fn channel_offsets(format: PixelFormat) -> (r: (usize, usize, usize))
    ensures
        r.0 == offsets(format).0,
        r.1 == offsets(format).1,
        r.2 == offsets(format).2,
{
    match format {
        PixelFormat::Bgra | PixelFormat::Bgrx => (2, 1, 0),
        PixelFormat::Rgba => (0, 1, 2),
        PixelFormat::Xrgb => (1, 2, 3),
    }
}

/// The pixel in column `x` and row `y`, if the buffer holds all of it: a malformed stride must
/// not read past the end.
fn read_pixel(frame: &Frame, x: u32, y: u32) -> (r: Option<LedColor>)
    ensures
        r == pixel(*frame, x as int, y as int),
{
    assert(y * frame.stride <= 0xFFFF_FFFF * 0xFFFF_FFFF) by (nonlinear_arith)
        requires
            y <= 0xFFFF_FFFF,
            frame.stride <= 0xFFFF_FFFF,
    ;
    let at: u128 = y as u128 * frame.stride as u128 + 4 * x as u128;
    let len: usize = frame.buf.len();
    if at + 4 > len as u128 {
        return None;
    }
    let i: usize = at as usize;
    let (r, g, b) = channel_offsets(frame.format);
    Some(LedColor { r: frame.buf[i + r], g: frame.buf[i + g], b: frame.buf[i + b] })
}

/// Columns off the sampling grid add nothing.
proof fn lemma_skip_columns(frame: Frame, z: ScaledZone, step: int, a: int, b: int, dy: int)
    requires
        0 <= a <= b,
        forall|k: int| a <= k < b ==> #[trigger] (k % step) != 0,
    ensures
        samples_before(frame, z, step, a, dy) == samples_before(frame, z, step, b, dy),
    decreases b - a,
{
    if a < b {
        lemma_skip_columns(frame, z, step, a, b - 1, dy);
        assert((b - 1) % step != 0);
    }
}

/// A row off the sampling grid adds nothing, up to any column.
proof fn lemma_skip_row(frame: Frame, z: ScaledZone, step: int, dx: int, dy: int)
    requires
        0 <= dx,
        dy % step != 0,
    ensures
        samples_before(frame, z, step, dx, dy) == samples_before(frame, z, step, 0, dy),
    decreases dx,
{
    if dx > 0 {
        lemma_skip_row(frame, z, step, dx - 1, dy);
    }
}

/// Rows off the sampling grid add nothing.
proof fn lemma_skip_rows(frame: Frame, z: ScaledZone, step: int, a: int, b: int)
    requires
        0 <= a <= b,
        forall|k: int| a <= k < b ==> #[trigger] (k % step) != 0,
    ensures
        samples_before(frame, z, step, 0, a) == samples_before(frame, z, step, 0, b),
    decreases b - a,
{
    if a < b {
        lemma_skip_rows(frame, z, step, a, b - 1);
        assert((b - 1) % step != 0);
        lemma_skip_row(frame, z, step, z.w as int, b - 1);
    }
}

/// Between two grid lines there is none.
proof fn lemma_off_grid(a: int, step: int)
    requires
        step > 0,
        a % step == 0,
    ensures
        (a + step) % step == 0,
        forall|k: int| a + 1 <= k < a + step ==> #[trigger] (k % step) != 0,
{
    lemma_mod_add_multiples_vanish(a, step);
    assert forall|k: int| a + 1 <= k < a + step implies #[trigger] (k % step) != 0 by {
        lemma_fundamental_div_mod(a, step);
        let q = a / step;
        assert(k == q * step + (k - a)) by (nonlinear_arith)
            requires
                a == step * q,
        ;
        lemma_fundamental_div_mod_converse(k, step, q, k - a);
    }
}

/// A step from one sampled column to the next adds the pixel between them.
pub proof fn lemma_column(frame: Frame, z: ScaledZone, step: int, dx: int, dy: int, next: int)
    requires
        step > 0,
        0 <= dx < z.w,
        dx % step == 0,
        dy % step == 0,
        next == if dx + step < z.w { dx + step } else { z.w as int },
    ensures
        (dx + step) % step == 0,
        samples_before(frame, z, step, next, dy) == match pixel(frame, z.x + dx, z.y + dy) {
            Some(c) => samples_before(frame, z, step, dx, dy).push(c),
            None => samples_before(frame, z, step, dx, dy),
        },
{
    lemma_off_grid(dx, step);
    lemma_skip_columns(frame, z, step, dx + 1, next, dy);
}

/// After the last column of a sampled row comes the next sampled row.
pub proof fn lemma_row(frame: Frame, z: ScaledZone, step: int, dy: int, next: int)
    requires
        step > 0,
        0 <= dy < z.h,
        dy % step == 0,
        next == if dy + step < z.h { dy + step } else { z.h as int },
    ensures
        (dy + step) % step == 0,
        samples_before(frame, z, step, 0, next) == samples_before(frame, z, step, z.w as int, dy),
{
    lemma_off_grid(dy, step);
    lemma_skip_rows(frame, z, step, dy + 1, next);
}

/// No more pixels are sampled than were passed.
proof fn lemma_sample_count(frame: Frame, z: ScaledZone, step: int, dx: int, dy: int)
    requires
        0 <= dx <= z.w,
        0 <= dy <= z.h,
    ensures
        samples_before(frame, z, step, dx, dy).len() <= dy * z.w + dx,
        dy * z.w + dx <= 0xFFFF_FFFF * 0xFFFF_FFFF + 0xFFFF_FFFF,
    decreases dy, dx,
{
    assert(dy * z.w <= 0xFFFF_FFFF * 0xFFFF_FFFF) by (nonlinear_arith)
        requires
            0 <= dy <= 0xFFFF_FFFF,
            0 <= z.w <= 0xFFFF_FFFF,
    ;
    if dx > 0 {
        lemma_sample_count(frame, z, step, dx - 1, dy);
    } else if dy > 0 {
        lemma_sample_count(frame, z, step, z.w as int, dy - 1);
        assert((dy - 1) * z.w + z.w == dy * z.w) by (nonlinear_arith);
    }
}

/// Sums stay below 256 for each pixel.
pub proof fn lemma_sum_bounds(pixels: Seq<LedColor>)
    ensures
        0 <= sums(pixels).r <= 255 * pixels.len(),
        0 <= sums(pixels).g <= 255 * pixels.len(),
        0 <= sums(pixels).b <= 255 * pixels.len(),
    decreases pixels.len(),
{
    if pixels.len() > 0 {
        lemma_sum_bounds(pixels.drop_last());
    }
}

/// The mean of a zone's sampled pixels, channel by channel; black where no pixel is in the
/// buffer.
pub fn average_pixels(frame: &Frame, zone: &ScaledZone, step: u32) -> (c: LedColor)
    requires
        step > 0,
        zone.x + zone.w <= u32::MAX + 1,
        zone.y + zone.h <= u32::MAX + 1,
    ensures
        c == mean(samples(*frame, *zone, step as int)),
{
    let mut sum_r: u128 = 0;
    let mut sum_g: u128 = 0;
    let mut sum_b: u128 = 0;
    let mut count: u128 = 0;
    let ghost mut seen: Seq<LedColor> = Seq::empty();
    let mut dy: u64 = 0;
    let ghost mut row: int = 0;
    proof {
        lemma_small_mod(0, step as nat);
    }
    while dy < zone.h as u64
        invariant
            step > 0,
            zone.x + zone.w <= u32::MAX + 1,
            zone.y + zone.h <= u32::MAX + 1,
            dy as int % step as int == 0,
            row == if dy < zone.h { dy as int } else { zone.h as int },
            seen == samples_before(*frame, *zone, step as int, 0, row),
            sum_r == sums(seen).r,
            sum_g == sums(seen).g,
            sum_b == sums(seen).b,
            count == seen.len(),
        decreases zone.h as int + step - dy,
    {
        let y: u32 = zone.y + dy as u32;
        let mut dx: u64 = 0;
        let ghost mut col: int = 0;
        proof {
            lemma_small_mod(0, step as nat);
        }
        while dx < zone.w as u64
            invariant
                step > 0,
                zone.x + zone.w <= u32::MAX + 1,
                zone.y + zone.h <= u32::MAX + 1,
                dy < zone.h,
                dy as int % step as int == 0,
                y == zone.y + dy,
                dx as int % step as int == 0,
                col == if dx < zone.w { dx as int } else { zone.w as int },
                seen == samples_before(*frame, *zone, step as int, col, dy as int),
                sum_r == sums(seen).r,
                sum_g == sums(seen).g,
                sum_b == sums(seen).b,
                count == seen.len(),
            decreases zone.w as int + step - dx,
        {
            proof {
                lemma_sample_count(*frame, *zone, step as int, dx as int, dy as int);
                lemma_sum_bounds(seen);
                let next = if dx + step < zone.w { dx + step } else { zone.w as int };
                lemma_column(*frame, *zone, step as int, dx as int, dy as int, next);
                col = next;
            }
            if let Some(p) = read_pixel(frame, zone.x + dx as u32, y) {
                sum_r = sum_r + p.r as u128;
                sum_g = sum_g + p.g as u128;
                sum_b = sum_b + p.b as u128;
                count = count + 1;
                proof {
                    assert(seen.push(p).drop_last() =~= seen);
                    seen = seen.push(p);
                }
            }
            dx = dx + step as u64;
        }
        proof {
            let next = if dy + step < zone.h { dy + step } else { zone.h as int };
            lemma_row(*frame, *zone, step as int, dy as int, next);
            row = next;
        }
        dy = dy + step as u64;
    }
    if count == 0 {
        return LedColor { r: 0, g: 0, b: 0 };
    }
    proof {
        lemma_sum_bounds(seen);
        lemma_mean_is_a_byte(sums(seen).r, count as int);
        lemma_mean_is_a_byte(sums(seen).g, count as int);
        lemma_mean_is_a_byte(sums(seen).b, count as int);
    }
    LedColor { r: (sum_r / count) as u8, g: (sum_g / count) as u8, b: (sum_b / count) as u8 }
}

/// Puts a zone's sampled pixels into `out`, in reading order.
pub fn collect_samples(frame: &Frame, zone: &ScaledZone, step: u32, out: &mut Vec<LedColor>)
    requires
        step > 0,
        zone.x + zone.w <= u32::MAX + 1,
        zone.y + zone.h <= u32::MAX + 1,
    ensures
        final(out)@ == samples(*frame, *zone, step as int),
{
    out.clear();
    let mut dy: u64 = 0;
    let ghost mut row: int = 0;
    proof {
        lemma_small_mod(0, step as nat);
    }
    while dy < zone.h as u64
        invariant
            step > 0,
            zone.x + zone.w <= u32::MAX + 1,
            zone.y + zone.h <= u32::MAX + 1,
            dy as int % step as int == 0,
            row == if dy < zone.h { dy as int } else { zone.h as int },
            out@ == samples_before(*frame, *zone, step as int, 0, row),
        decreases zone.h as int + step - dy,
    {
        let y: u32 = zone.y + dy as u32;
        let mut dx: u64 = 0;
        let ghost mut col: int = 0;
        proof {
            lemma_small_mod(0, step as nat);
        }
        while dx < zone.w as u64
            invariant
                step > 0,
                zone.x + zone.w <= u32::MAX + 1,
                zone.y + zone.h <= u32::MAX + 1,
                dy < zone.h,
                dy as int % step as int == 0,
                y == zone.y + dy,
                dx as int % step as int == 0,
                col == if dx < zone.w { dx as int } else { zone.w as int },
                out@ == samples_before(*frame, *zone, step as int, col, dy as int),
            decreases zone.w as int + step - dx,
        {
            proof {
                let next = if dx + step < zone.w { dx + step } else { zone.w as int };
                lemma_column(*frame, *zone, step as int, dx as int, dy as int, next);
                col = next;
            }
            if let Some(p) = read_pixel(frame, zone.x + dx as u32, y) {
                out.push(p);
            }
            dx = dx + step as u64;
        }
        proof {
            let next = if dy + step < zone.h { dy + step } else { zone.h as int };
            lemma_row(*frame, *zone, step as int, dy as int, next);
            row = next;
        }
        dy = dy + step as u64;
    }
}

proof fn lemma_mean_is_a_byte(sum: int, count: int)
    requires
        0 <= sum <= 255 * count,
        count > 0,
    ensures
        0 <= sum / count <= 255,
{
    assert(0 <= sum / count <= 255) by (nonlinear_arith)
        requires
            0 <= sum <= 255 * count,
            count > 0,
    ;
}

/// Puts the mean colour of every zone into `out`.
pub fn average_zones(frame: &Frame, cfg: &LedMatrixConfig, subsample: u32, out: &mut Vec<LedColor>)
    requires
        old(out)@.len() == cfg.zones@.len(),
    ensures
        final(out)@ == Seq::new(
            cfg.zones@.len(),
            |i: int| mean_color(*frame, *cfg, subsample, i),
        ),
{
    let step: u32 = if subsample == 0 {
        1
    } else {
        subsample
    };
    let rw: u32 = if cfg.reference_width == 0 {
        1
    } else {
        cfg.reference_width
    };
    let rh: u32 = if cfg.reference_height == 0 {
        1
    } else {
        cfg.reference_height
    };
    let sx: F32 = F32::from_u32(frame.width).over(F32::from_u32(rw));
    let sy: F32 = F32::from_u32(frame.height).over(F32::from_u32(rh));
    let mut i: usize = 0;
    while i < cfg.zones.len()
        invariant
            i <= cfg.zones@.len(),
            out@.len() == cfg.zones@.len(),
            step == sampling_step(subsample),
            sx == scale_factor(frame.width, cfg.reference_width),
            sy == scale_factor(frame.height, cfg.reference_height),
            forall|j: int| 0 <= j < i ==> #[trigger] out@[j] == mean_color(*frame, *cfg, subsample, j),
        decreases cfg.zones@.len() - i,
    {
        let z: ScaledZone = scale_zone(&cfg.zones[i], sx, sy, frame.width, frame.height);
        let c: LedColor;
        if z.w == 0 || z.h == 0 {
            proof {
                lemma_empty_zone(*frame, z, step as int, z.h as int);
            }
            c = LedColor { r: 0, g: 0, b: 0 };
        } else {
            c = average_pixels(frame, &z, step);
        }
        out.set(i, c);
        i += 1;
    }
    assert(out@ =~= Seq::new(cfg.zones@.len(), |j: int| mean_color(*frame, *cfg, subsample, j)));
}

/// An empty zone has no samples.
pub proof fn lemma_empty_zone(frame: Frame, z: ScaledZone, step: int, dy: int)
    requires
        0 <= dy,
        z.w == 0 || dy == 0,
    ensures
        samples_before(frame, z, step, 0, dy) == Seq::<LedColor>::empty(),
    decreases dy,
{
    if dy > 0 {
        lemma_empty_zone(frame, z, step, dy - 1);
    }
}

/// The mean of pixels that all have one colour is that colour.
pub proof fn solid_mean(pixels: Seq<LedColor>, c: LedColor)
    requires
        pixels.len() > 0,
        forall|i: int| 0 <= i < pixels.len() ==> #[trigger] pixels[i] == c,
    ensures
        mean(pixels) == c,
{
    lemma_solid_sums(pixels, c);
    let n = pixels.len() as int;
    lemma_fundamental_div_mod_converse(sums(pixels).r, n, c.r as int, 0);
    lemma_fundamental_div_mod_converse(sums(pixels).g, n, c.g as int, 0);
    lemma_fundamental_div_mod_converse(sums(pixels).b, n, c.b as int, 0);
}

proof fn lemma_solid_sums(pixels: Seq<LedColor>, c: LedColor)
    requires
        forall|i: int| 0 <= i < pixels.len() ==> #[trigger] pixels[i] == c,
    ensures
        sums(pixels) == (Sums {
            r: c.r * pixels.len(),
            g: c.g * pixels.len(),
            b: c.b * pixels.len(),
        }),
    decreases pixels.len(),
{
    let n = pixels.len() as int;
    if n > 0 {
        lemma_solid_sums(pixels.drop_last(), c);
        assert(c.r * (n - 1) + c.r == c.r * n) by (nonlinear_arith);
        assert(c.g * (n - 1) + c.g == c.g * n) by (nonlinear_arith);
        assert(c.b * (n - 1) + c.b == c.b * n) by (nonlinear_arith);
    } else {
        assert(c.r * 0 == 0 && c.g * 0 == 0 && c.b * 0 == 0);
    }
}

} // verus!
