//! The reduction of zones to colours under the configured averaging.

use vstd::prelude::*;

use crate::capture::Frame;
use crate::config::schema::{AveragingMode, LedMatrixConfig};
use crate::float;
use crate::float::F32;

use super::dominant;
use super::dominant::dominant_of;
use super::linear::{Linear, TransferTables};
use super::zones;
use super::zones::{collect_samples, scale_zone, ScaledZone};
use super::LedColor;

verus! {

/// One of the three channels.
#[derive(Clone, Copy, Debug, PartialEq, Eq, Structural)]
pub enum Channel {
    Red,
    Green,
    Blue,
}

/// A channel of a colour.
pub open spec fn channel_of(c: LedColor, ch: Channel) -> u8 {
    match ch {
        Channel::Red => c.r,
        Channel::Green => c.g,
        Channel::Blue => c.b,
    }
}

/// How many pixels have the byte `v` in a channel.
pub open spec fn occurrences(pixels: Seq<LedColor>, ch: Channel, v: int) -> int
    decreases pixels.len(),
{
    if pixels.len() == 0 {
        0
    } else {
        occurrences(pixels.drop_last(), ch, v) + if channel_of(pixels.last(), ch) == v {
            1int
        } else {
            0
        }
    }
}

/// The light of all pixels in a channel, from the bytes below `n`: for each byte, how often it
/// occurs times what it stands for.
pub open spec fn light(values: Seq<F32>, pixels: Seq<LedColor>, ch: Channel, n: int) -> F32
    decreases n,
{
    if n <= 0 {
        F32 { bits: 0 }
    } else {
        float::sum(
            light(values, pixels, ch, n - 1),
            float::product(
                float::from_int(occurrences(pixels, ch, n - 1)),
                values[n - 1],
            ),
        )
    }
}

/// The mean light of a number of pixels in a channel.
pub open spec fn mean_light(values: Seq<F32>, pixels: Seq<LedColor>, ch: Channel) -> F32 {
    float::quotient(light(values, pixels, ch, 256), float::from_int(pixels.len() as int))
}

/// The squares of a number of values.
pub open spec fn squares(values: Seq<F32>) -> Seq<F32> {
    values.map_values(|x: F32| float::product(x, x))
}

/// The mean of a number of pixels in linear light; black for none.
pub open spec fn linear_mean(t: TransferTables, pixels: Seq<LedColor>) -> LedColor {
    if pixels.len() == 0 {
        LedColor { r: 0, g: 0, b: 0 }
    } else {
        LedColor {
            r: t.byte(mean_light(t.decode_table(), pixels, Channel::Red)),
            g: t.byte(mean_light(t.decode_table(), pixels, Channel::Green)),
            b: t.byte(mean_light(t.decode_table(), pixels, Channel::Blue)),
        }
    }
}

/// The root mean square of a number of pixels in linear light; black for none.
pub open spec fn root_mean_square(t: TransferTables, pixels: Seq<LedColor>) -> LedColor {
    if pixels.len() == 0 {
        LedColor { r: 0, g: 0, b: 0 }
    } else {
        LedColor {
            r: t.root_byte(mean_light(squares(t.decode_table()), pixels, Channel::Red)),
            g: t.root_byte(mean_light(squares(t.decode_table()), pixels, Channel::Green)),
            b: t.root_byte(mean_light(squares(t.decode_table()), pixels, Channel::Blue)),
        }
    }
}

/// What an averaging mode makes of a zone's pixels.
pub open spec fn reduced(
    mode: AveragingMode,
    t: TransferTables,
    pixels: Seq<LedColor>,
) -> LedColor {
    match mode {
        AveragingMode::Mean => linear_mean(t, pixels),
        AveragingMode::MeanSquared => root_mean_square(t, pixels),
        AveragingMode::DominantAdv => dominant::dominant(t, pixels),
    }
}

/// The colours of all zones of a frame.
pub open spec fn zone_colors(
    frame: Frame,
    cfg: LedMatrixConfig,
    subsample: u32,
    mode: AveragingMode,
    t: TransferTables,
) -> Seq<LedColor> {
    Seq::new(
        cfg.zones@.len(),
        |i: int|
            reduced(
                mode,
                t,
                zones::samples(
                    frame,
                    zones::frame_zone(frame, cfg, i),
                    zones::sampling_step(subsample),
                ),
            ),
    )
}

/// Counts how often every byte occurs in a channel.
fn count_bytes(pixels: &Vec<LedColor>, ch: Channel) -> (counts: Vec<u64>)
    ensures
        counts@.len() == 256,
        forall|v: int| 0 <= v < 256 ==> #[trigger] counts@[v] == occurrences(pixels@, ch, v),
{
    let mut counts: Vec<u64> = Vec::new();
    let mut k: usize = 0;
    while k < 256
        invariant
            k <= 256,
            counts@.len() == k,
            forall|v: int| 0 <= v < k ==> #[trigger] counts@[v] == 0,
        decreases 256 - k,
    {
        counts.push(0);
        k += 1;
    }
    let mut i: usize = 0;
    assert(pixels@.take(0) =~= Seq::<LedColor>::empty());
    while i < pixels.len()
        invariant
            i <= pixels@.len(),
            counts@.len() == 256,
            forall|v: int|
                0 <= v < 256 ==> #[trigger] counts@[v] == occurrences(
                    pixels@.take(i as int),
                    ch,
                    v,
                ) && counts@[v] <= i,
        decreases pixels@.len() - i,
    {
        let c: LedColor = pixels[i];
        let v: usize = (match ch {
            Channel::Red => c.r,
            Channel::Green => c.g,
            Channel::Blue => c.b,
        }) as usize;
        proof {
            assert(pixels@.take(i + 1).drop_last() =~= pixels@.take(i as int));
            assert(counts@[v as int] <= i);
        }
        let n: u64 = counts[v] + 1;
        counts.set(v, n);
        i += 1;
    }
    assert(pixels@.take(i as int) =~= pixels@);
    counts
}

/// The mean light of a number of pixels in a channel.
fn mean_light_of(values: &Vec<F32>, pixels: &Vec<LedColor>, ch: Channel) -> (x: F32)
    requires
        values@.len() == 256,
    ensures
        x == mean_light(values@, pixels@, ch),
{
    let counts: Vec<u64> = count_bytes(pixels, ch);
    let mut sum: F32 = F32 { bits: 0 };
    let mut v: usize = 0;
    while v < 256
        invariant
            v <= 256,
            values@.len() == 256,
            counts@.len() == 256,
            forall|k: int| 0 <= k < 256 ==> #[trigger] counts@[k] == occurrences(pixels@, ch, k),
            sum == light(values@, pixels@, ch, v as int),
        decreases 256 - v,
    {
        sum = sum.plus(F32::from_u64(counts[v]).times(values[v]));
        v += 1;
    }
    sum.over(F32::from_u64(pixels.len() as u64))
}

/// The mean of a number of pixels in linear light; black for none.
pub fn linear_mean_of(pixels: &Vec<LedColor>, tables: &TransferTables) -> (c: LedColor)
    requires
        tables.valid(),
    ensures
        c == linear_mean(*tables, pixels@),
{
    if pixels.len() == 0 {
        return LedColor { r: 0, g: 0, b: 0 };
    }
    let values: &Vec<F32> = tables.decoded();
    LedColor {
        r: tables.encode(mean_light_of(values, pixels, Channel::Red)),
        g: tables.encode(mean_light_of(values, pixels, Channel::Green)),
        b: tables.encode(mean_light_of(values, pixels, Channel::Blue)),
    }
}

/// The root mean square of a number of pixels in linear light; black for none.
pub fn root_mean_square_of(pixels: &Vec<LedColor>, tables: &TransferTables) -> (c: LedColor)
    requires
        tables.valid(),
    ensures
        c == root_mean_square(*tables, pixels@),
{
    if pixels.len() == 0 {
        return LedColor { r: 0, g: 0, b: 0 };
    }
    let values: &Vec<F32> = tables.decoded();
    let mut squared: Vec<F32> = Vec::new();
    let mut i: usize = 0;
    while i < values.len()
        invariant
            i <= values@.len(),
            squared@ == squares(values@).take(i as int),
        decreases values@.len() - i,
    {
        squared.push(values[i].times(values[i]));
        i += 1;
        assert(squared@ =~= squares(values@).take(i as int));
    }
    assert(squared@ =~= squares(values@));
    LedColor {
        r: tables.encode_root(mean_light_of(&squared, pixels, Channel::Red)),
        g: tables.encode_root(mean_light_of(&squared, pixels, Channel::Green)),
        b: tables.encode_root(mean_light_of(&squared, pixels, Channel::Blue)),
    }
}

/// Working space that is kept from frame to frame.
pub struct Scratch {
    samples: Vec<LedColor>,
    linear: Vec<Linear>,
}

impl Scratch {
    /// Whether it holds nothing.
    pub closed spec fn empty(self) -> bool {
        self.samples@.len() == 0 && self.linear@.len() == 0
    }

    /// Empty working space.
    pub fn new() -> (s: Scratch)
        ensures
            s.empty(),
    {
        Scratch { samples: Vec::new(), linear: Vec::new() }
    }
}

/// Puts the colour of every zone into `out`, under the given averaging.
pub fn reduce_zones(
    frame: &Frame,
    cfg: &LedMatrixConfig,
    subsample: u32,
    mode: AveragingMode,
    tables: &TransferTables,
    scratch: &mut Scratch,
    out: &mut Vec<LedColor>,
)
    requires
        old(out)@.len() == cfg.zones@.len(),
        tables.valid(),
    ensures
        final(out)@ == zone_colors(*frame, *cfg, subsample, mode, *tables),
{
    let step: u32 = if subsample == 0 {
        1
    } else {
        subsample
    };
    let rw: u32 = if cfg.reference_width == 0 {
        1
    } else {
        cfg.reference_width
    };
    let rh: u32 = if cfg.reference_height == 0 {
        1
    } else {
        cfg.reference_height
    };
    let sx: F32 = F32::from_u32(frame.width).over(F32::from_u32(rw));
    let sy: F32 = F32::from_u32(frame.height).over(F32::from_u32(rh));
    let ghost all = zone_colors(*frame, *cfg, subsample, mode, *tables);
    let mut i: usize = 0;
    while i < cfg.zones.len()
        invariant
            tables.valid(),
            i <= cfg.zones@.len(),
            out@.len() == cfg.zones@.len(),
            step == zones::sampling_step(subsample),
            sx == zones::scale_factor(frame.width, cfg.reference_width),
            sy == zones::scale_factor(frame.height, cfg.reference_height),
            all == zone_colors(*frame, *cfg, subsample, mode, *tables),
            forall|j: int| 0 <= j < i ==> #[trigger] out@[j] == all[j],
        decreases cfg.zones@.len() - i,
    {
        let z: ScaledZone = scale_zone(&cfg.zones[i], sx, sy, frame.width, frame.height);
        if z.w == 0 || z.h == 0 {
            proof {
                zones::lemma_empty_zone(*frame, z, step as int, z.h as int);
            }
            scratch.samples.clear();
        } else {
            collect_samples(frame, &z, step, &mut scratch.samples);
        }
        assert(scratch.samples@ =~= zones::samples(*frame, z, step as int));
        let c: LedColor = match mode {
            AveragingMode::Mean => linear_mean_of(&scratch.samples, tables),
            AveragingMode::MeanSquared => root_mean_square_of(&scratch.samples, tables),
            AveragingMode::DominantAdv => dominant_of(
                &scratch.samples,
                tables,
                &mut scratch.linear,
            ),
        };
        out.set(i, c);
        i += 1;
    }
    assert(out@ =~= all);
}

} // verus!
