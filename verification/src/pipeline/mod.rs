//! From a captured frame to the colours of the strip.

use vstd::prelude::*;

pub mod blend_laws;
pub mod cluster_laws;
pub mod color;
pub mod color_laws;
pub mod correction_laws;
pub mod dominant;
pub mod hsl_laws;
pub mod laws;
pub mod linear;
pub mod majority;
pub mod mean_laws;
pub mod reduce;
pub mod shift_laws;
pub mod smoothing;
pub mod solid;
pub mod stage;
pub mod stage_laws;
pub mod zone_laws;
pub mod zones;

verus! {

/// The colour of one LED.
#[derive(Clone, Copy, Debug, PartialEq, Eq, Structural)]
pub struct LedColor {
    pub r: u8,
    pub g: u8,
    pub b: u8,
}

impl LedColor {
    /// All channels off.
    pub fn black() -> (c: LedColor)
        ensures
            c == (LedColor { r: 0, g: 0, b: 0 }),
    {
        LedColor { r: 0, g: 0, b: 0 }
    }

    /// The colour with the given channels.
    pub fn new(r: u8, g: u8, b: u8) -> (c: LedColor)
        ensures
            c == (LedColor { r, g, b }),
    {
        LedColor { r, g, b }
    }
}

impl Default for LedColor {
    fn default() -> (c: LedColor)
        ensures
            c == (LedColor { r: 0, g: 0, b: 0 }),
    {
        LedColor { r: 0, g: 0, b: 0 }
    }
}

/// One snapshot of the strip.
#[derive(Clone, Debug, PartialEq, Eq)]
pub struct LedFrame {
    pub colors: Vec<LedColor>,
    pub frame_number: u64,
}

impl LedFrame {
    /// A dark strip.
    pub fn black(zone_count: usize, frame_number: u64) -> (f: LedFrame)
        ensures
            f.colors@ == Seq::new(zone_count as nat, |i: int| LedColor { r: 0, g: 0, b: 0 }),
            f.frame_number == frame_number,
    {
        LedFrame { colors: black_colors(zone_count), frame_number }
    }
}

/// As many dark LEDs.
pub(crate) fn black_colors(count: usize) -> (colors: Vec<LedColor>)
    ensures
        colors@ == Seq::new(count as nat, |i: int| LedColor { r: 0, g: 0, b: 0 }),
{
    let mut colors: Vec<LedColor> = Vec::new();
    let mut i: usize = 0;
    while i < count
        invariant
            i <= count,
            colors@ == Seq::new(i as nat, |j: int| LedColor { r: 0, g: 0, b: 0 }),
        decreases count - i,
    {
        colors.push(LedColor { r: 0, g: 0, b: 0 });
        i += 1;
        assert(colors@ =~= Seq::new(i as nat, |j: int| LedColor { r: 0, g: 0, b: 0 }));
    }
    colors
}

/// What the power monitor or the tray tells the pipeline.
#[derive(Clone, Copy, Debug, PartialEq, Eq, Structural)]
pub enum PipelineCommand {
    /// Show one dark frame, then stop publishing. Frames are still taken, so that their buffers
    /// go back to the pool.
    Blackout,
    /// Publish again.
    Resume,
}

} // verus!
