//! The capture loop over the KMS helper.

use vstd::prelude::*;

use crate::capture::{Frame, PixelFormat};

verus! {

/// KMS capture: the card, its render node and the frame rate.
#[derive(Clone, Debug)]
pub struct KmsCapture {
    pub card: String,
    pub render_node: String,
    pub target_fps: u32,
}

impl KmsCapture {
    /// Capture from the given card.
    pub fn new(card: String, render_node: String, target_fps: u32) -> (c: KmsCapture)
        ensures
            c.card == card,
            c.render_node == render_node,
            c.target_fps == target_fps,
    {
        KmsCapture { card, render_node, target_fps }
    }

    /// The frame rate to poll at: at least one.
    pub fn poll_rate(&self) -> (fps: u32)
        ensures
            fps == if self.target_fps == 0 { 1 } else { self.target_fps },
    {
        if self.target_fps == 0 {
            1
        } else {
            self.target_fps
        }
    }
}

/// The frame of a plane that was read back: its rows follow each other without padding.
pub fn plane_frame(buf: Vec<u8>, width: u32, height: u32, format: PixelFormat) -> (f: Frame)
    requires
        4 * width <= u32::MAX,
    ensures
        f.buf == buf,
        f.width == width,
        f.height == height,
        f.stride == 4 * width,
        f.format == format,
{
    Frame { buf, width, height, stride: 4 * width, format }
}

/// What is left of an interval after the time that was used of it, in nanoseconds.
pub fn pause_after(interval_ns: u64, elapsed_ns: u64) -> (ns: u64)
    ensures
        ns == if elapsed_ns < interval_ns { interval_ns - elapsed_ns } else { 0 },
{
    if elapsed_ns < interval_ns {
        interval_ns - elapsed_ns
    } else {
        0
    }
}

} // verus!
