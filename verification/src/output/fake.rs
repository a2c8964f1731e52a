//! A consumer that keeps every frame it sees.

use vstd::prelude::*;

use crate::pipeline::LedFrame;

verus! {

/// The frames that were published, in order.
pub struct FakeOutput {
    frames: Vec<LedFrame>,
}

impl View for FakeOutput {
    type V = Seq<LedFrame>;

    closed spec fn view(&self) -> Seq<LedFrame> {
        self.frames@
    }
}

impl FakeOutput {
    /// No frame yet.
    pub fn new() -> (o: FakeOutput)
        ensures
            o@ == Seq::<LedFrame>::empty(),
    {
        FakeOutput { frames: Vec::new() }
    }

    /// Keeps a frame.
    pub fn record(&mut self, frame: LedFrame)
        ensures
            final(self)@ == old(self)@.push(frame),
    {
        self.frames.push(frame);
    }

    /// The frames so far.
    pub fn frames(&self) -> (f: &Vec<LedFrame>)
        ensures
            f@ == self@,
    {
        &self.frames
    }
}

} // verus!
