//! Settings that can change while the agent runs.

use vstd::prelude::*;

use crate::float::{F32, ONE};

verus! {

/// The live brightness gain. It is not copied: those that share it hold it behind a lock, so that
/// all see what was stored last.
#[derive(Debug)]
pub struct BrightnessGain {
    value: F32,
}

impl View for BrightnessGain {
    type V = F32;

    closed spec fn view(&self) -> F32 {
        self.value
    }
}

impl BrightnessGain {
    /// A gain that starts at the given value.
    pub fn new(initial: F32) -> (g: BrightnessGain)
        ensures
            g@ == initial,
    {
        BrightnessGain { value: initial }
    }

    /// The value last stored.
    pub fn load(&self) -> (v: F32)
        ensures
            v == self@,
    {
        self.value
    }

    /// Stores another value.
    pub fn store(&mut self, value: F32)
        ensures
            final(self)@ == value,
    {
        self.value = value;
    }
}

impl Default for BrightnessGain {
    fn default() -> (g: BrightnessGain)
        ensures
            g@ == (F32 { bits: ONE }),
    {
        BrightnessGain::new(F32 { bits: ONE })
    }
}

} // verus!
