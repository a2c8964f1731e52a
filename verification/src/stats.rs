//! Counters, and the figures that are shown of them once a second.

use vstd::prelude::*;

use crate::float;
use crate::float::F32;
use crate::output::OutputState;

verus! {

/// What is shown once a second.
#[derive(Clone, Copy, Debug, PartialEq, Eq, Structural)]
pub struct Stats {
    pub capture_fps: F32,
    pub output_fps: F32,
    pub output_state: OutputState,
    pub frames_dropped: u64,
}

impl Default for Stats {
    fn default() -> (s: Stats)
        ensures
            s == (Stats {
                capture_fps: F32 { bits: 0 },
                output_fps: F32 { bits: 0 },
                output_state: OutputState::Connecting,
                frames_dropped: 0,
            }),
    {
        Stats {
            capture_fps: F32 { bits: 0 },
            output_fps: F32 { bits: 0 },
            output_state: OutputState::Connecting,
            frames_dropped: 0,
        }
    }
}

/// What the counters hold.
#[derive(Clone, Copy, Debug, PartialEq, Eq, Structural)]
pub struct Counts {
    pub captured: u64,
    pub processed: u64,
    pub published: u64,
    pub reconnects: u64,
}

/// The counters. They are not copied: those that share them hold them behind a lock, so that all
/// count in one place.
#[derive(Debug)]
pub struct Metrics {
    counts: Counts,
}

impl View for Metrics {
    type V = Counts;

    closed spec fn view(&self) -> Counts {
        self.counts
    }
}

impl Default for Metrics {
    fn default() -> (m: Metrics)
        ensures
            m@ == (Counts { captured: 0, processed: 0, published: 0, reconnects: 0 }),
    {
        Metrics { counts: Counts { captured: 0, processed: 0, published: 0, reconnects: 0 } }
    }
}

/// A counter after one more; it wraps.
pub open spec fn counted(n: u64) -> u64 {
    if n == u64::MAX {
        0
    } else {
        (n + 1) as u64
    }
}

fn count(n: u64) -> (r: u64)
    ensures
        r == counted(n),
{
    if n == u64::MAX {
        0
    } else {
        n + 1
    }
}

impl Metrics {
    /// All counters at zero.
    pub fn new() -> (m: Metrics)
        ensures
            m@ == (Counts { captured: 0, processed: 0, published: 0, reconnects: 0 }),
    {
        Metrics::default()
    }

    /// The frames that were captured.
    pub fn frames_captured(&self) -> (n: u64)
        ensures
            n == self@.captured,
    {
        self.counts.captured
    }

    /// The frames that were processed.
    pub fn frames_processed(&self) -> (n: u64)
        ensures
            n == self@.processed,
    {
        self.counts.processed
    }

    /// The frames that were published.
    pub fn frames_published(&self) -> (n: u64)
        ensures
            n == self@.published,
    {
        self.counts.published
    }

    /// The times that the broker was connected to again.
    pub fn mqtt_reconnects(&self) -> (n: u64)
        ensures
            n == self@.reconnects,
    {
        self.counts.reconnects
    }

    /// Counts a captured frame.
    pub fn count_captured(&mut self)
        ensures
            final(self)@ == (Counts { captured: counted(old(self)@.captured), ..old(self)@ }),
    {
        self.counts.captured = count(self.counts.captured);
    }

    /// Counts a processed frame.
    pub fn count_processed(&mut self)
        ensures
            final(self)@ == (Counts { processed: counted(old(self)@.processed), ..old(self)@ }),
    {
        self.counts.processed = count(self.counts.processed);
    }

    /// Counts a published frame.
    pub fn count_published(&mut self)
        ensures
            final(self)@ == (Counts { published: counted(old(self)@.published), ..old(self)@ }),
    {
        self.counts.published = count(self.counts.published);
    }

    /// Counts a reconnect.
    pub fn count_reconnect(&mut self)
        ensures
            final(self)@ == (Counts { reconnects: counted(old(self)@.reconnects), ..old(self)@ }),
    {
        self.counts.reconnects = count(self.counts.reconnects);
    }
}

/// How much a counter has grown, and nothing where it went back.
pub open spec fn growth(before: u64, now: u64) -> int {
    if now > before {
        now - before
    } else {
        0
    }
}

/// The figures of a second, from the counters at its start and at its end.
pub open spec fn figures(before: Counts, now: Counts, state: OutputState) -> Stats {
    let captured = growth(before.captured, now.captured);
    let processed = growth(before.processed, now.processed);
    Stats {
        capture_fps: float::from_int(captured),
        output_fps: float::from_int(growth(before.published, now.published)),
        output_state: state,
        frames_dropped: (if captured > processed {
            captured - processed
        } else {
            0
        }) as u64,
    }
}

/// Turns counters into figures, once a second.
pub struct Aggregator {
    last: Counts,
}

impl View for Aggregator {
    type V = Counts;

    /// The counters at the last tick.
    closed spec fn view(&self) -> Counts {
        self.last
    }
}

impl Aggregator {
    /// No second has passed yet.
    pub fn new() -> (a: Aggregator)
        ensures
            a@ == (Counts { captured: 0, processed: 0, published: 0, reconnects: 0 }),
    {
        Aggregator { last: Counts { captured: 0, processed: 0, published: 0, reconnects: 0 } }
    }

    /// The figures of the second that has passed.
    pub fn tick(&mut self, metrics: &Metrics, state: OutputState) -> (s: Stats)
        ensures
            s == figures(old(self)@, metrics@, state),
            final(self)@ == metrics@,
    {
        let now: Counts = metrics.counts;
        let captured: u64 = now.captured.saturating_sub(self.last.captured);
        let processed: u64 = now.processed.saturating_sub(self.last.processed);
        let published: u64 = now.published.saturating_sub(self.last.published);
        self.last = now;
        Stats {
            capture_fps: F32::from_u64(captured),
            output_fps: F32::from_u64(published),
            output_state: state,
            frames_dropped: captured.saturating_sub(processed),
        }
    }
}

/// While counters only grow, the frames captured in a second are those processed and those
/// dropped, wherever no more were processed than captured.
pub proof fn captured_is_processed_or_dropped(before: Counts, now: Counts, state: OutputState)
    requires
        growth(before.processed, now.processed) <= growth(before.captured, now.captured),
    ensures
        growth(before.captured, now.captured) == growth(before.processed, now.processed) + figures(
            before,
            now,
            state,
        ).frames_dropped,
{
}

/// The figures of a second are what was counted in it: if `c` frames were captured, `p` processed
/// and `o` published since the last tick, the rates are `c` and `o`, and what was captured beyond
/// what was processed was dropped. Rates above 2^24 are rounded and left out.
pub proof fn figures_are_what_was_counted(
    before: Counts,
    state: OutputState,
    c: u64,
    p: u64,
    o: u64,
    r: u64,
)
    requires
        before.captured + c <= u64::MAX,
        before.processed + p <= u64::MAX,
        before.published + o <= u64::MAX,
        c <= 0x100_0000,
        o <= 0x100_0000,
    ensures
        ({
            let now = Counts {
                captured: (before.captured + c) as u64,
                processed: (before.processed + p) as u64,
                published: (before.published + o) as u64,
                reconnects: r,
            };
            let s = figures(before, now, state);
            &&& s.capture_fps.value() == c * float::unit()
            &&& s.output_fps.value() == o * float::unit()
            &&& s.output_state == state
            &&& c >= p ==> s.frames_dropped == c - p
            &&& c <= p ==> s.frames_dropped == 0
        }),
{
    float::facts::small_integers_are_exact(c as int);
    float::facts::small_integers_are_exact(o as int);
}

/// A counter that went back, as one that has wrapped does, counts as not grown.
pub proof fn counters_that_went_back_show_nothing(before: Counts, now: Counts, state: OutputState)
    requires
        now.captured <= before.captured,
        now.published <= before.published,
    ensures
        ({
            let s = figures(before, now, state);
            &&& s.capture_fps.value() == 0
            &&& s.output_fps.value() == 0
            &&& s.frames_dropped == 0
        }),
{
    float::facts::small_integers_are_exact(0);
    assert(0 * float::unit() == 0);
}

/// Counting adds one, and nothing but one; the largest count is followed by zero.
pub proof fn counting_adds_one(n: u64)
    ensures
        n < u64::MAX ==> counted(n) == n + 1,
        n == u64::MAX ==> counted(n) == 0,
{
}

} // verus!
