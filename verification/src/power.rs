//! Pausing while the user is away.
//!
//! Two sources tell of it, the session's screen saver and the compositor's idle notification.
//! Either is enough to darken the strip, and both must be active again to light it.

use vstd::prelude::*;

use crate::config::schema::PowerConfig;
use crate::pipeline::PipelineCommand;

verus! {

/// Whether the user is away.
#[derive(Clone, Copy, Debug, PartialEq, Eq, Structural)]
pub enum PowerEvent {
    Idle,
    Active,
}

/// What the two sources last reported.
pub struct Sources {
    pub screensaver_active: bool,
    pub wayland_idle: bool,
}

/// What the sources amount to.
pub open spec fn combined(s: Sources) -> PowerEvent {
    if s.screensaver_active || s.wayland_idle {
        PowerEvent::Idle
    } else {
        PowerEvent::Active
    }
}

/// What is told of a change of the sources: the combined state, if it is another.
pub open spec fn edge(before: Sources, after: Sources) -> Option<PowerEvent> {
    if combined(before) == combined(after) {
        None
    } else {
        Some(combined(after))
    }
}

/// The two sources merged into one stream of changes.
#[derive(Clone, Copy, Debug)]
pub struct PowerState {
    screensaver_active: bool,
    wayland_idle: bool,
    last_emitted: PowerEvent,
}

impl View for PowerState {
    type V = Sources;

    closed spec fn view(&self) -> Sources {
        Sources { screensaver_active: self.screensaver_active, wayland_idle: self.wayland_idle }
    }
}

impl PowerState {
    /// Whether what was last told is what the sources amount to.
    pub closed spec fn valid(self) -> bool {
        self.last_emitted == combined(self@)
    }

    /// Both sources active.
    pub fn new() -> (s: PowerState)
        ensures
            s.valid(),
            s@ == (Sources { screensaver_active: false, wayland_idle: false }),
    {
        PowerState {
            screensaver_active: false,
            wayland_idle: false,
            last_emitted: PowerEvent::Active,
        }
    }

    /// What the sources amount to.
    pub fn current(&self) -> (e: PowerEvent)
        ensures
            e == combined(self@),
    {
        if self.screensaver_active || self.wayland_idle {
            PowerEvent::Idle
        } else {
            PowerEvent::Active
        }
    }

    /// Takes a report of the screen saver, and tells of it where it changes the whole.
    pub fn observe_screensaver(&mut self, active: bool) -> (e: Option<PowerEvent>)
        requires
            old(self).valid(),
        ensures
            final(self).valid(),
            final(self)@ == (Sources { screensaver_active: active, ..old(self)@ }),
            e == edge(old(self)@, final(self)@),
    {
        self.screensaver_active = active;
        self.maybe_emit()
    }

    /// Takes a report of the compositor, and tells of it where it changes the whole.
    pub fn observe_wayland(&mut self, idle: bool) -> (e: Option<PowerEvent>)
        requires
            old(self).valid(),
        ensures
            final(self).valid(),
            final(self)@ == (Sources { wayland_idle: idle, ..old(self)@ }),
            e == edge(old(self)@, final(self)@),
    {
        self.wayland_idle = idle;
        self.maybe_emit()
    }

    fn maybe_emit(&mut self) -> (e: Option<PowerEvent>)
        ensures
            final(self)@ == old(self)@,
            final(self).valid(),
            e == if old(self).last_emitted == combined(old(self)@) {
                None
            } else {
                Some(combined(old(self)@))
            },
    {
        let now: PowerEvent = self.current();
        if now == self.last_emitted {
            return None;
        }
        self.last_emitted = now;
        Some(now)
    }
}

/// What the pipeline is told of an event.
pub fn command_for(event: PowerEvent) -> (c: PipelineCommand)
    ensures
        c == match event {
            PowerEvent::Idle => PipelineCommand::Blackout,
            PowerEvent::Active => PipelineCommand::Resume,
        },
{
    match event {
        PowerEvent::Idle => PipelineCommand::Blackout,
        PowerEvent::Active => PipelineCommand::Resume,
    }
}

/// Whether there is anything to watch.
pub fn is_enabled(cfg: &PowerConfig) -> (r: bool)
    ensures
        r == (cfg.respect_screensaver || cfg.idle_pause_after_secs is Some),
{
    cfg.respect_screensaver || cfg.idle_pause_after_secs.is_some()
}

/// The idle time to ask the compositor for, in milliseconds; as long as possible where it does
/// not fit.
pub fn idle_timeout_ms(idle_secs: u64) -> (ms: u32)
    ensures
        ms == if 1000 * idle_secs <= u32::MAX { 1000 * idle_secs } else { u32::MAX as int },
{
    if idle_secs <= 4_294_967 {
        (1000 * idle_secs) as u32
    } else {
        u32::MAX
    }
}

/// A report of a source.
#[derive(Clone, Copy, Debug, PartialEq, Eq, Structural)]
pub enum PowerSignal {
    /// The screen saver has started or ended.
    Screensaver(bool),
    /// The compositor saw the user go or come back.
    Wayland(bool),
    /// The screen saver source has ended.
    ScreensaverClosed,
    /// The compositor source has ended.
    WaylandClosed,
}

/// Watches the sources that are there. A source that has ended is not asked again.
#[derive(Clone, Copy, Debug)]
pub struct PowerMonitor {
    state: PowerState,
    screensaver_open: bool,
    wayland_open: bool,
}

impl PowerMonitor {
    /// What the sources last reported.
    pub closed spec fn sources(self) -> Sources {
        self.state@
    }

    /// Which sources are there: the screen saver and the compositor.
    pub closed spec fn open(self) -> (bool, bool) {
        (self.screensaver_open, self.wayland_open)
    }

    /// Whether what was last told is what the sources amount to.
    pub closed spec fn valid(self) -> bool {
        self.state.valid()
    }

    /// A monitor of the given sources.
    pub fn new(screensaver: bool, wayland: bool) -> (m: PowerMonitor)
        ensures
            m.valid(),
            m.sources() == (Sources { screensaver_active: false, wayland_idle: false }),
            m.open() == (screensaver, wayland),
    {
        PowerMonitor {
            state: PowerState::new(),
            screensaver_open: screensaver,
            wayland_open: wayland,
        }
    }

    /// Whether the screen saver is to be listened to.
    pub fn listens_to_screensaver(&self) -> (r: bool)
        ensures
            r == self.open().0,
    {
        self.screensaver_open
    }

    /// Whether the compositor is to be listened to.
    pub fn listens_to_wayland(&self) -> (r: bool)
        ensures
            r == self.open().1,
    {
        self.wayland_open
    }

    /// Takes a report, and returns what the pipeline is told of it.
    pub fn on_signal(&mut self, signal: PowerSignal) -> (c: Option<PipelineCommand>)
        requires
            old(self).valid(),
        ensures
            final(self).valid(),
            final(self).sources() == match signal {
                PowerSignal::Screensaver(active) => Sources {
                    screensaver_active: active,
                    ..old(self).sources()
                },
                PowerSignal::Wayland(idle) => Sources { wayland_idle: idle, ..old(self).sources() },
                _ => old(self).sources(),
            },
            final(self).open() == match signal {
                PowerSignal::ScreensaverClosed => (false, old(self).open().1),
                PowerSignal::WaylandClosed => (old(self).open().0, false),
                _ => old(self).open(),
            },
            c == match edge(old(self).sources(), final(self).sources()) {
                Some(PowerEvent::Idle) => Some(PipelineCommand::Blackout),
                Some(PowerEvent::Active) => Some(PipelineCommand::Resume),
                None => None,
            },
    {
        let event: Option<PowerEvent> = match signal {
            PowerSignal::Screensaver(active) => self.state.observe_screensaver(active),
            PowerSignal::Wayland(idle) => self.state.observe_wayland(idle),
            PowerSignal::ScreensaverClosed => {
                self.screensaver_open = false;
                None
            },
            PowerSignal::WaylandClosed => {
                self.wayland_open = false;
                None
            },
        };
        match event {
            Some(e) => Some(command_for(e)),
            None => None,
        }
    }
}

/// The reports of the sources after a number of signals.
pub open spec fn sources_after(s: Sources, signals: Seq<PowerSignal>) -> Sources
    decreases signals.len(),
{
    if signals.len() == 0 {
        s
    } else {
        let before = sources_after(s, signals.drop_last());
        match signals.last() {
            PowerSignal::Screensaver(active) => Sources { screensaver_active: active, ..before },
            PowerSignal::Wayland(idle) => Sources { wayland_idle: idle, ..before },
            _ => before,
        }
    }
}

/// What was told over a number of signals, in order.
pub open spec fn told(s: Sources, signals: Seq<PowerSignal>) -> Seq<PowerEvent>
    decreases signals.len(),
{
    if signals.len() == 0 {
        Seq::empty()
    } else {
        let before = told(s, signals.drop_last());
        match edge(sources_after(s, signals.drop_last()), sources_after(s, signals)) {
            Some(e) => before.push(e),
            None => before,
        }
    }
}

/// What is told alternates, and the last of it is what the sources amount to: the strip is dark
/// exactly while a source reports the user away.
pub proof fn told_alternates(s: Sources, signals: Seq<PowerSignal>)
    ensures
        ({
            let t = told(s, signals);
            &&& forall|i: int| 0 < i < t.len() ==> #[trigger] t[i] != t[i - 1]
            &&& t.len() > 0 ==> t[0] != combined(s)
            &&& t.len() > 0 ==> t.last() == combined(sources_after(s, signals))
            &&& t.len() == 0 ==> combined(s) == combined(sources_after(s, signals))
        }),
    decreases signals.len(),
{
    if signals.len() > 0 {
        told_alternates(s, signals.drop_last());
    }
}

/// Whether a report is the screen saver's.
pub open spec fn is_screensaver(s: PowerSignal) -> bool {
    s is Screensaver
}

/// Whether a report is the compositor's.
pub open spec fn is_wayland(s: PowerSignal) -> bool {
    s is Wayland
}

/// What a source last reported stands, whatever the other one reports or whichever source ends.
proof fn lemma_last_report_stands(s: Sources, before: Seq<PowerSignal>, last: PowerSignal, since: Seq<
    PowerSignal,
>)
    ensures
        ({
            let after = sources_after(s, before.push(last) + since);
            &&& (last matches PowerSignal::Screensaver(active) && forall|i: int|
                0 <= i < since.len() ==> !is_screensaver(#[trigger] since[i]))
                ==> after.screensaver_active == last->Screensaver_0
            &&& (last matches PowerSignal::Wayland(idle) && forall|i: int|
                0 <= i < since.len() ==> !is_wayland(#[trigger] since[i])) ==> after.wayland_idle
                == last->Wayland_0
        }),
    decreases since.len(),
{
    let all = before.push(last) + since;
    if since.len() == 0 {
        assert(all =~= before.push(last));
        assert(all.drop_last() =~= before);
    } else {
        lemma_last_report_stands(s, before, last, since.drop_last());
        assert(all.drop_last() =~= before.push(last) + since.drop_last());
        assert(all.last() == since.last());
        assert(since[since.len() - 1] == since.last());
        assert forall|i: int| 0 <= i < since.len() - 1 implies #[trigger] since.drop_last()[i]
            == since[i] by {}
    }
}

/// The user counts as away from the moment that either source reports it until that source reports
/// otherwise, whatever else is reported in between.
pub proof fn one_source_is_enough(s: Sources, before: Seq<PowerSignal>, since: Seq<PowerSignal>)
    ensures
        (forall|i: int| 0 <= i < since.len() ==> !is_screensaver(#[trigger] since[i])) ==> combined(
            sources_after(s, before.push(PowerSignal::Screensaver(true)) + since),
        ) == PowerEvent::Idle,
        (forall|i: int| 0 <= i < since.len() ==> !is_wayland(#[trigger] since[i])) ==> combined(
            sources_after(s, before.push(PowerSignal::Wayland(true)) + since),
        ) == PowerEvent::Idle,
{
    lemma_last_report_stands(s, before, PowerSignal::Screensaver(true), since);
    lemma_last_report_stands(s, before, PowerSignal::Wayland(true), since);
}

/// The user counts as back once neither source reports it away any more: where each of them last
/// said so, one after the other, whatever came before.
pub proof fn both_sources_are_needed_to_come_back(s: Sources, before: Seq<PowerSignal>)
    ensures
        combined(
            sources_after(
                s,
                before.push(PowerSignal::Screensaver(false)).push(PowerSignal::Wayland(false)),
            ),
        ) == PowerEvent::Active,
        combined(
            sources_after(
                s,
                before.push(PowerSignal::Wayland(false)).push(PowerSignal::Screensaver(false)),
            ),
        ) == PowerEvent::Active,
        combined(Sources { screensaver_active: false, wayland_idle: false }) == PowerEvent::Active,
{
    reveal_with_fuel(sources_after, 3);
    let a = before.push(PowerSignal::Screensaver(false));
    let b = before.push(PowerSignal::Wayland(false));
    assert(a.push(PowerSignal::Wayland(false)).drop_last() =~= a);
    assert(b.push(PowerSignal::Screensaver(false)).drop_last() =~= b);
    assert(a.drop_last() =~= before);
    assert(b.drop_last() =~= before);
}

/// A source that ends changes nothing of what was reported, so nothing is told of it.
pub proof fn an_ended_source_tells_nothing(s: Sources, signals: Seq<PowerSignal>)
    ensures
        sources_after(s, signals.push(PowerSignal::ScreensaverClosed)) == sources_after(s, signals),
        sources_after(s, signals.push(PowerSignal::WaylandClosed)) == sources_after(s, signals),
        told(s, signals.push(PowerSignal::ScreensaverClosed)) == told(s, signals),
        told(s, signals.push(PowerSignal::WaylandClosed)) == told(s, signals),
{
    assert(signals.push(PowerSignal::ScreensaverClosed).drop_last() =~= signals);
    assert(signals.push(PowerSignal::WaylandClosed).drop_last() =~= signals);
}

} // verus!
