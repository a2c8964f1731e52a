//! The pipeline's own state: what it does with every frame and with every command.

use vstd::prelude::*;

use crate::capture::Frame;
use crate::config::schema::{CaptureBackend, Config};
use crate::float;
use crate::float::F32;

use super::color;
use super::color::{GammaLut, WhiteFactors};
use super::linear::TransferTables;
use super::reduce;
use super::reduce::{reduce_zones, Scratch};
use super::smoothing;
use super::smoothing::{alpha_from_time_constant, tau_secs, EmaState};
use super::{black_colors, LedColor, LedFrame, PipelineCommand};

verus! {

/// What reaches the pipeline.
pub enum StageEvent {
    /// A frame was captured.
    Picture,
    /// A command came in.
    Command(PipelineCommand),
}

/// What leaves the pipeline, by its frame number.
pub enum StageOutput {
    /// A dark strip.
    Dark(int),
    /// The colours of a frame.
    Picture(int),
}

/// Whether the pipeline publishes, and how many frames it has taken.
pub struct StageState {
    pub publishing: bool,
    pub taken: int,
}

/// What an event does to the state.
pub open spec fn next_state(s: StageState, e: StageEvent) -> StageState {
    match e {
        StageEvent::Picture => StageState { taken: s.taken + 1, ..s },
        StageEvent::Command(c) => StageState { publishing: c == PipelineCommand::Resume, ..s },
    }
}

/// What an event makes the pipeline publish.
pub open spec fn output(s: StageState, e: StageEvent) -> Option<StageOutput> {
    match e {
        StageEvent::Picture => if s.publishing {
            Some(StageOutput::Picture(s.taken + 1))
        } else {
            None
        },
        StageEvent::Command(c) => if c == PipelineCommand::Blackout {
            Some(StageOutput::Dark(s.taken))
        } else {
            None
        },
    }
}

/// The state after a number of events.
pub open spec fn state_after(s: StageState, events: Seq<StageEvent>) -> StageState
    decreases events.len(),
{
    if events.len() == 0 {
        s
    } else {
        next_state(state_after(s, events.drop_last()), events.last())
    }
}

/// The sampling setting that the pipeline works with. The KMS backend scales frames down on the
/// GPU, so every pixel of the small frame is read.
pub open spec fn pipeline_subsample(cfg: Config) -> u32 {
    if cfg.capture.backend == CaptureBackend::Kms {
        1
    } else {
        cfg.capture.subsample
    }
}

/// One LED through the whole of colour correction.
pub open spec fn finished(
    c: LedColor,
    cfg: Config,
    lut: GammaLut,
    white: WhiteFactors,
    gain: F32,
) -> LedColor {
    let c1 = color::corrected(c, lut);
    let c2 = color::shifted(c1, cfg.color.hsl_offsets);
    let c3 = color::balanced(c2, cfg.color.white_balance_kelvin, white);
    let c4 = color::warmed(c3, cfg.color.night_light_strength);
    let c5 = color::raised(c4, cfg.color.luminosity_floor);
    let c6 = color::boosted(c5, gain);
    color::limited(c6, cfg.color.brightness_max)
}

/// What is handed back after a frame was processed.
pub struct Processed {
    /// The frame's buffer, for the pool.
    pub buf: Vec<u8>,
    /// What to publish, if anything.
    pub publish: Option<LedFrame>,
}

impl Processed {
    /// Whether the frame counts as processed: it does where its colours are published.
    pub fn counts(&self) -> (b: bool)
        ensures
            b == (self.publish is Some),
    {
        self.publish.is_some()
    }
}

/// The pipeline between capture and output.
pub struct Pipeline {
    config: Config,
    lut: GammaLut,
    white: WhiteFactors,
    tables: TransferTables,
    ema: EmaState,
    colors: Vec<LedColor>,
    scratch: Scratch,
    frame_number: u64,
    publishing: bool,
}

impl Pipeline {
    /// Whether it publishes, and how many frames it has taken.
    pub closed spec fn state(self) -> StageState {
        StageState { publishing: self.publishing, taken: self.frame_number as int }
    }

    /// The configuration it was made with.
    pub closed spec fn settings(self) -> Config {
        self.config
    }

    /// The tables it was made with.
    pub closed spec fn tools(self) -> (GammaLut, WhiteFactors, TransferTables) {
        (self.lut, self.white, self.tables)
    }

    /// The colours that smoothing starts the next frame from.
    pub closed spec fn shown(self) -> Seq<LedColor> {
        self.ema@
    }

    /// Whether its tables are complete and its working space fits the zones.
    pub closed spec fn valid(self) -> bool {
        &&& self.lut.valid()
        &&& self.tables.valid()
        &&& self.colors@.len() == self.config.led_matrix.zones@.len()
    }

    /// The colours of a frame's zones after colour correction.
    pub open spec fn corrected(self, frame: Frame, gain: F32) -> Seq<LedColor> {
        let cfg = self.settings();
        let (lut, white, tables) = self.tools();
        reduce::zone_colors(
            frame,
            cfg.led_matrix,
            pipeline_subsample(cfg),
            cfg.color.averaging,
            tables,
        ).map_values(|c: LedColor| finished(c, cfg, lut, white, gain))
    }

    /// The colours that a frame leads to, `decay` being what is left of the last ones over the
    /// time since.
    pub open spec fn result(self, frame: Frame, gain: F32, decay: F32) -> Seq<LedColor> {
        let tau = smoothing::tau_of(self.settings().smoothing.time_constant_ms);
        smoothing::smoothed(
            self.shown(),
            self.corrected(frame, gain),
            smoothing::alpha_of(tau, decay),
        )
    }

    /// A pipeline that publishes and has taken no frame yet.
    pub fn new(
        config: Config,
        lut: GammaLut,
        white: WhiteFactors,
        tables: TransferTables,
    ) -> (p: Pipeline)
        requires
            lut.valid(),
            tables.valid(),
        ensures
            p.valid(),
            p.state() == (StageState { publishing: true, taken: 0 }),
            p.settings() == config,
            p.tools() == (lut, white, tables),
            p.shown() == Seq::<LedColor>::empty(),
    {
        let colors: Vec<LedColor> = black_colors(config.led_matrix.zones.len());
        Pipeline {
            config,
            lut,
            white,
            tables,
            ema: EmaState::new(),
            colors,
            scratch: Scratch::new(),
            frame_number: 0,
            publishing: true,
        }
    }

    /// Follows a command. A blackout is answered with the dark frame to publish.
    pub fn on_command(&mut self, command: PipelineCommand) -> (r: Option<LedFrame>)
        requires
            old(self).valid(),
        ensures
            final(self).valid(),
            final(self).settings() == old(self).settings(),
            final(self).tools() == old(self).tools(),
            final(self).shown() == old(self).shown(),
            final(self).state() == next_state(old(self).state(), StageEvent::Command(command)),
            match output(old(self).state(), StageEvent::Command(command)) {
                Some(StageOutput::Dark(n)) => r matches Some(f) && f.frame_number == n
                    && f.colors@ == Seq::new(
                    old(self).settings().led_matrix.zones@.len(),
                    |i: int| LedColor { r: 0, g: 0, b: 0 },
                ),
                _ => r is None,
            },
    {
        match command {
            PipelineCommand::Blackout => {
                self.publishing = false;
                Some(LedFrame::black(self.config.led_matrix.zones.len(), self.frame_number))
            },
            PipelineCommand::Resume => {
                self.publishing = true;
                None
            },
        }
    }

    /// Takes a frame: reduces its zones, corrects and smooths the colours, and hands back the
    /// buffer and what to publish.
    ///
    /// `gain` is the live brightness gain, and `decay` the exponential of the decay exponent over
    /// the time since the last frame.
    pub fn process(&mut self, frame: Frame, gain: F32, decay: F32) -> (r: Processed)
        requires
            old(self).valid(),
            old(self).state().taken < u64::MAX,
        ensures
            final(self).valid(),
            final(self).settings() == old(self).settings(),
            final(self).tools() == old(self).tools(),
            final(self).shown() == old(self).result(frame, gain, decay),
            final(self).state() == next_state(old(self).state(), StageEvent::Picture),
            r.buf@ == frame.buf@,
            match output(old(self).state(), StageEvent::Picture) {
                Some(StageOutput::Picture(n)) => r.publish matches Some(f) && f.frame_number == n
                    && f.colors@ == old(self).result(frame, gain, decay),
                _ => r.publish is None,
            },
    {
        let subsample: u32 = if self.config.capture.backend == CaptureBackend::Kms {
            1
        } else {
            self.config.capture.subsample
        };
        reduce_zones(
            &frame,
            &self.config.led_matrix,
            subsample,
            self.config.color.averaging,
            &self.tables,
            &mut self.scratch,
            &mut self.colors,
        );
        let ghost zones = self.colors@;
        color::gamma(&mut self.colors, &self.lut);
        color::hsl_offset(&mut self.colors, &self.config.color.hsl_offsets);
        color::white_balance(
            &mut self.colors,
            self.config.color.white_balance_kelvin,
            &self.white,
        );
        color::night_light(&mut self.colors, self.config.color.night_light_strength);
        color::luminosity_floor(&mut self.colors, self.config.color.luminosity_floor);
        color::brightness_gain(&mut self.colors, gain);
        color::brightness_limit(&mut self.colors, self.config.color.brightness_max);
        assert(self.colors@ =~= old(self).corrected(frame, gain));
        let tau: F32 = tau_secs(self.config.smoothing.time_constant_ms);
        let alpha: F32 = alpha_from_time_constant(tau, decay);
        self.ema.step(&mut self.colors, alpha);
        self.frame_number = self.frame_number + 1;
        let publish: Option<LedFrame> = if self.publishing {
            Some(LedFrame { colors: copy_colors(&self.colors), frame_number: self.frame_number })
        } else {
            None
        };
        Processed { buf: frame.buf, publish }
    }

    /// Whether frames are published.
    pub fn is_publishing(&self) -> (r: bool)
        ensures
            r == self.state().publishing,
    {
        self.publishing
    }
}

/// A copy of the colours.
fn copy_colors(colors: &Vec<LedColor>) -> (r: Vec<LedColor>)
    ensures
        r@ == colors@,
{
    let mut r: Vec<LedColor> = Vec::new();
    let mut i: usize = 0;
    while i < colors.len()
        invariant
            i <= colors@.len(),
            r@ == colors@.take(i as int),
        decreases colors@.len() - i,
    {
        r.push(colors[i]);
        i += 1;
        assert(r@ =~= colors@.take(i as int));
    }
    assert(colors@.take(i as int) =~= colors@);
    r
}

/// After a blackout, and until the next resume, no frame's colours are published.
pub proof fn dark_until_resume(s: StageState, events: Seq<StageEvent>)
    requires
        forall|i: int|
            0 <= i < events.len() ==> #[trigger] events[i] != StageEvent::Command(
                PipelineCommand::Resume,
            ),
    ensures
        ({
            let dark = next_state(s, StageEvent::Command(PipelineCommand::Blackout));
            &&& !state_after(dark, events).publishing
            &&& output(state_after(dark, events), StageEvent::Picture) is None
        }),
    decreases events.len(),
{
    if events.len() > 0 {
        dark_until_resume(s, events.drop_last());
        assert(events.last() != StageEvent::Command(PipelineCommand::Resume));
    }
}

/// How many frames count as processed over a number of events: those whose colours are published.
pub open spec fn processed(s: StageState, events: Seq<StageEvent>) -> int
    decreases events.len(),
{
    if events.len() == 0 {
        0
    } else {
        let before = state_after(s, events.drop_last());
        processed(s, events.drop_last()) + match output(before, events.last()) {
            Some(StageOutput::Picture(_)) => 1int,
            _ => 0,
        }
    }
}

/// From a blackout to the next resume no frame counts as processed, though every one is taken,
/// and all that is published is one dark strip for each further blackout, under the number of
/// frames taken so far.
pub proof fn nothing_is_processed_while_dark(s: StageState, events: Seq<StageEvent>, i: int)
    requires
        forall|k: int|
            0 <= k < events.len() ==> #[trigger] events[k] != StageEvent::Command(
                PipelineCommand::Resume,
            ),
        0 <= i < events.len(),
    ensures
        ({
            let dark = next_state(s, StageEvent::Command(PipelineCommand::Blackout));
            let before = state_after(dark, events.take(i));
            &&& processed(dark, events) == 0
            &&& state_after(dark, events).taken == s.taken + pictures(events)
            &&& output(before, events[i]) == match events[i] {
                StageEvent::Picture => None,
                StageEvent::Command(_) => Some(StageOutput::Dark(s.taken + pictures(events.take(i)))),
            }
        }),
{
    let dark = next_state(s, StageEvent::Command(PipelineCommand::Blackout));
    lemma_none_processed(s, events);
    every_frame_is_counted(dark, events);
    every_frame_is_counted(dark, events.take(i));
    dark_until_resume(s, events.take(i));
    assert(events[i] != StageEvent::Command(PipelineCommand::Resume));
}

proof fn lemma_none_processed(s: StageState, events: Seq<StageEvent>)
    requires
        forall|k: int|
            0 <= k < events.len() ==> #[trigger] events[k] != StageEvent::Command(
                PipelineCommand::Resume,
            ),
    ensures
        processed(
            next_state(s, StageEvent::Command(PipelineCommand::Blackout)),
            events,
        ) == 0,
    decreases events.len(),
{
    if events.len() > 0 {
        lemma_none_processed(s, events.drop_last());
        dark_until_resume(s, events.drop_last());
    }
}

/// A resume publishes the very next frame, under its own number.
pub proof fn resume_publishes_again(s: StageState)
    ensures
        output(
            next_state(s, StageEvent::Command(PipelineCommand::Resume)),
            StageEvent::Picture,
        ) == Some(StageOutput::Picture(s.taken + 1)),
{
}

/// Every frame is counted, whether or not it is published.
pub proof fn every_frame_is_counted(s: StageState, events: Seq<StageEvent>)
    ensures
        state_after(s, events).taken == s.taken + pictures(events),
    decreases events.len(),
{
    if events.len() > 0 {
        every_frame_is_counted(s, events.drop_last());
    }
}

/// The number of frames among a number of events.
pub open spec fn pictures(events: Seq<StageEvent>) -> int
    decreases events.len(),
{
    if events.len() == 0 {
        0
    } else {
        pictures(events.drop_last()) + if events.last() is Picture {
            1int
        } else {
            0
        }
    }
}

} // verus!
