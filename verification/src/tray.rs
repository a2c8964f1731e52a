//! The tray: its menu, and what its entries do.

use vstd::prelude::*;
use vstd::arithmetic::power2::*;

use crate::float;
use crate::float::F32;
use crate::pipeline::correction_laws;
use crate::pipeline::PipelineCommand;
use crate::text;

verus! {

/// The number of brightness presets.
pub const PRESET_COUNT: usize = 6;

/// The pattern of 0.8.
pub const PRESET_DIM: u32 = 0x3F4C_CCCD;

/// The pattern of 1.2.
pub const PRESET_BRIGHT: u32 = 0x3F99_999A;

/// The pattern of 1.5.
pub const PRESET_BRIGHTER: u32 = 0x3FC0_0000;

/// The pattern of 2.0.
pub const PRESET_DOUBLE: u32 = 0x4000_0000;

/// The pattern of 3.0.
pub const PRESET_TRIPLE: u32 = 0x4040_0000;

/// The brightness gains to choose from.
pub open spec fn presets() -> Seq<F32> {
    seq![
        F32 { bits: PRESET_DIM },
        F32 { bits: float::ONE },
        F32 { bits: PRESET_BRIGHT },
        F32 { bits: PRESET_BRIGHTER },
        F32 { bits: PRESET_DOUBLE },
        F32 { bits: PRESET_TRIPLE },
    ]
}

/// How the presets are labelled, in the same order.
pub open spec fn preset_labels() -> Seq<Seq<char>> {
    seq!["0.8x"@, "1.0x (default)"@, "1.2x"@, "1.5x"@, "2.0x"@, "3.0x"@]
}

/// The brightness gains to choose from.
pub fn brightness_gain_presets() -> (r: Vec<F32>)
    ensures
        r@ == presets(),
{
    let mut r: Vec<F32> = Vec::new();
    r.push(F32 { bits: PRESET_DIM });
    r.push(F32 { bits: float::ONE });
    r.push(F32 { bits: PRESET_BRIGHT });
    r.push(F32 { bits: PRESET_BRIGHTER });
    r.push(F32 { bits: PRESET_DOUBLE });
    r.push(F32 { bits: PRESET_TRIPLE });
    assert(r@ =~= presets());
    r
}

/// The texts of a number of strings.
pub open spec fn texts(s: Seq<String>) -> Seq<Seq<char>> {
    Seq::new(s.len(), |i: int| s[i]@)
}

/// How the presets are labelled, in the same order.
pub fn brightness_gain_labels() -> (r: Vec<String>)
    ensures
        texts(r@) == preset_labels(),
{
    let mut r: Vec<String> = Vec::new();
    r.push("0.8x".to_owned());
    r.push("1.0x (default)".to_owned());
    r.push("1.2x".to_owned());
    r.push("1.5x".to_owned());
    r.push("2.0x".to_owned());
    r.push("3.0x".to_owned());
    assert(texts(r@) =~= preset_labels());
    r
}

/// How far a gain is from a preset.
pub open spec fn preset_distance(i: int, value: F32) -> F32 {
    float::absolute(float::difference(presets()[i], value))
}

/// The first of the nearest among the first `n` presets.
pub open spec fn closest_among(value: F32, n: int) -> int
    decreases n,
{
    if n <= 1 {
        0
    } else {
        let best = closest_among(value, n - 1);
        if float::less(preset_distance(n - 1, value), preset_distance(best, value)) {
            n - 1
        } else {
            best
        }
    }
}

/// The preset closest to a gain; of equally close ones the first.
pub fn closest_preset_index(value: F32) -> (r: usize)
    ensures
        r == closest_among(value, PRESET_COUNT as int),
        r < PRESET_COUNT,
{
    let all: Vec<F32> = brightness_gain_presets();
    let mut best: usize = 0;
    let mut best_d: F32 = all[0].minus(value).abs();
    let mut i: usize = 1;
    while i < PRESET_COUNT
        invariant
            all@ == presets(),
            1 <= i <= PRESET_COUNT,
            best < i,
            best == closest_among(value, i as int),
            best_d == preset_distance(best as int, value),
        decreases PRESET_COUNT - i,
    {
        let d: F32 = all[i].minus(value).abs();
        if d.lt(best_d) {
            best = i;
            best_d = d;
        }
        i += 1;
    }
    best
}

proof fn lemma_distance_is_number(i: int, value: F32)
    requires
        0 <= i < PRESET_COUNT,
        !value.nan(),
    ensures
        !preset_distance(i, value).nan(),
{
    let a = presets()[i];
    let n = float::negation(value);
    let v = a.value() + n.value();
    assert(a.finite());
    if value.finite() {
        if v > 0 {
            float::facts::nearest_exists(v, 1);
        } else if v < 0 {
            float::facts::nearest_exists(-v, 1);
        }
    }
}

/// No preset is nearer to a gain than the closest one.
pub proof fn closest_is_nearest(value: F32, n: int, j: int)
    requires
        1 <= n <= PRESET_COUNT,
        0 <= j < n,
        !value.nan(),
    ensures
        0 <= closest_among(value, n) < n,
        float::less_eq(
            preset_distance(closest_among(value, n), value),
            preset_distance(j, value),
        ),
    decreases n,
{
    lemma_distance_is_number(n - 1, value);
    if n > 1 {
        closest_is_nearest(value, n - 1, if j < n - 1 { j } else { 0 });
        lemma_distance_is_number(closest_among(value, n - 1), value);
    }
}

/// What a menu entry asks for.
#[derive(Clone, Copy, Debug, PartialEq, Eq, Structural)]
pub enum TrayCommand {
    ToggleRun,
    Quit,
    OpenConfig,
    SetBrightnessGain(F32),
}

/// An entry of the menu.
#[derive(Clone, Debug)]
pub enum MenuEntry {
    /// An item that asks for something.
    Item { label: String, command: TrayCommand },
    /// A line.
    Separator,
    /// A submenu with one choice of several.
    Choice { label: String, selected: usize, options: Vec<String> },
}

/// What an entry of the menu shows.
pub enum EntryView {
    Item { label: Seq<char>, command: TrayCommand },
    Separator,
    Choice { label: Seq<char>, selected: int, options: Seq<Seq<char>> },
}

impl View for MenuEntry {
    type V = EntryView;

    open spec fn view(&self) -> EntryView {
        match *self {
            MenuEntry::Item { label, command } => EntryView::Item { label: label@, command },
            MenuEntry::Separator => EntryView::Separator,
            MenuEntry::Choice { label, selected, options } => EntryView::Choice {
                label: label@,
                selected: selected as int,
                options: texts(options@),
            },
        }
    }
}

/// What a menu shows.
pub open spec fn entry_views(entries: Seq<MenuEntry>) -> Seq<EntryView> {
    Seq::new(entries.len(), |i: int| entries[i]@)
}

/// The menu, while the strip runs or is paused, at a brightness gain.
pub open spec fn menu_view(running: bool, gain: F32) -> Seq<EntryView> {
    seq![
        EntryView::Item {
            label: if running {
                "Pause"@
            } else {
                "Resume"@
            },
            command: TrayCommand::ToggleRun,
        },
        EntryView::Separator,
        EntryView::Choice {
            label: "Brightness"@,
            selected: closest_among(gain, PRESET_COUNT as int),
            options: preset_labels(),
        },
        EntryView::Separator,
        EntryView::Item { label: "Open config..."@, command: TrayCommand::OpenConfig },
        EntryView::Separator,
        EntryView::Item { label: "Quit"@, command: TrayCommand::Quit },
    ]
}

/// The tray's own state: whether the strip runs.
#[derive(Clone, Copy, Debug)]
pub struct TrayModel {
    running: bool,
}

impl View for TrayModel {
    type V = bool;

    /// Whether the strip runs.
    closed spec fn view(&self) -> bool {
        self.running
    }
}

impl TrayModel {
    /// The strip runs.
    pub fn new() -> (t: TrayModel)
        ensures
            t@,
    {
        TrayModel { running: true }
    }

    /// Whether the strip runs.
    pub fn is_running(&self) -> (r: bool)
        ensures
            r == self@,
    {
        self.running
    }

    /// The menu to show.
    pub fn menu(&self, gain: F32) -> (entries: Vec<MenuEntry>)
        ensures
            entry_views(entries@) == menu_view(self@, gain),
    {
        let label: String = if self.running {
            "Pause".to_owned()
        } else {
            "Resume".to_owned()
        };
        let mut entries: Vec<MenuEntry> = Vec::new();
        entries.push(MenuEntry::Item { label, command: TrayCommand::ToggleRun });
        entries.push(MenuEntry::Separator);
        entries.push(
            MenuEntry::Choice {
                label: "Brightness".to_owned(),
                selected: closest_preset_index(gain),
                options: brightness_gain_labels(),
            },
        );
        entries.push(MenuEntry::Separator);
        entries.push(
            MenuEntry::Item {
                label: "Open config...".to_owned(),
                command: TrayCommand::OpenConfig,
            },
        );
        entries.push(MenuEntry::Separator);
        entries.push(MenuEntry::Item { label: "Quit".to_owned(), command: TrayCommand::Quit });
        assert(entry_views(entries@) =~= menu_view(self@, gain));
        entries
    }

    /// Activates an item: the first one turns between running and paused.
    pub fn activate(&mut self, command: TrayCommand) -> (sent: TrayCommand)
        ensures
            sent == command,
            final(self)@ == if command == TrayCommand::ToggleRun { !old(self)@ } else { old(self)@ },
    {
        if command == TrayCommand::ToggleRun {
            self.running = !self.running;
        }
        command
    }
}

/// What choosing a preset asks for, if there is one of that number.
pub fn select_preset(index: usize) -> (c: Option<TrayCommand>)
    ensures
        c == if index < PRESET_COUNT {
            Some(TrayCommand::SetBrightnessGain(presets()[index as int]))
        } else {
            None
        },
{
    let all: Vec<F32> = brightness_gain_presets();
    if index < all.len() {
        Some(TrayCommand::SetBrightnessGain(all[index]))
    } else {
        None
    }
}

/// What is done about a tray command.
#[derive(Clone, Copy, Debug, PartialEq, Eq, Structural)]
pub enum RouterAction {
    /// Shut the agent down.
    Shutdown,
    /// Tell the pipeline.
    Tell(PipelineCommand),
    /// Open the configuration file.
    OpenConfig,
    /// Store a gain, live and in the configuration file.
    StoreGain(F32),
}

/// Turns tray commands into what is done about them. It follows whether the strip runs, as the
/// tray does.
#[derive(Clone, Copy, Debug)]
pub struct TrayRouter {
    running: bool,
}

impl View for TrayRouter {
    type V = bool;

    /// Whether the strip runs.
    closed spec fn view(&self) -> bool {
        self.running
    }
}

/// What is done about a command while the strip runs or is paused.
pub open spec fn routed(running: bool, command: TrayCommand) -> RouterAction {
    match command {
        TrayCommand::Quit => RouterAction::Shutdown,
        TrayCommand::ToggleRun => RouterAction::Tell(
            if running {
                PipelineCommand::Blackout
            } else {
                PipelineCommand::Resume
            },
        ),
        TrayCommand::OpenConfig => RouterAction::OpenConfig,
        TrayCommand::SetBrightnessGain(v) => RouterAction::StoreGain(v),
    }
}

impl TrayRouter {
    /// The strip runs.
    pub fn new() -> (r: TrayRouter)
        ensures
            r@,
    {
        TrayRouter { running: true }
    }

    /// Decides what is done about a command.
    pub fn on_command(&mut self, command: TrayCommand) -> (a: RouterAction)
        ensures
            a == routed(old(self)@, command),
            final(self)@ == if command == TrayCommand::ToggleRun { !old(self)@ } else { old(self)@ },
    {
        match command {
            TrayCommand::Quit => RouterAction::Shutdown,
            TrayCommand::ToggleRun => {
                self.running = !self.running;
                if self.running {
                    RouterAction::Tell(PipelineCommand::Resume)
                } else {
                    RouterAction::Tell(PipelineCommand::Blackout)
                }
            },
            TrayCommand::OpenConfig => RouterAction::OpenConfig,
            TrayCommand::SetBrightnessGain(value) => RouterAction::StoreGain(value),
        }
    }
}

/// Whether the strip runs after a number of commands.
pub open spec fn runs_after(running: bool, commands: Seq<TrayCommand>) -> bool
    decreases commands.len(),
{
    if commands.len() == 0 {
        running
    } else {
        let before = runs_after(running, commands.drop_last());
        if commands.last() == TrayCommand::ToggleRun {
            !before
        } else {
            before
        }
    }
}

/// The label of the first entry says what the next activation makes the pipeline do: "Pause"
/// darkens the strip and "Resume" lights it.
pub proof fn label_tells_what_follows(commands: Seq<TrayCommand>, gain: F32)
    ensures
        ({
            let running = runs_after(true, commands);
            &&& menu_view(running, gain)[0]->Item_label == if running { "Pause"@ } else { "Resume"@ }
            &&& routed(running, TrayCommand::ToggleRun) == RouterAction::Tell(
                if running {
                    PipelineCommand::Blackout
                } else {
                    PipelineCommand::Resume
                },
            )
        }),
{
}

/// Every preset is a gain that a configuration may hold.
pub proof fn presets_are_valid_gains(i: int)
    requires
        0 <= i < PRESET_COUNT,
    ensures
        crate::config::validate::positive_up_to(presets()[i], 10),
{
    crate::config::validate::lemma_bounds();
    let b = presets()[i].bits as int;
    float::round::lemma_monotone(0, b - 1);
    float::round::lemma_monotone(b - 1, b);
    float::round::lemma_monotone(b, crate::config::schema::TEN as int);
}

/// What happens while the tray is shown.
#[derive(Clone, Debug, PartialEq)]
pub enum TrayEvent {
    Cancelled,
    /// There are new figures.
    StatsChanged,
    /// No more figures will come.
    StatsGone,
    /// The service has ended by itself.
    ServiceEnded,
    /// The service has failed, with what it said.
    ServiceFailed(String),
    /// The service was dropped.
    ServiceDropped,
}

/// What follows.
#[derive(Clone, Debug, PartialEq)]
pub enum TrayStep {
    /// Show the new figures.
    Refresh,
    /// Take the icon away and end well.
    Finish,
    /// Take the icon away and fail, with what the service said, or with what happened to it.
    Fail(String),
}

/// Decides what follows an event. A service that fails takes the agent down, and so does one that
/// ends although nobody asked it to.
pub fn tray_step(event: TrayEvent) -> (s: TrayStep)
    ensures
        match event {
            TrayEvent::StatsChanged => s == TrayStep::Refresh,
            TrayEvent::Cancelled | TrayEvent::StatsGone => s == TrayStep::Finish,
            TrayEvent::ServiceFailed(said) => s == TrayStep::Fail(said),
            TrayEvent::ServiceEnded => s matches TrayStep::Fail(said) && said@
                == "the service ended unexpectedly"@,
            TrayEvent::ServiceDropped => s matches TrayStep::Fail(said) && said@
                == "the service was dropped"@,
        },
{
    match event {
        TrayEvent::StatsChanged => TrayStep::Refresh,
        TrayEvent::Cancelled | TrayEvent::StatsGone => TrayStep::Finish,
        TrayEvent::ServiceFailed(said) => TrayStep::Fail(said),
        TrayEvent::ServiceEnded => TrayStep::Fail("the service ended unexpectedly".to_owned()),
        TrayEvent::ServiceDropped => TrayStep::Fail("the service was dropped".to_owned()),
    }
}

/// The brightness gains to choose from, in tenths.
pub open spec fn preset_tenths() -> Seq<int> {
    seq![8int, 10, 12, 15, 20, 30]
}

/// Every preset is the gain that its label begins with: 0.8, 1.0, 1.2, 1.5, 2.0 and 3.0, up to
/// 2^-20 of a tenth.
pub proof fn presets_are_the_labelled_gains(i: int)
    requires
        0 <= i < PRESET_COUNT,
    ensures
        ({
            let p = presets()[i];
            let t = preset_tenths()[i];
            let u = float::unit();
            let number = text::decimal(t / 10) + "."@ + text::decimal(t % 10) + "x"@;
            &&& p.finite()
            &&& 0x10_0000 * (10 * p.value() - t * u) <= u
            &&& 0x10_0000 * (t * u - 10 * p.value()) <= u
            &&& preset_labels()[i].len() >= 4
            &&& preset_labels()[i].take(4) == number
        }),
{
    lemma2_to64();
    float::facts::one_is_unit();
    float::round::lemma_form(125, 0xCC_CCCD);
    float::round::lemma_form(126, 0x99_999A);
    float::round::lemma_form(126, 0xC0_0000);
    float::round::lemma_form(127, 0x80_0000);
    float::round::lemma_form(127, 0xC0_0000);
    lemma_pow2_adds(24, 125);
    lemma_pow2_adds(23, 126);
    lemma_pow2_adds(22, 127);
    lemma_pow2_pos(125);
    reveal_strlit("0.8x");
    reveal_strlit("1.0x (default)");
    reveal_strlit("1.2x");
    reveal_strlit("1.5x");
    reveal_strlit("2.0x");
    reveal_strlit("3.0x");
    reveal_strlit(".");
    reveal_strlit("x");
    let t = preset_tenths()[i];
    let number = text::decimal(t / 10) + "."@ + text::decimal(t % 10) + "x"@;
    assert(preset_labels()[i].take(4) =~= number);
}

/// How far two numbers are apart.
pub open spec fn apart(a: int, b: int) -> int {
    if a < b {
        b - a
    } else {
        a - b
    }
}

proof fn lemma_distance(i: int, value: F32)
    requires
        0 <= i < PRESET_COUNT,
        value.finite(),
        0 <= value.value() <= 1000 * float::unit(),
    ensures
        ({
            let d = preset_distance(i, value);
            let exact = apart(presets()[i].value(), value.value());
            &&& d.finite()
            &&& d.value() == d.mag()
            &&& 0x4000 * (d.mag() - exact) <= float::unit()
            &&& 0x4000 * (exact - d.mag()) <= float::unit()
        }),
{
    let p = presets()[i];
    presets_are_the_labelled_gains(i);
    float::facts::one_is_unit();
    float::order::negated_value(value);
    correction_laws::lemma_wider_sum(p, float::negation(value));
    let d = float::difference(p, value);
    float::order::magnitudes_are_not_negative(d);
}

/// The closest preset is as close to a gain as any, up to 2^-13 by which distances are rounded. A
/// gain that is a preset selects it.
pub proof fn closest_preset_is_the_least_apart(value: F32, j: int)
    requires
        value.finite(),
        0 <= value.value() <= 1000 * float::unit(),
        0 <= j < PRESET_COUNT,
    ensures
        ({
            let best = closest_among(value, PRESET_COUNT as int);
            &&& 0 <= best < PRESET_COUNT
            &&& 0x2000 * (apart(presets()[best].value(), value.value()) - apart(
                presets()[j].value(),
                value.value(),
            )) <= float::unit()
            &&& value == presets()[j] ==> best == j
        }),
{
    closest_is_nearest(value, PRESET_COUNT as int, j);
    let best = closest_among(value, PRESET_COUNT as int);
    lemma_distance(best, value);
    lemma_distance(j, value);
    float::facts::one_is_unit();
    presets_are_the_labelled_gains(best);
    presets_are_the_labelled_gains(j);
}

/// Pausing and resuming take turns: whatever else is chosen in between, an odd number of toggles
/// leaves the strip dark and an even number leaves it lit, and nothing but a toggle tells the
/// pipeline anything.
pub proof fn toggles_take_turns(commands: Seq<TrayCommand>, command: TrayCommand)
    ensures
        runs_after(true, commands) <==> toggles(commands) % 2 == 0,
        routed(runs_after(true, commands), command) is Tell <==> command is ToggleRun,
        routed(runs_after(true, commands), TrayCommand::ToggleRun) == RouterAction::Tell(
            if toggles(commands) % 2 == 0 {
                PipelineCommand::Blackout
            } else {
                PipelineCommand::Resume
            },
        ),
    decreases commands.len(),
{
    if commands.len() > 0 {
        toggles_take_turns(commands.drop_last(), command);
    }
}

/// How many toggles there are among a number of commands.
pub open spec fn toggles(commands: Seq<TrayCommand>) -> int
    decreases commands.len(),
{
    if commands.len() == 0 {
        0
    } else {
        toggles(commands.drop_last()) + if commands.last() is ToggleRun {
            1int
        } else {
            0
        }
    }
}

/// The menu pauses or resumes, offers the presets with the closest one selected, opens the
/// configuration and quits, with lines between.
pub proof fn menu_offers_everything(running: bool, gain: F32)
    ensures
        ({
            let m = menu_view(running, gain);
            &&& m.len() == 7
            &&& m[0] == (EntryView::Item {
                label: if running {
                    "Pause"@
                } else {
                    "Resume"@
                },
                command: TrayCommand::ToggleRun,
            })
            &&& m[1] is Separator && m[3] is Separator && m[5] is Separator
            &&& m[2] matches EntryView::Choice { selected, options, .. } && selected
                == closest_among(gain, 6) && options.len() == 6
            &&& m[4] matches EntryView::Item { command, .. } && command == TrayCommand::OpenConfig
            &&& m[6] matches EntryView::Item { command, .. } && command == TrayCommand::Quit
        }),
{
}

} // verus!
