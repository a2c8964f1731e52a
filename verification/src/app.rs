//! Start-up: the command line and the log filter.

use vstd::prelude::*;

use crate::config::schema::{CaptureBackend, Config};

verus! {

/// What the command line gives.
#[derive(Clone, Debug)]
pub struct Args {
    /// The configuration file, instead of the default one.
    pub config: Option<Vec<u8>>,
    /// The log filter, unless the environment gives one.
    pub log_level: Option<String>,
    /// No tray icon.
    pub headless: bool,
}

/// The log filter to use: the environment's before the command line's, before the
/// configuration's, before the built-in one.
pub open spec fn filter_of(
    env: Option<Seq<char>>,
    cli: Option<Seq<char>>,
    config: Option<Seq<char>>,
) -> Seq<char> {
    match (env, cli, config) {
        (Some(f), _, _) => f,
        (None, Some(f), _) => f,
        (None, None, Some(f)) => f,
        (None, None, None) => "info,rustiferin=debug"@,
    }
}

/// The text of an optional string.
pub open spec fn text_of(s: Option<String>) -> Option<Seq<char>> {
    match s {
        Some(t) => Some(t@),
        None => None,
    }
}

/// The log filter to use.
pub fn log_filter(env: &Option<String>, cli: &Option<String>, config: &Option<String>) -> (f: String)
    ensures
        f@ == filter_of(text_of(*env), text_of(*cli), text_of(*config)),
{
    if let Some(f) = env {
        return f.clone();
    }
    if let Some(f) = cli {
        return f.clone();
    }
    if let Some(f) = config {
        return f.clone();
    }
    "info,rustiferin=debug".to_owned()
}

/// The buffers on the way from capture to the pipeline.
pub const POOL_SIZE: usize = 4;

/// The bytes of a frame of 3840 by 2160 pixels, the largest that buffers are made for.
pub const MAX_FRAME_BYTES: usize = 33_177_600;

/// Where the frames come from.
#[derive(Clone, Debug, PartialEq)]
pub enum CapturePlan {
    /// The desktop portal.
    Portal,
    /// The KMS helper, with the given card, or the one that is found.
    Kms { card: Option<String> },
}

/// What is started.
#[derive(Clone, Debug, PartialEq)]
pub struct StartPlan {
    pub capture: CapturePlan,
    pub target_fps: u32,
    pub zone_count: usize,
    pub tray: bool,
}

/// Decides what is started.
pub fn start_plan(args: &Args, config: &Config) -> (p: StartPlan)
    ensures
        p.target_fps == config.capture.target_fps,
        p.zone_count == config.led_matrix.zones@.len(),
        p.tray == !args.headless,
        match config.capture.backend {
            CaptureBackend::Portal => p.capture == CapturePlan::Portal,
            CaptureBackend::Kms => p.capture == (CapturePlan::Kms {
                card: config.capture.kms_card,
            }),
        },
{
    let capture: CapturePlan = match config.capture.backend {
        CaptureBackend::Portal => CapturePlan::Portal,
        CaptureBackend::Kms => {
            let card: Option<String> = match &config.capture.kms_card {
                Some(c) => Some(c.clone()),
                None => None,
            };
            CapturePlan::Kms { card }
        },
    };
    StartPlan {
        capture,
        target_fps: config.capture.target_fps,
        zone_count: config.led_matrix.zones.len(),
        tray: !args.headless,
    }
}

/// A filter of the environment is taken whatever the others are, then one of the command line, then
/// one of the configuration; without any, the agent's own messages are shown in detail.
pub proof fn filters_are_taken_in_order(
    f: Seq<char>,
    cli: Option<Seq<char>>,
    config: Option<Seq<char>>,
)
    ensures
        filter_of(Some(f), cli, config) == f,
        filter_of(None, Some(f), config) == f,
        filter_of(None, None, Some(f)) == f,
        filter_of(None, None, None) == "info,rustiferin=debug"@,
{
}

} // verus!
