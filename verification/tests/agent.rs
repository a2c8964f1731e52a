use rustiferin::app::{log_filter, start_plan, Args, CapturePlan};
use rustiferin::config::schema::{CaptureBackend, Config, PowerConfig};
use rustiferin::float::F32;
use rustiferin::output::OutputState;
use rustiferin::pipeline::PipelineCommand;
use rustiferin::power::{
    command_for, idle_timeout_ms, is_enabled, PowerEvent, PowerMonitor, PowerSignal, PowerState,
};
use rustiferin::runtime::BrightnessGain;
use rustiferin::shutdown::{reported_outcome, Ledger, TaskError, TaskOutcome};
use rustiferin::stats::{Aggregator, Metrics, Stats};
use rustiferin::text::{is_before, trim};
use rustiferin::tray::{
    brightness_gain_labels, brightness_gain_presets, closest_preset_index, select_preset,
    tray_step, MenuEntry, RouterAction, TrayCommand, TrayEvent, TrayModel, TrayRouter, TrayStep,
};

fn f(x: f32) -> F32 {
    F32 { bits: x.to_bits() }
}

#[test]
fn initial_state_is_active() {
    let s = PowerState::new();
    assert_eq!(s.current(), PowerEvent::Active);
}

#[test]
fn screensaver_true_emits_idle() {
    let mut s = PowerState::new();
    assert_eq!(s.observe_screensaver(true), Some(PowerEvent::Idle));
}

#[test]
fn screensaver_back_to_false_emits_active() {
    let mut s = PowerState::new();
    s.observe_screensaver(true);
    assert_eq!(s.observe_screensaver(false), Some(PowerEvent::Active));
}

#[test]
fn wayland_idle_emits_idle_when_screensaver_inactive() {
    let mut s = PowerState::new();
    assert_eq!(s.observe_wayland(true), Some(PowerEvent::Idle));
}

#[test]
fn both_idle_does_not_double_emit() {
    let mut s = PowerState::new();
    assert_eq!(s.observe_screensaver(true), Some(PowerEvent::Idle));
    assert_eq!(s.observe_wayland(true), None);
}

#[test]
fn one_source_active_while_other_idle_keeps_idle() {
    let mut s = PowerState::new();
    s.observe_screensaver(true);
    s.observe_wayland(true);
    // Screensaver releases but wayland still idle: still Idle, no emit.
    assert_eq!(s.observe_screensaver(false), None);

    let mut s = PowerState::new();
    s.observe_screensaver(true);
    s.observe_wayland(true);
    // Wayland releases but screensaver still active: still Idle, no emit.
    assert_eq!(s.observe_wayland(false), None);
}

#[test]
fn both_sources_must_release_to_emit_active() {
    let mut s = PowerState::new();
    s.observe_screensaver(true);
    s.observe_wayland(true);
    assert_eq!(s.observe_screensaver(false), None);
    assert_eq!(s.observe_wayland(false), Some(PowerEvent::Active));
}

#[test]
fn repeated_same_value_does_not_emit() {
    let mut s = PowerState::new();
    assert_eq!(s.observe_screensaver(false), None);
    s.observe_screensaver(true);
    assert_eq!(s.observe_screensaver(true), None);
}

#[test]
fn the_pipeline_is_told_once_per_change() {
    let mut m = PowerMonitor::new(true, true);
    assert_eq!(
        m.on_signal(PowerSignal::Screensaver(true)),
        Some(PipelineCommand::Blackout)
    );
    assert_eq!(m.on_signal(PowerSignal::Wayland(true)), None);
    assert_eq!(m.on_signal(PowerSignal::Screensaver(false)), None);
    assert_eq!(
        m.on_signal(PowerSignal::Wayland(false)),
        Some(PipelineCommand::Resume)
    );
    assert_eq!(m.on_signal(PowerSignal::ScreensaverClosed), None);
    assert!(!m.listens_to_screensaver());
    assert!(m.listens_to_wayland());
    assert_eq!(command_for(PowerEvent::Idle), PipelineCommand::Blackout);
    assert_eq!(command_for(PowerEvent::Active), PipelineCommand::Resume);
}

#[test]
fn idle_settings_are_read() {
    let mut cfg = PowerConfig::default();
    cfg.respect_screensaver = false;
    cfg.idle_pause_after_secs = None;
    assert!(!is_enabled(&cfg));
    cfg.idle_pause_after_secs = Some(60);
    assert!(is_enabled(&cfg));
    assert_eq!(idle_timeout_ms(60), 60_000);
    assert_eq!(idle_timeout_ms(u64::MAX), u32::MAX);
}

#[test]
fn brightness_gain_round_trips() {
    let mut h = BrightnessGain::new(f(1.0));
    assert_eq!(h.load(), f(1.0));
    h.store(f(1.5));
    assert_eq!(h.load(), f(1.5));
    h.store(f(0.8));
    assert_eq!(h.load(), f(0.8));
}

#[test]
fn brightness_gain_default_is_one() {
    let h = BrightnessGain::default();
    assert_eq!(h.load(), f(1.0));
}

#[test]
fn default_stats_starts_at_zero() {
    let s = Stats::default();
    assert_eq!(s.capture_fps, f(0.0));
    assert_eq!(s.output_fps, f(0.0));
    assert_eq!(s.frames_dropped, 0);
    assert_eq!(s.output_state, OutputState::Connecting);
}

fn count(m: &mut Metrics, captured: u32, processed: u32, published: u32) {
    for _ in 0..captured {
        m.count_captured();
    }
    for _ in 0..processed {
        m.count_processed();
    }
    for _ in 0..published {
        m.count_published();
    }
}

#[test]
fn aggregator_publishes_per_second_deltas() {
    let mut metrics = Metrics::new();
    let mut agg = Aggregator::new();
    count(&mut metrics, 30, 28, 28);
    let s = agg.tick(&metrics, OutputState::Connected);
    assert_eq!(s.capture_fps, f(30.0));
    assert_eq!(s.output_fps, f(28.0));
    assert_eq!(s.frames_dropped, 2);
    assert_eq!(s.output_state, OutputState::Connected);
}

#[test]
fn aggregator_resets_deltas_between_ticks() {
    let mut metrics = Metrics::new();
    let mut agg = Aggregator::new();
    count(&mut metrics, 30, 30, 30);
    assert_eq!(
        agg.tick(&metrics, OutputState::Connected).capture_fps,
        f(30.0)
    );
    // Second window: 25 more; the delta must be 25, not 55.
    count(&mut metrics, 25, 25, 25);
    let s = agg.tick(&metrics, OutputState::Connected);
    assert_eq!(s.capture_fps, f(25.0));
    assert_eq!(s.output_fps, f(25.0));
    assert_eq!(s.frames_dropped, 0);
    assert_eq!(metrics.frames_captured(), 55);
    assert_eq!(metrics.frames_processed(), 55);
    assert_eq!(metrics.frames_published(), 55);
    metrics.count_reconnect();
    assert_eq!(metrics.mqtt_reconnects(), 1);
}

#[test]
fn the_first_error_is_kept() {
    let mut l = Ledger::new();
    l.register(1, "a".to_string());
    l.register(2, "b".to_string());
    l.register(3, "c".to_string());
    l.record(1, TaskOutcome::Done);
    l.record(2, TaskOutcome::Panicked);
    l.record(
        3,
        TaskOutcome::Errored(TaskError::Failed {
            name: "c".to_string(),
            source: "late".to_string(),
        }),
    );
    let e = l.into_result().expect_err("an error");
    assert_eq!(
        e,
        TaskError::Panicked {
            name: "b".to_string()
        }
    );
    assert_eq!(e.message(), "task `b` panicked");
}

#[test]
fn tasks_that_end_well_or_are_stopped_are_no_errors() {
    let mut l = Ledger::new();
    l.register(1, "a".to_string());
    l.record(1, TaskOutcome::Done);
    l.record(9, TaskOutcome::Stopped);
    assert_eq!(l.into_result(), Ok(()));
    let mut l = Ledger::new();
    l.record(9, TaskOutcome::Panicked);
    assert_eq!(
        l.into_result().expect_err("an error").message(),
        "task `unknown` panicked"
    );
}

#[test]
fn reports_of_threads_become_outcomes() {
    assert_eq!(reported_outcome("os".to_string(), Some(Ok(()))), Ok(()));
    let failed =
        reported_outcome("os".to_string(), Some(Err("os fail".to_string()))).expect_err("failed");
    assert_eq!(failed.message(), "task `os` failed");
    assert_eq!(
        failed,
        TaskError::Failed {
            name: "os".to_string(),
            source: "os fail".to_string()
        }
    );
    let gone = reported_outcome("oops".to_string(), None).expect_err("panicked");
    assert_eq!(gone.message(), "task `oops` panicked");
}

#[test]
fn presets_have_their_numbers() {
    let want = [0.8, 1.0, 1.2, 1.5, 2.0, 3.0];
    let got: Vec<f32> = brightness_gain_presets()
        .iter()
        .map(|p| f32::from_bits(p.bits))
        .collect();
    assert_eq!(got, want);
    assert_eq!(brightness_gain_labels().len(), want.len());
    for (i, v) in want.iter().enumerate() {
        assert_eq!(closest_preset_index(f(*v)), i);
        assert_eq!(
            select_preset(i),
            Some(TrayCommand::SetBrightnessGain(f(*v)))
        );
    }
    assert_eq!(select_preset(6), None);
    assert_eq!(closest_preset_index(f(100.0)), 5);
    assert_eq!(closest_preset_index(f(0.0)), 0);
    assert_eq!(closest_preset_index(f(1.09)), 1);
}

#[test]
fn the_menu_tells_what_follows() {
    let mut tray = TrayModel::new();
    let mut router = TrayRouter::new();
    assert!(matches!(
        &tray.menu(f(1.5))[0],
        MenuEntry::Item { label, command: TrayCommand::ToggleRun } if label == "Pause"
    ));
    assert!(matches!(
        &tray.menu(f(1.5))[2],
        MenuEntry::Choice { selected: 3, .. }
    ));
    let sent = tray.activate(TrayCommand::ToggleRun);
    assert_eq!(
        router.on_command(sent),
        RouterAction::Tell(PipelineCommand::Blackout)
    );
    assert!(!tray.is_running());
    assert!(matches!(
        &tray.menu(f(1.5))[0],
        MenuEntry::Item { label, .. } if label == "Resume"
    ));
    let sent = tray.activate(TrayCommand::ToggleRun);
    assert_eq!(
        router.on_command(sent),
        RouterAction::Tell(PipelineCommand::Resume)
    );
    assert_eq!(router.on_command(TrayCommand::Quit), RouterAction::Shutdown);
    assert_eq!(
        router.on_command(TrayCommand::OpenConfig),
        RouterAction::OpenConfig
    );
    assert_eq!(
        router.on_command(TrayCommand::SetBrightnessGain(f(2.0))),
        RouterAction::StoreGain(f(2.0))
    );
}

#[test]
fn a_failing_tray_service_takes_the_agent_down() {
    assert_eq!(tray_step(TrayEvent::StatsChanged), TrayStep::Refresh);
    assert_eq!(
        tray_step(TrayEvent::ServiceFailed("dbus session lost".to_string())),
        TrayStep::Fail("dbus session lost".to_string())
    );
    assert_eq!(
        tray_step(TrayEvent::ServiceEnded),
        TrayStep::Fail("the service ended unexpectedly".to_string())
    );
    assert_eq!(
        tray_step(TrayEvent::ServiceDropped),
        TrayStep::Fail("the service was dropped".to_string())
    );
    for e in [TrayEvent::Cancelled, TrayEvent::StatsGone] {
        assert_eq!(tray_step(e), TrayStep::Finish);
    }
}

#[test]
fn the_environment_wins_over_the_log_settings() {
    let s = |t: &str| Some(t.to_string());
    assert_eq!(log_filter(&s("a"), &s("b"), &s("c")), "a");
    assert_eq!(log_filter(&None, &s("b"), &s("c")), "b");
    assert_eq!(log_filter(&None, &None, &s("c")), "c");
    assert_eq!(log_filter(&None, &None, &None), "info,rustiferin=debug");
}

#[test]
fn the_start_follows_arguments_and_settings() {
    let args = Args {
        config: None,
        log_level: None,
        headless: true,
    };
    let mut cfg = Config::default();
    let p = start_plan(&args, &cfg);
    assert_eq!(p.capture, CapturePlan::Portal);
    assert!(!p.tray);
    assert_eq!(p.zone_count, cfg.led_matrix.zones.len());
    cfg.capture.backend = CaptureBackend::Kms;
    cfg.capture.kms_card = Some("/dev/dri/card1".to_string());
    assert_eq!(
        start_plan(&args, &cfg).capture,
        CapturePlan::Kms {
            card: Some("/dev/dri/card1".to_string())
        }
    );
}

#[test]
fn shorter_text_comes_first() {
    assert!(is_before("card2", "card10"));
    assert!(is_before("card1", "card2"));
    assert!(!is_before("card2", "card2"));
    assert_eq!(trim("  x y \n"), "x y");
}
