use rustiferin::config::schema::{Config, GeneralConfig, MqttConfig};
use rustiferin::output::fake::FakeOutput;
use rustiferin::output::mqtt::{
    blackout_message, build_options, frame_message, permute_for_strip, publish_interval,
    state_on_message, Delivery, ExitReason, LinkDriver, LinkEvent, LinkFault, LinkNext,
    OptionsError, OutputSession, OutputTask, PublishAction, PublishEvent, PublishGate, Publisher,
};
use rustiferin::output::protocol::{encode_state_off, encode_state_on, encode_stream};
use rustiferin::output::OutputState;
use rustiferin::pipeline::{LedColor, LedFrame};

const MS: u64 = 1_000_000;

fn cfg(broker: &str, device: &str, base: &str) -> Config {
    Config {
        general: GeneralConfig {
            device_name: device.into(),
            ..Default::default()
        },
        mqtt: MqttConfig {
            broker_url: broker.into(),
            topic_base: base.into(),
            ..Default::default()
        },
        ..Default::default()
    }
}

#[test]
fn build_options_parses_plain_mqtt_url() {
    let c = cfg(
        "mqtt://broker.local:1884",
        "strip-a",
        "lights/glowwormluciferin",
    );
    let opts = build_options(&c).expect("ok");
    assert_eq!(opts.host, "broker.local");
    assert_eq!(opts.port, 1884);
    assert_eq!(opts.client_id, "strip-a-rustiferin");
    assert_eq!(opts.keep_alive_secs, 15);
    assert_eq!(opts.inflight, 2);
    assert_eq!(opts.credentials, None);
}

#[test]
fn build_options_defaults_mqtts_port_to_8883() {
    let c = cfg("mqtts://example.com", "strip-a", "lights/glowwormluciferin");
    let opts = build_options(&c).expect("ok");
    assert_eq!(opts.host, "example.com");
    assert_eq!(opts.broker_address().1, 8883);
}

#[test]
fn build_options_defaults_mqtt_port_to_1883() {
    let c = cfg("mqtt://example.com", "strip-a", "lights/glowwormluciferin");
    let opts = build_options(&c).expect("ok");
    assert_eq!(opts.broker_address().1, 1883);
}

#[test]
fn build_options_takes_whole_credentials_only() {
    let mut c = cfg("mqtt://example.com", "strip-a", "base");
    c.mqtt.username = Some("me".into());
    assert_eq!(build_options(&c).expect("ok").credentials, None);
    c.mqtt.password = Some("word".into());
    assert_eq!(
        build_options(&c).expect("ok").credentials,
        Some(("me".to_string(), "word".to_string()))
    );
}

#[test]
fn build_options_reports_what_is_wrong() {
    assert!(matches!(
        build_options(&cfg("::not a url", "d", "b")),
        Err(OptionsError::InvalidUrl(_))
    ));
    assert_eq!(
        build_options(&cfg("mqtt:///path", "d", "b")),
        Err(OptionsError::MissingHost)
    );
}

#[test]
fn gate_returns_zero_when_already_past_due() {
    let now = 7_000 * MS;
    let gate = PublishGate::new(30, now);
    assert_eq!(gate.wait_from(now + 100 * MS), 0);
}

#[test]
fn gate_returns_remaining_wait_when_not_yet_due() {
    let now = 7_000 * MS;
    let mut gate = PublishGate::new(30, now); // 33ms interval
    gate.advance(now); // next_allowed = now + 33ms
    let elapsed = 10 * MS;
    let wait = gate.wait_from(now + elapsed);
    assert!(
        wait >= 20 * MS && wait <= 24 * MS,
        "expected ~23ms remaining, got {wait:?}"
    );
}

#[test]
fn gate_advance_pushes_next_allowed_forward_by_interval() {
    let now = 7_000 * MS;
    let mut gate = PublishGate::new(30, now);
    gate.advance(now);
    let wait_immediately_after = gate.wait_from(now);
    // 30 fps = 33.3ms interval, so the wait should be ~33ms.
    assert!(
        wait_immediately_after >= 32 * MS && wait_immediately_after <= 34 * MS,
        "expected ~33ms, got {wait_immediately_after:?}"
    );
}

#[test]
fn gate_with_zero_target_fps_never_waits() {
    let now = 7_000 * MS;
    let mut gate = PublishGate::new(0, now);
    gate.advance(now);
    assert_eq!(gate.wait_from(now + MS), 0);
}

#[test]
fn intervals_are_whole_microseconds() {
    assert_eq!(publish_interval(0), 0);
    assert_eq!(publish_interval(1), 1_000_000_000);
    assert_eq!(publish_interval(30), 33_333_000);
    assert_eq!(publish_interval(2_000_000), 0);
}

fn four() -> Vec<LedColor> {
    vec![
        LedColor::new(1, 1, 1),
        LedColor::new(2, 2, 2),
        LedColor::new(3, 3, 3),
        LedColor::new(4, 4, 4),
    ]
}

#[test]
fn permute_offset_zero_no_reverse_is_identity() {
    let colors = four();
    let mut scratch = Vec::new();
    let out = permute_for_strip(&colors, 0, false, &mut scratch);
    assert_eq!(out, colors.as_slice());
    assert!(
        scratch.is_empty(),
        "identity case must not touch scratch buffer"
    );
}

#[test]
fn permute_offset_rotates_left() {
    let colors = four();
    let mut scratch = Vec::new();
    let out = permute_for_strip(&colors, 1, false, &mut scratch);
    assert_eq!(
        out,
        [
            LedColor::new(2, 2, 2),
            LedColor::new(3, 3, 3),
            LedColor::new(4, 4, 4),
            LedColor::new(1, 1, 1),
        ]
    );
}

#[test]
fn permute_reverse_then_rotate_matches_firefly_order() {
    // Reverse first, then rotate left by `start_offset`: [1,2,3,4] with offset=1, reverse=true
    // yields [4,3,2,1] after reverse -> [3,2,1,4] after left-rotate by 1.
    let colors = four();
    let mut scratch = Vec::new();
    let out = permute_for_strip(&colors, 1, true, &mut scratch);
    assert_eq!(
        out,
        [
            LedColor::new(3, 3, 3),
            LedColor::new(2, 2, 2),
            LedColor::new(1, 1, 1),
            LedColor::new(4, 4, 4),
        ]
    );
}

#[test]
fn permute_scratch_buffer_is_reused_across_calls() {
    let colors = vec![LedColor::new(1, 2, 3); 8];
    let mut scratch = Vec::with_capacity(8);
    let cap_before = scratch.capacity();
    let _ = permute_for_strip(&colors, 1, false, &mut scratch);
    let _ = permute_for_strip(&colors, 2, true, &mut scratch);
    assert_eq!(scratch.capacity(), cap_before);
}

#[test]
fn permute_takes_the_offset_round_the_strip() {
    let colors = four();
    let mut scratch = Vec::new();
    assert_eq!(
        permute_for_strip(&colors, 6, false, &mut scratch).to_vec(),
        vec![colors[2], colors[3], colors[0], colors[1]]
    );
    assert!(permute_for_strip(&[], 3, true, &mut scratch).is_empty());
}

#[test]
fn default_topic_base_matches_stock_glow_worm() {
    let cfg = Config::default();
    assert_eq!(cfg.mqtt.topic_base, "lights/glowwormluciferin");
}

fn led(r: u8, g: u8, b: u8) -> LedColor {
    LedColor { r, g, b }
}

#[test]
fn encode_stream_one_led_golden() {
    let mut s = String::new();
    encode_stream(&[led(10, 20, 30)], 255, &mut s);
    // 10<<16 | 20<<8 | 30 = 660510
    assert_eq!(s, "1,255,660510,0");
}

#[test]
fn encode_stream_three_leds_golden() {
    let mut s = String::new();
    encode_stream(
        &[led(0, 0, 0), led(255, 255, 255), led(1, 2, 3)],
        128,
        &mut s,
    );
    // 0, 255<<16|255<<8|255 = 16777215, 1<<16|2<<8|3 = 66051
    assert_eq!(s, "3,128,0,16777215,66051,0");
}

#[test]
fn encode_stream_zero_leds_golden() {
    let mut s = String::new();
    encode_stream(&[], 255, &mut s);
    assert_eq!(s, "0,255,0");
}

#[test]
fn encode_stream_reuses_scratch_buffer() {
    let mut s = String::with_capacity(128);
    let cap_before = s.capacity();
    encode_stream(&[led(1, 2, 3)], 255, &mut s);
    encode_stream(&[led(4, 5, 6)], 255, &mut s);
    // 4<<16|5<<8|6 = 263430
    assert_eq!(s, "1,255,263430,0");
    assert_eq!(
        s.capacity(),
        cap_before,
        "encode_stream must not allocate on reuse"
    );
}

#[test]
fn encode_stream_well_formed_for_any_input() {
    let mut state: u64 = 5;
    for case in 0..60usize {
        let leds: Vec<LedColor> = (0..case * 8)
            .map(|_| {
                state = state
                    .wrapping_mul(6364136223846793005)
                    .wrapping_add(1442695040888963407);
                led((state >> 56) as u8, (state >> 48) as u8, (state >> 40) as u8)
            })
            .collect();
        let brightness = (state >> 32) as u8;
        let mut s = String::new();
        encode_stream(&leds, brightness, &mut s);

        // First token is the LED count, second is brightness, last is "0".
        let parts: Vec<&str> = s.split(',').collect();
        assert_eq!(parts.len(), leds.len() + 3, "expected N+3 comma-separated tokens");
        assert_eq!(parts[0].parse::<u32>().unwrap(), leds.len() as u32);
        assert_eq!(parts[1].parse::<u8>().unwrap(), brightness);
        assert_eq!(*parts.last().unwrap(), "0");

        // Middle tokens round-trip back to LedColor.
        for (i, led) in leds.iter().enumerate() {
            let packed = parts[i + 2].parse::<u32>().unwrap();
            assert_eq!(((packed >> 16) & 0xFF) as u8, led.r);
            assert_eq!(((packed >> 8) & 0xFF) as u8, led.g);
            assert_eq!((packed & 0xFF) as u8, led.b);
        }
    }
}

#[test]
fn encode_state_on_without_mac_golden() {
    let mut s = String::new();
    encode_state_on(&mut s, None, 200);
    assert_eq!(
        s,
        r#"{"state":"ON","effect":"GlowWormWifi","ffeffect":"Bias light","brightness":200}"#
    );
}

#[test]
fn encode_state_on_with_mac_golden() {
    let mut s = String::new();
    encode_state_on(&mut s, Some("AC:A7:04:BB:F4:9C"), 255);
    assert_eq!(
        s,
        r#"{"state":"ON","effect":"GlowWormWifi","ffeffect":"Bias light","MAC":"AC:A7:04:BB:F4:9C","brightness":255}"#
    );
}

#[test]
fn encode_state_on_uses_glowworm_wifi_effect() {
    // The firmware enters stream-consumer mode only when `effect` is the literal `GlowWormWifi`.
    let mut s = String::new();
    encode_state_on(&mut s, None, 128);
    assert!(s.contains("\"effect\":\"GlowWormWifi\""));
}

#[test]
fn encode_state_off_without_mac_golden() {
    let mut s = String::new();
    encode_state_off(&mut s, None);
    assert_eq!(s, r#"{"state":"OFF","effect":"solid","brightness":0}"#);
}

#[test]
fn encode_state_off_with_mac_golden() {
    let mut s = String::new();
    encode_state_off(&mut s, Some("AC:A7:04:BB:F4:9C"));
    assert_eq!(
        s,
        r#"{"state":"OFF","effect":"solid","MAC":"AC:A7:04:BB:F4:9C","brightness":0}"#
    );
}

#[test]
fn encode_state_off_uses_solid_effect() {
    // The firmware leaves stream-consumer mode only when `effect` flips to a non-stream value.
    let mut s = String::new();
    encode_state_off(&mut s, None);
    assert!(s.contains("\"effect\":\"solid\""));
    assert!(s.contains("\"state\":\"OFF\""));
}

#[test]
fn encode_state_on_reuses_scratch_buffer() {
    let mut s = String::with_capacity(256);
    let cap_before = s.capacity();
    encode_state_on(&mut s, Some("AA:BB:CC:DD:EE:FF"), 255);
    encode_state_on(&mut s, None, 128);
    assert!(s.contains("\"brightness\":128"));
    assert!(!s.contains("MAC"));
    assert_eq!(
        s.capacity(),
        cap_before,
        "encode_state_on must not allocate on reuse"
    );
}

#[test]
fn messages_go_to_their_topics() {
    let mut c = cfg("mqtt://h", "d", "base");
    c.mqtt.device_mac = Some("AA".into());
    c.color.brightness_max = 100;
    c.led_matrix.reverse = true;
    let on = state_on_message(&c);
    assert_eq!(on.topic, "base/set");
    assert!(on.payload.contains("\"MAC\":\"AA\",\"brightness\":100"));
    assert_eq!((on.delivery, on.retain), (Delivery::AtMostOnce, true));
    let off = blackout_message(&c);
    assert_eq!(off.topic, "base/set");
    assert_eq!((off.delivery, off.retain), (Delivery::AtLeastOnce, true));
    assert!(off.payload.contains("\"state\":\"OFF\""));
    let frame = LedFrame {
        colors: vec![led(0, 0, 1), led(0, 0, 2)],
        frame_number: 1,
    };
    let m = frame_message(&c, &frame, &mut Vec::new());
    assert_eq!(m.topic, "base/set/stream");
    assert_eq!(m.payload, "2,100,2,1,0");
    assert_eq!((m.delivery, m.retain), (Delivery::AtMostOnce, false));
}

#[test]
fn the_publisher_spaces_frames() {
    let mut p = Publisher::new(50, 0);
    assert_eq!(
        p.on_event(PublishEvent::FrameReady { now: 0 }),
        PublishAction::PublishFrame
    );
    assert_eq!(
        p.on_event(PublishEvent::Published { now: 0 }),
        PublishAction::Listen
    );
    assert_eq!(
        p.on_event(PublishEvent::FrameReady { now: 5 * MS }),
        PublishAction::Wait(15 * MS)
    );
    assert_eq!(p.on_event(PublishEvent::Waited), PublishAction::PublishFrame);
    assert_eq!(p.on_event(PublishEvent::Heartbeat), PublishAction::Announce);
    assert_eq!(
        p.on_event(PublishEvent::Cancelled),
        PublishAction::Exit(ExitReason::Cancelled)
    );
    assert_eq!(
        p.on_event(PublishEvent::PipelineGone),
        PublishAction::Exit(ExitReason::PipelineGone)
    );
}

#[test]
fn a_dropped_frame_leaves_the_gate_as_it_was() {
    let mut p = Publisher::new(50, 0);
    p.on_event(PublishEvent::FrameReady { now: 0 });
    assert_eq!(p.on_event(PublishEvent::Dropped), PublishAction::Listen);
    assert_eq!(
        p.on_event(PublishEvent::FrameReady { now: 5 * MS }),
        PublishAction::PublishFrame
    );
}

#[test]
fn every_reconnect_announces_the_strip() {
    let mut d = LinkDriver::new();
    assert!(!d.on_event(LinkEvent::Broken(LinkFault::Other)).announce);
    assert!(!d.on_event(LinkEvent::Accepted).announce);
    assert!(!d.on_event(LinkEvent::Broken(LinkFault::Other)).announce);
    assert!(d.on_event(LinkEvent::Accepted).announce);
    assert!(!d.on_event(LinkEvent::Other).announce);
    assert!(!d.on_event(LinkEvent::Closed).announce);
    assert!(d.on_event(LinkEvent::Accepted).announce);
    assert!(!d.on_event(LinkEvent::DisconnectSent).announce);
    let mut p = Publisher::new(50, 0);
    assert_eq!(
        p.on_event(PublishEvent::Reconnected),
        PublishAction::Announce
    );
}

#[test]
fn the_link_backs_off_and_recovers() {
    let mut d = LinkDriver::new();
    let first = d.on_event(LinkEvent::Accepted);
    assert!(!first.count_reconnect);
    assert_eq!(first.show, Some(OutputState::Connected));
    let mut waits = Vec::new();
    for fault in [LinkFault::Other, LinkFault::Tls, LinkFault::NotConnAck] {
        let s = d.on_event(LinkEvent::Broken(fault));
        waits.push((s.show, s.next));
    }
    assert_eq!(
        waits,
        vec![
            (Some(OutputState::Disconnected), LinkNext::PollAfter(1)),
            (Some(OutputState::Failed), LinkNext::PollAfter(2)),
            (Some(OutputState::Failed), LinkNext::PollAfter(4)),
        ]
    );
    d.on_event(LinkEvent::Accepted);
    assert!(d.on_event(LinkEvent::Accepted).count_reconnect);
    assert_eq!(
        d.on_event(LinkEvent::Broken(LinkFault::MqttState)).next,
        LinkNext::PollAfter(1)
    );
    assert_eq!(
        d.on_event(LinkEvent::Closed).show,
        Some(OutputState::Disconnected)
    );
    assert_eq!(d.on_event(LinkEvent::Other).show, None);
    assert_eq!(d.on_event(LinkEvent::DisconnectSent).next, LinkNext::Stop);
}

#[test]
fn a_session_turns_the_strip_off_before_it_ends() {
    let mut s = OutputSession::new(false);
    let mut tasks = Vec::new();
    while s.task() != OutputTask::End {
        tasks.push(s.task());
        s.done(false);
    }
    assert_eq!(
        tasks,
        vec![
            OutputTask::Connect,
            OutputTask::Announce,
            OutputTask::Stream,
            OutputTask::Blackout,
            OutputTask::Disconnect,
            OutputTask::AwaitDriver(2),
            OutputTask::StopDriver,
        ]
    );
    assert_eq!(OutputSession::new(true).task(), OutputTask::End);
}

#[test]
fn a_driver_in_time_is_not_stopped() {
    let mut s = OutputSession::new(false);
    while s.task() != OutputTask::AwaitDriver(2) {
        s.done(true);
    }
    s.done(true);
    assert_eq!(s.task(), OutputTask::End);
}

#[test]
fn fake_output_keeps_what_it_saw() {
    let mut o = FakeOutput::new();
    o.record(LedFrame::black(2, 1));
    o.record(LedFrame::black(1, 2));
    let numbers: Vec<u64> = o.frames().iter().map(|f| f.frame_number).collect();
    assert_eq!(numbers, vec![1, 2]);
    assert_eq!(o.frames()[0].colors, vec![led(0, 0, 0); 2]);
}

#[test]
fn the_gate_waits_for_the_rest_of_the_interval() {
    let start = 7 * MS;
    let mut gate = PublishGate::new(30, start);
    assert_eq!(gate.wait_from(start), 0);
    gate.advance(start);
    // 33,333 microseconds less the ten milliseconds that have passed.
    assert_eq!(gate.wait_from(start + 10 * MS), 23_333_000);
    assert_eq!(gate.wait_from(start + 33_333_000), 0);
    let mut open = PublishGate::new(0, start);
    open.advance(start);
    assert_eq!(open.wait_from(start), 0);
}
