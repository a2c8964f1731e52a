//! What the strip gets to see, and what becomes of the connection to it.

use vstd::prelude::*;
use vstd::arithmetic::div_mod::*;

use crate::backoff;
use crate::config::broker;
use crate::config::schema::Config;
use crate::pipeline::LedColor;
use crate::text;

use super::mqtt;
use super::mqtt::{
    BrokerOptions, LinkEvent, LinkFault, LinkNext, LinkState, OptionsError, OutputPhase, OutputTask,
};
use super::protocol;
use super::OutputState;

verus! {

/// The strip's LEDs show the zones one after the other and round in a circle, starting from the
/// offset; a strip that runs against them shows them from the last to the first, starting as far
/// from the end.
pub proof fn strip_goes_round_from_the_offset(
    colors: Seq<LedColor>,
    start_offset: u32,
    reverse: bool,
    k: int,
)
    requires
        0 <= k < colors.len(),
    ensures
        ({
            let n = colors.len() as int;
            let zone = (k + start_offset) % n;
            let strip = mqtt::permuted(colors, start_offset, reverse);
            &&& strip.len() == n
            &&& strip[k] == colors[if reverse {
                n - 1 - zone
            } else {
                zone
            }]
        }),
{
    let n = colors.len() as int;
    let o = start_offset as int % n;
    lemma_add_mod_noop_right(k, start_offset as int, n);
    if k + o < n {
        lemma_small_mod((k + o) as nat, n as nat);
    } else {
        lemma_mod_sub_multiples_vanish(k + o, n);
        lemma_small_mod((k + o - n) as nat, n as nat);
    }
}

/// Frames are a period of the frame rate apart, cut to whole microseconds; without a rate, no time
/// at all.
pub proof fn interval_is_the_period(target_fps: u32)
    ensures
        ({
            let ns = mqtt::interval_of(target_fps);
            &&& target_fps == 0 ==> ns == 0
            &&& target_fps > 0 ==> ns * target_fps <= 1_000_000_000 < (ns + 1000) * target_fps
            &&& ns % 1000 == 0
        }),
{
    if target_fps > 0 {
        let f = target_fps as int;
        let q = 1_000_000int / f;
        let ns = 1000 * q;
        assert(ns * f <= 1_000_000_000 < (ns + 1000) * f) by (nonlinear_arith)
            requires
                q == 1_000_000int / f,
                ns == 1000 * q,
                f > 0,
        {
            assert(f * q <= 1_000_000);
            assert(1_000_000 < f * (q + 1));
            assert(ns * f == 1000 * (f * q));
            assert((ns + 1000) * f == 1000 * (f * (q + 1)));
        }
        lemma_mod_multiples_basic(q, 1000);
    }
}

/// A stream message holds, as comma-separated numbers, how many LEDs there are, how bright they
/// are at most, one number for every LED in its place, and a zero. In an LED's number, red counts
/// in 65536s, green in 256s and blue in ones.
pub proof fn stream_holds_every_color(leds: Seq<LedColor>, brightness: u8, i: int)
    requires
        0 <= i < leds.len() <= u32::MAX,
    ensures
        ({
            let f = protocol::fields(protocol::stream_text(leds, brightness));
            &&& f.len() == leds.len() + 3
            &&& f[0] == leds.len()
            &&& f[1] == brightness
            &&& f[2 + i] / 0x1_0000 == leds[i].r
            &&& f[2 + i] / 0x100 % 0x100 == leds[i].g
            &&& f[2 + i] % 0x100 == leds[i].b
            &&& f.last() == 0
        }),
{
    protocol::stream_reads_back(leds, brightness);
}

/// Whether a text starts with another.
pub open spec fn starts_with(t: Seq<char>, head: Seq<char>) -> bool {
    t.len() >= head.len() && t.take(head.len() as int) == head
}

/// Whether a text ends with another.
pub open spec fn ends_with(t: Seq<char>, tail: Seq<char>) -> bool {
    t.len() >= tail.len() && t.skip(t.len() - tail.len()) == tail
}

/// The announcements say ON and OFF first, and how bright the strip is last: as bright as the
/// limit allows, or not at all.
pub proof fn announcements_turn_the_strip_on_and_off(mac: Option<Seq<char>>, brightness: u8)
    ensures
        starts_with(
            protocol::state_on_text(mac, brightness),
            "{\"state\":\"ON\",\"effect\":\"GlowWormWifi\",\"ffeffect\":\"Bias light\""@,
        ),
        ends_with(
            protocol::state_on_text(mac, brightness),
            ",\"brightness\":"@ + text::decimal(brightness as int) + "}"@,
        ),
        starts_with(protocol::state_off_text(mac), "{\"state\":\"OFF\",\"effect\":\"solid\""@),
        ends_with(protocol::state_off_text(mac), ",\"brightness\":0}"@),
{
    let on = protocol::state_on_text(mac, brightness);
    let head = "{\"state\":\"ON\",\"effect\":\"GlowWormWifi\",\"ffeffect\":\"Bias light\""@;
    let tail = ",\"brightness\":"@ + text::decimal(brightness as int) + "}"@;
    assert(on =~= head + protocol::mac_text(mac) + tail);
    assert(on.take(head.len() as int) =~= head);
    assert(on.skip(on.len() - tail.len()) =~= tail);
    let off = protocol::state_off_text(mac);
    let first = "{\"state\":\"OFF\",\"effect\":\"solid\""@;
    let last = ",\"brightness\":0}"@;
    assert(off =~= first + protocol::mac_text(mac) + last);
    assert(off.take(first.len() as int) =~= first);
    assert(off.skip(off.len() - last.len()) =~= last);
}

/// An announcement to one device is the one to all with the device's address put in before the
/// brightness, and nothing else is different.
pub proof fn announcements_name_their_device(mac: Seq<char>, brightness: u8)
    ensures
        ({
            let on = protocol::state_on_text(None, brightness);
            let off = protocol::state_off_text(None);
            let address = ",\"MAC\":\""@ + mac + "\""@;
            let at = on.len() - (",\"brightness\":"@ + text::decimal(brightness as int) + "}"@).len();
            let off_at = off.len() - ",\"brightness\":0}"@.len();
            &&& 0 <= at
            &&& 0 <= off_at
            &&& protocol::state_on_text(Some(mac), brightness) == on.take(at) + address + on.skip(at)
            &&& protocol::state_off_text(Some(mac)) == off.take(off_at) + address + off.skip(off_at)
        }),
{
    let on = protocol::state_on_text(None, brightness);
    let head = "{\"state\":\"ON\",\"effect\":\"GlowWormWifi\",\"ffeffect\":\"Bias light\""@;
    let tail = ",\"brightness\":"@ + text::decimal(brightness as int) + "}"@;
    let address = ",\"MAC\":\""@ + mac + "\""@;
    assert(on =~= head + tail);
    let at = on.len() - tail.len();
    assert(on.take(at) =~= head);
    assert(on.skip(at) =~= tail);
    assert(protocol::state_on_text(Some(mac), brightness) =~= head + address + tail);
    let off = protocol::state_off_text(None);
    let first = "{\"state\":\"OFF\",\"effect\":\"solid\""@;
    let last = ",\"brightness\":0}"@;
    assert(off =~= first + last);
    let off_at = off.len() - last.len();
    assert(off.take(off_at) =~= first);
    assert(off.skip(off_at) =~= last);
    assert(protocol::state_off_text(Some(mac)) =~= first + address + last);
}

/// A broker is reached at the port of its URL; without one at 8883 under TLS and else at 1883.
/// Credentials are given where there are both a name and a password, and the client is called
/// after the device. The connection is kept alive every 15 seconds and has two messages in flight
/// at most.
pub proof fn connection_follows_the_configuration(
    r: Result<BrokerOptions, OptionsError>,
    cfg: Config,
    parts: broker::UrlParts,
)
    requires
        mqtt::options_outcome(r, cfg, Ok(parts)),
    ensures
        r is Ok <==> parts.host is Some,
        r matches Ok(o) ==> {
            &&& Some(o.host@) == parts.host
            &&& parts.port is Some ==> parts.port == Some(o.port)
            &&& parts.port is None && parts.scheme == "mqtts"@ ==> o.port == 8883
            &&& parts.port is None && parts.scheme != "mqtts"@ ==> o.port == 1883
            &&& o.client_id@ == cfg.general.device_name@ + "-rustiferin"@
            &&& o.keep_alive_secs == 15
            &&& o.inflight == 2
            &&& o.credentials is Some <==> cfg.mqtt.username is Some && cfg.mqtt.password is Some
            &&& o.credentials matches Some(c) ==> c.0@ == cfg.mqtt.username->0@ && c.1@
                == cfg.mqtt.password->0@
        },
{
}

/// Whether an event tells that the connection stands or that it does not.
pub open spec fn tells(e: LinkEvent) -> bool {
    e is Accepted || e is Closed || e is Broken
}

/// The connection before anything happened.
pub open spec fn fresh() -> LinkState {
    LinkState { connected: false, accepted: false, failures: 0 }
}

/// An acceptance counts as a reconnect where the connection stood already: where an acceptance is
/// the last that was told of it. Nothing else counts.
pub proof fn reconnects_are_acceptances_of_a_standing_connection(
    before: Seq<LinkEvent>,
    last: LinkEvent,
    since: Seq<LinkEvent>,
    e: LinkEvent,
)
    requires
        tells(last),
        forall|i: int| 0 <= i < since.len() ==> !tells(#[trigger] since[i]),
    ensures
        mqtt::link_step(mqtt::link_at(fresh(), before.push(last) + since), e).count_reconnect <==> (e
            is Accepted && last is Accepted),
    decreases since.len(),
{
    let events = before.push(last) + since;
    if since.len() == 0 {
        assert(events =~= before.push(last));
        assert(events.drop_last() =~= before);
    } else {
        reconnects_are_acceptances_of_a_standing_connection(before, last, since.drop_last(), e);
        assert(events.drop_last() =~= before.push(last) + since.drop_last());
        assert(events.last() == since.last());
        assert(!tells(since[since.len() - 1]));
    }
}

/// What is shown of the connection: that it stands when it is accepted, that it failed where the
/// protocol, TLS or the broker refused it, and that it is gone when it is closed or broke
/// otherwise. Other events show nothing.
pub proof fn connection_shows_its_state(s: LinkState, e: LinkEvent)
    ensures
        mqtt::link_step(s, e).show == match e {
            LinkEvent::Accepted => Some(OutputState::Connected),
            LinkEvent::Closed => Some(OutputState::Disconnected),
            LinkEvent::DisconnectSent => Some(OutputState::Disconnected),
            LinkEvent::Broken(LinkFault::MqttState) => Some(OutputState::Failed),
            LinkEvent::Broken(LinkFault::Tls) => Some(OutputState::Failed),
            LinkEvent::Broken(LinkFault::NotConnAck) => Some(OutputState::Failed),
            LinkEvent::Broken(LinkFault::Other) => Some(OutputState::Disconnected),
            LinkEvent::Other => None,
        },
{
}

/// A connection that breaks again and again without being accepted waits 1, 2, 4, 8 and 16
/// seconds, and 30 from there on.
pub proof fn broken_connections_wait_longer_and_longer(s: LinkState, faults: Seq<LinkFault>)
    requires
        s.failures == 0,
        faults.len() > 0,
    ensures
        ({
            let events = faults.map_values(|f: LinkFault| LinkEvent::Broken(f));
            let n = faults.len() as int;
            let wait = mqtt::link_step(mqtt::link_at(s, events.drop_last()), events.last()).next;
            wait == LinkNext::PollAfter(
                if n == 1 {
                    1
                } else if n == 2 {
                    2
                } else if n == 3 {
                    4
                } else if n == 4 {
                    8
                } else if n == 5 {
                    16
                } else {
                    30
                },
            )
        }),
{
    let before = faults.drop_last();
    let events = faults.map_values(|f: LinkFault| LinkEvent::Broken(f));
    assert(events.drop_last() =~= before.map_values(|f: LinkFault| LinkEvent::Broken(f)));
    lemma_failures(s, before);
    backoff::waits_double_up_to_the_longest(before.len() as int);
}

proof fn lemma_failures(s: LinkState, faults: Seq<LinkFault>)
    ensures
        mqtt::link_at(s, faults.map_values(|f: LinkFault| LinkEvent::Broken(f))).failures
            == s.failures + faults.len(),
    decreases faults.len(),
{
    let events = faults.map_values(|f: LinkFault| LinkEvent::Broken(f));
    if faults.len() > 0 {
        let before = faults.drop_last();
        lemma_failures(s, before);
        assert(events.drop_last() =~= before.map_values(|f: LinkFault| LinkEvent::Broken(f)));
    }
}

/// A session connects, announces the strip, publishes, turns the strip off, disconnects and waits
/// for the driver, two seconds at most, in this order; a driver that takes longer is stopped. Then
/// it is over and stays so.
pub proof fn sessions_run_from_connecting_to_the_end(done: Seq<bool>)
    requires
        done.len() == 7,
    ensures
        ({
            let task = |k: int| mqtt::task_of(mqtt::phase_at(OutputPhase::Start, done.take(k)));
            &&& task(0) == OutputTask::Connect
            &&& task(1) == OutputTask::Announce
            &&& task(2) == OutputTask::Stream
            &&& task(3) == OutputTask::Blackout
            &&& task(4) == OutputTask::Disconnect
            &&& task(5) == OutputTask::AwaitDriver(2)
            &&& task(6) == if done[5] {
                OutputTask::End
            } else {
                OutputTask::StopDriver
            }
            &&& task(7) == OutputTask::End
            &&& forall|in_time: bool|
                #[trigger] mqtt::task_of(mqtt::phase_after(OutputPhase::Over, in_time))
                    == OutputTask::End
        }),
{
    let p = OutputPhase::Start;
    assert(done.take(0) =~= Seq::<bool>::empty());
    assert(done.take(1).drop_last() =~= done.take(0));
    assert(done.take(2).drop_last() =~= done.take(1));
    assert(done.take(3).drop_last() =~= done.take(2));
    assert(done.take(4).drop_last() =~= done.take(3));
    assert(done.take(5).drop_last() =~= done.take(4));
    assert(done.take(6).drop_last() =~= done.take(5));
    assert(done.take(7).drop_last() =~= done.take(6));
    assert(mqtt::phase_at(p, done.take(0)) == OutputPhase::Start);
    assert(mqtt::phase_at(p, done.take(1)) == OutputPhase::Announcing);
    assert(mqtt::phase_at(p, done.take(2)) == OutputPhase::Streaming);
    assert(mqtt::phase_at(p, done.take(3)) == OutputPhase::Darkening);
    assert(mqtt::phase_at(p, done.take(4)) == OutputPhase::Disconnecting);
    assert(mqtt::phase_at(p, done.take(5)) == OutputPhase::Draining);
}

/// A setting is sent as it is.
pub proof fn settings_are_sent_as_they_are(s: String, t: &str)
    ensures
        mqtt::setting_text(Some(s)) == Some(s@),
        mqtt::setting_text(None) is None,
        protocol::optional_text(Some(t)) == Some(t@),
        protocol::optional_text(None) is None,
{
}

} // verus!
