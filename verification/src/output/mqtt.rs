//! What is published to the broker, and when.

use vstd::prelude::*;
use vstd::string::*;

use crate::backoff;
use crate::backoff::{longer, BACKOFF_INITIAL, BACKOFF_MAX};
use crate::config::broker;
use crate::config::broker::{parse_url, BrokerUrl};
use crate::config::schema::Config;
use crate::pipeline::{LedColor, LedFrame};

use super::protocol;
use super::protocol::{encode_state_off, encode_state_on, encode_stream};
use super::OutputState;

verus! {

/// The keep-alive of the connection, in seconds.
pub const KEEP_ALIVE_SECS: u64 = 15;

/// The most messages in flight: enough to hide a round trip, and too few to queue stale frames.
pub const MAX_INFLIGHT: u16 = 2;

/// The length of the client's outgoing queue.
pub const OUTGOING_CHAN: usize = 32;

/// The time between two announcements, in seconds.
pub const STATE_HEARTBEAT_SECS: u64 = 5;

/// The time that the last messages get on shutdown, in seconds.
pub const SHUTDOWN_DRAIN_SECS: u64 = 2;

/// The port of a plain connection.
pub const PLAIN_PORT: u16 = 1883;

/// The port of a connection under TLS.
pub const SECURE_PORT: u16 = 8883;

/// How the client connects.
#[derive(Clone, Debug, PartialEq)]
pub struct BrokerOptions {
    pub client_id: String,
    pub host: String,
    pub port: u16,
    pub keep_alive_secs: u64,
    pub inflight: u16,
    pub credentials: Option<(String, String)>,
}

/// Why no connection can be made.
#[derive(Clone, Debug, PartialEq)]
pub enum OptionsError {
    /// The URL is not one, for the given reason.
    InvalidUrl(String),
    /// The URL names no host.
    MissingHost,
}

/// The port of a URL, or the one that its scheme stands for.
pub open spec fn port_of(parts: broker::UrlParts) -> u16 {
    match parts.port {
        Some(p) => p,
        None => if parts.scheme == "mqtts"@ {
            SECURE_PORT
        } else {
            PLAIN_PORT
        },
    }
}

/// Whether options are what a configuration asks for, given the parts of its broker URL.
pub open spec fn options_for(o: BrokerOptions, cfg: Config, parts: broker::UrlParts) -> bool {
    &&& o.client_id@ == cfg.general.device_name@ + "-rustiferin"@
    &&& parts.host == Some(o.host@)
    &&& o.port == port_of(parts)
    &&& o.keep_alive_secs == KEEP_ALIVE_SECS
    &&& o.inflight == MAX_INFLIGHT
    &&& match (cfg.mqtt.username, cfg.mqtt.password, o.credentials) {
        (Some(u), Some(p), Some(c)) => c.0@ == u@ && c.1@ == p@,
        (Some(_), Some(_), None) => false,
        (_, _, c) => c is None,
    }
}

/// Whether a result is what a configuration leads to, given what the URL parser made of its
/// broker URL.
pub open spec fn options_outcome(
    r: Result<BrokerOptions, OptionsError>,
    cfg: Config,
    parsed: Result<broker::UrlParts, Seq<char>>,
) -> bool {
    match (parsed, r) {
        (Err(message), Err(OptionsError::InvalidUrl(e))) => e@ == message,
        (Ok(parts), Ok(o)) => parts.host is Some && options_for(o, cfg, parts),
        (Ok(parts), Err(OptionsError::MissingHost)) => parts.host is None,
        _ => false,
    }
}

/// The connection options of a configuration, given what the URL parser made of its broker URL.
pub fn build_options_with(cfg: &Config, parsed: &Result<BrokerUrl, String>) -> (r: Result<
    BrokerOptions,
    OptionsError,
>)
    ensures
        options_outcome(r, *cfg, broker::outcome(*parsed)),
{
    let url: &BrokerUrl = match parsed {
        Err(message) => {
            return Err(OptionsError::InvalidUrl(message.clone()));
        },
        Ok(url) => url,
    };
    let host: String = match &url.host {
        None => {
            return Err(OptionsError::MissingHost);
        },
        Some(h) => h.clone(),
    };
    let secure: String = "mqtts".to_owned();
    let port: u16 = match url.port {
        Some(p) => p,
        None => if url.scheme == secure {
            SECURE_PORT
        } else {
            PLAIN_PORT
        },
    };
    let mut client_id: String = cfg.general.device_name.clone();
    client_id.append("-rustiferin");
    let credentials: Option<(String, String)> = match (&cfg.mqtt.username, &cfg.mqtt.password) {
        (Some(u), Some(p)) => Some((u.clone(), p.clone())),
        _ => None,
    };
    Ok(
        BrokerOptions {
            client_id,
            host,
            port,
            keep_alive_secs: KEEP_ALIVE_SECS,
            inflight: MAX_INFLIGHT,
            credentials,
        },
    )
}

/// The connection options of a configuration.
pub fn build_options(cfg: &Config) -> (r: Result<BrokerOptions, OptionsError>)
    ensures
        options_outcome(r, *cfg, broker::url_parts(cfg.mqtt.broker_url@)),
{
    let parsed = parse_url(cfg.mqtt.broker_url.as_str());
    build_options_with(cfg, &parsed)
}

impl BrokerOptions {
    /// The host and port to connect to.
    pub fn broker_address(&self) -> (r: (String, u16))
        ensures
            r.0@ == self.host@,
            r.1 == self.port,
    {
        (self.host.clone(), self.port)
    }
}

/// The topic that frames go to.
pub fn stream_topic(cfg: &Config) -> (t: String)
    ensures
        t@ == cfg.mqtt.topic_base@ + "/set/stream"@,
{
    let mut t: String = cfg.mqtt.topic_base.clone();
    t.append("/set/stream");
    t
}

/// The topic that announcements go to.
pub fn state_topic(cfg: &Config) -> (t: String)
    ensures
        t@ == cfg.mqtt.topic_base@ + "/set"@,
{
    let mut t: String = cfg.mqtt.topic_base.clone();
    t.append("/set");
    t
}

/// A sequence from `offset` on, with what is before that at its end.
pub open spec fn rotated<T>(s: Seq<T>, offset: int) -> Seq<T> {
    s.skip(offset) + s.take(offset)
}

/// The colours in the strip's electrical order: reversed where the strip runs against the zones,
/// then rotated so that the one at the offset comes first.
pub open spec fn permuted(colors: Seq<LedColor>, start_offset: u32, reverse: bool) -> Seq<
    LedColor,
> {
    if colors.len() == 0 {
        colors
    } else {
        rotated(
            if reverse {
                colors.reverse()
            } else {
                colors
            },
            start_offset as int % colors.len() as int,
        )
    }
}

/// Whether nothing moves on the way to the strip's electrical order.
pub open spec fn stays(colors: Seq<LedColor>, start_offset: u32, reverse: bool) -> bool {
    !reverse && (colors.len() == 0 || start_offset as int % colors.len() as int == 0)
}

/// Brings the colours into the strip's electrical order. The result is `colors` itself where
/// nothing moves, and else stands in `scratch`.
pub fn permute_for_strip<'a>(
    colors: &'a [LedColor],
    start_offset: u32,
    reverse: bool,
    scratch: &'a mut Vec<LedColor>,
) -> (out: &'a [LedColor])
    ensures
        out@ == permuted(colors@, start_offset, reverse),
        final(scratch)@ == if stays(colors@, start_offset, reverse) {
            old(scratch)@
        } else {
            out@
        },
{
    let n: usize = colors.len();
    let offset: usize = if n == 0 {
        0
    } else {
        (start_offset as u64 % n as u64) as usize
    };
    if !reverse && offset == 0 {
        assert(colors@ =~= permuted(colors@, start_offset, reverse));
        return colors;
    }
    scratch.clear();
    let ghost all = permuted(colors@, start_offset, reverse);
    let mut k: usize = 0;
    while k < n
        invariant
            k <= n,
            n == colors@.len(),
            n > 0 ==> offset == start_offset as int % n as int && offset < n,
            all == permuted(colors@, start_offset, reverse),
            scratch@ == all.take(k as int),
        decreases n - k,
    {
        // Where position `k` comes from, before the reversal.
        let j: usize = if k < n - offset {
            k + offset
        } else {
            k - (n - offset)
        };
        let src: usize = if reverse {
            n - 1 - j
        } else {
            j
        };
        scratch.push(colors[src]);
        assert(colors@[src as int] == all[k as int]);
        k += 1;
        assert(scratch@ =~= all.take(k as int));
    }
    assert(all.take(n as int) =~= all);
    scratch.as_slice()
}

/// The strip shows every colour exactly as often as the zones do.
pub proof fn permutation_keeps_the_colors(colors: Seq<LedColor>, start_offset: u32, reverse: bool)
    ensures
        permuted(colors, start_offset, reverse).to_multiset() == colors.to_multiset(),
        permuted(colors, start_offset, reverse).len() == colors.len(),
{
    if colors.len() > 0 {
        let s = if reverse {
            colors.reverse()
        } else {
            colors
        };
        let o = start_offset as int % colors.len() as int;
        vstd::seq_lib::lemma_multiset_commutative(s.skip(o), s.take(o));
        vstd::seq_lib::lemma_multiset_commutative(s.take(o), s.skip(o));
        assert(s.take(o) + s.skip(o) =~= s);
        if reverse {
            lemma_reverse_multiset(colors);
        }
    }
}

proof fn lemma_reverse_multiset(s: Seq<LedColor>)
    ensures
        s.reverse().to_multiset() == s.to_multiset(),
    decreases s.len(),
{
    broadcast use vstd::seq_lib::group_to_multiset_ensures;

    if s.len() > 0 {
        let rest = s.drop_last();
        lemma_reverse_multiset(rest);
        assert(s.reverse() =~= seq![s.last()] + rest.reverse());
        vstd::seq_lib::lemma_multiset_commutative(seq![s.last()], rest.reverse());
        assert(seq![s.last()] =~= Seq::empty().push(s.last()));
        assert(s =~= rest.push(s.last()));
    } else {
        assert(s.reverse() =~= s);
    }
}

/// How surely a message is delivered.
#[derive(Clone, Copy, Debug, PartialEq, Eq, Structural)]
pub enum Delivery {
    AtMostOnce,
    AtLeastOnce,
}

/// A message for the broker.
#[derive(Clone, Debug, PartialEq)]
pub struct Message {
    pub topic: String,
    pub payload: String,
    pub delivery: Delivery,
    pub retain: bool,
}

/// The text of an optional setting.
pub open spec fn setting_text(s: Option<String>) -> Option<Seq<char>> {
    match s {
        Some(t) => Some(t@),
        None => None,
    }
}

fn mac_of(cfg: &Config) -> (m: Option<&str>)
    ensures
        protocol::optional_text(m) == setting_text(cfg.mqtt.device_mac),
{
    match &cfg.mqtt.device_mac {
        Some(s) => Some(s.as_str()),
        None => None,
    }
}

/// The announcement that puts the firmware into stream mode. It is retained, so that the device
/// gets it whenever it connects.
pub fn state_on_message(cfg: &Config) -> (m: Message)
    ensures
        m.topic@ == cfg.mqtt.topic_base@ + "/set"@,
        m.payload@ == protocol::state_on_text(
            setting_text(cfg.mqtt.device_mac),
            cfg.color.brightness_max,
        ),
        m.delivery == Delivery::AtMostOnce,
        m.retain,
{
    let mut payload: String = String::new();
    encode_state_on(&mut payload, mac_of(cfg), cfg.color.brightness_max);
    Message { topic: state_topic(cfg), payload, delivery: Delivery::AtMostOnce, retain: true }
}

/// The announcement that turns the strip off. It is retained, so that it replaces the one that
/// turned the strip on.
pub fn blackout_message(cfg: &Config) -> (m: Message)
    ensures
        m.topic@ == cfg.mqtt.topic_base@ + "/set"@,
        m.payload@ == protocol::state_off_text(setting_text(cfg.mqtt.device_mac)),
        m.delivery == Delivery::AtLeastOnce,
        m.retain,
{
    let mut payload: String = String::new();
    encode_state_off(&mut payload, mac_of(cfg));
    Message { topic: state_topic(cfg), payload, delivery: Delivery::AtLeastOnce, retain: true }
}

/// The message that shows a frame: its colours in the strip's order. A lost frame is not sent
/// again, and none is retained.
pub fn frame_message(cfg: &Config, frame: &LedFrame, scratch: &mut Vec<LedColor>) -> (m: Message)
    ensures
        m.topic@ == cfg.mqtt.topic_base@ + "/set/stream"@,
        m.payload@ == protocol::stream_text(
            permuted(frame.colors@, cfg.led_matrix.start_offset, cfg.led_matrix.reverse),
            cfg.color.brightness_max,
        ),
        m.delivery == Delivery::AtMostOnce,
        !m.retain,
{
    let mut payload: String = String::new();
    let leds: &[LedColor] = permute_for_strip(
        frame.colors.as_slice(),
        cfg.led_matrix.start_offset,
        cfg.led_matrix.reverse,
        scratch,
    );
    encode_stream(leds, cfg.color.brightness_max, &mut payload);
    Message { topic: stream_topic(cfg), payload, delivery: Delivery::AtMostOnce, retain: false }
}

/// The time between two frames at a frame rate, in nanoseconds: whole microseconds, and none
/// without a rate.
pub open spec fn interval_of(target_fps: u32) -> int {
    if target_fps == 0 {
        0
    } else {
        1000 * (1_000_000int / target_fps as int)
    }
}

/// The time between two frames at a frame rate, in nanoseconds.
pub fn publish_interval(target_fps: u32) -> (ns: u64)
    ensures
        ns == interval_of(target_fps),
        ns <= 1_000_000_000,
{
    if target_fps == 0 {
        return 0;
    }
    let us: u64 = 1_000_000u64 / target_fps as u64;
    assert(us <= 1_000_000) by (nonlinear_arith)
        requires
            us == 1_000_000u64 / target_fps as u64,
            target_fps > 0,
    ;
    1000 * us
}

/// How long a frame waits at `now` for a gate that opens at `opens_at`.
pub open spec fn wait_at(opens_at: int, now: int) -> int {
    if opens_at > now {
        opens_at - now
    } else {
        0
    }
}

/// A fresh gate lets the first frame through at once. After a frame went out at `published`, the
/// next waits for what is left of the interval, and never without a frame rate.
pub proof fn gate_waits_out_the_interval(target_fps: u32, published: int, now: int)
    requires
        published <= now,
    ensures
        wait_at(published, now) == 0,
        ({
            let left = interval_of(target_fps) - (now - published);
            wait_at(published + interval_of(target_fps), now) == if left > 0 {
                left
            } else {
                0
            }
        }),
        target_fps == 0 ==> wait_at(published + interval_of(target_fps), now) == 0,
{
}

/// Keeps frames apart, so that the device is not sent more than it can show. Times are in
/// nanoseconds from a fixed start.
#[derive(Clone, Copy, Debug)]
pub struct PublishGate {
    interval: u64,
    next_allowed: u64,
}

impl PublishGate {
    /// The time between two frames.
    pub closed spec fn spacing(self) -> int {
        self.interval as int
    }

    /// When the next frame may go out.
    pub closed spec fn opens_at(self) -> int {
        self.next_allowed as int
    }

    /// Whether a frame rate has made it.
    pub closed spec fn valid(self) -> bool {
        self.interval <= 1_000_000_000
    }

    /// A gate that is open from `now` on.
    pub fn new(target_fps: u32, now: u64) -> (g: PublishGate)
        ensures
            g.valid(),
            g.spacing() == interval_of(target_fps),
            g.opens_at() == now,
    {
        PublishGate { interval: publish_interval(target_fps), next_allowed: now }
    }

    /// How long to wait before the frame may go out.
    pub fn wait_from(&self, now: u64) -> (ns: u64)
        ensures
            ns == wait_at(self.opens_at(), now as int),
    {
        if self.next_allowed > now {
            self.next_allowed - now
        } else {
            0
        }
    }

    /// Records that a frame went out at `now`.
    pub fn advance(&mut self, now: u64)
        requires
            old(self).valid(),
            now <= u64::MAX - 1_000_000_000,
        ensures
            final(self).valid(),
            final(self).spacing() == old(self).spacing(),
            final(self).opens_at() == now + old(self).spacing(),
    {
        self.next_allowed = now + self.interval;
    }
}

/// Why publishing ends.
#[derive(Clone, Copy, Debug, PartialEq, Eq, Structural)]
pub enum ExitReason {
    /// The agent shuts down.
    Cancelled,
    /// No more frames will come.
    PipelineGone,
}

/// What happens while frames are published.
#[derive(Clone, Copy, Debug, PartialEq, Eq, Structural)]
pub enum PublishEvent {
    Cancelled,
    PipelineGone,
    /// A new frame is there, at the given time.
    FrameReady { now: u64 },
    /// The wait has ended.
    Waited,
    /// The current frame went out, at the given time.
    Published { now: u64 },
    /// The current frame could not be sent.
    Dropped,
    /// It is time to announce the strip again.
    Heartbeat,
    /// The connection was accepted again, and the strip is to be announced.
    Reconnected,
}

/// What to do next.
#[derive(Clone, Copy, Debug, PartialEq, Eq, Structural)]
pub enum PublishAction {
    /// Stop.
    Exit(ExitReason),
    /// Wait so many nanoseconds, unless cancelled.
    Wait(u64),
    /// Publish the newest frame.
    PublishFrame,
    /// Announce the strip.
    Announce,
    /// Wait for the next event.
    Listen,
}

/// The loop that publishes frames.
pub struct Publisher {
    gate: PublishGate,
}

impl Publisher {
    /// Its gate.
    pub closed spec fn gate(self) -> PublishGate {
        self.gate
    }

    /// A publisher whose gate is open.
    pub fn new(target_fps: u32, now: u64) -> (p: Publisher)
        ensures
            p.gate().valid(),
            p.gate().spacing() == interval_of(target_fps),
            p.gate().opens_at() == now,
    {
        Publisher { gate: PublishGate::new(target_fps, now) }
    }

    /// Decides what to do about an event.
    pub fn on_event(&mut self, event: PublishEvent) -> (a: PublishAction)
        requires
            old(self).gate().valid(),
            event matches PublishEvent::Published { now } ==> now <= u64::MAX - 1_000_000_000,
        ensures
            final(self).gate().valid(),
            final(self).gate().spacing() == old(self).gate().spacing(),
            match event {
                PublishEvent::Published { now } => final(self).gate().opens_at() == now + old(
                    self,
                ).gate().spacing(),
                _ => *final(self) == *old(self),
            },
            a == match event {
                PublishEvent::Cancelled => PublishAction::Exit(ExitReason::Cancelled),
                PublishEvent::PipelineGone => PublishAction::Exit(ExitReason::PipelineGone),
                PublishEvent::FrameReady { now } => if old(self).gate().opens_at() > now {
                    PublishAction::Wait((old(self).gate().opens_at() - now) as u64)
                } else {
                    PublishAction::PublishFrame
                },
                PublishEvent::Waited => PublishAction::PublishFrame,
                PublishEvent::Published { .. } | PublishEvent::Dropped => PublishAction::Listen,
                PublishEvent::Heartbeat | PublishEvent::Reconnected => PublishAction::Announce,
            },
    {
        match event {
            PublishEvent::Cancelled => PublishAction::Exit(ExitReason::Cancelled),
            PublishEvent::PipelineGone => PublishAction::Exit(ExitReason::PipelineGone),
            PublishEvent::FrameReady { now } => {
                let wait: u64 = self.gate.wait_from(now);
                if wait > 0 {
                    PublishAction::Wait(wait)
                } else {
                    PublishAction::PublishFrame
                }
            },
            PublishEvent::Waited => PublishAction::PublishFrame,
            PublishEvent::Published { now } => {
                self.gate.advance(now);
                PublishAction::Listen
            },
            PublishEvent::Dropped => PublishAction::Listen,
            PublishEvent::Heartbeat | PublishEvent::Reconnected => PublishAction::Announce,
        }
    }
}

/// When the next frame goes out: at `now`, or, where that is too early, at `opens_at`.
pub open spec fn goes_out_at(opens_at: int, now: int) -> int {
    if opens_at > now {
        opens_at
    } else {
        now
    }
}

/// Two frames in a row go out at least the interval apart, which is at least the frame rate's
/// period cut to whole microseconds.
pub proof fn frames_keep_their_distance(target_fps: u32, published: int, now: int)
    requires
        published <= now,
    ensures
        goes_out_at(published + interval_of(target_fps), now) >= published + interval_of(
            target_fps,
        ),
        target_fps > 0 ==> interval_of(target_fps) * target_fps > 1_000_000_000 - 1000 * target_fps,
{
    if target_fps > 0 {
        let f = target_fps as int;
        let q = 1_000_000int / f;
        assert(q * f > 1_000_000 - f) by (nonlinear_arith)
            requires
                q == 1_000_000int / f,
                f > 0,
        ;
        assert((1000 * q) * f == 1000 * (q * f)) by (nonlinear_arith);
    }
}

/// What the connection reports when it breaks.
#[derive(Clone, Copy, Debug, PartialEq, Eq, Structural)]
pub enum LinkFault {
    /// The protocol was violated.
    MqttState,
    /// TLS failed.
    Tls,
    /// The broker did not accept the connection.
    NotConnAck,
    /// Anything else, such as a broken network.
    Other,
}

/// The state that a broken connection is shown in.
pub fn classify(fault: LinkFault) -> (s: OutputState)
    ensures
        s == if fault == LinkFault::Other {
            OutputState::Disconnected
        } else {
            OutputState::Failed
        },
{
    match fault {
        LinkFault::MqttState | LinkFault::Tls | LinkFault::NotConnAck => OutputState::Failed,
        LinkFault::Other => OutputState::Disconnected,
    }
}

/// What happens to the connection.
#[derive(Clone, Copy, Debug, PartialEq, Eq, Structural)]
pub enum LinkEvent {
    /// The broker has accepted the connection.
    Accepted,
    /// The broker has closed the connection.
    Closed,
    /// The last message before a clean end was sent.
    DisconnectSent,
    /// The connection broke.
    Broken(LinkFault),
    /// Anything else.
    Other,
}

/// What follows.
#[derive(Clone, Copy, Debug, PartialEq, Eq, Structural)]
pub enum LinkNext {
    /// Go on.
    Poll,
    /// Go on after so many seconds.
    PollAfter(u64),
    /// Stop.
    Stop,
}

/// What to do about an event: whether to count a reconnect, whether the strip is to be announced
/// again, which state to show, and what follows.
#[derive(Clone, Copy, Debug, PartialEq, Eq, Structural)]
pub struct LinkStep {
    pub count_reconnect: bool,
    pub announce: bool,
    pub show: Option<OutputState>,
    pub next: LinkNext,
}

/// Whether the connection stands, whether it was ever accepted, and how often it broke since it
/// last stood.
pub struct LinkState {
    pub connected: bool,
    pub accepted: bool,
    pub failures: int,
}

/// What an event does to the state.
pub open spec fn link_after(s: LinkState, e: LinkEvent) -> LinkState {
    match e {
        LinkEvent::Accepted => LinkState { connected: true, accepted: true, failures: 0 },
        LinkEvent::Closed => LinkState { connected: false, ..s },
        LinkEvent::Broken(_) => LinkState { connected: false, failures: s.failures + 1, ..s },
        _ => s,
    }
}

/// What to do about an event.
pub open spec fn link_step(s: LinkState, e: LinkEvent) -> LinkStep {
    match e {
        LinkEvent::Accepted => LinkStep {
            count_reconnect: s.connected,
            announce: s.accepted,
            show: Some(OutputState::Connected),
            next: LinkNext::Poll,
        },
        LinkEvent::Closed => LinkStep {
            count_reconnect: false,
            announce: false,
            show: Some(OutputState::Disconnected),
            next: LinkNext::Poll,
        },
        LinkEvent::DisconnectSent => LinkStep {
            count_reconnect: false,
            announce: false,
            show: Some(OutputState::Disconnected),
            next: LinkNext::Stop,
        },
        LinkEvent::Broken(f) => LinkStep {
            count_reconnect: false,
            announce: false,
            show: Some(
                if f == LinkFault::Other {
                    OutputState::Disconnected
                } else {
                    OutputState::Failed
                },
            ),
            next: LinkNext::PollAfter(backoff::wait_after(s.failures) as u64),
        },
        LinkEvent::Other => LinkStep {
            count_reconnect: false,
            announce: false,
            show: None,
            next: LinkNext::Poll,
        },
    }
}

/// The driver of the connection.
pub struct LinkDriver {
    wait: u64,
    connected: bool,
    accepted: bool,
    failures: Ghost<int>,
}

impl View for LinkDriver {
    type V = LinkState;

    closed spec fn view(&self) -> LinkState {
        LinkState {
            connected: self.connected,
            accepted: self.accepted,
            failures: self.failures@,
        }
    }
}

impl LinkDriver {
    /// Whether its wait fits the failures so far.
    pub closed spec fn valid(self) -> bool {
        &&& self.failures@ >= 0
        &&& self.wait == backoff::wait_after(self.failures@)
        &&& self.wait <= BACKOFF_MAX
    }

    /// Not connected yet.
    pub fn new() -> (d: LinkDriver)
        ensures
            d.valid(),
            d@ == (LinkState { connected: false, accepted: false, failures: 0 }),
    {
        LinkDriver {
            wait: BACKOFF_INITIAL,
            connected: false,
            accepted: false,
            failures: Ghost(0),
        }
    }

    /// Decides what to do about an event.
    pub fn on_event(&mut self, event: LinkEvent) -> (step: LinkStep)
        requires
            old(self).valid(),
        ensures
            final(self).valid(),
            final(self)@ == link_after(old(self)@, event),
            step == link_step(old(self)@, event),
    {
        match event {
            LinkEvent::Accepted => {
                let again: bool = self.connected;
                let announce: bool = self.accepted;
                self.connected = true;
                self.accepted = true;
                self.wait = BACKOFF_INITIAL;
                self.failures = Ghost(0);
                LinkStep {
                    count_reconnect: again,
                    announce,
                    show: Some(OutputState::Connected),
                    next: LinkNext::Poll,
                }
            },
            LinkEvent::Closed => {
                self.connected = false;
                LinkStep {
                    count_reconnect: false,
                    announce: false,
                    show: Some(OutputState::Disconnected),
                    next: LinkNext::Poll,
                }
            },
            LinkEvent::DisconnectSent => LinkStep {
                count_reconnect: false,
                announce: false,
                show: Some(OutputState::Disconnected),
                next: LinkNext::Stop,
            },
            LinkEvent::Broken(fault) => {
                let wait: u64 = self.wait;
                self.connected = false;
                self.wait = longer(wait);
                self.failures = Ghost(self.failures@ + 1);
                LinkStep {
                    count_reconnect: false,
                    announce: false,
                    show: Some(classify(fault)),
                    next: LinkNext::PollAfter(wait),
                }
            },
            LinkEvent::Other => LinkStep {
                count_reconnect: false,
                announce: false,
                show: None,
                next: LinkNext::Poll,
            },
        }
    }
}

/// A connection that was accepted waits one second after it breaks, however often it broke
/// before.
pub proof fn acceptance_resets_the_wait(s: LinkState, fault: LinkFault)
    ensures
        link_step(link_after(s, LinkEvent::Accepted), LinkEvent::Broken(fault)).next
            == LinkNext::PollAfter(1),
{
}

/// The state after a number of events.
pub open spec fn link_at(s: LinkState, events: Seq<LinkEvent>) -> LinkState
    decreases events.len(),
{
    if events.len() == 0 {
        s
    } else {
        link_after(link_at(s, events.drop_last()), events.last())
    }
}

/// The strip is announced again on every reconnect: when the connection is accepted and was
/// accepted at any time before, and on no other event.
pub proof fn every_reconnect_is_announced(events: Seq<LinkEvent>, e: LinkEvent)
    ensures
        ({
            let fresh = LinkState { connected: false, accepted: false, failures: 0 };
            link_step(link_at(fresh, events), e).announce <==> e == LinkEvent::Accepted
                && events.contains(LinkEvent::Accepted)
        }),
{
    lemma_acceptance_is_kept(events);
}

proof fn lemma_acceptance_is_kept(events: Seq<LinkEvent>)
    ensures
        ({
            let fresh = LinkState { connected: false, accepted: false, failures: 0 };
            link_at(fresh, events).accepted == events.contains(LinkEvent::Accepted)
        }),
    decreases events.len(),
{
    if events.len() > 0 {
        let before = events.drop_last();
        lemma_acceptance_is_kept(before);
        assert(events =~= before.push(events.last()));
        if before.contains(LinkEvent::Accepted) {
            let i = choose|i: int| 0 <= i < before.len() && before[i] == LinkEvent::Accepted;
            assert(events[i] == LinkEvent::Accepted);
        }
        if events.last() == LinkEvent::Accepted {
            assert(events[events.len() - 1] == LinkEvent::Accepted);
        }
        if events.contains(LinkEvent::Accepted) && events.last() != LinkEvent::Accepted {
            let i = choose|i: int| 0 <= i < events.len() && events[i] == LinkEvent::Accepted;
            assert(before[i] == LinkEvent::Accepted);
        }
    }
}

/// Only a clean end stops the driver.
pub proof fn only_a_clean_end_stops(s: LinkState, e: LinkEvent)
    ensures
        link_step(s, e).next == LinkNext::Stop <==> e == LinkEvent::DisconnectSent,
{
}

/// Where an output session stands.
#[derive(Clone, Copy, Debug, PartialEq, Eq, Structural)]
pub enum OutputPhase {
    /// Nothing was done yet.
    Start,
    /// The strip is to be announced.
    Announcing,
    /// Frames are published.
    Streaming,
    /// The strip is to be turned off.
    Darkening,
    /// The connection is to be closed.
    Disconnecting,
    /// The last messages are on their way.
    Draining,
    /// They took too long.
    Forcing,
    /// It is over.
    Over,
}

/// What an output session does next.
#[derive(Clone, Copy, Debug, PartialEq, Eq, Structural)]
pub enum OutputTask {
    /// Show that it is connecting, and connect.
    Connect,
    /// Announce the strip.
    Announce,
    /// Publish frames until there is a reason to stop.
    Stream,
    /// Turn the strip off.
    Blackout,
    /// Close the connection.
    Disconnect,
    /// Wait for the driver, this many seconds at most.
    AwaitDriver(u64),
    /// Stop the driver.
    StopDriver,
    /// End.
    End,
}

/// The phase after a task was done; `in_time` tells whether the driver ended by itself.
pub open spec fn phase_after(p: OutputPhase, in_time: bool) -> OutputPhase {
    match p {
        OutputPhase::Start => OutputPhase::Announcing,
        OutputPhase::Announcing => OutputPhase::Streaming,
        OutputPhase::Streaming => OutputPhase::Darkening,
        OutputPhase::Darkening => OutputPhase::Disconnecting,
        OutputPhase::Disconnecting => OutputPhase::Draining,
        OutputPhase::Draining => if in_time {
            OutputPhase::Over
        } else {
            OutputPhase::Forcing
        },
        OutputPhase::Forcing => OutputPhase::Over,
        OutputPhase::Over => OutputPhase::Over,
    }
}

/// What is done in a phase.
pub open spec fn task_of(p: OutputPhase) -> OutputTask {
    match p {
        OutputPhase::Start => OutputTask::Connect,
        OutputPhase::Announcing => OutputTask::Announce,
        OutputPhase::Streaming => OutputTask::Stream,
        OutputPhase::Darkening => OutputTask::Blackout,
        OutputPhase::Disconnecting => OutputTask::Disconnect,
        OutputPhase::Draining => OutputTask::AwaitDriver(SHUTDOWN_DRAIN_SECS),
        OutputPhase::Forcing => OutputTask::StopDriver,
        OutputPhase::Over => OutputTask::End,
    }
}

/// An output session, from the first connection to the last message.
#[derive(Clone, Copy, Debug)]
pub struct OutputSession {
    phase: OutputPhase,
}

impl View for OutputSession {
    type V = OutputPhase;

    closed spec fn view(&self) -> OutputPhase {
        self.phase
    }
}

impl OutputSession {
    /// A session to come; over before it starts where the agent already shuts down.
    pub fn new(cancelled: bool) -> (s: OutputSession)
        ensures
            s@ == if cancelled { OutputPhase::Over } else { OutputPhase::Start },
    {
        OutputSession {
            phase: if cancelled {
                OutputPhase::Over
            } else {
                OutputPhase::Start
            },
        }
    }

    /// What to do now.
    pub fn task(&self) -> (t: OutputTask)
        ensures
            t == task_of(self@),
    {
        match self.phase {
            OutputPhase::Start => OutputTask::Connect,
            OutputPhase::Announcing => OutputTask::Announce,
            OutputPhase::Streaming => OutputTask::Stream,
            OutputPhase::Darkening => OutputTask::Blackout,
            OutputPhase::Disconnecting => OutputTask::Disconnect,
            OutputPhase::Draining => OutputTask::AwaitDriver(SHUTDOWN_DRAIN_SECS),
            OutputPhase::Forcing => OutputTask::StopDriver,
            OutputPhase::Over => OutputTask::End,
        }
    }

    /// Goes on after a task was done; `in_time` tells whether the driver ended by itself.
    pub fn done(&mut self, in_time: bool)
        ensures
            final(self)@ == phase_after(old(self)@, in_time),
    {
        self.phase = match self.phase {
            OutputPhase::Start => OutputPhase::Announcing,
            OutputPhase::Announcing => OutputPhase::Streaming,
            OutputPhase::Streaming => OutputPhase::Darkening,
            OutputPhase::Darkening => OutputPhase::Disconnecting,
            OutputPhase::Disconnecting => OutputPhase::Draining,
            OutputPhase::Draining => if in_time {
                OutputPhase::Over
            } else {
                OutputPhase::Forcing
            },
            OutputPhase::Forcing => OutputPhase::Over,
            OutputPhase::Over => OutputPhase::Over,
        };
    }
}

/// The phase after a number of tasks, each with whether the driver ended in time.
pub open spec fn phase_at(p: OutputPhase, done: Seq<bool>) -> OutputPhase
    decreases done.len(),
{
    if done.len() == 0 {
        p
    } else {
        phase_after(phase_at(p, done.drop_last()), done.last())
    }
}

/// However streaming ends, the strip is turned off before the connection is closed, and the
/// connection is closed before the driver is waited for.
pub proof fn strip_goes_dark_before_the_end(done: Seq<bool>)
    requires
        done.len() == 3,
    ensures
        task_of(phase_at(OutputPhase::Streaming, done.take(1))) == OutputTask::Blackout,
        task_of(phase_at(OutputPhase::Streaming, done.take(2))) == OutputTask::Disconnect,
        task_of(phase_at(OutputPhase::Streaming, done)) == OutputTask::AwaitDriver(
            SHUTDOWN_DRAIN_SECS,
        ),
{
    reveal_with_fuel(phase_at, 4);
    assert(done.take(1).drop_last() =~= Seq::<bool>::empty());
    assert(done.take(2).drop_last() =~= done.take(1));
    assert(done.drop_last() =~= done.take(2));
}

} // verus!
