//! The desktop portal's screen cast: when a session is retried, and what becomes of its frames.

use vstd::prelude::*;
use vstd::slice::slice_subrange;

use crate::backoff;
use crate::backoff::{longer, BACKOFF_INITIAL, BACKOFF_MAX};
use crate::text;
use crate::text::trim;

use super::{Frame, PixelFormat};

verus! {

/// What to do after a session has failed.
#[derive(Clone, Copy, Debug, PartialEq, Eq, Structural)]
pub enum RetryDecision {
    /// A passing failure: wait, and try again with the same restore token.
    Backoff,
    /// The selected monitor is gone: drop the restore token, so that the user is asked again.
    ResetToken,
    /// The user has refused: stop.
    Fatal,
}

/// How the portal answered a request that it did not grant.
#[derive(Clone, Copy, Debug, PartialEq, Eq, Structural)]
pub enum ResponseFault {
    Cancelled,
    Other,
}

/// What the portal itself reported.
#[derive(Clone, Copy, Debug, PartialEq, Eq, Structural)]
pub enum PortalFault {
    NotAllowed,
    Cancelled,
    NotFound,
    Other,
}

/// An error of the portal's client library.
#[derive(Clone, Copy, Debug, PartialEq, Eq, Structural)]
pub enum ClientFault {
    Response(ResponseFault),
    Portal(PortalFault),
    Other,
}

/// One link in a session error's chain of causes, outermost first.
#[derive(Clone, Copy, Debug, PartialEq, Eq, Structural)]
pub enum Cause {
    Client(ClientFault),
    Response(ResponseFault),
    Portal(PortalFault),
    Unknown,
}

/// What a request that was not granted leads to.
pub open spec fn response_decision(f: ResponseFault) -> RetryDecision {
    match f {
        ResponseFault::Cancelled => RetryDecision::Fatal,
        ResponseFault::Other => RetryDecision::Backoff,
    }
}

/// What a report of the portal leads to.
pub open spec fn portal_decision(f: PortalFault) -> RetryDecision {
    match f {
        PortalFault::NotAllowed => RetryDecision::Fatal,
        PortalFault::Cancelled => RetryDecision::Fatal,
        PortalFault::NotFound => RetryDecision::ResetToken,
        PortalFault::Other => RetryDecision::Backoff,
    }
}

/// What a cause leads to, if it is known.
pub open spec fn cause_decision(c: Cause) -> Option<RetryDecision> {
    match c {
        Cause::Client(ClientFault::Response(f)) => Some(response_decision(f)),
        Cause::Client(ClientFault::Portal(f)) => Some(portal_decision(f)),
        Cause::Client(ClientFault::Other) => Some(RetryDecision::Backoff),
        Cause::Response(f) => Some(response_decision(f)),
        Cause::Portal(f) => Some(portal_decision(f)),
        Cause::Unknown => None,
    }
}

/// What a chain of causes leads to: the first known one decides, and without any the session is
/// tried again.
pub open spec fn decision(chain: Seq<Cause>) -> RetryDecision
    decreases chain.len(),
{
    if chain.len() == 0 {
        RetryDecision::Backoff
    } else {
        match cause_decision(chain[0]) {
            Some(d) => d,
            None => decision(chain.drop_first()),
        }
    }
}

/// What a request that was not granted leads to.
pub fn classify_response(f: ResponseFault) -> (d: RetryDecision)
    ensures
        d == response_decision(f),
{
    match f {
        ResponseFault::Cancelled => RetryDecision::Fatal,
        ResponseFault::Other => RetryDecision::Backoff,
    }
}

/// What a report of the portal leads to.
pub fn classify_portal(f: PortalFault) -> (d: RetryDecision)
    ensures
        d == portal_decision(f),
{
    match f {
        PortalFault::NotAllowed => RetryDecision::Fatal,
        PortalFault::Cancelled => RetryDecision::Fatal,
        PortalFault::NotFound => RetryDecision::ResetToken,
        PortalFault::Other => RetryDecision::Backoff,
    }
}

/// What an error of the client library leads to.
pub fn classify_client(f: ClientFault) -> (d: RetryDecision)
    ensures
        cause_decision(Cause::Client(f)) == Some(d),
{
    match f {
        ClientFault::Response(r) => classify_response(r),
        ClientFault::Portal(p) => classify_portal(p),
        ClientFault::Other => RetryDecision::Backoff,
    }
}

/// What a chain of causes leads to.
pub fn classify_error(chain: &Vec<Cause>) -> (d: RetryDecision)
    ensures
        d == decision(chain@),
{
    let mut i: usize = 0;
    assert(chain@.skip(0) =~= chain@);
    while i < chain.len()
        invariant
            i <= chain@.len(),
            decision(chain@) == decision(chain@.skip(i as int)),
        decreases chain@.len() - i,
    {
        proof {
            assert(chain@.skip(i as int)[0] == chain@[i as int]);
            assert(chain@.skip(i as int).drop_first() =~= chain@.skip(i + 1));
        }
        match chain[i] {
            Cause::Client(f) => {
                return classify_client(f);
            },
            Cause::Response(f) => {
                return classify_response(f);
            },
            Cause::Portal(f) => {
                return classify_portal(f);
            },
            Cause::Unknown => {},
        }
        i += 1;
    }
    RetryDecision::Backoff
}

/// The attempt that is not made.
pub const MAX_ATTEMPTS: u32 = 10;

/// The failures in a row, and what to do after the next.
pub struct ReconnectController {
    backoff: u64,
    attempts: u32,
}

impl View for ReconnectController {
    type V = int;

    /// The number of failures in a row.
    closed spec fn view(&self) -> int {
        self.attempts as int
    }
}

impl ReconnectController {
    /// Whether the wait fits the failures so far.
    pub closed spec fn valid(self) -> bool {
        &&& self.attempts <= MAX_ATTEMPTS
        &&& self.attempts < MAX_ATTEMPTS ==> self.backoff == backoff::wait_after(self.attempts as int)
        &&& self.backoff <= BACKOFF_MAX
    }

    /// No failure yet.
    pub fn new() -> (c: ReconnectController)
        ensures
            c.valid(),
            c@ == 0,
    {
        ReconnectController { backoff: BACKOFF_INITIAL, attempts: 0 }
    }

    /// Records a failed session. Returns the seconds to wait before the next attempt, or `None`
    /// where no attempt is left.
    pub fn note_failure(&mut self) -> (wait: Option<u64>)
        requires
            old(self).valid(),
        ensures
            final(self).valid(),
            final(self)@ == if old(self)@ < MAX_ATTEMPTS {
                old(self)@ + 1
            } else {
                old(self)@
            },
            match wait {
                Some(s) => old(self)@ + 1 < MAX_ATTEMPTS && s == backoff::wait_after(old(self)@),
                None => old(self)@ + 1 >= MAX_ATTEMPTS,
            },
    {
        if self.attempts >= MAX_ATTEMPTS - 1 {
            self.attempts = MAX_ATTEMPTS;
            return None;
        }
        let sleep: u64 = self.backoff;
        self.attempts = self.attempts + 1;
        self.backoff = longer(self.backoff);
        Some(sleep)
    }

    /// Records that the session has delivered frames before it ended: it starts afresh, so that
    /// rare restarts of the compositor do not use up the attempts.
    pub fn note_progress(&mut self)
        requires
            old(self).valid(),
        ensures
            final(self).valid(),
            final(self)@ == 0,
    {
        self.attempts = 0;
        self.backoff = BACKOFF_INITIAL;
    }
}

/// How a session ended.
#[derive(Clone, Debug)]
pub enum SessionEnd {
    /// It was cancelled, or the compositor closed it.
    Closed,
    /// It failed, for the given causes.
    Failed(Vec<Cause>),
}

/// How a session ended, from what its thread reported: nothing where the thread was gone before
/// it could, which counts as a failure, and so does a panic.
pub fn conclude_session(panicked: bool, reported: Option<SessionEnd>) -> (end: SessionEnd)
    ensures
        match (panicked, reported) {
            (false, Some(e)) => end == e,
            _ => end matches SessionEnd::Failed(chain) && chain@ == seq![Cause::Unknown],
        },
{
    if !panicked {
        if let Some(end) = reported {
            return end;
        }
    }
    let mut chain: Vec<Cause> = Vec::new();
    chain.push(Cause::Unknown);
    assert(chain@ =~= seq![Cause::Unknown]);
    SessionEnd::Failed(chain)
}

/// Why capture is given up.
#[derive(Clone, Copy, Debug, PartialEq, Eq, Structural)]
pub enum GiveUp {
    /// The user has refused.
    Unrecoverable,
    /// No attempt is left.
    TooManyFailures,
}

/// What follows a session.
#[derive(Clone, Copy, Debug, PartialEq, Eq, Structural)]
pub enum AfterSession {
    /// Capture is over.
    Finish,
    /// Capture has failed.
    Fail(GiveUp),
    /// Another session follows, after so many seconds.
    RetryAfter(u64),
}

/// What to do after a session: whether to clear the restore token, and what follows.
#[derive(Clone, Copy, Debug, PartialEq, Eq, Structural)]
pub struct SessionVerdict {
    pub clear_token: bool,
    pub next: AfterSession,
}

/// The failures in a row before a session that ended counts: none if it has delivered frames.
pub open spec fn failures_before(failures: int, progressed: bool) -> int {
    if progressed {
        0
    } else {
        failures
    }
}

/// The failures in a row after a session that ended so. They are not counted beyond the last
/// attempt, and a session that does not lead to another attempt is no failure.
pub open spec fn failures_after(failures: int, progressed: bool, end: SessionEnd) -> int {
    let before = failures_before(failures, progressed);
    match end {
        SessionEnd::Closed => failures,
        SessionEnd::Failed(chain) => if decision(chain@) == RetryDecision::Fatal || before
            >= MAX_ATTEMPTS {
            before
        } else {
            before + 1
        },
    }
}

/// What to do after a session that ended so, with so many failures before.
pub open spec fn verdict(failures: int, progressed: bool, end: SessionEnd) -> SessionVerdict {
    let before = failures_before(failures, progressed);
    match end {
        SessionEnd::Closed => SessionVerdict { clear_token: false, next: AfterSession::Finish },
        SessionEnd::Failed(chain) => {
            let d = decision(chain@);
            if d == RetryDecision::Fatal {
                SessionVerdict {
                    clear_token: false,
                    next: AfterSession::Fail(GiveUp::Unrecoverable),
                }
            } else {
                SessionVerdict {
                    clear_token: d == RetryDecision::ResetToken,
                    next: if before + 1 < MAX_ATTEMPTS {
                        AfterSession::RetryAfter(backoff::wait_after(before) as u64)
                    } else {
                        AfterSession::Fail(GiveUp::TooManyFailures)
                    },
                }
            }
        },
    }
}

/// The loop around the sessions: it decides after each whether another follows.
pub struct SessionSupervisor {
    controller: ReconnectController,
}

impl View for SessionSupervisor {
    type V = int;

    /// The number of failures in a row.
    closed spec fn view(&self) -> int {
        self.controller@
    }
}

impl SessionSupervisor {
    /// Whether its counters fit together.
    pub closed spec fn valid(self) -> bool {
        self.controller.valid()
    }

    /// No session yet.
    pub fn new() -> (s: SessionSupervisor)
        ensures
            s.valid(),
            s@ == 0,
    {
        SessionSupervisor { controller: ReconnectController::new() }
    }

    /// Decides what follows a session, from the number of captured frames before and after it.
    pub fn on_session_end(&mut self, end: SessionEnd, frames_before: u64, frames_after: u64) -> (v:
        SessionVerdict)
        requires
            old(self).valid(),
        ensures
            final(self).valid(),
            v == verdict(old(self)@, frames_after > frames_before, end),
            final(self)@ == failures_after(old(self)@, frames_after > frames_before, end),
    {
        let chain: Vec<Cause> = match end {
            SessionEnd::Closed => {
                return SessionVerdict { clear_token: false, next: AfterSession::Finish };
            },
            SessionEnd::Failed(chain) => chain,
        };
        if frames_after > frames_before {
            self.controller.note_progress();
        }
        let d: RetryDecision = classify_error(&chain);
        if d == RetryDecision::Fatal {
            return SessionVerdict {
                clear_token: false,
                next: AfterSession::Fail(GiveUp::Unrecoverable),
            };
        }
        let clear_token: bool = d == RetryDecision::ResetToken;
        match self.controller.note_failure() {
            Some(seconds) => {
                SessionVerdict { clear_token, next: AfterSession::RetryAfter(seconds) }
            },
            None => SessionVerdict { clear_token, next: AfterSession::Fail(GiveUp::TooManyFailures) },
        }
    }
}

/// A refusal by the user ends capture at once, whatever came before.
pub proof fn refusal_is_final(failures: int, progressed: bool, chain: Vec<Cause>)
    requires
        decision(chain@) == RetryDecision::Fatal,
    ensures
        verdict(failures, progressed, SessionEnd::Failed(chain)).next == AfterSession::Fail(
            GiveUp::Unrecoverable,
        ),
{
}

/// A session that has delivered frames is followed by another after one second, unless the user
/// has refused.
pub proof fn progress_refunds_the_attempts(failures: int, chain: Vec<Cause>)
    requires
        decision(chain@) != RetryDecision::Fatal,
    ensures
        verdict(failures, true, SessionEnd::Failed(chain)).next == AfterSession::RetryAfter(1),
{
}

/// Of sessions that fail one after the other without a frame, the tenth is the last, unless the
/// user has refused before; every other is followed by one more, after a wait that only grows.
pub proof fn attempts_run_out(failures: int, chain: Vec<Cause>, next: Vec<Cause>)
    requires
        0 <= failures < MAX_ATTEMPTS,
        decision(chain@) != RetryDecision::Fatal,
        decision(next@) != RetryDecision::Fatal,
    ensures
        ({
            let end = SessionEnd::Failed(chain);
            let now = verdict(failures, false, end).next;
            let count = failures_after(failures, false, end);
            let later = verdict(count, false, SessionEnd::Failed(next)).next;
            &&& count == failures + 1
            &&& count == MAX_ATTEMPTS <==> now == AfterSession::Fail(GiveUp::TooManyFailures)
            &&& count < MAX_ATTEMPTS <==> now is RetryAfter
            &&& now matches AfterSession::RetryAfter(a) ==> (later matches AfterSession::RetryAfter(b)
                ==> a <= b)
        }),
{
    backoff::waits_double_up_to_the_longest(failures);
    backoff::waits_double_up_to_the_longest(failures + 1);
}

/// Causes that are not known do not hide the one behind them.
pub proof fn unknown_causes_are_seen_through(chain: Seq<Cause>)
    ensures
        decision(seq![Cause::Unknown] + chain) == decision(chain),
{
    let wrapped = seq![Cause::Unknown] + chain;
    assert(wrapped.drop_first() =~= chain);
}

/// Portal capture: where its restore token is kept and how fast it runs.
#[derive(Clone, Debug)]
pub struct PortalCapture {
    pub restore_token_path: Vec<u8>,
    pub target_fps: u32,
}

/// The video formats to offer the compositor, best first, and the frame rates to accept. No size
/// is offered: a compositor that is asked for one may find no format at all, so the stream comes
/// in the screen's own resolution.
#[derive(Clone, Debug)]
pub struct FormatOffer {
    pub formats: Vec<PixelFormat>,
    pub default: PixelFormat,
    /// Frames a second: the one that is asked for, and the range that will do.
    pub rate_default: u32,
    pub rate_min: u32,
    pub rate_max: u32,
}

impl PortalCapture {
    /// Capture with the given token file and frame rate.
    pub fn new(restore_token_path: Vec<u8>, target_fps: u32) -> (c: PortalCapture)
        ensures
            c.restore_token_path == restore_token_path,
            c.target_fps == target_fps,
    {
        PortalCapture { restore_token_path, target_fps }
    }

    /// The frame rate to ask the compositor for: at least one.
    pub fn rate_cap(&self) -> (fps: u32)
        ensures
            fps == if self.target_fps == 0 { 1 } else { self.target_fps },
    {
        if self.target_fps == 0 {
            1
        } else {
            self.target_fps
        }
    }

    /// What to offer the compositor: every format that is understood, at no more than the wanted
    /// frame rate.
    pub fn format_offer(&self) -> (o: FormatOffer)
        ensures
            o.formats@ == seq![
                PixelFormat::Bgra,
                PixelFormat::Rgba,
                PixelFormat::Bgrx,
                PixelFormat::Xrgb,
            ],
            o.default == PixelFormat::Bgra,
            o.rate_min == 0,
            o.rate_max == if self.target_fps == 0 { 1 } else { self.target_fps },
            o.rate_default == o.rate_max,
    {
        let mut formats: Vec<PixelFormat> = Vec::new();
        formats.push(PixelFormat::Bgra);
        formats.push(PixelFormat::Rgba);
        formats.push(PixelFormat::Bgrx);
        formats.push(PixelFormat::Xrgb);
        let rate: u32 = self.rate_cap();
        assert(formats@ =~= seq![
            PixelFormat::Bgra,
            PixelFormat::Rgba,
            PixelFormat::Bgrx,
            PixelFormat::Xrgb,
        ]);
        FormatOffer {
            formats,
            default: PixelFormat::Bgra,
            rate_default: rate,
            rate_min: 0,
            rate_max: rate,
        }
    }
}

/// The restore token in the text of its file: what is left between white space, if anything.
pub fn restore_token(contents: &str) -> (token: Option<String>)
    ensures
        match token {
            Some(t) => t@.len() > 0 && text::is_trimmed(contents@, t@),
            None => text::is_trimmed(contents@, Seq::<char>::empty()),
        },
{
    let t: &str = trim(contents);
    if t.is_empty() {
        assert(t@ =~= Seq::<char>::empty());
        None
    } else {
        Some(t.to_owned())
    }
}

/// What the stream has negotiated.
#[derive(Clone, Copy, Debug, PartialEq, Eq, Structural)]
pub struct StreamState {
    pub pixel_format: Option<PixelFormat>,
    pub width: u32,
    pub height: u32,
}

impl StreamState {
    /// Nothing was negotiated yet.
    pub fn new() -> (s: StreamState)
        ensures
            s == (StreamState { pixel_format: None, width: 0, height: 0 }),
    {
        StreamState { pixel_format: None, width: 0, height: 0 }
    }

    /// Takes over a negotiated format, if it is one that is understood.
    pub fn on_format(&mut self, format: Option<PixelFormat>, width: u32, height: u32)
        ensures
            *final(self) == match format {
                Some(f) => StreamState { pixel_format: Some(f), width, height },
                None => *old(self),
            },
    {
        if let Some(f) = format {
            self.pixel_format = Some(f);
            self.width = width;
            self.height = height;
        }
    }

    /// Whether frames can be read.
    pub fn is_negotiated(&self) -> (r: bool)
        ensures
            r == (self.pixel_format is Some),
    {
        self.pixel_format.is_some()
    }

    /// The frame in a chunk of the given size at the start of `src`, copied into `buf`; nothing
    /// before a format was negotiated. A chunk that claims more than there is gets what there
    /// is.
    pub fn frame(&self, src: &[u8], chunk_size: usize, stride: u32, buf: Vec<u8>) -> (r: Option<
        Frame,
    >)
        ensures
            match (self.pixel_format, r) {
                (Some(format), Some(f)) => {
                    let n = if chunk_size < src@.len() {
                        chunk_size as int
                    } else {
                        src@.len() as int
                    };
                    &&& f.buf@ == src@.take(n)
                    &&& f.width == self.width
                    &&& f.height == self.height
                    &&& f.stride == stride
                    &&& f.format == format
                },
                (None, None) => true,
                _ => false,
            },
    {
        match self.pixel_format {
            None => None,
            Some(format) => {
                let mut filled: Vec<u8> = buf;
                filled.clear();
                let n: usize = if chunk_size < src.len() {
                    chunk_size
                } else {
                    src.len()
                };
                filled.extend_from_slice(slice_subrange(src, 0, n));
                assert(filled@ =~= src@.take(n as int));
                Some(
                    Frame {
                        buf: filled,
                        width: self.width,
                        height: self.height,
                        stride,
                        format,
                    },
                )
            },
        }
    }
}

} // verus!
