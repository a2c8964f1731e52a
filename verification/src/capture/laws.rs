//! What a failed session leads to, and what becomes of buffers.

use vstd::prelude::*;

use crate::backoff;

use super::portal;
use super::portal::{
    AfterSession, Cause, ClientFault, GiveUp, PortalFault, ResponseFault, RetryDecision, SessionEnd,
};

verus! {

/// The first cause that is known decides: where the user has cancelled or nothing is allowed, the
/// session is not tried again; where the monitor is not found, it is with another choice of it;
/// and in every other case it is tried again as it was. So it is where no cause is known.
pub proof fn first_known_cause_decides(unknown: nat, c: Cause, rest: Seq<Cause>)
    ensures
        ({
            let hidden = Seq::new(unknown, |i: int| Cause::Unknown);
            &&& portal::decision(hidden) == RetryDecision::Backoff
            &&& portal::decision(hidden + seq![c] + rest) == match c {
                Cause::Client(ClientFault::Response(ResponseFault::Cancelled)) =>
                    RetryDecision::Fatal,
                Cause::Response(ResponseFault::Cancelled) => RetryDecision::Fatal,
                Cause::Client(ClientFault::Portal(PortalFault::Cancelled)) => RetryDecision::Fatal,
                Cause::Portal(PortalFault::Cancelled) => RetryDecision::Fatal,
                Cause::Client(ClientFault::Portal(PortalFault::NotAllowed)) => RetryDecision::Fatal,
                Cause::Portal(PortalFault::NotAllowed) => RetryDecision::Fatal,
                Cause::Client(ClientFault::Portal(PortalFault::NotFound)) =>
                    RetryDecision::ResetToken,
                Cause::Portal(PortalFault::NotFound) => RetryDecision::ResetToken,
                Cause::Unknown => portal::decision(rest),
                _ => RetryDecision::Backoff,
            }
        }),
    decreases unknown,
{
    let hidden = Seq::new(unknown, |i: int| Cause::Unknown);
    let chain = hidden + seq![c] + rest;
    if unknown == 0 {
        assert(hidden =~= Seq::<Cause>::empty());
        assert(chain.drop_first() =~= rest);
        assert(chain[0] == c);
    } else {
        first_known_cause_decides((unknown - 1) as nat, c, rest);
        let fewer = Seq::new((unknown - 1) as nat, |i: int| Cause::Unknown);
        assert(hidden.drop_first() =~= fewer);
        assert(chain.drop_first() =~= fewer + seq![c] + rest);
        assert(chain[0] == Cause::Unknown);
        assert(hidden[0] == Cause::Unknown);
    }
}

/// A session that was closed ends capture well and counts as no failure. The restore token is
/// dropped where the monitor was not found, and nowhere else.
pub proof fn sessions_end_as_they_should(failures: int, progressed: bool, end: SessionEnd)
    ensures
        ({
            let v = portal::verdict(failures, progressed, end);
            &&& v.next == AfterSession::Finish <==> end is Closed
            &&& end is Closed ==> portal::failures_after(failures, progressed, end) == failures
            &&& v.clear_token <==> end is Failed && portal::decision(end->Failed_0@)
                == RetryDecision::ResetToken
        }),
{
}

/// Sessions that fail one after the other are tried again after 1, 2, 4, 8 and 16 seconds and then
/// after 30 each time, nine times in all; the tenth failure is the last.
pub proof fn failed_sessions_wait_longer_and_longer(failures: int, end: SessionEnd)
    requires
        0 <= failures <= 10,
        end is Failed,
        portal::decision(end->Failed_0@) != RetryDecision::Fatal,
    ensures
        portal::verdict(failures, false, end).next == if failures >= 9 {
            AfterSession::Fail(GiveUp::TooManyFailures)
        } else {
            AfterSession::RetryAfter(
                if failures == 0 {
                    1
                } else if failures == 1 {
                    2
                } else if failures == 2 {
                    4
                } else if failures == 3 {
                    8
                } else if failures == 4 {
                    16
                } else {
                    30
                },
            )
        },
        failures < 10 ==> portal::failures_after(failures, false, end) == failures + 1,
{
    backoff::waits_double_up_to_the_longest(failures);
}

/// Taking a buffer leaves one less, or none where there was none; giving one back leaves one more,
/// or as many as fit.
pub proof fn pools_count_their_buffers(idle: int, size: int)
    requires
        0 <= idle <= size,
    ensures
        super::after_acquire(0) == 0,
        idle > 0 ==> super::after_acquire(idle) == idle - 1,
        idle < size ==> super::after_release(idle, size) == idle + 1,
        super::after_release(size, size) == size,
{
}

} // verus!
