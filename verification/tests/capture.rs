use rustiferin::capture::portal::{
    classify_error, conclude_session, restore_token, AfterSession, Cause, ClientFault, GiveUp,
    PortalCapture, PortalFault, ReconnectController, ResponseFault, RetryDecision, SessionEnd,
    SessionSupervisor, StreamState, MAX_ATTEMPTS,
};
use rustiferin::backoff::BACKOFF_MAX;
use rustiferin::capture::{
    deliver, FakeCapture, Frame, FramePool, FrameSlot, FrameTemplate, PixelFormat,
};

fn red_frame(width: u32, height: u32) -> Frame {
    let stride = width * 4;
    let mut buf = vec![0u8; (stride * height) as usize];
    for px in buf.chunks_exact_mut(4) {
        // BGRA red
        px[0] = 0;
        px[1] = 0;
        px[2] = 255;
        px[3] = 255;
    }
    Frame {
        buf,
        width,
        height,
        stride,
        format: PixelFormat::Bgra,
    }
}

#[test]
fn pool_acquire_reuses_preallocated_buffer() {
    let mut pool = FramePool::new(2, 64);
    assert_eq!(pool.len(), 2);
    let buf = pool.acquire();
    assert_eq!(pool.len(), 1);
    assert!(buf.capacity() >= 64);
    assert!(buf.is_empty());
    pool.release(buf);
    assert_eq!(pool.len(), 2);
}

#[test]
fn pool_acquire_when_empty_allocates_fresh() {
    let mut pool = FramePool::new(1, 32);
    let a = pool.acquire();
    let b = pool.acquire();
    assert_eq!(pool.len(), 0);
    pool.release(a);
    pool.release(b);
    assert_eq!(pool.len(), 1, "release beyond pool_size drops the buffer");
}

#[test]
fn pool_release_clears_buffer_before_storing() {
    let mut pool = FramePool::new(1, 4);
    let mut buf = pool.acquire();
    buf.extend_from_slice(&[1, 2, 3, 4]);
    pool.release(buf);
    let buf = pool.acquire();
    assert!(buf.is_empty());
}

#[test]
fn pool_remembers_what_it_was_made_with() {
    let pool = FramePool::new(3, 7);
    assert_eq!(pool.pool_size(), 3);
    assert_eq!(pool.capacity_hint(), 7);
    let empty = FramePool::new(0, 0);
    assert_eq!(empty.len(), 0);
}

#[test]
fn slot_preserves_every_pixel_format_variant() {
    for format in [
        PixelFormat::Bgra,
        PixelFormat::Rgba,
        PixelFormat::Bgrx,
        PixelFormat::Xrgb,
    ] {
        let mut slot = FrameSlot::new();
        slot.put(Frame {
            buf: vec![0u8; 4],
            width: 1,
            height: 1,
            stride: 4,
            format,
        });
        let round_tripped = slot.take().expect("frame present");
        assert_eq!(
            round_tripped.format, format,
            "format must round-trip unchanged"
        );
    }
}

#[test]
fn slot_put_returns_none_when_empty() {
    let mut slot = FrameSlot::new();
    assert!(slot.put(red_frame(4, 4)).is_none());
}

#[test]
fn slot_put_returns_displaced_frame() {
    let mut slot = FrameSlot::new();
    slot.put(red_frame(4, 4));
    let displaced = slot.put(red_frame(8, 8));
    let displaced = displaced.expect("first frame must be displaced");
    assert_eq!(displaced.width, 4);
}

#[test]
fn slot_take_consumes_and_leaves_empty() {
    let mut slot = FrameSlot::new();
    slot.put(red_frame(2, 2));
    assert!(slot.is_ready());
    let taken = slot.take().expect("take returns put frame");
    assert_eq!(taken.width, 2);
    assert!(slot.take().is_none());
    assert!(!slot.is_ready());
}

#[test]
fn delivery_gives_the_displaced_buffer_back() {
    let mut pool = FramePool::new(2, 16);
    let mut slot = FrameSlot::new();
    let a = pool.acquire();
    let b = pool.acquire();
    for buf in [a, b] {
        deliver(
            &mut pool,
            &mut slot,
            Frame {
                buf,
                width: 0,
                height: 0,
                stride: 0,
                format: PixelFormat::Bgra,
            },
        );
    }
    assert_eq!(pool.len(), 1);
    assert!(slot.is_ready());
}

fn template(value: u8, n: usize) -> FrameTemplate {
    FrameTemplate {
        pixels: vec![value; n],
        width: 2,
        height: 2,
        stride: 8,
        format: PixelFormat::Bgra,
    }
}

#[test]
fn fake_capture_streams_frames_and_recycles_buffers() {
    let mut pool = FramePool::new(2, 16);
    let mut slot = FrameSlot::new();
    let mut fake = FakeCapture::new(vec![template(1, 16), template(2, 16), template(3, 16)], 0);
    assert_eq!(fake.interval_ms(), 0);
    let mut count = 0;
    while fake.replay(&mut pool, &mut slot) {
        count += 1;
    }
    assert_eq!(count, 3);
    // The last frame sits in the slot; the displaced ones returned to the pool.
    let last = slot.take().expect("last frame remains in the slot");
    assert_eq!(last.buf, vec![3u8; 16]);
    pool.release(last.buf);
    assert_eq!(pool.len(), 2);
}

#[test]
fn reconnect_controller_starts_with_one_second_backoff() {
    let mut c = ReconnectController::new();
    assert_eq!(c.note_failure(), Some(1));
}

#[test]
fn reconnect_controller_doubles_backoff_each_failure() {
    let mut c = ReconnectController::new();
    assert_eq!(c.note_failure(), Some(1));
    assert_eq!(c.note_failure(), Some(2));
    assert_eq!(c.note_failure(), Some(4));
    assert_eq!(c.note_failure(), Some(8));
    assert_eq!(c.note_failure(), Some(16));
}

#[test]
fn reconnect_controller_caps_backoff_at_thirty_seconds() {
    let mut c = ReconnectController::new();
    for _ in 0..6 {
        let _ = c.note_failure();
    }
    // After six failures (1, 2, 4, 8, 16, 32->30), the next reported sleep must be the cap.
    assert_eq!(BACKOFF_MAX, 30);
    assert_eq!(c.note_failure(), Some(BACKOFF_MAX));
    assert_eq!(c.note_failure(), Some(BACKOFF_MAX));
}

#[test]
fn reconnect_controller_returns_none_when_attempt_budget_exhausted() {
    let mut c = ReconnectController::new();
    for _ in 0..(MAX_ATTEMPTS - 1) {
        assert!(c.note_failure().is_some());
    }
    assert_eq!(c.note_failure(), None);
}

#[test]
fn reconnect_controller_resets_on_progress() {
    let mut c = ReconnectController::new();
    c.note_failure();
    c.note_failure();
    c.note_failure();
    c.note_progress();
    assert_eq!(c.note_failure(), Some(1));
}

#[test]
fn classify_user_cancelled_response_is_fatal() {
    let chain = vec![Cause::Client(ClientFault::Response(ResponseFault::Cancelled))];
    assert_eq!(classify_error(&chain), RetryDecision::Fatal);
}

#[test]
fn classify_portal_not_allowed_is_fatal() {
    let chain = vec![Cause::Client(ClientFault::Portal(PortalFault::NotAllowed))];
    assert_eq!(classify_error(&chain), RetryDecision::Fatal);
}

#[test]
fn classify_portal_cancelled_is_fatal() {
    let chain = vec![Cause::Client(ClientFault::Portal(PortalFault::Cancelled))];
    assert_eq!(classify_error(&chain), RetryDecision::Fatal);
}

#[test]
fn classify_portal_not_found_resets_token() {
    let chain = vec![Cause::Client(ClientFault::Portal(PortalFault::NotFound))];
    assert_eq!(classify_error(&chain), RetryDecision::ResetToken);
}

#[test]
fn classify_other_response_error_backs_off() {
    let chain = vec![Cause::Client(ClientFault::Response(ResponseFault::Other))];
    assert_eq!(classify_error(&chain), RetryDecision::Backoff);
}

#[test]
fn classify_generic_error_backs_off() {
    let chain = vec![Cause::Unknown];
    assert_eq!(classify_error(&chain), RetryDecision::Backoff);
}

#[test]
fn classify_sees_through_wrapping_context() {
    let chain = vec![
        Cause::Unknown,
        Cause::Client(ClientFault::Portal(PortalFault::NotFound)),
    ];
    assert_eq!(classify_error(&chain), RetryDecision::ResetToken);
}

#[test]
fn a_refusal_ends_capture_at_once() {
    let mut s = SessionSupervisor::new();
    let v = s.on_session_end(
        SessionEnd::Failed(vec![Cause::Client(ClientFault::Portal(PortalFault::NotAllowed))]),
        0,
        0,
    );
    assert_eq!(v.next, AfterSession::Fail(GiveUp::Unrecoverable));
    assert!(!v.clear_token);
}

#[test]
fn a_vanished_source_clears_the_token_and_tries_again() {
    let mut s = SessionSupervisor::new();
    let v = s.on_session_end(
        SessionEnd::Failed(vec![Cause::Client(ClientFault::Portal(PortalFault::NotFound))]),
        0,
        0,
    );
    assert!(v.clear_token);
    assert_eq!(v.next, AfterSession::RetryAfter(1));
}

#[test]
fn frames_refund_the_attempts() {
    let mut s = SessionSupervisor::new();
    let mut waits = Vec::new();
    for _ in 0..3 {
        waits.push(s.on_session_end(SessionEnd::Failed(vec![Cause::Unknown]), 5, 5).next);
    }
    assert_eq!(
        waits,
        vec![
            AfterSession::RetryAfter(1),
            AfterSession::RetryAfter(2),
            AfterSession::RetryAfter(4)
        ]
    );
    // This session delivered frames before it failed.
    let v = s.on_session_end(SessionEnd::Failed(vec![Cause::Unknown]), 5, 6);
    assert_eq!(v.next, AfterSession::RetryAfter(1));
}

#[test]
fn ten_failures_in_a_row_are_too_many() {
    let mut s = SessionSupervisor::new();
    for _ in 0..9 {
        let v = s.on_session_end(SessionEnd::Failed(vec![Cause::Unknown]), 0, 0);
        assert!(matches!(v.next, AfterSession::RetryAfter(_)));
    }
    let v = s.on_session_end(SessionEnd::Failed(vec![Cause::Unknown]), 0, 0);
    assert_eq!(v.next, AfterSession::Fail(GiveUp::TooManyFailures));
}

#[test]
fn a_closed_session_ends_capture_well() {
    let mut s = SessionSupervisor::new();
    let v = s.on_session_end(SessionEnd::Closed, 0, 0);
    assert_eq!(v.next, AfterSession::Finish);
}

#[test]
fn a_session_without_a_report_has_failed() {
    assert!(matches!(conclude_session(false, None), SessionEnd::Failed(_)));
    assert!(matches!(
        conclude_session(true, Some(SessionEnd::Closed)),
        SessionEnd::Failed(_)
    ));
    assert!(matches!(
        conclude_session(false, Some(SessionEnd::Closed)),
        SessionEnd::Closed
    ));
}

#[test]
fn restore_token_is_trimmed() {
    assert_eq!(restore_token(" \tabc-1\n").as_deref(), Some("abc-1"));
    assert_eq!(restore_token("a b").as_deref(), Some("a b"));
    assert_eq!(restore_token(""), None);
    assert_eq!(restore_token(" \n\r\t "), None);
    assert_eq!(restore_token("\u{a0}\u{3000}x\u{2003}").as_deref(), Some("x"));
}

#[test]
fn portal_rate_is_at_least_one() {
    assert_eq!(PortalCapture::new(vec![], 0).rate_cap(), 1);
    assert_eq!(PortalCapture::new(vec![], 30).rate_cap(), 30);
}

#[test]
fn a_stream_hands_out_frames_once_it_is_negotiated() {
    let mut s = StreamState::new();
    assert!(s.frame(&[1, 2, 3, 4], 4, 4, Vec::new()).is_none());
    s.on_format(None, 9, 9);
    assert!(!s.is_negotiated());
    s.on_format(Some(PixelFormat::Bgrx), 1, 1);
    assert!(s.is_negotiated());
    let f = s.frame(&[1, 2, 3, 4, 5], 4, 4, vec![7; 3]).expect("frame");
    assert_eq!(f.buf, vec![1, 2, 3, 4]);
    assert_eq!((f.width, f.height, f.stride), (1, 1, 4));
    assert_eq!(f.format, PixelFormat::Bgrx);
    // A chunk that claims more than there is gets what there is.
    let f = s.frame(&[1, 2, 3, 4, 5], 9, 4, Vec::new()).expect("frame");
    assert_eq!(f.buf, vec![1, 2, 3, 4, 5]);
    // An unknown format changes nothing.
    s.on_format(None, 9, 9);
    assert_eq!(s.width, 1);
}

#[test]
fn the_offer_holds_every_format_and_caps_the_rate() {
    let offer = PortalCapture::new(b"/tmp/token".to_vec(), 30).format_offer();
    assert_eq!(
        offer.formats,
        vec![
            PixelFormat::Bgra,
            PixelFormat::Rgba,
            PixelFormat::Bgrx,
            PixelFormat::Xrgb
        ]
    );
    assert_eq!(offer.default, PixelFormat::Bgra);
    assert_eq!((offer.rate_min, offer.rate_default, offer.rate_max), (0, 30, 30));
    let least = PortalCapture::new(Vec::new(), 0).format_offer();
    assert_eq!((least.rate_min, least.rate_default, least.rate_max), (0, 1, 1));
}

#[test]
fn a_pool_never_outgrows_its_size() {
    let mut pool = FramePool::new(2, 16);
    for _ in 0..5 {
        pool.release(vec![1, 2, 3]);
        assert!(pool.len() <= pool.pool_size());
    }
    assert_eq!(pool.len(), 2);
}
