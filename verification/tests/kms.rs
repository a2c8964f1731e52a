use rustiferin::capture::kms::capture::{pause_after, plane_frame, KmsCapture};
use rustiferin::capture::kms::client::{accept_step, is_whole_request, socket_path, AcceptStep};
use rustiferin::capture::kms::egl::{downscaled_size, plan_import, PlaneError, ReadBackSize};
use rustiferin::capture::kms::protocol::{
    assign_fds, check_reply, check_version, order_of_one, receive, receive_in, response_fds,
    select_primary_plane, ByteOrder, FdCountMismatch, KmsRequest, KmsResponse, KmsResponseItem, ReceiveError, ReplyError,
    GSR_KMS_PROTOCOL_VERSION, KMS_REQUEST_TYPE_GET_KMS, KMS_RESULT_OK, RESPONSE_SIZE,
};
use rustiferin::capture::kms::{
    card_name_from_connector, choose_capture_card, choose_render_node, ConnectorEntry, RenderEntry,
};
use rustiferin::capture::PixelFormat;

#[test]
fn downscale_preserves_aspect_and_caps_width() {
    assert_eq!(downscaled_size(2560, 1440), (640, 360));
    assert_eq!(downscaled_size(3440, 1440), (640, 267));
}

#[test]
fn downscale_leaves_small_sources_untouched() {
    assert_eq!(downscaled_size(640, 360), (640, 360));
    assert_eq!(downscaled_size(320, 200), (320, 200));
}

#[test]
fn downscale_keeps_at_least_one_row() {
    assert_eq!(downscaled_size(100_000, 1), (640, 1));
    assert_eq!(downscaled_size(0, 0), (0, 0));
}

#[test]
fn connector_name_extracts_card() {
    assert_eq!(
        card_name_from_connector("card1-DP-1").as_deref(),
        Some("card1")
    );
    assert_eq!(
        card_name_from_connector("card0-HDMI-A-1").as_deref(),
        Some("card0")
    );
}

#[test]
fn non_connector_names_ignored() {
    assert_eq!(card_name_from_connector("renderD128"), None);
    assert_eq!(card_name_from_connector("card1"), None);
    assert_eq!(card_name_from_connector("version"), None);
}

fn entry(name: &str, status: &str) -> ConnectorEntry {
    ConnectorEntry {
        name: name.to_string(),
        status: status.to_string(),
    }
}

#[test]
fn the_lowest_numbered_connected_card_is_taken() {
    let entries = vec![
        entry("card10-DP-1", "connected\n"),
        entry("card2-DP-1", "connected\n"),
        entry("card1-DP-1", "disconnected\n"),
        entry("renderD128", "connected\n"),
    ];
    assert_eq!(
        choose_capture_card(&entries).as_deref(),
        Some("/dev/dri/card2")
    );
    assert_eq!(choose_capture_card(&vec![entry("card0-DP-1", "unknown\n")]), None);
}

#[test]
fn the_render_node_shares_the_device() {
    let entries = vec![
        RenderEntry {
            name: "card1".to_string(),
            device: Some(vec![1, 2]),
        },
        RenderEntry {
            name: "renderD128".to_string(),
            device: Some(vec![9]),
        },
        RenderEntry {
            name: "renderD129".to_string(),
            device: None,
        },
        RenderEntry {
            name: "renderD130".to_string(),
            device: Some(vec![1, 2]),
        },
    ];
    assert_eq!(
        choose_render_node(&entries, &vec![1, 2]).as_deref(),
        Some("/dev/dri/renderD130")
    );
    assert_eq!(choose_render_node(&entries, &vec![3]), None);
}

fn item(
    width: u32,
    height: u32,
    is_cursor: bool,
    connector: u32,
    num_bufs: i32,
) -> KmsResponseItem {
    let mut it: KmsResponseItem = KmsResponse::zeroed().items[0];
    it.width = width;
    it.height = height;
    it.is_cursor = is_cursor as u8;
    it.connector_id = connector;
    it.num_dma_bufs = num_bufs;
    it
}

fn response(items: &[KmsResponseItem]) -> KmsResponse {
    let mut r = KmsResponse::zeroed();
    r.version = GSR_KMS_PROTOCOL_VERSION;
    r.result = KMS_RESULT_OK;
    r.num_items = items.len() as i32;
    for (dst, src) in r.items.iter_mut().zip(items) {
        *dst = *src;
    }
    r
}

#[test]
fn request_bytes_have_c_layout() {
    let req = KmsRequest::new(KMS_REQUEST_TYPE_GET_KMS, 0);
    let bytes = req.as_bytes();
    assert_eq!(bytes.len(), 12);
    assert_eq!(&bytes[0..4], &GSR_KMS_PROTOCOL_VERSION.to_ne_bytes());
    assert_eq!(&bytes[4..8], &KMS_REQUEST_TYPE_GET_KMS.to_ne_bytes());
}

#[test]
fn assign_fds_maps_item_major_then_dma_minor() {
    let mut r = response(&[item(2560, 1440, false, 1, 2), item(64, 64, true, 1, 1)]);
    // 2 bufs for the primary + 1 for the cursor = 3 fds.
    let used = assign_fds(&mut r, &[10, 11, 12]).expect("enough fds");
    assert_eq!(used, 3);
    assert_eq!(r.items[0].dma_buf[0].fd, 10);
    assert_eq!(r.items[0].dma_buf[1].fd, 11);
    assert_eq!(r.items[1].dma_buf[0].fd, 12);
}

#[test]
fn assign_fds_rejects_too_few() {
    let mut r = response(&[item(2560, 1440, false, 1, 2)]);
    let err = assign_fds(&mut r, &[10]).expect_err("not enough fds");
    assert_eq!(err, FdCountMismatch { needed: 2, got: 1 });
}

#[test]
fn select_primary_prefers_largest_non_cursor() {
    let r = response(&[
        item(64, 64, true, 1, 1),      // cursor
        item(1920, 1080, false, 1, 1), // overlay-ish, smaller
        item(2560, 1440, false, 1, 1), // primary, largest
    ]);
    assert_eq!(select_primary_plane(&r, None), Some(2));
}

#[test]
fn select_primary_honors_connector_filter() {
    let r = response(&[
        item(2560, 1440, false, 1, 1),
        item(3840, 2160, false, 2, 1), // bigger, but different connector
    ]);
    assert_eq!(select_primary_plane(&r, Some(1)), Some(0));
}

#[test]
fn select_primary_none_when_only_cursor() {
    let r = response(&[item(64, 64, true, 1, 1)]);
    assert_eq!(select_primary_plane(&r, None), None);
}

#[test]
fn select_primary_skips_planes_without_dma_bufs() {
    let r = response(&[item(2560, 1440, false, 1, 0)]);
    assert_eq!(select_primary_plane(&r, None), None);
}

#[test]
fn select_primary_never_matches_an_unknown_connector() {
    let r = response(&[item(2560, 1440, false, 0, 1)]);
    assert_eq!(select_primary_plane(&r, Some(0)), None);
    assert_eq!(select_primary_plane(&r, None), Some(0));
}

#[test]
fn select_primary_takes_the_last_of_equal_planes() {
    let r = response(&[item(10, 20, false, 1, 1), item(20, 10, false, 1, 1)]);
    assert_eq!(select_primary_plane(&r, None), Some(1));
}

#[test]
fn counts_out_of_range_are_cut() {
    let mut r = response(&[item(10, 10, false, 1, 99)]);
    r.num_items = -3;
    assert_eq!(assign_fds(&mut r, &[]), Ok(0));
    r.num_items = 1;
    assert_eq!(
        assign_fds(&mut r, &[]),
        Err(FdCountMismatch { needed: 4, got: 0 })
    );
    r.num_items = 99;
    assert_eq!(assign_fds(&mut r, &[1, 2, 3, 4]), Ok(4));
    assert_eq!(response_fds(&r), vec![1, 2, 3, 4]);
}

fn record() -> Vec<u8> {
    let mut bytes = vec![0u8; RESPONSE_SIZE];
    bytes[0..4].copy_from_slice(&5u32.to_ne_bytes());
    bytes[4..8].copy_from_slice(&(-2i32).to_ne_bytes());
    bytes[8..13].copy_from_slice(b"no\xff\0x");
    // The first plane: one dma-buf, its size, its modifier, its connector and its rotation.
    bytes[136 + 4..136 + 8].copy_from_slice(&7680u32.to_ne_bytes());
    bytes[136 + 48..136 + 52].copy_from_slice(&1i32.to_ne_bytes());
    bytes[136 + 52..136 + 56].copy_from_slice(&1920u32.to_ne_bytes());
    bytes[136 + 56..136 + 60].copy_from_slice(&1080u32.to_ne_bytes());
    bytes[136 + 60..136 + 64].copy_from_slice(&0x3432_5258u32.to_ne_bytes());
    bytes[136 + 64..136 + 72].copy_from_slice(&0x0100_0000_0000_0002u64.to_ne_bytes());
    bytes[136 + 72..136 + 76].copy_from_slice(&77u32.to_ne_bytes());
    bytes[136 + 84..136 + 88].copy_from_slice(&(-5i32).to_ne_bytes());
    bytes[1224..1228].copy_from_slice(&1i32.to_ne_bytes());
    bytes
}

#[test]
fn a_record_is_read_field_by_field() {
    let r = receive(&record(), &[42]).expect("an answer");
    assert_eq!(r.version, 5);
    assert_eq!(r.result, -2);
    assert_eq!(r.num_items, 1);
    let p = r.items[0];
    assert_eq!(p.dma_buf[0].fd, 42);
    assert_eq!(p.dma_buf[0].pitch, 7680);
    assert_eq!((p.width, p.height), (1920, 1080));
    assert_eq!(p.modifier, 0x0100_0000_0000_0002);
    assert_eq!(p.connector_id, 77);
    assert_eq!(p.x, -5);
    let plan = plan_import(&p).expect("a plan");
    assert_eq!((plan.width, plan.height), (640, 360));
    assert_eq!(
        plan.attribs,
        vec![
            0x3057, 1920, 0x3056, 1080, 0x3271, 0x3432_5258, 0x3272, 42, 0x3273, 0, 0x3274, 7680,
            0x3443, 2, 0x3444, 0x0100_0000, 0x3038
        ]
    );
}

#[test]
fn words_stand_in_either_byte_order() {
    let req = KmsRequest {
        version: 0x0102_0304,
        type_: 1,
        new_connection_fd: -2,
    };
    assert_eq!(
        req.as_bytes_in(ByteOrder::Little),
        vec![4, 3, 2, 1, 1, 0, 0, 0, 0xFE, 0xFF, 0xFF, 0xFF]
    );
    assert_eq!(
        req.as_bytes_in(ByteOrder::Big),
        vec![1, 2, 3, 4, 0, 0, 0, 1, 0xFF, 0xFF, 0xFF, 0xFE]
    );
    let mut little = vec![0u8; RESPONSE_SIZE];
    little[0..4].copy_from_slice(&5u32.to_le_bytes());
    little[136 + 64..136 + 72].copy_from_slice(&0x0102_0304_0506_0708u64.to_le_bytes());
    let mut big = vec![0u8; RESPONSE_SIZE];
    big[0..4].copy_from_slice(&5u32.to_be_bytes());
    big[136 + 64..136 + 72].copy_from_slice(&0x0102_0304_0506_0708u64.to_be_bytes());
    for (bytes, order) in [(&little, ByteOrder::Little), (&big, ByteOrder::Big)] {
        let r = KmsResponse::parse(bytes, order);
        assert_eq!(r.version, 5);
        assert_eq!(r.items[0].modifier, 0x0102_0304_0506_0708);
        let r = receive_in(bytes, &[], order).expect("an answer");
        assert_eq!(check_version(&r), Ok(()));
    }
    // A record in the other order is of no version that is known.
    let r = receive_in(&little, &[], ByteOrder::Big).expect("an answer");
    assert_eq!(
        check_version(&r),
        Err(ReplyError::Version { got: 0x0500_0000 })
    );
}

#[test]
fn the_machine_decides_on_the_byte_order() {
    let native = order_of_one(1u32.to_ne_bytes());
    assert_eq!(order_of_one([1, 0, 0, 0]), ByteOrder::Little);
    assert_eq!(order_of_one([0, 0, 0, 1]), ByteOrder::Big);
    let req = KmsRequest::new(KMS_REQUEST_TYPE_GET_KMS, 7);
    assert_eq!(req.as_bytes(), req.as_bytes_in(native));
    assert_eq!(req.as_bytes()[8..12], 7i32.to_ne_bytes());
}

#[test]
fn a_refusal_brings_its_message() {
    let r = receive(&record(), &[42]).expect("an answer");
    assert_eq!(check_version(&r), Ok(()));
    // What is no UTF-8 is replaced.
    assert_eq!(
        check_reply(&r),
        Err(ReplyError::Refused {
            result: -2,
            message: "no\u{fffd}".to_string()
        })
    );
}

#[test]
fn another_version_is_refused_first() {
    let mut r = KmsResponse::zeroed();
    r.result = 3;
    r.version = 4;
    assert_eq!(check_version(&r), Err(ReplyError::Version { got: 4 }));
    assert_eq!(check_reply(&r), Err(ReplyError::Version { got: 4 }));
    r.version = 5;
    r.result = 0;
    assert_eq!(check_reply(&r), Ok(()));
}

#[test]
fn error_messages_end_at_the_first_zero() {
    let mut r = KmsResponse::zeroed();
    assert_eq!(r.err_msg_str(), "");
    r.err_msg[0] = b'h';
    r.err_msg[1] = b'i';
    assert_eq!(r.err_msg_str(), "hi");
    r.err_msg = [b'a'; 128];
    assert_eq!(r.err_msg_str(), "");
}

#[test]
fn an_empty_record_means_that_the_helper_is_gone() {
    assert!(matches!(receive(&[], &[]), Err(ReceiveError::Closed)));
    assert!(matches!(
        receive(&record(), &[]),
        Err(ReceiveError::FdCount(FdCountMismatch { needed: 1, got: 0 }))
    ));
}

#[test]
fn planes_without_pixels_are_not_imported() {
    assert_eq!(
        plan_import(&item(1, 1, false, 0, 0)).err(),
        Some(PlaneError::NoDmaBuf)
    );
    assert_eq!(
        plan_import(&item(0, 1, false, 0, 1)).err(),
        Some(PlaneError::ZeroDimension)
    );
    assert_eq!(
        plan_import(&item(1, 0, false, 0, 1)).err(),
        Some(PlaneError::ZeroDimension)
    );
}

#[test]
fn the_picture_is_made_anew_only_when_its_size_changes() {
    let mut s = ReadBackSize::new();
    let a = s.next(640, 360);
    assert_eq!((a.bytes, a.reallocate), (921_600, true));
    let b = s.next(640, 360);
    assert!(!b.reallocate);
    assert!(s.next(640, 361).reallocate);
}

#[test]
fn sockets_stand_below_home() {
    assert_eq!(
        socket_path(b"/home/u".to_vec(), 1234, 5),
        b"/home/u/.gsr-kms-socket-rustiferin-1234-5".to_vec()
    );
    assert_eq!(
        socket_path(b"/".to_vec(), 0, 0),
        b"/.gsr-kms-socket-rustiferin-0-0".to_vec()
    );
}

#[test]
fn accepting_gives_up_on_a_dead_or_silent_helper() {
    assert_eq!(accept_step(true, 0), AcceptStep::HelperExited);
    assert_eq!(accept_step(false, 0), AcceptStep::LookAgain);
    assert_eq!(accept_step(false, 6_000_000_000), AcceptStep::TimedOut);
    assert!(is_whole_request(12));
    assert!(!is_whole_request(11));
}

#[test]
fn polling_keeps_its_rate() {
    let c = KmsCapture::new("/dev/dri/card0".to_string(), "/dev/dri/renderD128".to_string(), 0);
    assert_eq!(c.poll_rate(), 1);
    assert_eq!(pause_after(33, 10), 23);
    assert_eq!(pause_after(33, 40), 0);
    let f = plane_frame(vec![0; 8], 2, 1, PixelFormat::Rgba);
    assert_eq!((f.width, f.height, f.stride), (2, 1, 8));
}
