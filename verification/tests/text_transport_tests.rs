use ipc_bench::text::{format_usize, parse_usize, split_two_fields, str_eq, trim, trimmed_lower_equals};
use ipc_bench::transport::{
    align_up, classify_mailslot_message, readiness_message, mailbox_method_name, parse_ready_port, raw_sync_layout,
    raw_sync_layout_for, raw_sync_method_name, ring_method_name, validate_udp_message_size,
    MailslotMessage, RawSyncLayout, RawSyncMethod, ReadinessError, MAX_UDP_PAYLOAD,
};
use ipc_bench::wake::WaitStrategy;

#[test]
fn parses_decimal_counts_like_std() {
    for s in ["0", "7", "+7", "0042", "18446744073709551615", "", "+", "-1", " 1", "1 ", "1e3", "18446744073709551616", "٣"] {
        assert_eq!(parse_usize(s), s.parse::<usize>().ok(), "{s:?}");
    }
}

#[test]
fn formats_decimal_counts_like_std() {
    for n in [0usize, 1, 9, 10, 99, 100, 12345, usize::MAX] {
        assert_eq!(format_usize(n), n.to_string());
        assert_eq!(parse_usize(&format_usize(n)), Some(n));
    }
}

#[test]
fn string_helpers() {
    assert!(str_eq("abc", "abc"));
    assert!(!str_eq("abc", "abd"));
    assert!(!str_eq("abc", "ab"));
    assert!(trimmed_lower_equals("  OfF \n", "off"));
    assert!(!trimmed_lower_equals("o ff", "off"));
    assert_eq!(split_two_fields("0,2", ','), Some(("0", "2")));
    assert_eq!(split_two_fields(",", ','), Some(("", "")));
    assert_eq!(split_two_fields("0", ','), None);
    assert_eq!(split_two_fields("0,1,2", ','), None);
}

#[test]
fn method_names() {
    assert_eq!(raw_sync_method_name(RawSyncMethod::Event), "shm-raw-sync-event");
    assert_eq!(raw_sync_method_name(RawSyncMethod::Busy), "shm-raw-sync-busy");
    assert_eq!(mailbox_method_name(WaitStrategy::Spin), "shm-mailbox-spin");
    assert_eq!(mailbox_method_name(WaitStrategy::Hybrid), "shm-mailbox-hybrid");
    assert_eq!(ring_method_name(WaitStrategy::Spin), "shm-ring-spin");
    assert_eq!(ring_method_name(WaitStrategy::Hybrid), "shm-ring-hybrid");
}

#[test]
fn readiness_lines() {
    assert_eq!(parse_ready_port("ready:8080"), Ok(8080));
    assert_eq!(parse_ready_port("ready:65535"), Ok(65535));
    assert_eq!(parse_ready_port("ready:65536"), Err(ReadinessError::InvalidPort));
    assert_eq!(parse_ready_port("ready:"), Err(ReadinessError::InvalidPort));
    assert_eq!(parse_ready_port("ready: 1"), Err(ReadinessError::InvalidPort));
    assert_eq!(parse_ready_port("ready"), Err(ReadinessError::UnexpectedMessage));
    assert_eq!(parse_ready_port("Ready:1"), Err(ReadinessError::UnexpectedMessage));
}

#[test]
fn udp_payload_limit() {
    assert!(validate_udp_message_size(1));
    assert!(validate_udp_message_size(MAX_UDP_PAYLOAD));
    assert!(!validate_udp_message_size(MAX_UDP_PAYLOAD + 1));
}

#[test]
fn mailslot_message_kinds() {
    assert_eq!(classify_mailslot_message(1, 0xFF, 100), MailslotMessage::Stop);
    assert_eq!(classify_mailslot_message(1, 0, 100), MailslotMessage::WrongLength);
    assert_eq!(classify_mailslot_message(100, 3, 100), MailslotMessage::Request);
    assert_eq!(classify_mailslot_message(99, 3, 100), MailslotMessage::WrongLength);
    assert_eq!(classify_mailslot_message(1, 0xFF, 1), MailslotMessage::Stop);
}

#[test]
fn alignment_and_raw_sync_layout() {
    assert_eq!(align_up(0, 8), Some(0));
    assert_eq!(align_up(1, 8), Some(8));
    assert_eq!(align_up(16, 8), Some(16));
    assert_eq!(align_up(usize::MAX, 8), None);
    assert_eq!(
        raw_sync_layout(100, 12, 1, 8),
        Some(RawSyncLayout {
            request_event_offset: 8,
            response_event_offset: 24,
            request_offset: 36,
            response_offset: 136,
            total_size: 236,
        })
    );
    assert_eq!(raw_sync_layout(usize::MAX / 2, 12, 1, 8), None);
}

#[test]
fn raw_sync_layout_uses_the_event_size() {
    for method in [RawSyncMethod::Event, RawSyncMethod::Busy] {
        let layout = raw_sync_layout_for(method, 64, 1).unwrap();
        let word = std::mem::align_of::<usize>();
        assert_eq!(layout.request_event_offset, word);
        let event = layout.request_offset - layout.response_event_offset;
        assert!(event > 0);
        assert!(layout.response_event_offset >= layout.request_event_offset + event);
        assert_eq!(layout.response_event_offset % word, 0);
        assert_eq!(layout.response_offset, layout.request_offset + 64);
        assert_eq!(layout.total_size, layout.response_offset + 64);
    }
}

#[test]
fn trims_like_std() {
    for s in ["", "  ", "ready\n", "\t ready \r\n", "a b", "\u{3000}x\u{a0}"] {
        assert_eq!(trim(s), s.trim(), "{s:?}");
    }
}

#[test]
fn readiness_needs_a_whole_line() {
    assert_eq!(readiness_message("ready\n"), Some("ready"));
    assert_eq!(readiness_message("  ready:4000 \r\n"), Some("ready:4000"));
    assert_eq!(readiness_message("\n"), Some(""));
    assert_eq!(readiness_message(""), None);
    assert_eq!(readiness_message("ready"), None);
}
