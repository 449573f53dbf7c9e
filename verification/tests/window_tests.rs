use ipc_bench::payload::{transform_response, write_request_frame, FaultMode, PayloadError};
use ipc_bench::window::{CreditWindow, DeliveryError, RingWindow};

fn response_for(wire_size: usize, sequence: u64) -> Vec<u8> {
    let mut frame = vec![0u8; wire_size];
    write_request_frame(&mut frame, sequence);
    transform_response(&mut frame, FaultMode::NoFault);
    frame
}

#[test]
fn credit_window_accepts_reordered_responses_once() {
    let mut window: CreditWindow<u32> = CreditWindow::new(2, 12);
    assert_eq!(window.begin_round(3), 2);
    assert_eq!(window.next_write(), Some(0));
    assert_eq!(window.record_write(Some(100)), 0);
    window.on_write_complete(0);
    assert_eq!(window.next_write(), Some(1));
    assert_eq!(window.record_write(None), 1);
    // Sequence 2 reuses credit 0, which still waits for its response.
    assert_eq!(window.next_write(), None);

    // Responses complete out of order; the second arrives before its write completes.
    let done = window.on_read_complete(&response_for(12, 1)).unwrap();
    assert_eq!(done.started, None);
    assert!(done.reissue_read);
    assert_eq!(window.delivered(), 1);
    assert_eq!(
        window.on_read_complete(&response_for(12, 1)).err(),
        Some(DeliveryError::DuplicateOrStale)
    );
    let done = window.on_read_complete(&response_for(12, 0)).unwrap();
    assert_eq!(done.started, Some(100));
    assert!(!done.reissue_read);
    assert_eq!(window.delivered(), 2);

    // Credit 0 is free again: sequence 2 may be written.
    assert_eq!(window.next_write(), Some(2));
    assert_eq!(window.record_write(None), 0);
    window.on_write_complete(0);
    window.on_write_complete(1);
    // A response for a sequence not yet sent is stale.
    assert_eq!(
        window.on_read_complete(&response_for(12, 3)).err(),
        Some(DeliveryError::DuplicateOrStale)
    );
    let mut corrupt = response_for(12, 2);
    corrupt[11] ^= 0x40;
    assert_eq!(
        window.on_read_complete(&corrupt).err(),
        Some(DeliveryError::Payload(PayloadError::CorruptResponse {
            sequence: 2,
            byte: 11,
            expected: 3,
            received: 0x43,
        }))
    );
    assert!(window.on_read_complete(&response_for(12, 2)).is_ok());
    assert_eq!(window.delivered(), 3);
    assert_eq!(window.count(), 3);
    assert_eq!(window.next_write(), None);

    // The next round continues the sequence numbers.
    window.finish_round();
    assert_eq!(window.begin_round(1), 1);
    assert_eq!(window.next_write(), Some(3));
}

#[test]
fn ring_window_windowed_responses_follow_sequence_order() {
    let mut window: RingWindow<u32> = RingWindow::new(12, 2);
    window.begin_round(3);
    assert!(!window.can_send(false));
    assert!(window.can_send(true));
    assert_eq!(window.next_send_sequence(), 0);
    window.record_send(Some(5));
    let mut expected = vec![0u8; 12];
    write_request_frame(&mut expected, 0);
    assert_eq!(window.outbound(), &expected[..]);
    assert!(window.can_send(true));
    assert_eq!(window.next_send_sequence(), 1);
    window.record_send(None);
    write_request_frame(&mut expected, 1);
    assert_eq!(window.outbound(), &expected[..]);
    // Depth two: a third request waits for a response.
    assert!(!window.can_send(true));

    assert_eq!(
        window.on_response(&response_for(12, 1)).err(),
        Some(DeliveryError::Payload(PayloadError::CorruptResponse {
            sequence: 0,
            byte: 0,
            expected: 1,
            received: 2,
        }))
    );
    assert_eq!(
        window.on_response(&response_for(12, 0)[..11]).err(),
        Some(DeliveryError::Payload(PayloadError::IncorrectLength))
    );
    assert_eq!(window.on_response(&response_for(12, 0)), Ok(Some(5)));
    assert_eq!(window.received(), 1);
    assert!(window.can_send(true));
    assert_eq!(window.on_response(&response_for(12, 1)), Ok(None));
    assert_eq!(window.received(), 2);
    window.finish_round();
    window.begin_round(1);
    assert_eq!(window.next_send_sequence(), 3);
}

#[test]
fn streaming_acknowledgements_cannot_exceed_sends() {
    let mut window: RingWindow<u32> = RingWindow::new(16, 4);
    window.begin_round(4);
    window.record_send(Some(10));
    window.record_send(Some(11));
    window.record_send(None);
    assert_eq!(window.acknowledge(2), Ok(vec![Some(10), Some(11)]));
    assert_eq!(window.received(), 2);
    assert_eq!(window.acknowledge(2), Ok(vec![]));
    assert_eq!(window.acknowledge(4), Err(DeliveryError::InvalidAcknowledgement));
    assert_eq!(window.received(), 2);
    assert_eq!(window.acknowledge(3), Ok(vec![None]));
    assert_eq!(window.received(), 3);

    // Counters continue across rounds; the acknowledgement is relative to the round.
    window.record_send(Some(12));
    assert_eq!(window.acknowledge(4), Ok(vec![Some(12)]));
    window.finish_round();
    window.begin_round(2);
    window.record_send(Some(20));
    assert_eq!(window.acknowledge(5), Ok(vec![Some(20)]));
    assert_eq!(window.acknowledge(7), Err(DeliveryError::InvalidAcknowledgement));
}
