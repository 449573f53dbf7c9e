use ipc_bench::payload::{
    accept_stream_request, check_response, check_response_and_advance,
    check_response_and_advance_header, initialize_payload, latency_sampled, set_frame_sequence,
    transform_response, validate_stream_request, write_request_frame, FaultMode, PayloadError,
};

#[test]
fn rejects_corruption_short_and_stale_replies() {
    for size in [1, 2, 63, 64, 65, 4095, 4096, 4097] {
        let mut request = vec![0; size + 8];
        initialize_payload(&mut request);
        let mut response = request.clone();
        response[0] = response[0].wrapping_add(1);
        let mut corrupt = response.clone();
        corrupt[size + 7] ^= 1;
        assert!(check_response_and_advance(&mut request, &corrupt, true).is_err());
        assert!(check_response_and_advance(&mut request, &response[..size + 7], true).is_err());
        check_response_and_advance(&mut request, &response, true).unwrap();
        assert!(check_response_and_advance(&mut request, &response, true).is_err());
    }
}

#[test]
fn initial_frame_is_zero_header_then_pattern() {
    let mut frame = vec![0xFFu8; 8 + 300];
    initialize_payload(&mut frame);
    assert_eq!(&frame[..8], &[0; 8]);
    for (index, byte) in frame[8..].iter().enumerate() {
        assert_eq!(*byte as usize, index % 251);
    }
    assert_eq!(frame[8 + 250], 250);
    assert_eq!(frame[8 + 251], 0);
}

#[test]
fn responder_increments_byte_zero_without_carry() {
    let mut frame = vec![0u8; 12];
    initialize_payload(&mut frame);
    frame[0] = 255;
    frame[1] = 7;
    transform_response(&mut frame, FaultMode::NoFault);
    assert_eq!(frame[0], 0);
    assert_eq!(frame[1], 7);
    assert_eq!(&frame[8..], &[0, 1, 2, 3]);
    transform_response(&mut frame, FaultMode::Corrupt);
    assert_eq!(frame[0], 1);
    assert_eq!(frame[11], 2);
}

#[test]
fn honest_echo_advances_the_sequence() {
    let mut request = vec![0u8; 8 + 16];
    initialize_payload(&mut request);
    for sequence in 0u64..300 {
        assert_eq!(u64::from_le_bytes(request[..8].try_into().unwrap()), sequence);
        let mut response = request.clone();
        transform_response(&mut response, FaultMode::NoFault);
        check_response_and_advance(&mut request, &response, true).unwrap();
        assert_eq!(&request[8..], &response[8..]);
    }
    assert_eq!(u64::from_le_bytes(request[..8].try_into().unwrap()), 300);
}

#[test]
fn reports_the_first_corrupt_byte() {
    let mut request = vec![0u8; 8 + 10];
    write_request_frame(&mut request, 5);
    let mut response = request.clone();
    transform_response(&mut response, FaultMode::NoFault);
    response[12] = 99;
    response[15] = 98;
    let before = request.clone();
    assert_eq!(
        check_response_and_advance(&mut request, &response, true),
        Err(PayloadError::CorruptResponse { sequence: 5, byte: 12, expected: 4, received: 99 })
    );
    assert_eq!(request, before);
    let mut stale = request.clone();
    stale[0] = 5;
    assert_eq!(
        check_response_and_advance(&mut request, &stale, true),
        Err(PayloadError::CorruptResponse { sequence: 5, byte: 0, expected: 6, received: 5 })
    );
    assert_eq!(
        check_response_and_advance(&mut request, &response[..9], true),
        Err(PayloadError::IncorrectLength)
    );
}

#[test]
fn sampled_validation_checks_only_headers_between_checkpoints() {
    let mut request = vec![0u8; 8 + 10];
    write_request_frame(&mut request, 5);
    let mut response = request.clone();
    transform_response(&mut response, FaultMode::Corrupt);
    check_response_and_advance(&mut request, &response, false).unwrap();
    assert_eq!(u64::from_le_bytes(request[..8].try_into().unwrap()), 6);

    let mut checkpoint = vec![0u8; 8 + 10];
    write_request_frame(&mut checkpoint, 1024);
    let mut response = checkpoint.clone();
    transform_response(&mut response, FaultMode::Corrupt);
    assert_eq!(
        check_response_and_advance(&mut checkpoint, &response, false),
        Err(PayloadError::CorruptResponse { sequence: 1024, byte: 17, expected: 9, received: 8 })
    );
}

#[test]
fn stream_requests_must_carry_their_sequence() {
    let mut frame = vec![0u8; 8 + 20];
    write_request_frame(&mut frame, 41);
    assert_eq!(validate_stream_request(&frame, 41), Ok(()));
    assert_eq!(
        validate_stream_request(&frame, 42),
        Err(PayloadError::IncorrectStreamDelivery { sequence: 42 })
    );
    frame[27] ^= 1;
    assert_eq!(
        validate_stream_request(&frame, 41),
        Err(PayloadError::IncorrectStreamDelivery { sequence: 41 })
    );
    assert_eq!(
        validate_stream_request(&frame[..8], 41),
        Err(PayloadError::IncorrectStreamDelivery { sequence: 41 })
    );
}

#[test]
fn header_writes_keep_the_payload() {
    let mut frame = vec![9u8; 12];
    set_frame_sequence(&mut frame, 0x0102_0304_0506_0708);
    assert_eq!(frame, vec![8, 7, 6, 5, 4, 3, 2, 1, 9, 9, 9, 9]);
}

#[test]
fn fault_names() {
    assert_eq!(FaultMode::from_name("before-ready"), FaultMode::BeforeReady);
    assert_eq!(FaultMode::from_name("mid-request"), FaultMode::MidRequest);
    assert_eq!(FaultMode::from_name("shutdown"), FaultMode::Shutdown);
    assert_eq!(FaultMode::from_name("corrupt"), FaultMode::Corrupt);
    assert_eq!(FaultMode::from_name(""), FaultMode::NoFault);
    assert_eq!(FaultMode::from_name("Corrupt"), FaultMode::NoFault);
}

#[test]
fn every_sixteenth_sequence_is_sampled() {
    assert!(latency_sampled(0));
    assert!(!latency_sampled(15));
    assert!(latency_sampled(16));
    assert!(latency_sampled(u64::MAX - 15));
}

#[test]
fn wrong_length_is_refused_even_at_the_largest_sequence() {
    let mut request = vec![0u8; 8 + 4];
    write_request_frame(&mut request, u64::MAX);
    let before = request.clone();
    assert_eq!(
        check_response_and_advance(&mut request, &before[..11], true),
        Err(PayloadError::IncorrectLength)
    );
    assert_eq!(request, before);
    let mut stale = before.clone();
    stale[0] = 5;
    assert!(matches!(
        check_response_and_advance(&mut request, &stale, false),
        Err(PayloadError::CorruptResponse { byte: 0, .. })
    ));
    assert_eq!(request, before);
}

#[test]
fn honest_exchanges_reach_sequence_k() {
    for m in [1usize, 64, 300] {
        for full in [true, false] {
            let mut out = vec![0u8; m + 8];
            initialize_payload(&mut out);
            let k = 2050u64;
            for _ in 0..k {
                let mut r = out.clone();
                transform_response(&mut r, FaultMode::NoFault);
                assert_eq!(check_response_and_advance(&mut out, &r, full), Ok(()));
            }
            assert_eq!(u64::from_le_bytes(out[..8].try_into().unwrap()), k);
            for (i, byte) in out.iter().enumerate().skip(8) {
                assert_eq!(*byte as usize, (i - 8) % 251);
            }
        }
    }
}

#[test]
fn header_only_advance_keeps_the_request_payload() {
    let mut request = vec![0u8; 8 + 6];
    write_request_frame(&mut request, 7);
    let mut response = request.clone();
    transform_response(&mut response, FaultMode::NoFault);
    response[13] = 0xEE;
    // Sampled validation does not look at the payload of sequence 7.
    assert_eq!(check_response_and_advance_header(&mut request, &response, false), Ok(()));
    let mut expected = vec![0u8; 8 + 6];
    write_request_frame(&mut expected, 8);
    assert_eq!(request, expected);
    assert_eq!(
        check_response_and_advance_header(&mut request, &response[..5], true),
        Err(PayloadError::IncorrectLength)
    );
}

#[test]
fn response_check_alone_leaves_the_request() {
    let mut request = vec![0u8; 8 + 3];
    write_request_frame(&mut request, 3);
    let mut response = request.clone();
    transform_response(&mut response, FaultMode::NoFault);
    assert_eq!(check_response(&request, &response, true), Ok(()));
    response[9] = 77;
    assert_eq!(
        check_response(&request, &response, true),
        Err(PayloadError::CorruptResponse { sequence: 3, byte: 9, expected: 1, received: 77 })
    );
    assert_eq!(check_response(&request, &response[..8], true), Err(PayloadError::IncorrectLength));
}

#[test]
fn streaming_worker_acknowledges_only_valid_requests() {
    let mut frame = vec![0u8; 8 + 5];
    write_request_frame(&mut frame, 9);
    assert_eq!(accept_stream_request(&frame, 9), Ok(10));
    assert_eq!(
        accept_stream_request(&frame, 8),
        Err(PayloadError::IncorrectStreamDelivery { sequence: 8 })
    );
}
