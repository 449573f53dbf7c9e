//! The validated frame: eight little-endian sequence bytes, then the payload pattern
//! `index % 251`. The responder increments header byte zero (without carry) and
//! echoes the rest; the requester checks every byte it is told to against its own
//! oracle and advances its sequence independently.
use vstd::bytes::{
    lemma_auto_spec_u64_to_from_le_bytes, spec_u64_from_le_bytes, spec_u64_to_le_bytes,
    spec_u64_to_le_bytes_to_open, u64_from_le_bytes, u64_to_le_bytes,
};
use vstd::prelude::*;

use crate::text::str_eq;

verus! {

broadcast use vstd::string::group_string_axioms;

/// Number of sequence bytes in front of every payload.
pub const HEADER_BYTES: usize = 8;

/// A byte incremented modulo 256.
pub open spec fn increment_byte(b: u8) -> u8 {
    if b == 255 {
        0
    } else {
        (b + 1) as u8
    }
}

fn increment(b: u8) -> (r: u8)
    ensures
        r == increment_byte(b),
{
    if b == 255 {
        0
    } else {
        b + 1
    }
}

/// The payload byte at wire position `i` (for `i >= 8`).
pub open spec fn pattern_byte(i: int) -> u8 {
    ((i - 8) % 251) as u8
}

/// A request frame for sequence zero: eight zero bytes, then the payload pattern.
pub open spec fn initial_frame(len: nat) -> Seq<u8> {
    Seq::new(len, |i: int| if i < 8 { 0u8 } else { pattern_byte(i) })
}

/// The sequence number a frame's header carries.
pub open spec fn frame_sequence(frame: Seq<u8>) -> u64 {
    spec_u64_from_le_bytes(frame.subrange(0, 8))
}

/// What the requester expects at wire position `i` of the response to `request`.
pub open spec fn expected_response_byte(request: Seq<u8>, i: int) -> u8 {
    if i == 0 {
        increment_byte(request[0])
    } else if i >= 8 {
        pattern_byte(i)
    } else {
        request[i]
    }
}

/// The responder's transformation: byte zero incremented modulo 256, the rest echoed.
pub open spec fn echo_response(request: Seq<u8>) -> Seq<u8> {
    request.update(0, increment_byte(request[0]))
}

/// How many leading bytes of a response are checked: all of them under full
/// validation or on every 1024th sequence, else the eight header bytes.
pub open spec fn checked_prefix(request: Seq<u8>, full_validation: bool) -> nat {
    if full_validation || frame_sequence(request) % 1024 == 0 {
        request.len()
    } else {
        8
    }
}

/// The first checked position at which `response` differs from what `request` expects.
pub open spec fn first_mismatch(request: Seq<u8>, response: Seq<u8>, checked: nat) -> Option<
    nat,
> {
    if exists|i: int| 0 <= i < checked && response[i] != expected_response_byte(request, i) {
        Some(
            (choose|i: int|
                0 <= i < checked && response[i] != expected_response_byte(request, i) && forall|
                    j: int,
                | 0 <= j < i ==> response[j] == expected_response_byte(request, j)) as nat,
        )
    } else {
        None
    }
}

/// The request that follows an accepted response: the response's bytes under the
/// next sequence number.
pub open spec fn next_request(request: Seq<u8>, response: Seq<u8>) -> Seq<u8> {
    spec_u64_to_le_bytes((frame_sequence(request) + 1) as u64) + response.subrange(
        8,
        response.len() as int,
    )
}

/// Why a response or a delivery was refused.
#[derive(Clone, Copy, Debug, PartialEq, Eq, Structural)]
pub enum PayloadError {
    /// The response is shorter or longer than the request, or has no payload.
    IncorrectLength,
    /// A checked byte differs from the oracle: the first such byte.
    CorruptResponse { sequence: u64, byte: usize, expected: u8, received: u8 },
    /// A streamed request is not the frame of the expected sequence.
    IncorrectStreamDelivery { sequence: u64 },
}

/// Fault injection for the cross-process contract gate; `None` unless a test asks.
#[derive(Clone, Copy, Debug, PartialEq, Eq, Structural)]
pub enum FaultMode {
    NoFault,
    BeforeReady,
    MidRequest,
    Shutdown,
    Corrupt,
}

pub open spec fn fault_mode_spec(name: Seq<char>) -> FaultMode {
    if name == "before-ready"@ {
        FaultMode::BeforeReady
    } else if name == "mid-request"@ {
        FaultMode::MidRequest
    } else if name == "shutdown"@ {
        FaultMode::Shutdown
    } else if name == "corrupt"@ {
        FaultMode::Corrupt
    } else {
        FaultMode::NoFault
    }
}

impl FaultMode {
    /// The fault that a fault-injection setting names; any other text names none.
    pub fn from_name(name: &str) -> (mode: FaultMode)
        ensures
            mode == fault_mode_spec(name@),
    {
        if str_eq(name, "before-ready") {
            FaultMode::BeforeReady
        } else if str_eq(name, "mid-request") {
            FaultMode::MidRequest
        } else if str_eq(name, "shutdown") {
            FaultMode::Shutdown
        } else if str_eq(name, "corrupt") {
            FaultMode::Corrupt
        } else {
            FaultMode::NoFault
        }
    }
}

/// Writes the frame of sequence zero into `buffer`.
pub fn initialize_payload(buffer: &mut [u8])
    requires
        old(buffer)@.len() > 8,
    ensures
        final(buffer)@ == initial_frame(old(buffer)@.len()),
{
    let n = buffer.len();
    let mut i: usize = 0;
    while i < n
        invariant
            n == buffer@.len(),
            n > 8,
            i <= n,
            forall|j: int| 0 <= j < i ==> buffer@[j] == initial_frame(n as nat)[j],
        decreases n - i,
    {
        if i < 8 {
            buffer[i] = 0;
        } else {
            buffer[i] = ((i - 8) % 251) as u8;
        }
        i = i + 1;
    }
    assert(buffer@ =~= initial_frame(n as nat));
}

/// The responder's step: byte zero is incremented modulo 256; under the `Corrupt`
/// fault the last byte's lowest bit is flipped afterwards.
pub fn transform_response(payload: &mut [u8], fault: FaultMode)
    requires
        old(payload)@.len() > 0,
    ensures
        fault != FaultMode::Corrupt ==> final(payload)@ == echo_response(old(payload)@),
        fault == FaultMode::Corrupt ==> final(payload)@ == echo_response(old(payload)@).update(
            old(payload)@.len() - 1,
            echo_response(old(payload)@).last() ^ 1u8,
        ),
{
    payload[0] = increment(payload[0]);
    if fault == FaultMode::Corrupt {
        let last = payload.len() - 1;
        payload[last] = payload[last] ^ 1;
    }
}

/// Checks `inbound` against the response that `request` expects: it must have the
/// request's length (more than the header), and every checked byte must match.
/// Under sampled validation only the header is checked, except on every 1024th
/// sequence.
pub fn check_response(request: &[u8], inbound: &[u8], full_validation: bool) -> (result: Result<
    (),
    PayloadError,
>)
    ensures
        inbound@.len() != request@.len() || inbound@.len() <= 8 ==> result == Err::<
            (),
            PayloadError,
        >(PayloadError::IncorrectLength),
        inbound@.len() == request@.len() && inbound@.len() > 8 ==> match first_mismatch(
            request@,
            inbound@,
            checked_prefix(request@, full_validation),
        ) {
            Some(i) => result == Err::<(), PayloadError>(
                PayloadError::CorruptResponse {
                    sequence: frame_sequence(request@),
                    byte: i as usize,
                    expected: expected_response_byte(request@, i as int),
                    received: inbound@[i as int],
                },
            ),
            None => result == Ok::<(), PayloadError>(()),
        },
{
    let n = inbound.len();
    if n != request.len() || n <= 8 {
        return Err(PayloadError::IncorrectLength);
    }
    let sequence = u64_from_le_bytes(&request[0..8]);
    let full = full_validation || sequence % 1024 == 0;
    let checked = if full {
        n
    } else {
        8
    };
    assert(checked == checked_prefix(request@, full_validation));
    let mut index: usize = 0;
    while index < checked
        invariant
            n == inbound@.len(),
            n == request@.len(),
            n > 8,
            sequence == frame_sequence(request@),
            checked == checked_prefix(request@, full_validation),
            checked <= n,
            index <= checked,
            forall|j: int|
                0 <= j < index ==> inbound@[j] == expected_response_byte(request@, j),
        decreases checked - index,
    {
        let expected = if index == 0 {
            increment(request[0])
        } else if index >= 8 {
            ((index - 8) % 251) as u8
        } else {
            request[index]
        };
        assert(expected == expected_response_byte(request@, index as int));
        if inbound[index] != expected {
            proof {
                let i = index as int;
                let r = request@;
                let c = choose|k: int|
                    0 <= k < checked && inbound@[k] != expected_response_byte(r, k) && forall|
                        j: int,
                    | 0 <= j < k ==> inbound@[j] == expected_response_byte(r, j);
                assert(0 <= i < checked && inbound@[i] != expected_response_byte(r, i) && forall|
                    j: int,
                | 0 <= j < i ==> inbound@[j] == expected_response_byte(r, j));
                if c < i {
                } else if c > i {
                    assert(inbound@[i] == expected_response_byte(r, i));
                }
            }
            return Err(
                PayloadError::CorruptResponse {
                    sequence,
                    byte: index,
                    expected,
                    received: inbound[index],
                },
            );
        }
        index = index + 1;
    }
    assert(first_mismatch(request@, inbound@, checked as nat) is None);
    Ok(())
}

/// Checks `inbound` against the response that `outbound` expects, then turns
/// `outbound` into the next request: the response's bytes under the next sequence.
/// Advancing past the largest sequence is refused by `requires`; a refused reply
/// leaves `outbound` unchanged whatever its sequence.
pub fn check_response_and_advance(
    outbound: &mut [u8],
    inbound: &[u8],
    full_validation: bool,
) -> (result: Result<(), PayloadError>)
    requires
        accepts(old(outbound)@, inbound@, full_validation) ==> frame_sequence(old(outbound)@)
            < u64::MAX,
    ensures
        inbound@.len() != old(outbound)@.len() || inbound@.len() <= 8 ==> result
            == Err::<(), PayloadError>(PayloadError::IncorrectLength) && final(outbound)@ == old(
            outbound,
        )@,
        inbound@.len() == old(outbound)@.len() && inbound@.len() > 8 ==> {
            let request = old(outbound)@;
            match first_mismatch(request, inbound@, checked_prefix(request, full_validation)) {
                Some(i) => result == Err::<(), PayloadError>(
                    PayloadError::CorruptResponse {
                        sequence: frame_sequence(request),
                        byte: i as usize,
                        expected: expected_response_byte(request, i as int),
                        received: inbound@[i as int],
                    },
                ) && final(outbound)@ == request,
                None => result == Ok::<(), PayloadError>(()) && final(outbound)@ == next_request(
                    request,
                    inbound@,
                ),
            }
        },
{
    match check_response(outbound, inbound, full_validation) {
        Err(e) => {
            return Err(e);
        },
        Ok(()) => {},
    }
    let ghost request = outbound@;
    let n = inbound.len();
    let sequence = u64_from_le_bytes(&outbound[0..8]);
    let header = u64_to_le_bytes(sequence + 1);
    let mut k: usize = 0;
    while k < n
        invariant
            n == inbound@.len(),
            n == outbound@.len(),
            header@.len() == 8,
            k <= n,
            forall|j: int| 0 <= j < k ==> outbound@[j] == if j < 8 {
                header@[j]
            } else {
                inbound@[j]
            },
        decreases n - k,
    {
        if k < 8 {
            outbound[k] = header[k];
        } else {
            outbound[k] = inbound[k];
        }
        k = k + 1;
    }
    assert(outbound@ =~= next_request(request, inbound@));
    Ok(())
}

/// The request that follows an accepted response when the payload is not copied
/// back: the request's own bytes under the next sequence.
pub open spec fn next_request_in_place(request: Seq<u8>) -> Seq<u8> {
    spec_u64_to_le_bytes((frame_sequence(request) + 1) as u64) + request.subrange(
        8,
        request.len() as int,
    )
}

/// Like `check_response_and_advance`, but an accepted response only advances the
/// request's header; the request keeps its own payload bytes instead of copying the
/// response's.
pub fn check_response_and_advance_header(
    outbound: &mut [u8],
    inbound: &[u8],
    full_validation: bool,
) -> (result: Result<(), PayloadError>)
    requires
        accepts(old(outbound)@, inbound@, full_validation) ==> frame_sequence(old(outbound)@)
            < u64::MAX,
    ensures
        inbound@.len() != old(outbound)@.len() || inbound@.len() <= 8 ==> result
            == Err::<(), PayloadError>(PayloadError::IncorrectLength) && final(outbound)@ == old(
            outbound,
        )@,
        inbound@.len() == old(outbound)@.len() && inbound@.len() > 8 ==> {
            let request = old(outbound)@;
            match first_mismatch(request, inbound@, checked_prefix(request, full_validation)) {
                Some(i) => result == Err::<(), PayloadError>(
                    PayloadError::CorruptResponse {
                        sequence: frame_sequence(request),
                        byte: i as usize,
                        expected: expected_response_byte(request, i as int),
                        received: inbound@[i as int],
                    },
                ) && final(outbound)@ == request,
                None => result == Ok::<(), PayloadError>(()) && final(outbound)@
                    == next_request_in_place(request),
            }
        },
{
    match check_response(outbound, inbound, full_validation) {
        Err(e) => {
            return Err(e);
        },
        Ok(()) => {},
    }
    let sequence = u64_from_le_bytes(&outbound[0..8]);
    set_frame_sequence(outbound, sequence + 1);
    Ok(())
}

/// A response is accepted: it has the request's length, more than the header, and
/// no checked byte differs from what the request expects.
pub open spec fn accepts(request: Seq<u8>, response: Seq<u8>, full_validation: bool) -> bool {
    &&& response.len() == request.len()
    &&& response.len() > 8
    &&& first_mismatch(request, response, checked_prefix(request, full_validation)) is None
}

/// Checks a streamed request: it must be the frame of `sequence`, with the full
/// payload pattern after its header.
pub fn validate_stream_request(request: &[u8], sequence: u64) -> (result: Result<(), PayloadError>)
    ensures
        result is Ok <==> request@.len() > 8 && request@.subrange(0, 8) == spec_u64_to_le_bytes(
            sequence,
        ) && forall|i: int| 8 <= i < request@.len() ==> request@[i] == pattern_byte(i),
        result is Err ==> result == Err::<(), PayloadError>(
            PayloadError::IncorrectStreamDelivery { sequence },
        ),
{
    let n = request.len();
    if n <= 8 {
        return Err(PayloadError::IncorrectStreamDelivery { sequence });
    }
    let header = u64_to_le_bytes(sequence);
    let mut i: usize = 0;
    while i < n
        invariant
            n == request@.len(),
            n > 8,
            header@ == spec_u64_to_le_bytes(sequence),
            header@.len() == 8,
            i <= n,
            forall|j: int| 0 <= j < i && j < 8 ==> request@[j] == header@[j],
            forall|j: int| 8 <= j < i ==> request@[j] == pattern_byte(j),
        decreases n - i,
    {
        let expected = if i < 8 {
            header[i]
        } else {
            ((i - 8) % 251) as u8
        };
        if request[i] != expected {
            proof {
                if i < 8 {
                    assert(request@.subrange(0, 8)[i as int] != header@[i as int]);
                    assert(request@.subrange(0, 8) != spec_u64_to_le_bytes(sequence));
                } else {
                    assert(request@[i as int] != pattern_byte(i as int));
                }
            }
            return Err(PayloadError::IncorrectStreamDelivery { sequence });
        }
        i = i + 1;
    }
    assert(request@.subrange(0, 8) =~= header@);
    Ok(())
}

/// A well-formed request frame of sequence `sequence`: the header, then the pattern.
pub open spec fn is_frame(frame: Seq<u8>, sequence: u64) -> bool {
    &&& frame.len() > 8
    &&& frame.subrange(0, 8) == spec_u64_to_le_bytes(sequence)
    &&& forall|i: int| 8 <= i < frame.len() ==> frame[i] == pattern_byte(i)
}

/// The responder's corrupted answer under the `Corrupt` fault.
pub open spec fn corrupted_response(request: Seq<u8>) -> Seq<u8> {
    echo_response(request).update(request.len() - 1, echo_response(request).last() ^ 1u8)
}

proof fn lemma_frame_sequence(frame: Seq<u8>, sequence: u64)
    requires
        is_frame(frame, sequence),
    ensures
        frame_sequence(frame) == sequence,
{
    lemma_auto_spec_u64_to_from_le_bytes();
}

/// The first frame carries sequence zero.
pub proof fn lemma_initial_frame(len: nat)
    requires
        len > 8,
    ensures
        is_frame(initial_frame(len), 0),
{
    spec_u64_to_le_bytes_to_open(0);
    assert((0u64 & 0xff) as u8 == 0 && ((0u64 >> 8) & 0xff) as u8 == 0 && ((0u64 >> 16) & 0xff) as u8 == 0
        && ((0u64 >> 24) & 0xff) as u8 == 0 && ((0u64 >> 32) & 0xff) as u8 == 0 && ((0u64 >> 40)
        & 0xff) as u8 == 0 && ((0u64 >> 48) & 0xff) as u8 == 0 && ((0u64 >> 56) & 0xff) as u8 == 0)
        by (bit_vector);
    assert(initial_frame(len).subrange(0, 8) =~= spec_u64_to_le_bytes(0));
}

/// An honest responder's answer to a well-formed frame passes every check, under
/// either validation policy, and the next request is the well-formed frame of the
/// next sequence: the ping-pong exchange keeps its frames well formed.
pub proof fn lemma_echo_accepted(request: Seq<u8>, sequence: u64, full_validation: bool)
    requires
        is_frame(request, sequence),
        sequence < u64::MAX,
    ensures
        first_mismatch(request, echo_response(request), checked_prefix(request, full_validation))
            is None,
        is_frame(next_request(request, echo_response(request)), (sequence + 1) as u64),
{
    lemma_frame_sequence(request, sequence);
    lemma_auto_spec_u64_to_from_le_bytes();
    let response = echo_response(request);
    let checked = checked_prefix(request, full_validation);
    assert forall|i: int| 0 <= i < checked implies response[i] == expected_response_byte(
        request,
        i,
    ) by {
        if 8 <= i {
            assert(request[i] == pattern_byte(i));
        }
    }
    let next = next_request(request, response);
    assert(next.subrange(0, 8) =~= spec_u64_to_le_bytes((sequence + 1) as u64));
    assert forall|i: int| 8 <= i < next.len() implies next[i] == pattern_byte(i) by {
        assert(next[i] == response[i]);
    }
}

/// The request after `k` honest exchanges that start from `request`.
pub open spec fn after_exchanges(request: Seq<u8>, k: nat) -> Seq<u8>
    decreases k,
{
    if k == 0 {
        request
    } else {
        let previous = after_exchanges(request, (k - 1) as nat);
        next_request(previous, echo_response(previous))
    }
}

/// The ping-pong protocol runs: starting from the initial frame, every one of `k`
/// honest exchanges is accepted under either validation policy (the echo has the
/// request's length and no checked byte differs), and afterwards the request is the
/// frame of sequence `k`: header `k`, then the unchanged payload pattern.
pub proof fn lemma_honest_exchanges(len: nat, k: nat, full_validation: bool)
    requires
        len > 8,
        k < u64::MAX,
    ensures
        forall|j: nat|
            j < k ==> accepts(
                #[trigger] after_exchanges(initial_frame(len), j),
                echo_response(after_exchanges(initial_frame(len), j)),
                full_validation,
            ) && frame_sequence(after_exchanges(initial_frame(len), j)) == j,
        after_exchanges(initial_frame(len), k) == request_frame(len, k as u64),
{
    let start = initial_frame(len);
    lemma_initial_frame(len);
    lemma_exchanges_are_frames(len, k);
    assert forall|j: nat| j < k implies accepts(
        #[trigger] after_exchanges(start, j),
        echo_response(after_exchanges(start, j)),
        full_validation,
    ) && frame_sequence(after_exchanges(start, j)) == j by {
        lemma_exchanges_are_frames(len, j);
        let f = after_exchanges(start, j);
        lemma_echo_accepted(f, j as u64, full_validation);
        lemma_frame_sequence(f, j as u64);
    }
    let last = after_exchanges(start, k);
    let expected = request_frame(len, k as u64);
    lemma_auto_spec_u64_to_from_le_bytes();
    assert(spec_u64_to_le_bytes(k as u64).len() == 8);
    assert forall|i: int| 0 <= i < len implies last[i] == expected[i] by {
        if i < 8 {
            assert(last[i] == last.subrange(0, 8)[i]);
        }
    }
    assert(last =~= expected);
}

/// After `k` honest exchanges from the initial frame the request is the frame of
/// sequence `k`.
proof fn lemma_exchanges_are_frames(len: nat, k: nat)
    requires
        len > 8,
        k < u64::MAX,
    ensures
        is_frame(after_exchanges(initial_frame(len), k), k as u64),
        after_exchanges(initial_frame(len), k).len() == len,
    decreases k,
{
    if k == 0 {
        lemma_initial_frame(len);
    } else {
        lemma_exchanges_are_frames(len, (k - 1) as nat);
        let previous = after_exchanges(initial_frame(len), (k - 1) as nat);
        lemma_echo_accepted(previous, (k - 1) as u64, true);
        lemma_auto_spec_u64_to_from_le_bytes();
        assert(spec_u64_to_le_bytes(k as u64).len() == 8);
    }
}

/// A streaming worker's step: a request that is the frame of `sequence` advances the
/// delivery count to `sequence + 1`, the value the worker then publishes; any other
/// request is refused and nothing is acknowledged.
pub fn accept_stream_request(request: &[u8], sequence: u64) -> (delivered: Result<
    u64,
    PayloadError,
>)
    requires
        sequence < u64::MAX,
    ensures
        delivered is Ok <==> is_frame(request@, sequence),
        delivered is Ok ==> delivered == Ok::<u64, PayloadError>((sequence + 1) as u64),
        delivered is Err ==> delivered == Err::<u64, PayloadError>(
            PayloadError::IncorrectStreamDelivery { sequence },
        ),
{
    match validate_stream_request(request, sequence) {
        Ok(()) => Ok(sequence + 1),
        Err(e) => Err(e),
    }
}

/// The validation policy: a response is checked in full under full validation and,
/// under sampled validation, exactly when the request's sequence is a multiple of
/// 1024; otherwise only its eight header bytes are checked. So under sampled
/// validation, an echo whose payload differs from the request's is refused exactly
/// on those sequences.
pub proof fn lemma_validation_policy(request: Seq<u8>, response: Seq<u8>, full_validation: bool)
    requires
        request.len() > 8,
    ensures
        full_validation || frame_sequence(request) % 1024 == 0 ==> checked_prefix(
            request,
            full_validation,
        ) == request.len(),
        !full_validation && frame_sequence(request) % 1024 != 0 ==> checked_prefix(
            request,
            full_validation,
        ) == 8,
        response.len() == request.len() && response.subrange(0, 8) == echo_response(
            request,
        ).subrange(0, 8) && (exists|i: int|
            8 <= i < request.len() && #[trigger] response[i] != pattern_byte(i)) ==> ((
        first_mismatch(request, response, checked_prefix(request, false)) is None)
            <==> frame_sequence(request) % 1024 != 0),
{
    let echo = echo_response(request);
    if response.len() == request.len() && response.subrange(0, 8) == echo.subrange(0, 8) {
        assert forall|i: int| 0 <= i < 8 implies response[i] == expected_response_byte(
            request,
            i,
        ) by {
            assert(response[i] == response.subrange(0, 8)[i]);
            assert(echo[i] == echo.subrange(0, 8)[i]);
        }
        if exists|i: int| 8 <= i < request.len() && #[trigger] response[i] != pattern_byte(i) {
            let i = choose|i: int| 8 <= i < request.len() && #[trigger] response[i] != pattern_byte(
                i,
            );
            if frame_sequence(request) % 1024 == 0 {
                assert(response[i] != expected_response_byte(request, i));
            } else {
                assert(checked_prefix(request, false) == 8);
            }
        }
    }
}

/// Each response is counted once: after a response advanced the request, the same
/// response is refused again, at its first byte.
pub proof fn lemma_stale_response_refused(request: Seq<u8>, sequence: u64, full_validation: bool)
    requires
        is_frame(request, sequence),
        sequence + 1 < u64::MAX,
    ensures
        ({
            let response = echo_response(request);
            let next = next_request(request, response);
            first_mismatch(next, response, checked_prefix(next, full_validation)) == Some(0nat)
        }),
{
    lemma_echo_accepted(request, sequence, full_validation);
    let response = echo_response(request);
    let next = next_request(request, response);
    let s1 = (sequence + 1) as u64;
    lemma_frame_sequence(next, s1);
    spec_u64_to_le_bytes_to_open(sequence);
    spec_u64_to_le_bytes_to_open(s1);
    assert(request[0] == request.subrange(0, 8)[0]);
    assert(next[0] == next.subrange(0, 8)[0]);
    assert(((sequence + 1) as u64 & 0xff) != (sequence & 0xff)) by (bit_vector)
        requires
            sequence + 1 < u64::MAX,
    ;
    assert((s1 & 0xff) < 256 && (sequence & 0xff) < 256) by (bit_vector);
    assert(next[0] != request[0]);
    assert(response[0] != expected_response_byte(next, 0));
    let checked = checked_prefix(next, full_validation);
    assert(0 < checked && response[0] != expected_response_byte(next, 0));
    let k = choose|k: int|
        0 <= k < checked && response[k] != expected_response_byte(next, k) && forall|j: int|
            0 <= j < k ==> response[j] == expected_response_byte(next, j);
    assert(0 <= 0 < checked && response[0] != expected_response_byte(next, 0) && forall|j: int|
        0 <= j < 0 ==> response[j] == expected_response_byte(next, j));
    if k > 0 {
        assert(response[0] == expected_response_byte(next, 0));
    }
}

/// Under full validation a corrupted payload byte is always detected.
pub proof fn lemma_corruption_detected(request: Seq<u8>, sequence: u64)
    requires
        is_frame(request, sequence),
    ensures
        first_mismatch(request, corrupted_response(request), checked_prefix(request, true)) is Some,
{
    let last = request.len() - 1;
    let response = corrupted_response(request);
    assert(request[last] == pattern_byte(last));
    let b = echo_response(request).last();
    assert((b ^ 1u8) != b) by (bit_vector);
    assert(response[last] != expected_response_byte(request, last));
    assert(0 <= last < checked_prefix(request, true));
}

/// Writes `sequence` into a frame's header, leaving its payload as it is.
pub fn set_frame_sequence(frame: &mut [u8], sequence: u64)
    requires
        old(frame)@.len() >= 8,
    ensures
        final(frame)@ == spec_u64_to_le_bytes(sequence) + old(frame)@.subrange(
            8,
            old(frame)@.len() as int,
        ),
{
    let header = u64_to_le_bytes(sequence);
    let mut i: usize = 0;
    while i < 8
        invariant
            header@ == spec_u64_to_le_bytes(sequence),
            header@.len() == 8,
            frame@.len() == old(frame)@.len(),
            old(frame)@.len() >= 8,
            i <= 8,
            forall|j: int| 0 <= j < i ==> frame@[j] == header@[j],
            forall|j: int| 8 <= j < frame@.len() ==> frame@[j] == old(frame)@[j],
        decreases 8 - i,
    {
        frame[i] = header[i];
        i = i + 1;
    }
    assert(frame@ =~= spec_u64_to_le_bytes(sequence) + old(frame)@.subrange(
        8,
        old(frame)@.len() as int,
    ));
}

/// The request frame of `sequence`: its header, then the payload pattern.
pub open spec fn request_frame(len: nat, sequence: u64) -> Seq<u8> {
    spec_u64_to_le_bytes(sequence) + initial_frame(len).subrange(8, len as int)
}

/// Writes the request frame of `sequence` into `frame`.
pub fn write_request_frame(frame: &mut [u8], sequence: u64)
    requires
        old(frame)@.len() > 8,
    ensures
        final(frame)@ == request_frame(old(frame)@.len(), sequence),
{
    initialize_payload(frame);
    set_frame_sequence(frame, sequence);
}

/// The request frame of a sequence is a well-formed frame of that sequence.
pub proof fn lemma_request_frame_is_frame(len: nat, sequence: u64)
    requires
        len > 8,
    ensures
        is_frame(request_frame(len, sequence), sequence),
{
    lemma_auto_spec_u64_to_from_le_bytes();
    let f = request_frame(len, sequence);
    assert(f.subrange(0, 8) =~= spec_u64_to_le_bytes(sequence));
}

/// Whether the send-to-delivery latency of this sequence is sampled: every 16th.
pub fn latency_sampled(sequence: u64) -> (sampled: bool)
    ensures
        sampled == (sequence % 16 == 0),
{
    sequence % 16 == 0
}

/// A frame's sequence survives writing and reading its header.
pub proof fn lemma_sequence_header_round_trip(sequence: u64)
    ensures
        spec_u64_from_le_bytes(spec_u64_to_le_bytes(sequence)) == sequence,
        spec_u64_to_le_bytes(sequence).len() == 8,
{
    lemma_auto_spec_u64_to_from_le_bytes();
}

} // verus!
