//! Per-transport rules: method names, the readiness line a socket worker prints,
//! datagram and mailslot framing limits, and the layout of the raw-sync mapping.
use raw_sync::events::{BusyEvent, Event, EventInit};
use vstd::prelude::*;

use crate::text::{parse_usize, parse_usize_spec, trim, trim_spec};
use crate::wake::WaitStrategy;

verus! {

broadcast use vstd::string::group_string_axioms;

/// The raw-sync shared-memory variants.
#[derive(Clone, Copy, Debug, PartialEq, Eq, Structural)]
pub enum RawSyncMethod {
    Event,
    Busy,
}

/// The name a raw-sync report carries.
pub fn raw_sync_method_name(method: RawSyncMethod) -> (name: &'static str)
    ensures
        name@ == match method {
            RawSyncMethod::Event => "shm-raw-sync-event"@,
            RawSyncMethod::Busy => "shm-raw-sync-busy"@,
        },
{
    match method {
        RawSyncMethod::Event => "shm-raw-sync-event",
        RawSyncMethod::Busy => "shm-raw-sync-busy",
    }
}

/// The name a shared-memory mailbox report carries.
pub fn mailbox_method_name(strategy: WaitStrategy) -> (name: &'static str)
    ensures
        name@ == match strategy {
            WaitStrategy::Spin => "shm-mailbox-spin"@,
            WaitStrategy::Hybrid => "shm-mailbox-hybrid"@,
        },
{
    match strategy {
        WaitStrategy::Spin => "shm-mailbox-spin",
        WaitStrategy::Hybrid => "shm-mailbox-hybrid",
    }
}

/// The name a shared-memory ring report carries.
pub fn ring_method_name(strategy: WaitStrategy) -> (name: &'static str)
    ensures
        name@ == match strategy {
            WaitStrategy::Spin => "shm-ring-spin"@,
            WaitStrategy::Hybrid => "shm-ring-hybrid"@,
        },
{
    match strategy {
        WaitStrategy::Spin => "shm-ring-spin",
        WaitStrategy::Hybrid => "shm-ring-hybrid",
    }
}

/// What reading a decimal `u16` gives, as `str::parse::<u16>` reads it.
pub open spec fn parse_u16_spec(s: Seq<char>) -> Option<u16> {
    match parse_usize_spec(s) {
        Some(n) => if n <= u16::MAX {
            Some(n as u16)
        } else {
            None
        },
        None => None,
    }
}

/// Why a worker's readiness line was refused.
#[derive(Clone, Copy, Debug, PartialEq, Eq, Structural)]
pub enum ReadinessError {
    /// The line does not start with `ready:`.
    UnexpectedMessage,
    /// What follows `ready:` is not a port number.
    InvalidPort,
}

/// The port a `ready:<port>` line announces.
pub open spec fn ready_port_spec(line: Seq<char>) -> Result<u16, ReadinessError> {
    if line.len() >= 6 && line.take(6) == "ready:"@ {
        match parse_u16_spec(line.skip(6)) {
            Some(port) => Ok(port),
            None => Err(ReadinessError::InvalidPort),
        }
    } else {
        Err(ReadinessError::UnexpectedMessage)
    }
}

/// Reads the port a socket worker announces on its readiness line.
pub fn parse_ready_port(readiness: &str) -> (port: Result<u16, ReadinessError>)
    ensures
        port == ready_port_spec(readiness@),
{
    proof {
        reveal_strlit("ready:");
    }
    let n = readiness.unicode_len();
    if n < 6 {
        return Err(ReadinessError::UnexpectedMessage);
    }
    let prefix = readiness.substring_char(0, 6);
    if !crate::text::str_eq(prefix, "ready:") {
        return Err(ReadinessError::UnexpectedMessage);
    }
    let rest = readiness.substring_char(6, n);
    assert(rest@ == readiness@.skip(6));
    match parse_usize(rest) {
        Some(value) => if value <= u16::MAX as usize {
            Ok(value as u16)
        } else {
            Err(ReadinessError::InvalidPort)
        },
        None => Err(ReadinessError::InvalidPort),
    }
}

/// The message on a worker's readiness line: the line without surrounding whitespace.
/// A line that is empty, or ended before its newline (the stream closed, or the line
/// ran past the reader's limit), is refused.
pub fn readiness_message(line: &str) -> (message: Option<&str>)
    ensures
        match message {
            Some(m) => line@.len() > 0 && line@.last() == '\n' && m@ == trim_spec(line@),
            None => !(line@.len() > 0 && line@.last() == '\n'),
        },
{
    let n = line.unicode_len();
    if n == 0 || line.get_char(n - 1) != '\n' {
        return None;
    }
    Some(trim(line))
}

/// Largest UDP datagram the loopback method sends.
pub const MAX_UDP_PAYLOAD: usize = 65507;

/// A datagram larger than the UDP limit is refused before any socket is opened.
pub fn validate_udp_message_size(message_size: usize) -> (ok: bool)
    ensures
        ok == (message_size <= MAX_UDP_PAYLOAD),
{
    message_size <= MAX_UDP_PAYLOAD
}

/// What a mailslot worker received.
#[derive(Clone, Copy, Debug, PartialEq, Eq, Structural)]
pub enum MailslotMessage {
    /// The one-byte `0xFF` stop message.
    Stop,
    /// A request frame of the configured size.
    Request,
    /// Anything else: an error.
    WrongLength,
}

/// Classifies a mailslot message by its length and first byte.
pub fn classify_mailslot_message(bytes_read: usize, first_byte: u8, wire_size: usize) -> (kind:
    MailslotMessage)
    ensures
        kind == if bytes_read == 1 && first_byte == 0xFF {
            MailslotMessage::Stop
        } else if bytes_read == wire_size {
            MailslotMessage::Request
        } else {
            MailslotMessage::WrongLength
        },
{
    if bytes_read == 1 && first_byte == 0xFF {
        MailslotMessage::Stop
    } else if bytes_read == wire_size {
        MailslotMessage::Request
    } else {
        MailslotMessage::WrongLength
    }
}

/// The size in bytes that `raw_sync::events::Event` needs in a mapping
/// (`<Event as EventInit>::size_of(None)`). Its source computes it from type sizes
/// only: on Windows it is the size of a `u32`, four bytes; elsewhere it is the size
/// of a `pthread_mutex_t` plus that of a struct holding a `pthread_cond_t` and two
/// bytes, more than four. So it is at least four; its exact value depends on the
/// platform and is not stated.
#[verifier::external_body]
fn event_size() -> (size: usize)
    ensures
        size >= 4,
{
    <Event as EventInit>::size_of(None)
}

/// The size in bytes that `raw_sync::events::BusyEvent` needs in a mapping
/// (`<BusyEvent as EventInit>::size_of(None)`): the size of a struct of two one-byte
/// fields, so at least two. Its exact value is the compiler's layout choice and is
/// not stated.
#[verifier::external_body]
fn busy_event_size() -> (size: usize)
    ensures
        size >= 2,
{
    <BusyEvent as EventInit>::size_of(None)
}

/// The smallest multiple of `alignment` that is at least `offset`.
pub open spec fn align_up_spec(offset: nat, alignment: nat) -> nat
    recommends
        alignment > 0,
{
    if offset % alignment == 0 {
        offset
    } else {
        offset + (alignment - offset % alignment) as nat
    }
}

/// Rounds `offset` up to a multiple of `alignment`, if that fits in `usize`.
pub fn align_up(offset: usize, alignment: usize) -> (aligned: Option<usize>)
    requires
        alignment > 0,
    ensures
        aligned == if align_up_spec(offset as nat, alignment as nat) <= usize::MAX {
            Some(align_up_spec(offset as nat, alignment as nat) as usize)
        } else {
            None::<usize>
        },
{
    let r = offset % alignment;
    if r == 0 {
        Some(offset)
    } else {
        offset.checked_add(alignment - r)
    }
}

/// Offsets of the raw-sync mapping: stop flag, two events, request and response.
#[derive(Clone, Copy, Debug, PartialEq, Eq, Structural)]
pub struct RawSyncLayout {
    pub request_event_offset: usize,
    pub response_event_offset: usize,
    pub request_offset: usize,
    pub response_offset: usize,
    pub total_size: usize,
}

/// The mapping layout: the header, the request event aligned to `word_align`, the
/// response event aligned likewise, then the request and the response payloads.
pub open spec fn raw_sync_layout_spec(
    message_size: nat,
    event_size: nat,
    header_size: nat,
    word_align: nat,
) -> Option<RawSyncLayout> {
    let request_event = align_up_spec(header_size, word_align);
    let response_event = align_up_spec(request_event + event_size, word_align);
    let request = response_event + event_size;
    let response = request + message_size;
    let total = response + message_size;
    if total <= usize::MAX {
        Some(
            RawSyncLayout {
                request_event_offset: request_event as usize,
                response_event_offset: response_event as usize,
                request_offset: request as usize,
                response_offset: response as usize,
                total_size: total as usize,
            },
        )
    } else {
        None
    }
}

proof fn lemma_align_up_grows(offset: nat, alignment: nat)
    requires
        alignment > 0,
    ensures
        align_up_spec(offset, alignment) >= offset,
{
}

/// Lays out the mapping for events of `event_size` bytes; `None` when the sizes do
/// not fit in `usize`.
pub fn raw_sync_layout(
    message_size: usize,
    event_size: usize,
    header_size: usize,
    word_align: usize,
) -> (layout: Option<RawSyncLayout>)
    requires
        word_align > 0,
    ensures
        layout == raw_sync_layout_spec(
            message_size as nat,
            event_size as nat,
            header_size as nat,
            word_align as nat,
        ),
{
    proof {
        lemma_align_up_grows(header_size as nat, word_align as nat);
    }
    let request_event_offset = match align_up(header_size, word_align) {
        Some(v) => v,
        None => {
            return None;
        },
    };
    let after_request_event = match request_event_offset.checked_add(event_size) {
        Some(v) => v,
        None => {
            return None;
        },
    };
    proof {
        lemma_align_up_grows(after_request_event as nat, word_align as nat);
    }
    let response_event_offset = match align_up(after_request_event, word_align) {
        Some(v) => v,
        None => {
            return None;
        },
    };
    let request_offset = match response_event_offset.checked_add(event_size) {
        Some(v) => v,
        None => {
            return None;
        },
    };
    let response_offset = match request_offset.checked_add(message_size) {
        Some(v) => v,
        None => {
            return None;
        },
    };
    let total_size = match response_offset.checked_add(message_size) {
        Some(v) => v,
        None => {
            return None;
        },
    };
    Some(
        RawSyncLayout {
            request_event_offset,
            response_event_offset,
            request_offset,
            response_offset,
            total_size,
        },
    )
}

/// The mapping's regions follow one another without overlap: the header, the request
/// event (word-aligned, `event_size` bytes), the response event (word-aligned,
/// `event_size` bytes), then the request and the response of `message_size` bytes
/// each, which end the mapping.
pub proof fn lemma_raw_sync_regions_disjoint(
    message_size: nat,
    event_size: nat,
    header_size: nat,
    word_align: nat,
)
    requires
        word_align > 0,
    ensures
        raw_sync_layout_spec(message_size, event_size, header_size, word_align) matches Some(l)
            ==> {
            &&& header_size <= l.request_event_offset
            &&& (l.request_event_offset as nat) % word_align == 0
            &&& l.request_event_offset + event_size <= l.response_event_offset
            &&& (l.response_event_offset as nat) % word_align == 0
            &&& l.response_event_offset + event_size == l.request_offset
            &&& l.request_offset + message_size == l.response_offset
            &&& l.response_offset + message_size == l.total_size
        },
{
    lemma_align_up_grows(header_size, word_align);
    let a = align_up_spec(header_size, word_align);
    lemma_align_up_grows(a + event_size, word_align);
    assert(a % word_align == 0) by {
        lemma_align_up_aligned(header_size, word_align);
    }
    assert(align_up_spec(a + event_size, word_align) % word_align == 0) by {
        lemma_align_up_aligned(a + event_size, word_align);
    }
}

proof fn lemma_align_up_aligned(offset: nat, alignment: nat)
    requires
        alignment > 0,
    ensures
        align_up_spec(offset, alignment) % alignment == 0,
{
    let r = offset % alignment;
    if r != 0 {
        vstd::arithmetic::div_mod::lemma_fundamental_div_mod(offset as int, alignment as int);
        assert((offset + (alignment - r)) == (offset / alignment + 1) * alignment) by (nonlinear_arith)
            requires
                offset == alignment * (offset / alignment) + r,
        ;
        vstd::arithmetic::div_mod::lemma_mod_multiples_basic(
            (offset / alignment + 1) as int,
            alignment as int,
        );
    }
}

/// A lower bound on the mapping space each event of the variant needs: a kernel
/// event takes at least a `u32`, the busy event at least its two state bytes.
pub open spec fn min_event_size(method: RawSyncMethod) -> nat {
    match method {
        RawSyncMethod::Event => 4,
        RawSyncMethod::Busy => 2,
    }
}

/// The layout for the given raw-sync variant, with events sized as that variant's
/// event type asks and aligned to the platform word; `None` when it does not fit.
pub fn raw_sync_layout_for(method: RawSyncMethod, message_size: usize, header_size: usize) -> (layout:
    Option<RawSyncLayout>)
    ensures
        exists|event_size: nat|
            event_size > 0 && layout == raw_sync_layout_spec(
                message_size as nat,
                event_size,
                header_size as nat,
                vstd::layout::align_of::<usize>(),
            ),
        exists|event_size: nat|
            event_size >= min_event_size(method) && layout == raw_sync_layout_spec(
                message_size as nat,
                event_size,
                header_size as nat,
                vstd::layout::align_of::<usize>(),
            ),
{
    let size = match method {
        RawSyncMethod::Event => event_size(),
        RawSyncMethod::Busy => busy_event_size(),
    };
    let word_align = core::mem::align_of::<usize>();
    proof {
        broadcast use vstd::layout::align_nonzero;

        assert(vstd::layout::align_of::<usize>() > 0);
    }
    let layout = raw_sync_layout(message_size, size, header_size, word_align);
    assert(size >= min_event_size(method) && layout == raw_sync_layout_spec(
        message_size as nat,
        size as nat,
        header_size as nat,
        vstd::layout::align_of::<usize>(),
    ));
    layout
}

} // verus!
