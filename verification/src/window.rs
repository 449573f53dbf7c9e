//! Delivery windows for the throughput workloads.
//!
//! `CreditWindow` drives overlapped (completion-port) pipe operations: each of
//! `depth` credits carries one request at a time, and both its write completion and
//! its validated response return before the credit is reused. Responses may complete
//! in any order; each sequence is counted at most once, and stale or duplicate
//! responses are refused.
//!
//! `RingWindow` drives the shared-memory ring: at most `depth` requests are
//! outstanding; windowed responses arrive in order and are validated, streaming
//! deliveries are acknowledged by the worker's validated-delivery counter.
use vstd::bytes::{spec_u64_from_le_bytes, spec_u64_to_le_bytes, u64_from_le_bytes};
use vstd::prelude::*;
use vstd::set_lib::{lemma_int_range, lemma_len_subset, set_int_range};

use crate::payload::{
    check_response_and_advance, checked_prefix, expected_response_byte, first_mismatch,
    frame_sequence, next_request, pattern_byte, set_frame_sequence, PayloadError,
};

verus! {

/// A credit for one outstanding request.
#[derive(Clone, Copy)]
pub struct Credit<T> {
    /// When the request was sent, for sampled sequences.
    pub started: Option<T>,
    pub sequence: usize,
    pub write_done: bool,
    pub response_done: bool,
}

/// A credit is free once its write completed and its response was accepted.
pub open spec fn credit_idle<T>(c: Credit<T>) -> bool {
    c.write_done && c.response_done
}

/// Why a delivery was refused.
#[derive(Clone, Copy, Debug, PartialEq, Eq, Structural)]
pub enum DeliveryError {
    /// The response frame failed validation.
    Payload(PayloadError),
    /// The response header names a sequence beyond `usize`.
    SequenceOverflow,
    /// The response belongs to no outstanding request, or was already counted.
    DuplicateOrStale,
    /// A streaming acknowledgement claims more deliveries than were sent.
    InvalidAcknowledgement,
}

/// What an accepted response hands back.
#[derive(Clone, Copy)]
pub struct ReadCompletion<T> {
    /// The send time of a sampled sequence.
    pub started: Option<T>,
    /// Whether the read operation should be issued again.
    pub reissue_read: bool,
}

/// A byte decremented modulo 256.
pub open spec fn decrement_byte(b: u8) -> u8 {
    if b == 0 {
        255
    } else {
        (b - 1) as u8
    }
}

/// The request sequence a response header names: the header with the responder's
/// increment of byte zero undone.
pub open spec fn response_sequence(response: Seq<u8>) -> u64 {
    spec_u64_from_le_bytes(response.subrange(0, 8).update(0, decrement_byte(response[0])))
}

/// The frame the requester expects to have been answered for `sequence`.
pub open spec fn oracle_request(expected: Seq<u8>, sequence: u64) -> Seq<u8> {
    spec_u64_to_le_bytes(sequence) + expected.subrange(8, expected.len() as int)
}

/// The windowed-delivery state of one pipe session.
pub struct CreditWindow<T> {
    credits: Vec<Credit<T>>,
    expected: Vec<u8>,
    next_sequence: usize,
    first_sequence: usize,
    count: usize,
    sent: usize,
    delivered: usize,
    reads_issued: usize,
    delivered_set: Ghost<Set<int>>,
}

impl<T: Copy> CreditWindow<T> {
    pub closed spec fn depth(&self) -> nat {
        self.credits@.len()
    }

    pub closed spec fn credit(&self, index: int) -> Credit<T> {
        self.credits@[index]
    }

    pub closed spec fn wire_size(&self) -> nat {
        self.expected@.len()
    }

    pub closed spec fn oracle(&self) -> Seq<u8> {
        self.expected@
    }

    pub closed spec fn next_sequence_spec(&self) -> usize {
        self.next_sequence
    }

    pub closed spec fn first_spec(&self) -> usize {
        self.first_sequence
    }

    pub closed spec fn count_spec(&self) -> usize {
        self.count
    }

    pub closed spec fn sent_spec(&self) -> usize {
        self.sent
    }

    pub closed spec fn delivered_spec(&self) -> usize {
        self.delivered
    }

    pub closed spec fn reads_issued_spec(&self) -> usize {
        self.reads_issued
    }

    /// The sequences of this round whose responses were accepted.
    pub closed spec fn delivered_set(&self) -> Set<int> {
        self.delivered_set@
    }

    /// Sequences of this round that were sent.
    pub open spec fn in_window(&self, s: int) -> bool {
        self.first_spec() <= s < self.first_spec() + self.sent_spec()
    }

    /// The credit a sequence uses.
    pub open spec fn credit_of(&self, s: int) -> Credit<T> {
        self.credit(s % (self.depth() as int))
    }

    pub closed spec fn wf(&self) -> bool {
        &&& self.credits@.len() >= 1
        &&& self.expected@.len() > 8
        &&& forall|i: int| 8 <= i < self.expected@.len() ==> self.expected@[i] == pattern_byte(i)
        &&& self.first_sequence + self.count <= usize::MAX
        &&& self.sent <= self.count
        &&& self.reads_issued <= self.count
        &&& self.delivered <= self.sent
        &&& self.delivered_set@.finite()
        &&& self.delivered_set@.len() == self.delivered
        &&& forall|s: int| #[trigger]
            self.delivered_set@.contains(s) ==> self.first_sequence <= s < self.first_sequence
                + self.sent
        &&& forall|s: int|
            self.first_sequence <= s < self.first_sequence + self.sent ==> {
                let c = #[trigger] self.credits@[s % (self.credits@.len() as int)];
                &&& s <= c.sequence < self.first_sequence + self.sent
                &&& (self.delivered_set@.contains(s) <==> (c.sequence > s || c.response_done))
            }
    }

    /// A session of `depth` free credits for frames of `wire_size` bytes, starting at
    /// sequence zero.
    pub fn new(depth: usize, wire_size: usize) -> (window: Self)
        requires
            depth >= 1,
            wire_size > 8,
        ensures
            window.wf(),
            window.depth() == depth,
            window.wire_size() == wire_size,
            window.next_sequence_spec() == 0,
            forall|j: int| 0 <= j < depth ==> credit_idle(#[trigger] window.credit(j)),
    {
        let mut credits: Vec<Credit<T>> = Vec::new();
        let mut i: usize = 0;
        while i < depth
            invariant
                i <= depth,
                credits@.len() == i,
                forall|j: int| 0 <= j < i ==> credit_idle(#[trigger] credits@[j]),
            decreases depth - i,
        {
            credits.push(
                Credit { started: None, sequence: 0, write_done: true, response_done: true },
            );
            i = i + 1;
        }
        let mut expected: Vec<u8> = Vec::new();
        let mut k: usize = 0;
        while k < wire_size
            invariant
                k <= wire_size,
                expected@.len() == k,
            decreases wire_size - k,
        {
            expected.push(0);
            k = k + 1;
        }
        crate::payload::initialize_payload(expected.as_mut_slice());
        CreditWindow {
            credits,
            expected,
            next_sequence: 0,
            first_sequence: 0,
            count: 0,
            sent: 0,
            delivered: 0,
            reads_issued: 0,
            delivered_set: Ghost(Set::empty()),
        }
    }

    /// Starts a round of `count` deliveries; returns how many reads to issue at once.
    pub fn begin_round(&mut self, count: usize) -> (initial_reads: usize)
        requires
            old(self).wf(),
            old(self).next_sequence_spec() + count <= usize::MAX,
        ensures
            final(self).wf(),
            final(self).depth() == old(self).depth(),
            final(self).wire_size() == old(self).wire_size(),
            final(self).first_spec() == old(self).next_sequence_spec(),
            final(self).next_sequence_spec() == old(self).next_sequence_spec(),
            final(self).count_spec() == count,
            final(self).sent_spec() == 0,
            final(self).delivered_spec() == 0,
            final(self).delivered_set() == Set::<int>::empty(),
            forall|j: int| 0 <= j < old(self).depth() ==> #[trigger] final(self).credit(j) == old(
                self,
            ).credit(j),
            initial_reads == if count < old(self).depth() {
                count as nat
            } else {
                old(self).depth()
            },
            final(self).reads_issued_spec() == initial_reads,
    {
        let depth = self.credits.len();
        let initial = if count < depth {
            count
        } else {
            depth
        };
        self.first_sequence = self.next_sequence;
        self.count = count;
        self.sent = 0;
        self.delivered = 0;
        self.reads_issued = initial;
        self.delivered_set = Ghost(Set::empty());
        initial
    }

    /// The sequence to send next, when the round has one left and its credit is free.
    pub fn next_write(&self) -> (sequence: Option<usize>)
        requires
            self.wf(),
        ensures
            sequence == if self.sent_spec() < self.count_spec() && credit_idle(
                self.credit_of(self.first_spec() + self.sent_spec()),
            ) {
                Some((self.first_spec() + self.sent_spec()) as usize)
            } else {
                None::<usize>
            },
    {
        if self.sent >= self.count {
            return None;
        }
        let sequence = self.first_sequence + self.sent;
        let credit = self.credits[sequence % self.credits.len()];
        if credit.write_done && credit.response_done {
            Some(sequence)
        } else {
            None
        }
    }

    /// Takes the free credit for the next sequence; returns the credit's index, which
    /// is also the index of its write operation.
    pub fn record_write(&mut self, started: Option<T>) -> (index: usize)
        requires
            old(self).wf(),
            old(self).sent_spec() < old(self).count_spec(),
            credit_idle(old(self).credit_of(old(self).first_spec() + old(self).sent_spec())),
        ensures
            final(self).wf(),
            final(self).depth() == old(self).depth(),
            final(self).wire_size() == old(self).wire_size(),
            final(self).first_spec() == old(self).first_spec(),
            final(self).count_spec() == old(self).count_spec(),
            final(self).next_sequence_spec() == old(self).next_sequence_spec(),
            final(self).delivered_spec() == old(self).delivered_spec(),
            final(self).delivered_set() == old(self).delivered_set(),
            final(self).reads_issued_spec() == old(self).reads_issued_spec(),
            final(self).sent_spec() == old(self).sent_spec() + 1,
            index == (old(self).first_spec() + old(self).sent_spec()) % (old(self).depth() as int),
            final(self).credit(index as int) == (Credit {
                started,
                sequence: (old(self).first_spec() + old(self).sent_spec()) as usize,
                write_done: false,
                response_done: false,
            }),
            forall|j: int|
                0 <= j < old(self).depth() && j != index ==> #[trigger] final(self).credit(j)
                    == old(self).credit(j),
    {
        let sequence = self.first_sequence + self.sent;
        let depth = self.credits.len();
        let index = sequence % depth;
        let ghost old_credits = self.credits@;
        let ghost old_sent = self.sent as int;
        let ghost first = self.first_sequence as int;
        self.credits.set(
            index,
            Credit { started, sequence, write_done: false, response_done: false },
        );
        self.sent = self.sent + 1;
        proof {
            let d = depth as int;
            assert forall|s: int| first <= s < first + self.sent implies {
                let c = #[trigger] self.credits@[s % d];
                &&& s <= c.sequence < first + self.sent
                &&& (self.delivered_set@.contains(s) <==> (c.sequence > s || c.response_done))
            } by {
                if s < first + old_sent {
                    let oc = old_credits[s % d];
                    assert(s <= oc.sequence < first + old_sent);
                    if s % d == index as int {
                        assert(oc == old_credits[index as int]);
                        assert(self.delivered_set@.contains(s));
                    }
                }
            }
        }
        index
    }

    /// Marks the write of credit `index` complete.
    pub fn on_write_complete(&mut self, index: usize)
        requires
            old(self).wf(),
            index < old(self).depth(),
        ensures
            final(self).wf(),
            final(self).depth() == old(self).depth(),
            final(self).wire_size() == old(self).wire_size(),
            final(self).first_spec() == old(self).first_spec(),
            final(self).count_spec() == old(self).count_spec(),
            final(self).next_sequence_spec() == old(self).next_sequence_spec(),
            final(self).sent_spec() == old(self).sent_spec(),
            final(self).delivered_spec() == old(self).delivered_spec(),
            final(self).delivered_set() == old(self).delivered_set(),
            final(self).reads_issued_spec() == old(self).reads_issued_spec(),
            final(self).credit(index as int) == (Credit {
                write_done: true,
                ..old(self).credit(index as int)
            }),
            forall|j: int|
                0 <= j < old(self).depth() && j != index ==> #[trigger] final(self).credit(j)
                    == old(self).credit(j),
    {
        let c = self.credits[index];
        let ghost old_credits = self.credits@;
        self.credits.set(index, Credit { write_done: true, ..c });
        proof {
            let d = self.credits@.len() as int;
            let first = self.first_sequence as int;
            assert forall|s: int| first <= s < first + self.sent implies {
                let c = #[trigger] self.credits@[s % d];
                &&& s <= c.sequence < first + self.sent
                &&& (self.delivered_set@.contains(s) <==> (c.sequence > s || c.response_done))
            } by {
                let oc = old_credits[s % d];
                assert(s <= oc.sequence < first + self.sent);
            }
        }
    }

    /// Checks a completed read. A response is accepted when it names an outstanding
    /// sequence whose credit still waits for it and its frame passes full validation;
    /// the credit is then marked answered and the delivery counted.
    pub fn on_read_complete(&mut self, response: &[u8]) -> (result: Result<
        ReadCompletion<T>,
        DeliveryError,
    >)
        requires
            old(self).wf(),
            response@.len() == old(self).wire_size(),
        ensures
            final(self).wf(),
            final(self).depth() == old(self).depth(),
            final(self).wire_size() == old(self).wire_size(),
            final(self).first_spec() == old(self).first_spec(),
            final(self).count_spec() == old(self).count_spec(),
            final(self).next_sequence_spec() == old(self).next_sequence_spec(),
            final(self).sent_spec() == old(self).sent_spec(),
            ({
                let s = response_sequence(response@);
                let request = oracle_request(old(self).oracle(), s);
                if s > usize::MAX {
                    result == Err::<ReadCompletion<T>, DeliveryError>(
                        DeliveryError::SequenceOverflow,
                    )
                } else if !old(self).in_window(s as int) || old(self).credit_of(s as int).sequence
                    != s || old(self).credit_of(s as int).response_done {
                    result == Err::<ReadCompletion<T>, DeliveryError>(
                        DeliveryError::DuplicateOrStale,
                    )
                } else {
                    match first_mismatch(request, response@, request.len()) {
                        Some(i) => result == Err::<ReadCompletion<T>, DeliveryError>(
                            DeliveryError::Payload(
                                PayloadError::CorruptResponse {
                                    sequence: s,
                                    byte: i as usize,
                                    expected: expected_response_byte(request, i as int),
                                    received: response@[i as int],
                                },
                            ),
                        ),
                        None => result matches Ok(done) && done.started == old(self).credit_of(
                            s as int,
                        ).started && done.reissue_read == (old(self).reads_issued_spec()
                            < old(self).count_spec()),
                    }
                }
            }),
            result is Err ==> final(self).delivered_spec() == old(self).delivered_spec()
                && final(self).delivered_set() == old(self).delivered_set()
                && final(self).reads_issued_spec() == old(self).reads_issued_spec() && forall|
                j: int,
            | 0 <= j < old(self).depth() ==> #[trigger] final(self).credit(j) == old(self).credit(
                j,
            ),
            result matches Ok(done) ==> {
                let s = response_sequence(response@) as int;
                &&& final(self).delivered_spec() == old(self).delivered_spec() + 1
                &&& final(self).delivered_set() == old(self).delivered_set().insert(s)
                &&& !old(self).delivered_set().contains(s)
                &&& final(self).reads_issued_spec() == old(self).reads_issued_spec() + if done.reissue_read {
                    1int
                } else {
                    0int
                }
                &&& final(self).credit(s % (old(self).depth() as int)) == (Credit {
                    started: None,
                    response_done: true,
                    ..old(self).credit_of(s)
                })
                &&& forall|j: int|
                    0 <= j < old(self).depth() && j != s % (old(self).depth() as int)
                        ==> #[trigger] final(self).credit(j) == old(self).credit(j)
            },
    {
        let mut header: Vec<u8> = Vec::new();
        let mut k: usize = 0;
        while k < 8
            invariant
                k <= 8,
                response@.len() > 8,
                header@ == response@.subrange(0, k as int),
            decreases 8 - k,
        {
            header.push(response[k]);
            k = k + 1;
            assert(header@ =~= response@.subrange(0, k as int));
        }
        let first_byte = header[0];
        header.set(0, if first_byte == 0 { 255 } else { first_byte - 1 });
        assert(header@ == response@.subrange(0, 8).update(0, decrement_byte(response@[0])));
        let decoded = u64_from_le_bytes(header.as_slice());
        if decoded > usize::MAX as u64 {
            return Err(DeliveryError::SequenceOverflow);
        }
        let sequence = decoded as usize;
        let depth = self.credits.len();
        let index = sequence % depth;
        let credit = self.credits[index];
        if sequence < self.first_sequence || sequence >= self.first_sequence + self.sent
            || sequence != credit.sequence || credit.response_done {
            return Err(DeliveryError::DuplicateOrStale);
        }
        let ghost old_expected = self.expected@;
        set_frame_sequence(self.expected.as_mut_slice(), decoded);
        assert(self.expected@ == oracle_request(old_expected, decoded));
        assert(frame_sequence(self.expected@) == decoded) by {
            vstd::bytes::lemma_auto_spec_u64_to_from_le_bytes();
            assert(self.expected@.subrange(0, 8) =~= spec_u64_to_le_bytes(decoded));
        }
        let ghost after_header = self.expected@;
        let checked = check_response_and_advance(self.expected.as_mut_slice(), response, true);
        match checked {
            Err(e) => {
                proof {
                    vstd::bytes::lemma_auto_spec_u64_to_from_le_bytes();
                    assert(spec_u64_to_le_bytes(decoded).len() == 8);
                    assert forall|i: int| 8 <= i < self.expected@.len() implies self.expected@[i]
                        == pattern_byte(i) by {
                        assert(self.expected@ == after_header);
                        assert(after_header[i] == old_expected.subrange(8, old_expected.len() as int)[i - 8]);
                    }
                }
                return Err(DeliveryError::Payload(e));
            },
            Ok(()) => {},
        }
        proof {
            vstd::bytes::lemma_auto_spec_u64_to_from_le_bytes();
            let request = oracle_request(old_expected, decoded);
            assert(spec_u64_to_le_bytes((decoded + 1) as u64).len() == 8);
            assert(checked_prefix(request, true) == request.len());
            assert forall|i: int| 8 <= i < self.expected@.len() implies self.expected@[i]
                == pattern_byte(i) by {
                assert(!(0 <= i < request.len() && response@[i] != expected_response_byte(
                    request,
                    i,
                )));
                assert(self.expected@[i] == response@[i]);
            }
        }
        let ghost old_credits = self.credits@;
        let ghost old_set = self.delivered_set@;
        let started = credit.started;
        proof {
            let s = sequence as int;
            let first = self.first_sequence as int;
            assert(!old_set.contains(s));
            lemma_int_range(first, first + self.sent);
            lemma_len_subset(old_set.insert(s), set_int_range(first, first + self.sent));
        }
        self.credits.set(index, Credit { started: None, response_done: true, ..credit });
        self.delivered = self.delivered + 1;
        let reissue = self.reads_issued < self.count;
        if reissue {
            self.reads_issued = self.reads_issued + 1;
        }
        proof {
            let s = sequence as int;
            let d = depth as int;
            let first = self.first_sequence as int;
            assert(!old_set.contains(s));
            lemma_int_range(first, first + self.sent);
            lemma_len_subset(old_set.insert(s), set_int_range(first, first + self.sent));
            self.delivered_set = Ghost(old_set.insert(s));
            assert forall|t: int| first <= t < first + self.sent implies {
                let c = #[trigger] self.credits@[t % d];
                &&& t <= c.sequence < first + self.sent
                &&& (self.delivered_set@.contains(t) <==> (c.sequence > t || c.response_done))
            } by {
                let oc = old_credits[t % d];
                assert(t <= oc.sequence < first + self.sent);
                if t % d == index as int && t != s {
                    assert(oc.sequence == s);
                }
            }
        }
        Ok(ReadCompletion { started, reissue_read: reissue })
    }

    /// Each sequence is counted at most once: a response for a sequence already
    /// delivered in this round is refused as duplicate or stale.
    pub proof fn lemma_delivered_refused(&self, s: int)
        requires
            self.wf(),
            self.delivered_set().contains(s),
        ensures
            self.in_window(s),
            self.credit_of(s).sequence != s || self.credit_of(s).response_done,
    {
    }

    /// Deliveries never outrun sends, and sends never outrun the round: the number
    /// delivered is the number of distinct sequences accepted.
    pub proof fn lemma_counts_bounded(&self)
        requires
            self.wf(),
        ensures
            self.delivered_spec() <= self.sent_spec() <= self.count_spec(),
            self.delivered_set().finite(),
            self.delivered_set().len() == self.delivered_spec(),
            forall|s: int| #[trigger] self.delivered_set().contains(s) ==> self.in_window(s),
    {
    }

    /// Deliveries accepted in this round.
    pub fn delivered(&self) -> (n: usize)
        ensures
            n == self.delivered_spec(),
    {
        self.delivered
    }

    /// Deliveries this round asks for.
    pub fn count(&self) -> (n: usize)
        ensures
            n == self.count_spec(),
    {
        self.count
    }

    /// The first sequence of the next round.
    pub fn next_sequence(&self) -> (n: usize)
        ensures
            n == self.next_sequence_spec(),
    {
        self.next_sequence
    }

    /// Closes the round: the next round starts after its last sequence.
    pub fn finish_round(&mut self)
        requires
            old(self).wf(),
        ensures
            final(self).wf(),
            final(self).next_sequence_spec() == old(self).first_spec() + old(self).count_spec(),
            final(self).depth() == old(self).depth(),
            final(self).wire_size() == old(self).wire_size(),
            forall|j: int| 0 <= j < old(self).depth() ==> #[trigger] final(self).credit(j) == old(
                self,
            ).credit(j),
    {
        self.next_sequence = self.first_sequence + self.count;
    }
}

/// The windowed or streaming delivery state over the shared-memory ring.
pub struct RingWindow<T> {
    started: Vec<Option<T>>,
    outbound: Vec<u8>,
    expected: Vec<u8>,
    next_sequence: u64,
    first_sequence: u64,
    count: usize,
    sent: usize,
    received: usize,
}

impl<T: Copy> RingWindow<T> {
    pub closed spec fn depth(&self) -> nat {
        self.started@.len()
    }

    pub closed spec fn wire_size(&self) -> nat {
        self.outbound@.len()
    }

    pub closed spec fn outbound_spec(&self) -> Seq<u8> {
        self.outbound@
    }

    pub closed spec fn started_spec(&self) -> Seq<Option<T>> {
        self.started@
    }

    pub closed spec fn next_sequence_spec(&self) -> u64 {
        self.next_sequence
    }

    pub closed spec fn first_spec(&self) -> u64 {
        self.first_sequence
    }

    pub closed spec fn count_spec(&self) -> usize {
        self.count
    }

    pub closed spec fn sent_spec(&self) -> usize {
        self.sent
    }

    pub closed spec fn received_spec(&self) -> usize {
        self.received
    }

    /// At most `depth` deliveries are outstanding, and both oracles hold the pattern.
    pub closed spec fn wf(&self) -> bool {
        &&& self.started@.len() >= 1
        &&& self.outbound@.len() > 8
        &&& self.expected@.len() == self.outbound@.len()
        &&& forall|i: int| 8 <= i < self.outbound@.len() ==> self.outbound@[i] == pattern_byte(i)
        &&& forall|i: int| 8 <= i < self.expected@.len() ==> self.expected@[i] == pattern_byte(i)
        &&& self.first_sequence + self.count <= u64::MAX
        &&& self.received <= self.sent <= self.count
    }

    /// Buffers for `depth` outstanding frames of `wire_size` bytes, at sequence zero.
    pub fn new(wire_size: usize, depth: usize) -> (window: Self)
        requires
            wire_size > 8,
            depth >= 1,
        ensures
            window.wf(),
            window.depth() == depth,
            window.wire_size() == wire_size,
            window.next_sequence_spec() == 0,
    {
        let mut started: Vec<Option<T>> = Vec::new();
        let mut i: usize = 0;
        while i < depth
            invariant
                i <= depth,
                started@.len() == i,
            decreases depth - i,
        {
            started.push(None);
            i = i + 1;
        }
        let mut outbound: Vec<u8> = Vec::new();
        let mut k: usize = 0;
        while k < wire_size
            invariant
                k <= wire_size,
                outbound@.len() == k,
            decreases wire_size - k,
        {
            outbound.push(0);
            k = k + 1;
        }
        let mut expected = outbound.clone();
        crate::payload::initialize_payload(outbound.as_mut_slice());
        crate::payload::initialize_payload(expected.as_mut_slice());
        RingWindow {
            started,
            outbound,
            expected,
            next_sequence: 0,
            first_sequence: 0,
            count: 0,
            sent: 0,
            received: 0,
        }
    }

    /// Starts a round of `count` deliveries after the previous round's sequences.
    pub fn begin_round(&mut self, count: usize)
        requires
            old(self).wf(),
            old(self).next_sequence_spec() + count <= u64::MAX,
        ensures
            final(self).wf(),
            final(self).depth() == old(self).depth(),
            final(self).wire_size() == old(self).wire_size(),
            final(self).first_spec() == old(self).next_sequence_spec(),
            final(self).next_sequence_spec() == old(self).next_sequence_spec(),
            final(self).count_spec() == count,
            final(self).sent_spec() == 0,
            final(self).received_spec() == 0,
    {
        self.first_sequence = self.next_sequence;
        self.count = count;
        self.sent = 0;
        self.received = 0;
    }

    /// Whether another request may be sent: the round has one left, fewer than
    /// `depth` are outstanding, and the ring has a free slot.
    pub fn can_send(&self, ring_has_space: bool) -> (ok: bool)
        requires
            self.wf(),
        ensures
            ok == (self.sent_spec() < self.count_spec() && self.sent_spec()
                - self.received_spec() < self.depth() && ring_has_space),
    {
        self.sent < self.count && self.sent - self.received < self.started.len() && ring_has_space
    }

    /// The sequence the next request carries.
    pub fn next_send_sequence(&self) -> (sequence: u64)
        requires
            self.wf(),
            self.sent_spec() < self.count_spec(),
        ensures
            sequence == self.first_spec() + self.sent_spec(),
    {
        self.first_sequence + self.sent as u64
    }

    /// Stamps the outbound frame with the next sequence and notes its send time;
    /// the caller then publishes `outbound()` to the ring.
    pub fn record_send(&mut self, started: Option<T>)
        requires
            old(self).wf(),
            old(self).sent_spec() < old(self).count_spec(),
            old(self).sent_spec() - old(self).received_spec() < old(self).depth(),
        ensures
            final(self).wf(),
            final(self).depth() == old(self).depth(),
            final(self).wire_size() == old(self).wire_size(),
            final(self).first_spec() == old(self).first_spec(),
            final(self).next_sequence_spec() == old(self).next_sequence_spec(),
            final(self).count_spec() == old(self).count_spec(),
            final(self).received_spec() == old(self).received_spec(),
            final(self).sent_spec() == old(self).sent_spec() + 1,
            final(self).outbound_spec() == crate::payload::request_frame(
                old(self).wire_size(),
                (old(self).first_spec() + old(self).sent_spec()) as u64,
            ),
            final(self).started_spec() == old(self).started_spec().update(
                (old(self).sent_spec() as int) % (old(self).depth() as int),
                started,
            ),
    {
        let sequence = self.first_sequence + self.sent as u64;
        let ghost before = self.outbound@;
        set_frame_sequence(self.outbound.as_mut_slice(), sequence);
        proof {
            assert(before.subrange(8, before.len() as int) =~= crate::payload::initial_frame(
                before.len(),
            ).subrange(8, before.len() as int));
            vstd::bytes::lemma_auto_spec_u64_to_from_le_bytes();
            assert(spec_u64_to_le_bytes(sequence).len() == 8);
            assert forall|i: int| 8 <= i < self.outbound@.len() implies self.outbound@[i]
                == pattern_byte(i) by {
                assert(self.outbound@[i] == before[i]);
            }
        }
        let slot = self.sent % self.started.len();
        self.started.set(slot, started);
        self.sent = self.sent + 1;
    }

    /// The request frame to publish.
    pub fn outbound(&self) -> (frame: &[u8])
        ensures
            frame@ == self.outbound_spec(),
    {
        self.outbound.as_slice()
    }

    /// Takes the send times of the deliveries a streaming acknowledgement reports:
    /// the worker's counter, less the round's first sequence, is the number delivered
    /// so far; it may not exceed the number sent.
    pub fn acknowledge(&mut self, delivered_counter: usize) -> (result: Result<
        Vec<Option<T>>,
        DeliveryError,
    >)
        requires
            old(self).wf(),
        ensures
            final(self).wf(),
            final(self).depth() == old(self).depth(),
            final(self).wire_size() == old(self).wire_size(),
            final(self).first_spec() == old(self).first_spec(),
            final(self).next_sequence_spec() == old(self).next_sequence_spec(),
            final(self).count_spec() == old(self).count_spec(),
            final(self).sent_spec() == old(self).sent_spec(),
            ({
                let reported = delivered_counter.wrapping_sub(old(self).first_spec() as usize);
                if reported > old(self).sent_spec() {
                    result == Err::<Vec<Option<T>>, DeliveryError>(
                        DeliveryError::InvalidAcknowledgement,
                    ) && final(self).received_spec() == old(self).received_spec()
                } else {
                    &&& final(self).received_spec() == reported
                    &&& (result matches Ok(stamps) && stamps@.len() == (if reported > old(
                        self,
                    ).received_spec() {
                        reported - old(self).received_spec()
                    } else {
                        0
                    }) && (reported <= old(self).received_spec() + old(self).depth() ==> forall|k: int|
                        0 <= k < stamps@.len() ==> #[trigger] stamps@[k] == old(
                            self,
                        ).started_spec()[(old(self).received_spec() + k) % (old(self).depth() as int)]))
                }
            }),
    {
        let reported = delivered_counter.wrapping_sub(self.first_sequence as usize);
        if reported > self.sent {
            return Err(DeliveryError::InvalidAcknowledgement);
        }
        let ghost old_started = self.started@;
        let depth = self.started.len();
        let mut stamps: Vec<Option<T>> = Vec::new();
        let mut index = self.received;
        while index < reported
            invariant
                self.started@.len() == depth,
                depth >= 1,
                old(self).received <= index,
                index <= reported || index == old(self).received,
                reported <= old(self).sent,
                stamps@.len() == index - old(self).received,
                reported <= old(self).received + depth ==> forall|k: int|
                    0 <= k < stamps@.len() ==> #[trigger] stamps@[k] == old_started[(old(
                        self,
                    ).received + k) % (depth as int)],
                forall|i: int|
                    0 <= i < depth && !(exists|k: int|
                        0 <= k < index - old(self).received && #[trigger] ((old(self).received + k)
                            % (depth as int)) == i) ==> self.started@[i] == old_started[i],
                self.first_sequence == old(self).first_sequence,
                self.next_sequence == old(self).next_sequence,
                self.count == old(self).count,
                self.sent == old(self).sent,
                self.received == old(self).received,
                self.outbound == old(self).outbound,
                self.expected == old(self).expected,
            decreases reported - index,
        {
            let slot = index % depth;
            proof {
                let k = (index - old(self).received) as int;
                if reported <= old(self).received + depth {
                assert(k < depth);
                assert forall|k2: int| 0 <= k2 < k implies #[trigger] ((old(self).received + k2) % (
                depth as int)) != slot as int by {
                    assert(0 < k - k2 < depth);
                    if (old(self).received + k2) % (depth as int) == slot as int {
                        vstd::arithmetic::div_mod::lemma_mod_equivalence(
                            index as int,
                            old(self).received + k2,
                            depth as int,
                        );
                        vstd::arithmetic::div_mod::lemma_small_mod(
                            (k - k2) as nat,
                            depth as nat,
                        );
                    }
                }
                }
            }
            stamps.push(self.started[slot]);
            self.started.set(slot, None);
            index = index + 1;
            proof {
                assert forall|i: int|
                    0 <= i < depth && !(exists|k: int|
                        0 <= k < index - old(self).received && #[trigger] ((old(self).received + k)
                            % (depth as int)) == i) implies self.started@[i] == old_started[i] by {
                    if i == slot as int {
                        let k = (index - 1 - old(self).received) as int;
                        assert((old(self).received + k) % (depth as int) == i);
                    }
                }
            }
        }
        self.received = reported;
        Ok(stamps)
    }

    /// Validates the next windowed response against the frame of the next expected
    /// sequence; on success counts it and hands back its send time. Responses answer
    /// requests, so one is only awaited while a request is outstanding.
    pub fn on_response(&mut self, inbound: &[u8]) -> (result: Result<Option<T>, DeliveryError>)
        requires
            old(self).wf(),
            old(self).received_spec() < old(self).sent_spec(),
        ensures
            final(self).wf(),
            final(self).depth() == old(self).depth(),
            final(self).wire_size() == old(self).wire_size(),
            final(self).first_spec() == old(self).first_spec(),
            final(self).next_sequence_spec() == old(self).next_sequence_spec(),
            final(self).count_spec() == old(self).count_spec(),
            final(self).sent_spec() == old(self).sent_spec(),
            ({
                let request = crate::payload::request_frame(
                    old(self).wire_size(),
                    (old(self).first_spec() + old(self).received_spec()) as u64,
                );
                if inbound@.len() != old(self).wire_size() {
                    result == Err::<Option<T>, DeliveryError>(
                        DeliveryError::Payload(PayloadError::IncorrectLength),
                    ) && final(self).received_spec() == old(self).received_spec()
                } else {
                    match first_mismatch(request, inbound@, request.len()) {
                        Some(i) => result == Err::<Option<T>, DeliveryError>(
                            DeliveryError::Payload(
                                PayloadError::CorruptResponse {
                                    sequence: (old(self).first_spec() + old(self).received_spec()) as u64,
                                    byte: i as usize,
                                    expected: expected_response_byte(request, i as int),
                                    received: inbound@[i as int],
                                },
                            ),
                        )
                            && final(self).received_spec() == old(self).received_spec(),
                        None => result == Ok::<Option<T>, DeliveryError>(
                            old(self).started_spec()[(old(self).received_spec() as int) % (old(
                                self,
                            ).depth() as int)],
                        ) && final(self).received_spec() == old(self).received_spec() + 1,
                    }
                }
            }),
    {
        let sequence = self.first_sequence + self.received as u64;
        let ghost old_expected = self.expected@;
        set_frame_sequence(self.expected.as_mut_slice(), sequence);
        let ghost after_header = self.expected@;
        proof {
            vstd::bytes::lemma_auto_spec_u64_to_from_le_bytes();
            assert(spec_u64_to_le_bytes(sequence).len() == 8);
            assert(old_expected.subrange(8, old_expected.len() as int) =~= crate::payload::initial_frame(
                old_expected.len(),
            ).subrange(8, old_expected.len() as int));
            assert(after_header == crate::payload::request_frame(old_expected.len(), sequence));
            assert(after_header.subrange(0, 8) =~= spec_u64_to_le_bytes(sequence));
            assert(frame_sequence(after_header) == sequence);
            assert(sequence < u64::MAX);
        }
        let checked = check_response_and_advance(self.expected.as_mut_slice(), inbound, true);
        match checked {
            Err(e) => {
                proof {
                    assert forall|i: int| 8 <= i < self.expected@.len() implies self.expected@[i]
                        == pattern_byte(i) by {
                        assert(self.expected@ == after_header);
                    }
                }
                return Err(DeliveryError::Payload(e));
            },
            Ok(()) => {},
        }
        proof {
            assert(spec_u64_to_le_bytes((sequence + 1) as u64).len() == 8);
            assert(checked_prefix(after_header, true) == after_header.len());
            assert forall|i: int| 8 <= i < self.expected@.len() implies self.expected@[i]
                == pattern_byte(i) by {
                assert(!(0 <= i < after_header.len() && inbound@[i] != expected_response_byte(
                    after_header,
                    i,
                )));
                assert(self.expected@[i] == inbound@[i]);
            }
        }
        let slot = self.received % self.started.len();
        let started = self.started[slot];
        self.started.set(slot, None);
        self.received = self.received + 1;
        Ok(started)
    }

    /// Closes the round: the next round starts after its last sequence.
    pub fn finish_round(&mut self)
        requires
            old(self).wf(),
        ensures
            final(self).wf(),
            final(self).next_sequence_spec() == old(self).first_spec() + old(self).count_spec(),
            final(self).depth() == old(self).depth(),
            final(self).wire_size() == old(self).wire_size(),
    {
        self.next_sequence = self.first_sequence + self.count as u64;
    }

    /// Deliveries observed in this round.
    pub fn received(&self) -> (n: usize)
        ensures
            n == self.received_spec(),
    {
        self.received
    }

    /// Requests sent in this round.
    pub fn sent(&self) -> (n: usize)
        ensures
            n == self.sent_spec(),
    {
        self.sent
    }

    /// The first sequence of the next round.
    pub fn next_sequence(&self) -> (n: u64)
        ensures
            n == self.next_sequence_spec(),
    {
        self.next_sequence
    }
}

} // verus!
