//! Single-producer/single-consumer ring of fixed-size frames. Only the producer writes
//! an available slot and then advances the write cursor; only the consumer reads an
//! occupied slot and then advances the read cursor. Cursors count frames with
//! wrapping arithmetic; a power-of-two capacity keeps slot numbering continuous when
//! a cursor wraps at the integer maximum.
use vstd::arithmetic::div_mod::{lemma_mod_bound, lemma_mod_multiples_vanish};
use vstd::prelude::*;

use crate::config::is_power_of_two_spec;

verus! {

/// The number of distinct cursor values.
pub open spec fn cursor_modulus() -> int {
    usize::MAX as int + 1
}

/// Frames in flight between the read cursor and the write cursor.
pub open spec fn ring_len(write: usize, read: usize) -> int {
    if write >= read {
        write - read
    } else {
        write - read + cursor_modulus()
    }
}

/// A ring capacity: a power of two from 1 to 256.
pub open spec fn valid_capacity(capacity: usize) -> bool {
    1 <= capacity <= 256 && is_power_of_two_spec(capacity as nat)
}

/// The producer may write when fewer than `capacity` frames are in flight.
pub fn ring_has_space(write: usize, read: usize, capacity: usize) -> (space: bool)
    ensures
        space == (ring_len(write, read) < capacity),
{
    write.wrapping_sub(read) < capacity
}

/// The slot that cursor value `index` uses.
pub fn ring_slot(index: usize, capacity: usize) -> (slot: usize)
    requires
        capacity > 0,
    ensures
        slot == index % capacity,
{
    index % capacity
}

/// Byte offset, from the start of its region, of the slot that cursor value `index`
/// uses.
pub fn slot_offset(index: usize, capacity: usize, stride: usize) -> (offset: usize)
    requires
        capacity > 0,
        capacity * stride <= usize::MAX,
    ensures
        offset == (index % capacity) * stride,
        offset + stride <= capacity * stride,
{
    let slot = ring_slot(index, capacity);
    assert(slot * stride + stride <= capacity * stride) by (nonlinear_arith)
        requires
            slot < capacity,
    ;
    slot * stride
}

/// The producer's step: when fewer than `capacity` frames are in flight, the byte
/// offset of the slot to fill and the write cursor that publishes it.
pub fn producer_step(write: usize, read: usize, capacity: usize, stride: usize) -> (step: Option<
    (usize, usize),
>)
    requires
        capacity > 0,
        capacity * stride <= usize::MAX,
    ensures
        step == if ring_len(write, read) < capacity {
            Some((((write % capacity) * stride) as usize, write.wrapping_add(1)))
        } else {
            None::<(usize, usize)>
        },
{
    if ring_has_space(write, read, capacity) {
        Some((slot_offset(write, capacity, stride), write.wrapping_add(1)))
    } else {
        None
    }
}

/// The consumer's step: when a frame is in flight, the byte offset of the oldest
/// frame's slot and the read cursor that releases it.
pub fn consumer_step(write: usize, read: usize, capacity: usize, stride: usize) -> (step: Option<
    (usize, usize),
>)
    requires
        capacity > 0,
        capacity * stride <= usize::MAX,
    ensures
        step == if write != read {
            Some((((read % capacity) * stride) as usize, read.wrapping_add(1)))
        } else {
            None::<(usize, usize)>
        },
{
    if write != read {
        Some((slot_offset(read, capacity, stride), read.wrapping_add(1)))
    } else {
        None
    }
}

/// Distance between slot starts: the frame size, or with the padded layout the frame
/// size rounded up to a multiple of 64 bytes; `None` when rounding overflows.
pub fn slot_stride(size: usize, padded: bool) -> (stride: Option<usize>)
    ensures
        !padded ==> stride == Some(size),
        padded ==> stride == if size + 63 <= usize::MAX {
            Some((((size + 63) / 64) * 64) as usize)
        } else {
            None::<usize>
        },
{
    if !padded {
        return Some(size);
    }
    match size.checked_add(63) {
        Some(n) => {
            assert(n & !63usize == (n / 64) * 64) by (bit_vector);
            Some(n & !63usize)
        },
        None => None,
    }
}

proof fn lemma_pow2_divides(n: nat, d: nat)
    requires
        is_power_of_two_spec(n),
        is_power_of_two_spec(d),
        n <= d,
    ensures
        d % n == 0,
    decreases n,
{
    if n > 1 {
        assert(d > 1);
        lemma_pow2_divides(n / 2, d / 2);
        let q = (d / 2) / (n / 2);
        assert(d / 2 == (n / 2) * q) by (nonlinear_arith)
            requires
                (d / 2) % (n / 2) == 0,
                n / 2 > 0,
                q == (d / 2) / (n / 2),
        ;
        assert(d == n * q) by (nonlinear_arith)
            requires
                d / 2 == (n / 2) * q,
                d % 2 == 0,
                n % 2 == 0,
        ;
        assert(d % n == 0) by (nonlinear_arith)
            requires
                d == n * q,
                n > 0,
        ;
    }
}

/// Every valid capacity divides the number of cursor values, so wrapping a cursor
/// does not disturb its slot.
pub proof fn lemma_capacity_divides_modulus(capacity: usize)
    requires
        valid_capacity(capacity),
    ensures
        cursor_modulus() % (capacity as int) == 0,
{
    assert(is_power_of_two_spec(256)) by {
        reveal_with_fuel(is_power_of_two_spec, 10);
    }
    lemma_pow2_divides(capacity as nat, 256);
    assert(cursor_modulus() % 256 == 0) by {
        assert(usize::MAX as int == 0xffff_ffff || usize::MAX as int == 0xffff_ffff_ffff_ffffint);
    }
    let q = 256int / (capacity as int);
    let r = cursor_modulus() / 256;
    assert(256int == (capacity as int) * q) by (nonlinear_arith)
        requires
            256int % (capacity as int) == 0,
            capacity >= 1,
            q == 256int / (capacity as int),
    ;
    assert(cursor_modulus() == 256 * r) by (nonlinear_arith)
        requires
            cursor_modulus() % 256 == 0,
            r == cursor_modulus() / 256,
    ;
    assert(cursor_modulus() == (capacity as int) * (q * r)) by (nonlinear_arith)
        requires
            cursor_modulus() == 256 * r,
            256int == (capacity as int) * q,
    ;
    lemma_mod_multiples_vanish(q * r, 0, capacity as int);
}

proof fn lemma_wrap_keeps_slot(x: int, w: int, capacity: usize)
    requires
        valid_capacity(capacity),
    ensures
        (x + w * cursor_modulus()) % (capacity as int) == x % (capacity as int),
{
    lemma_capacity_divides_modulus(capacity);
    let c = capacity as int;
    let q = cursor_modulus() / c;
    assert(cursor_modulus() == c * q) by (nonlinear_arith)
        requires
            cursor_modulus() % c == 0,
            c > 0,
            q == cursor_modulus() / c,
    ;
    assert(x + w * cursor_modulus() == c * (w * q) + x) by (nonlinear_arith)
        requires
            cursor_modulus() == c * q,
    ;
    lemma_mod_multiples_vanish(w * q, x, c);
}

/// A frame-sized region of the ring's storage.
pub open spec fn slot_bytes(storage: Seq<u8>, slot: int, stride: int, size: int) -> Seq<u8> {
    storage.subrange(slot * stride, slot * stride + size)
}

/// A ring of `capacity` slots, `stride` bytes apart, each holding a frame of
/// `message_size` bytes, with its producer and consumer cursors.
pub struct RingQueue {
    storage: Vec<u8>,
    write_index: usize,
    read_index: usize,
    capacity: usize,
    message_size: usize,
    stride: usize,
    contents: Ghost<Seq<Seq<u8>>>,
}

impl RingQueue {
    /// The frames in flight, oldest first.
    pub closed spec fn view(&self) -> Seq<Seq<u8>> {
        self.contents@
    }

    pub closed spec fn spec_capacity(&self) -> usize {
        self.capacity
    }

    pub closed spec fn spec_message_size(&self) -> usize {
        self.message_size
    }

    pub closed spec fn spec_write_index(&self) -> usize {
        self.write_index
    }

    pub closed spec fn spec_read_index(&self) -> usize {
        self.read_index
    }

    /// The `k`th frame in flight lies in the slot of cursor value `read + k`.
    pub closed spec fn wf(&self) -> bool {
        &&& valid_capacity(self.capacity)
        &&& self.message_size <= self.stride
        &&& self.storage@.len() == self.capacity * self.stride
        &&& self.capacity * self.stride <= usize::MAX
        &&& self.contents@.len() == ring_len(self.write_index, self.read_index)
        &&& self.contents@.len() <= self.capacity
        &&& forall|k: int|
            0 <= k < self.contents@.len() ==> slot_bytes(
                self.storage@,
                (self.read_index + k) % (self.capacity as int),
                self.stride as int,
                self.message_size as int,
            ) == #[trigger] self.contents@[k]
    }

    /// An empty ring whose cursors both start at `start`; storage is filled with `0xA5`.
    pub fn new(capacity: usize, message_size: usize, stride: usize, start: usize) -> (ring: Self)
        requires
            valid_capacity(capacity),
            message_size <= stride,
            capacity * stride <= usize::MAX,
        ensures
            ring.wf(),
            ring@ == Seq::<Seq<u8>>::empty(),
            ring.spec_capacity() == capacity,
            ring.spec_message_size() == message_size,
            ring.spec_write_index() == start,
            ring.spec_read_index() == start,
    {
        let total = capacity * stride;
        let mut storage: Vec<u8> = Vec::new();
        let mut i: usize = 0;
        while i < total
            invariant
                i <= total,
                storage@.len() == i,
            decreases total - i,
        {
            storage.push(0xA5);
            i = i + 1;
        }
        RingQueue {
            storage,
            write_index: start,
            read_index: start,
            capacity,
            message_size,
            stride,
            contents: Ghost(Seq::empty()),
        }
    }

    /// The cursors alone decide both steps: the frames in flight number exactly the
    /// cursor distance, so `producer_step` succeeds exactly when the ring has room and
    /// `consumer_step` exactly when it holds a frame, which is then the oldest.
    pub proof fn lemma_cursors_track_view(&self)
        requires
            self.wf(),
        ensures
            self@.len() == ring_len(self.spec_write_index(), self.spec_read_index()),
            (self@.len() > 0) == (self.spec_write_index() != self.spec_read_index()),
            self@.len() <= self.spec_capacity(),
    {
    }

    /// Frames in flight.
    pub fn len(&self) -> (n: usize)
        requires
            self.wf(),
        ensures
            n == self@.len(),
    {
        self.write_index.wrapping_sub(self.read_index)
    }

    /// Writes `payload` into the next free slot and publishes it; refuses, leaving the
    /// ring unchanged, when all slots hold unread frames.
    pub fn try_push(&mut self, payload: &[u8]) -> (pushed: bool)
        requires
            old(self).wf(),
            payload@.len() == old(self).spec_message_size(),
        ensures
            final(self).wf(),
            final(self).spec_capacity() == old(self).spec_capacity(),
            final(self).spec_message_size() == old(self).spec_message_size(),
            final(self).spec_read_index() == old(self).spec_read_index(),
            pushed == (old(self)@.len() < old(self).spec_capacity()),
            pushed ==> final(self)@ == old(self)@.push(payload@),
            pushed ==> final(self).spec_write_index() == old(self).spec_write_index().wrapping_add(
                1,
            ),
            !pushed ==> final(self)@ == old(self)@ && final(self).spec_write_index() == old(
                self,
            ).spec_write_index(),
    {
        let write = self.write_index;
        let read = self.read_index;
        let (base, next_write) = match producer_step(write, read, self.capacity, self.stride) {
            Some(step) => step,
            None => {
                return false;
            },
        };
        let ghost slot = write % self.capacity;
        let ghost old_storage = self.storage@;
        let ghost len = self.contents@.len() as int;
        let ghost c = self.capacity as int;
        proof {
            lemma_mod_bound(write as int, c);
            let w = if write >= read {
                0int
            } else {
                1int
            };
            assert(write as int + w * cursor_modulus() == read + len);
            lemma_wrap_keeps_slot(write as int, w, self.capacity);
            lemma_slot_range(slot as int, c, self.stride as int, self.message_size as int);
        }
        let n = self.message_size;
        let mut i: usize = 0;
        while i < n
            invariant
                n == payload@.len(),
                n == self.message_size,
                base == slot * self.stride,
                base + n <= self.storage@.len(),
                base + n <= usize::MAX,
                self.write_index == write,
                self.read_index == read,
                self.capacity == c,
                self.stride == old(self).stride,
                self.contents == old(self).contents,
                self.storage@.len() == old_storage.len(),
                i <= n,
                forall|j: int| 0 <= j < i ==> self.storage@[base + j] == payload@[j],
                forall|j: int|
                    0 <= j < self.storage@.len() && !(base <= j < base + n) ==> self.storage@[j]
                        == old_storage[j],
            decreases n - i,
        {
            self.storage.set(base + i, payload[i]);
            i = i + 1;
        }
        self.write_index = next_write;
        proof {
            let new_contents = self.contents@.push(payload@);
            assert(slot_bytes(self.storage@, slot as int, self.stride as int, n as int)
                =~= payload@);
            assert forall|k: int| 0 <= k < new_contents.len() implies slot_bytes(
                self.storage@,
                (self.read_index + k) % c,
                self.stride as int,
                self.message_size as int,
            ) == #[trigger] new_contents[k] by {
                if k < len {
                    let sk = (self.read_index + k) % c;
                    lemma_mod_bound(self.read_index + k, c);
                    lemma_slot_range(sk, c, self.stride as int, self.message_size as int);
                    assert(sk != slot as int) by {
                        lemma_distinct_slots(self.read_index as int, k, len, c);
                    }
                    if sk < slot as int {
                        lemma_slots_disjoint(sk, slot as int, self.stride as int, self.message_size as int);
                    } else {
                        lemma_slots_disjoint(slot as int, sk, self.stride as int, self.message_size as int);
                    }
                    assert(slot_bytes(self.storage@, sk, self.stride as int, n as int) =~= slot_bytes(
                        old_storage,
                        sk,
                        self.stride as int,
                        n as int,
                    ));
                }
            }
            self.contents = Ghost(new_contents);
        }
        true
    }

    /// Copies the oldest unread frame into `buffer` and releases its slot; returns
    /// `false`, changing nothing, when no frame is in flight.
    pub fn try_pop(&mut self, buffer: &mut [u8]) -> (popped: bool)
        requires
            old(self).wf(),
            old(buffer)@.len() == old(self).spec_message_size(),
        ensures
            final(self).wf(),
            final(self).spec_capacity() == old(self).spec_capacity(),
            final(self).spec_message_size() == old(self).spec_message_size(),
            final(self).spec_write_index() == old(self).spec_write_index(),
            popped == (old(self)@.len() > 0),
            popped ==> final(buffer)@ == old(self)@[0] && final(self)@ == old(self)@.drop_first()
                && final(self).spec_read_index() == old(self).spec_read_index().wrapping_add(1),
            !popped ==> final(buffer)@ == old(buffer)@ && final(self)@ == old(self)@
                && final(self).spec_read_index() == old(self).spec_read_index(),
    {
        let write = self.write_index;
        let read = self.read_index;
        let (base, next_read) = match consumer_step(write, read, self.capacity, self.stride) {
            Some(step) => step,
            None => {
                return false;
            },
        };
        let ghost slot = read % self.capacity;
        let ghost c = self.capacity as int;
        let ghost len = self.contents@.len() as int;
        proof {
            lemma_mod_bound(read as int, c);
            lemma_slot_range(slot as int, c, self.stride as int, self.message_size as int);
            assert(self.contents@[0] == slot_bytes(
                self.storage@,
                (read + 0) % c,
                self.stride as int,
                self.message_size as int,
            ));
        }
        let n = self.message_size;
        let mut i: usize = 0;
        while i < n
            invariant
                n == buffer@.len(),
                n == self.message_size,
                base + n <= self.storage@.len(),
                base + n <= usize::MAX,
                i <= n,
                forall|j: int| 0 <= j < i ==> buffer@[j] == self.storage@[base + j],
            decreases n - i,
        {
            buffer[i] = self.storage[base + i];
            i = i + 1;
        }
        self.read_index = next_read;
        proof {
            assert(buffer@ =~= slot_bytes(self.storage@, slot as int, self.stride as int, n as int));
            let new_contents = self.contents@.drop_first();
            let w = if read == usize::MAX {
                1int
            } else {
                0int
            };
            assert forall|k: int| 0 <= k < new_contents.len() implies slot_bytes(
                self.storage@,
                (self.read_index + k) % c,
                self.stride as int,
                self.message_size as int,
            ) == #[trigger] new_contents[k] by {
                assert(self.read_index + k + w * cursor_modulus() == read + (k + 1));
                lemma_wrap_keeps_slot(self.read_index + k, w, self.capacity);
                assert(new_contents[k] == self.contents@[k + 1]);
            }
            self.contents = Ghost(new_contents);
        }
        true
    }
}

/// With a valid capacity, masking a cursor with `capacity - 1` finds the same slot
/// as taking it modulo the capacity.
pub proof fn lemma_mask_slot(index: usize, capacity: usize)
    requires
        valid_capacity(capacity),
    ensures
        index & ((capacity - 1) as usize) == index % capacity,
{
    assert(capacity == 1 || capacity == 2 || capacity == 4 || capacity == 8 || capacity == 16
        || capacity == 32 || capacity == 64 || capacity == 128 || capacity == 256) by {
        reveal_with_fuel(is_power_of_two_spec, 10);
    }
    assert(index & 0usize == index % 1) by (bit_vector);
    assert(index & 1usize == index % 2) by (bit_vector);
    assert(index & 3usize == index % 4) by (bit_vector);
    assert(index & 7usize == index % 8) by (bit_vector);
    assert(index & 15usize == index % 16) by (bit_vector);
    assert(index & 31usize == index % 32) by (bit_vector);
    assert(index & 63usize == index % 64) by (bit_vector);
    assert(index & 127usize == index % 128) by (bit_vector);
    assert(index & 255usize == index % 256) by (bit_vector);
}

proof fn lemma_slot_range(slot: int, capacity: int, stride: int, size: int)
    requires
        0 <= slot < capacity,
        0 <= size <= stride,
    ensures
        0 <= slot * stride,
        slot * stride + size <= capacity * stride,
{
    assert(slot * stride + stride <= capacity * stride) by (nonlinear_arith)
        requires
            slot + 1 <= capacity,
            stride >= 0,
    ;
    assert(0 <= slot * stride) by (nonlinear_arith)
        requires
            slot >= 0,
            stride >= 0,
    ;
}

proof fn lemma_slots_disjoint(a: int, b: int, stride: int, size: int)
    requires
        0 <= a < b,
        0 <= size <= stride,
    ensures
        a * stride + size <= b * stride,
{
    assert(a * stride + stride <= b * stride) by (nonlinear_arith)
        requires
            a + 1 <= b,
            stride >= 0,
    ;
}

proof fn lemma_distinct_slots(read: int, k: int, len: int, c: int)
    requires
        0 <= k < len,
        len < c,
        c > 0,
        read >= 0,
    ensures
        (read + k) % c != (read + len) % c,
{
    let a = read + k;
    let b = read + len;
    assert(0 < b - a < c);
    if a % c == b % c {
        assert((b - a) % c == 0) by {
            vstd::arithmetic::div_mod::lemma_mod_equivalence(b, a, c);
        }
        assert(false) by {
            vstd::arithmetic::div_mod::lemma_small_mod((b - a) as nat, c as nat);
        }
    }
}

} // verus!
