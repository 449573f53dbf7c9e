use ipc_bench::ring::{
    consumer_step, producer_step, ring_has_space, ring_slot, slot_offset, slot_stride, RingQueue,
};

#[test]
fn ring_capacity_one_and_wraparound() {
    for start in [0, usize::MAX - 1, usize::MAX] {
        assert!(ring_has_space(start, start, 1));
        assert!(!ring_has_space(start.wrapping_add(1), start, 1));
        assert!(ring_has_space(start.wrapping_add(1), start.wrapping_add(1), 1));
    }
}

#[test]
fn actual_ring_slot_publication_wraps_at_counter_maximum() {
    for start in [usize::MAX - 1, usize::MAX] {
        let mut ring = RingQueue::new(1, 1, 1, start);
        for byte in 1..=5u8 {
            assert!(ring.try_push(&[byte]));
            let mut output = [0];
            assert!(ring.try_pop(&mut output));
            assert_eq!(output, [byte]);
        }
    }
}

#[test]
fn full_ring_refuses_and_empty_ring_yields_nothing() {
    let mut ring = RingQueue::new(4, 3, 8, usize::MAX - 2);
    let mut out = [0u8; 3];
    assert!(!ring.try_pop(&mut out));
    for k in 0..4u8 {
        assert!(ring.try_push(&[k, k + 1, k + 2]));
        assert_eq!(ring.len(), k as usize + 1);
    }
    assert!(!ring.try_push(&[9, 9, 9]));
    assert_eq!(ring.len(), 4);
    for k in 0..4u8 {
        assert!(ring.try_pop(&mut out));
        assert_eq!(out, [k, k + 1, k + 2]);
    }
    assert!(!ring.try_pop(&mut out));
    assert_eq!(ring.len(), 0);
}

#[test]
fn interleaved_traffic_stays_in_order() {
    let mut ring = RingQueue::new(2, 2, 2, usize::MAX);
    let mut next_in = 0u8;
    let mut next_out = 0u8;
    let mut out = [0u8; 2];
    for round in 0..50 {
        let pushes = 1 + round % 2;
        for _ in 0..pushes {
            if ring.try_push(&[next_in, !next_in]) {
                next_in = next_in.wrapping_add(1);
            }
        }
        if ring.try_pop(&mut out) {
            assert_eq!(out, [next_out, !next_out]);
            next_out = next_out.wrapping_add(1);
        }
    }
    while ring.try_pop(&mut out) {
        assert_eq!(out, [next_out, !next_out]);
        next_out = next_out.wrapping_add(1);
    }
    assert_eq!(next_in, next_out);
}

#[test]
fn slots_follow_the_cursor_modulo_capacity() {
    assert_eq!(ring_slot(0, 8), 0);
    assert_eq!(ring_slot(13, 8), 5);
    assert_eq!(ring_slot(usize::MAX, 8), 7);
    assert_eq!(ring_slot(usize::MAX, 1), 0);
    assert!(ring_has_space(10, 3, 8));
    assert!(!ring_has_space(11, 3, 8));
    assert!(!ring_has_space(5, usize::MAX - 2, 8));
    assert!(ring_has_space(4, usize::MAX - 2, 8));
}

#[test]
fn stride_rounds_up_to_cache_lines_when_padded() {
    assert_eq!(slot_stride(1, false), Some(1));
    assert_eq!(slot_stride(65, false), Some(65));
    assert_eq!(slot_stride(1, true), Some(64));
    assert_eq!(slot_stride(64, true), Some(64));
    assert_eq!(slot_stride(65, true), Some(128));
    assert_eq!(slot_stride(usize::MAX, true), None);
}

#[test]
fn slot_offsets_stay_inside_the_region() {
    assert_eq!(slot_offset(0, 4, 64), 0);
    assert_eq!(slot_offset(5, 4, 64), 64);
    assert_eq!(slot_offset(usize::MAX, 4, 64), 192);
    assert_eq!(slot_offset(usize::MAX, 1, 1000), 0);
}

#[test]
fn cursor_steps_across_the_counter_maximum() {
    let start = usize::MAX;
    assert_eq!(producer_step(start, start, 2, 16), Some((16, 0)));
    assert_eq!(producer_step(0, start, 2, 16), Some((0, 1)));
    assert_eq!(producer_step(1, start, 2, 16), None);
    assert_eq!(consumer_step(1, start, 2, 16), Some((16, 0)));
    assert_eq!(consumer_step(1, 0, 2, 16), Some((0, 1)));
    assert_eq!(consumer_step(1, 1, 2, 16), None);
}
