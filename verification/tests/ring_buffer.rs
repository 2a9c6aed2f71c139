use hft_channel::buffer::Buffer;
use hft_channel::heap_buffer::HeapBuffer;
use hft_channel::ring_buffer::{Receiver, Sender};
use hft_channel::state::Stamp;

const LEN: usize = 4;

fn ring() -> (Sender<LEN>, Receiver<u64, LEN>, HeapBuffer<u64>) {
    let mut buffer = HeapBuffer::new(LEN);
    let tx = Sender::new(&mut buffer);
    let rx = Receiver::new(&mut buffer).unwrap();
    (tx, rx, buffer)
}

#[test]
fn a_fixed_ring_starts_at_slot_0() {
    let mut buffer = HeapBuffer::<u64>::new(LEN);
    buffer.replace(2, Stamp { dirty: true, seq_no: 9 }, 90);
    let _tx = Sender::<LEN>::with_init(&mut buffer);
    assert_eq!(buffer.load(0), Stamp { dirty: true, seq_no: 1 });
    for i in 1..LEN {
        assert_eq!(buffer.load(i), Stamp { dirty: false, seq_no: 0 });
        assert_eq!(*buffer.payload(i), 0);
    }
}

#[test]
fn a_fixed_ring_is_initialized_as_far_as_its_length() {
    let mut buffer = HeapBuffer::<u64>::new(8);
    buffer.replace(5, Stamp { dirty: false, seq_no: 6 }, 60);
    let mut tx = Sender::<LEN>::new(&mut buffer);
    assert_eq!(buffer.load(5), Stamp { dirty: false, seq_no: 6 });
    assert_eq!(*buffer.payload(5), 60);
    for i in 1..=5 {
        assert_eq!(tx.send(&mut buffer, &i), i);
    }
    assert_eq!(buffer.load(0), Stamp { dirty: false, seq_no: 5 });
    assert_eq!(buffer.load(1), Stamp { dirty: true, seq_no: 6 });
    assert_eq!(buffer.load(5), Stamp { dirty: false, seq_no: 6 });
}

#[test]
fn sending_on_a_fixed_ring_marks_the_next_slot() {
    let (mut tx, _, mut buffer) = ring();
    assert_eq!(tx.send(&mut buffer, &11), 1);
    assert_eq!(buffer.load(0), Stamp { dirty: false, seq_no: 1 });
    assert_eq!(*buffer.payload(0), 11);
    assert_eq!(buffer.load(1), Stamp { dirty: true, seq_no: 2 });
    assert_eq!(buffer.load(2), Stamp { dirty: false, seq_no: 0 });
    assert_eq!(buffer.load(3), Stamp { dirty: false, seq_no: 0 });
}

#[test]
fn messages_on_a_fixed_ring_come_in_order() {
    let (mut tx, mut rx, mut buffer) = ring();
    assert_eq!(rx.try_recv(&mut buffer), (1, None));
    for round in 0..3u64 {
        for i in 1..=3 {
            tx.send(&mut buffer, &(100 * round + i));
        }
        for i in 1..=3 {
            assert_eq!(rx.recv(&mut buffer), (3 * round + i, &(100 * round + i)));
        }
    }
    assert_eq!(rx.try_recv(&mut buffer), (10, None));
    tx.send(&mut buffer, &10);
    assert_eq!(rx.try_recv(&mut buffer), (10, Some(&10)));
}

#[test]
fn a_receiver_of_a_fixed_ring_sees_that_it_was_overtaken() {
    let (mut tx, mut rx, mut buffer) = ring();
    for i in 1..=6 {
        tx.send(&mut buffer, &i);
    }
    assert_eq!(rx.recv(&mut buffer), (5, &5));
    assert_eq!(rx.recv(&mut buffer), (6, &6));
    assert_eq!(rx.try_recv(&mut buffer), (7, None));
}

#[test]
fn a_peek_at_a_fixed_ring_is_confirmed_or_not() {
    let (mut tx, mut rx, mut buffer) = ring();
    assert_eq!(rx.try_peek_unsafe(&mut buffer), (1, None));
    tx.send(&mut buffer, &11);
    assert_eq!(rx.peek_unsafe(&mut buffer), (1, &11));
    assert!(rx.advance_checked(&mut buffer));
    tx.send(&mut buffer, &22);
    assert_eq!(rx.try_peek_unsafe(&mut buffer), (2, Some(&22)));
    for i in 3..=6 {
        tx.send(&mut buffer, &i);
    }
    assert!(!rx.advance_checked(&mut buffer));
    assert_eq!(rx.peek_unsafe(&mut buffer), (6, &6));
    assert!(rx.advance_checked(&mut buffer));
    assert_eq!(rx.try_load_state(&mut buffer), (true, 7));
}

#[test]
fn a_fixed_ring_can_be_walked_by_state_alone() {
    let (mut tx, mut rx, mut buffer) = ring();
    tx.send(&mut buffer, &11);
    tx.send(&mut buffer, &22);
    assert_eq!(rx.load_state(&mut buffer), 1);
    rx.advance();
    assert_eq!(rx.load_state(&mut buffer), 2);
    rx.advance();
    assert_eq!(rx.try_load_state(&mut buffer), (true, 3));
}

#[test]
fn a_fixed_ring_can_be_taken_over() {
    let (mut tx, _, mut buffer) = ring();
    for i in 1..=6 {
        tx.send(&mut buffer, &i);
    }
    let mut again = Sender::<LEN>::new(&mut buffer);
    let mut rx = Receiver::<u64, LEN>::new(&mut buffer).unwrap();
    assert_eq!(again.send(&mut buffer, &70), 7);
    assert_eq!(rx.recv(&mut buffer), (7, &70));
}

#[test]
fn there_is_no_receiver_on_a_fixed_ring_without_a_dirty_slot() {
    let mut buffer = HeapBuffer::<u64>::new(LEN);
    assert!(Receiver::<u64, LEN>::new(&mut buffer).is_none());
}

#[test]
fn numbers_on_a_fixed_ring_that_outgrow_the_word_run_into_the_flag() {
    let mut buffer = HeapBuffer::<u64>::new(LEN);
    buffer.replace(0, Stamp { dirty: true, seq_no: (1 << 63) - 1 }, 0);
    let mut tx = Sender::<LEN>::new(&mut buffer);
    assert_eq!(tx.send(&mut buffer, &1), (1 << 63) - 1);
    assert_eq!(buffer.load(0), Stamp { dirty: false, seq_no: (1 << 63) - 1 });
    assert_eq!(buffer.load(1), Stamp { dirty: true, seq_no: 0 });
    assert_eq!(tx.send(&mut buffer, &2), 1 << 63);
    assert_eq!(buffer.load(1), Stamp { dirty: true, seq_no: 0 });
}
