use hft_channel::buffer::Buffer;
use hft_channel::user_broadcast::{Payload, Receiver, Sender, BUFFER_LEN};
use hft_channel::wide_buffer::{Message as WideMessage, WideBuffer};
use hft_channel::wide_state::{State as WideState, WideStamp};

fn ring() -> (Sender, Receiver<u64>, WideBuffer<u64>) {
    let mut buffer = WideBuffer::new(BUFFER_LEN);
    let tx = Sender::new(&mut buffer);
    let rx = Receiver::new(&mut buffer).unwrap();
    (tx, rx, buffer)
}

fn stamp(dirty: bool, seq_no: u64, user_state: u64) -> WideStamp {
    WideStamp { dirty, seq_no, user_state }
}

#[test]
fn a_default_payload_is_zero() {
    let payload = Payload::<200>::default();
    assert_eq!(payload.timestamp, 0);
    assert_eq!(payload.bytes, [0u8; 200]);
    let mut other = payload.clone();
    other.timestamp = 5;
    other.bytes[7] = 1;
    let copy = other.clone();
    assert_eq!((copy.timestamp, copy.bytes[7]), (5, 1));
    assert_eq!((payload.timestamp, payload.bytes[7]), (0, 0));
}

#[test]
fn a_wide_ring_starts_at_slot_0() {
    let mut buffer = WideBuffer::<u64>::new(BUFFER_LEN);
    buffer.replace(2, stamp(true, 9, 8), 90);
    let _tx = Sender::with_init(&mut buffer);
    assert_eq!(buffer.load(0), stamp(true, 1, 0));
    for i in 1..BUFFER_LEN {
        assert_eq!(buffer.load(i), stamp(false, 0, 0));
        assert_eq!(*buffer.payload(i), 0);
    }
}

#[test]
fn the_user_state_goes_with_the_message() {
    let (mut tx, mut rx, mut buffer) = ring();
    assert_eq!(rx.try_recv(&mut buffer), (1, 0, None));
    assert_eq!(tx.send(&mut buffer, 77, &11), 1);
    assert_eq!(buffer.load(0), stamp(false, 1, 77));
    assert_eq!(buffer.load(1), stamp(true, 2, 0));
    assert_eq!(rx.recv(&mut buffer), (1, 77, &11));
    tx.send(&mut buffer, 88, &22);
    assert_eq!(rx.try_recv(&mut buffer), (2, 88, Some(&22)));
    assert_eq!(rx.try_recv(&mut buffer), (3, 0, None));
}

#[test]
fn a_wide_ring_goes_round() {
    let (mut tx, mut rx, mut buffer) = ring();
    let n = BUFFER_LEN as u64;
    for i in 1..=n + 2 {
        tx.send(&mut buffer, 10 * i, &i);
    }
    assert_eq!(rx.recv(&mut buffer), (n + 1, 10 * (n + 1), &(n + 1)));
    assert_eq!(rx.recv(&mut buffer), (n + 2, 10 * (n + 2), &(n + 2)));
    assert_eq!(rx.try_load_state(&mut buffer), (true, n + 3, 0));
}

#[test]
fn the_payload_lent_out_is_that_of_the_message_received() {
    let (mut tx, mut rx, mut buffer) = ring();
    assert_eq!(rx.try_recv_unsafe(&mut buffer), (1, 0, None));
    tx.send(&mut buffer, 1, &11);
    tx.send(&mut buffer, 2, &22);
    assert_eq!(rx.recv_unsafe(&mut buffer), (1, 1, &11));
    assert_eq!(rx.try_recv_unsafe(&mut buffer), (2, 2, Some(&22)));
    assert_eq!(rx.try_recv_unsafe(&mut buffer), (3, 0, None));
}

#[test]
fn a_peek_at_a_wide_ring_is_confirmed_or_not() {
    let (mut tx, mut rx, mut buffer) = ring();
    let n = BUFFER_LEN as u64;
    assert_eq!(rx.try_peek_unsafe(&mut buffer), (1, 0, None));
    tx.send(&mut buffer, 5, &11);
    assert_eq!(rx.peek_unsafe(&mut buffer), (1, 5, &11));
    assert!(rx.advance_checked(&mut buffer));
    tx.send(&mut buffer, 6, &22);
    assert_eq!(rx.try_peek_unsafe(&mut buffer), (2, 6, Some(&22)));
    for i in 3..=n + 2 {
        tx.send(&mut buffer, i, &i);
    }
    assert!(!rx.advance_checked(&mut buffer));
    assert_eq!(rx.peek_unsafe(&mut buffer), (n + 2, n + 2, &(n + 2)));
    assert!(rx.advance_checked(&mut buffer));
    assert_eq!(rx.try_load_state(&mut buffer), (true, n + 3, 0));
}

#[test]
fn a_wide_ring_can_be_walked_by_state_alone() {
    let (mut tx, mut rx, mut buffer) = ring();
    tx.send(&mut buffer, 5, &11);
    tx.send(&mut buffer, 6, &22);
    assert_eq!(rx.load_state(&mut buffer), (1, 5));
    rx.advance();
    assert_eq!(rx.load_state(&mut buffer), (2, 6));
    rx.advance();
    assert_eq!(rx.try_load_state(&mut buffer), (true, 3, 0));
}

#[test]
fn a_wide_ring_can_be_taken_over() {
    let (mut tx, _, mut buffer) = ring();
    for i in 1..=6 {
        tx.send(&mut buffer, 0, &i);
    }
    let mut again = Sender::new(&mut buffer);
    assert_eq!(again.seq_no(), 7);
    let mut rx = Receiver::<u64>::new(&mut buffer).unwrap();
    assert_eq!(again.send(&mut buffer, 3, &70), 7);
    assert_eq!(rx.recv(&mut buffer), (7, 3, &70));
}

#[test]
fn there_is_no_receiver_on_a_wide_ring_without_a_dirty_slot() {
    let mut buffer = WideBuffer::<u64>::new(BUFFER_LEN);
    assert!(Receiver::<u64>::new(&mut buffer).is_none());
    assert_eq!(buffer.capacity(), 4096);
}

#[test]
fn a_wide_slot_keeps_its_state_and_its_payload() {
    let mut message = WideMessage::new(WideState::new(true, 3, 4), 5u64);
    assert_eq!(message.load(), (true, 3, 4));
    assert_eq!(*message.payload(), 5);
    message.store(false, 6, 7);
    *message.payload_mut() = 8;
    assert_eq!(message.load(), (false, 6, 7));
    assert_eq!(*message.payload(), 8);
    let mut empty = WideMessage::<u64>::default();
    assert_eq!((empty.load(), *empty.payload()), ((false, 0, 0), 0));
}

#[test]
fn a_wide_ring_holds_what_is_put_in() {
    let mut buffer = WideBuffer::<u64>::new(3);
    assert_eq!(buffer.capacity(), 3);
    buffer.replace(2, stamp(true, 9, 8), 90);
    buffer.store(1, stamp(false, 5, 6));
    *buffer.payload_mut(1) = 50;
    assert_eq!(buffer.load(0), stamp(false, 0, 0));
    assert_eq!(buffer.load(1), stamp(false, 5, 6));
    assert_eq!(buffer.load(2), stamp(true, 9, 8));
    let mut copy = 0;
    buffer.copy_payload(2, &mut copy);
    assert_eq!(copy, 90);
    assert_eq!(*buffer.payload(1), 50);
}
