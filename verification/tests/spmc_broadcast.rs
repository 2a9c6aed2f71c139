use hft_channel::spmc_broadcast::{local_channel, Buffer, HeapBuffer, Message, Receiver, Sender};
use hft_channel::state::{Stamp, State};

const BUF: usize = 4;

#[test]
fn sender_with_init_sets_single_dirty_slot() {
    // Allocate a heap-backed ring buffer
    let mut buffer = HeapBuffer::<u64>::new(BUF);

    // Initialize sender, which also initializes the ring buffer
    let _sender = Sender::with_init(&mut buffer);

    // After init:
    // - slot 1 must be dirty with seq_no = 1
    // - all other slots must be clean with seq_no = 0
    // - exactly one dirty slot must exist
    let mut dirty_count = 0;

    for idx in 0..buffer.capacity() {
        let slot = buffer.slot_mut(idx as u64);
        let (dirty, seq_no) = slot.load();

        if idx == 1 {
            assert!(dirty, "slot 1 must be dirty after init");
            assert_eq!(seq_no, 1, "slot 0 seq_no must be 1 after init");
        } else {
            assert!(!dirty, "slot {} must be clean after init", idx);
            assert_eq!(seq_no, 0, "slot {} seq_no must be 0 after init", idx);
        }

        if dirty {
            dirty_count += 1;
        }
    }

    assert_eq!(dirty_count, 1, "exactly one slot must be dirty after init");
}

#[test]
fn sender_send_writes_payload_and_advances_dirty_slot() {
    let mut buffer = HeapBuffer::<u64>::new(BUF);
    let mut sender = Sender::with_init(&mut buffer);

    // Send first payload
    let seq1 = sender.send(&mut buffer, 11u64);
    assert_eq!(seq1, 1);

    // After first send:
    // - slot 1 should be clean with seq_no = 1 and payload = 11
    // - exactly one dirty slot exists (the next write target)
    let mut dirty_indices = Vec::new();
    for idx in 0..buffer.capacity() {
        let slot = buffer.slot_mut(idx as u64);
        let (dirty, seq_no) = slot.load();

        if dirty {
            dirty_indices.push(idx);
        }

        if idx == 1 {
            assert!(!dirty, "slot 1 should be clean after first send");
            assert_eq!(seq_no, 1);
            assert_eq!(*slot.payload(), 11);
        } else if idx == 2 {
            assert!(dirty, "slot 2 should be dirty after first send");
            assert_eq!(seq_no, 2);
            assert_eq!(*slot.payload(), 0);
        }
    }

    assert_eq!(
        dirty_indices.len(),
        1,
        "there must still be exactly one dirty slot"
    );

    // Send a second payload
    let seq2 = sender.send(&mut buffer, 22u64);
    assert_eq!(seq2, 2);

    // Now slot 2 should be clean with seq_no = 2 and payload = 22
    let slot1 = buffer.slot_mut(2u64);
    let (dirty1, seq1_again) = slot1.load();
    assert!(!dirty1, "slot 2 should be clean after second send");
    assert_eq!(seq1_again, 2);
    assert_eq!(*slot1.payload(), 22);

    // Still only one dirty slot in the ring
    let mut dirty_count = 0;
    for i in 0..buffer.capacity() {
        if buffer.slot_mut(i as u64).load().0 {
            dirty_count += 1;
        }
    }

    assert_eq!(dirty_count, 1, "exactly one dirty slot must be preserved");
}

#[test]
fn receiver_new_and_try_recv_before_send_returns_none() {
    // Initialize heap-backed buffer and sender (which initializes the ring)
    let mut buffer = HeapBuffer::<u64>::new(BUF);
    let _sender = Sender::with_init(&mut buffer);

    // Before we send anything, the only dirty slot is the initial one.
    let mut rx: Receiver<u64> = Receiver::new(&mut buffer).unwrap();

    // At this point, the receiver points at the initial dirty slot.
    // try_recv should see dirty == true and return None.
    let (seq, val) = rx.try_recv(&mut buffer);
    assert!(val.is_none());
    assert_eq!(seq, 1, "seq_no should be the seq of the dirty slot");
}

#[test]
fn send_then_recv_roundtrip() {
    let mut buffer = HeapBuffer::<u64>::new(BUF);
    let mut sender = Sender::with_init(&mut buffer);
    let mut rx: Receiver<u64> = Receiver::new(&mut buffer).unwrap();

    // First message
    let seq1 = sender.send(&mut buffer, 111u64);
    let (rseq1, v1) = rx.recv(&mut buffer);
    assert_eq!(seq1, rseq1);
    assert_eq!(*v1, 111);

    // Second message
    let seq2 = sender.send(&mut buffer, 222u64);
    let (rseq2, v2) = rx.recv(&mut buffer);
    assert_eq!(seq2, rseq2);
    assert_eq!(*v2, 222);
}

#[test]
fn peek_unsafe_and_advance_zero_copy_pattern() {
    let mut buffer = HeapBuffer::<u64>::new(BUF);
    let mut sender = Sender::with_init(&mut buffer);
    let mut rx: Receiver<u64> = Receiver::new(&mut buffer).unwrap();

    // Produce a value
    let seq1 = sender.send(&mut buffer, 999u64);

    // Use the (peek, advance) pattern
    let (seen_seq, ts) = loop {
        let (s, payload) = rx.peek_unsafe(&mut buffer);
        let val = *payload;
        if rx.advance(&mut buffer) {
            break (s, val);
        }
    };

    assert_eq!(seen_seq, seq1);
    assert_eq!(ts, 999);
}

#[test]
fn reserve_without_write_publishes_default_value() {
    let mut buffer = HeapBuffer::<u64>::new(BUF);
    let mut sender = Sender::with_init(&mut buffer);
    let mut rx: Receiver<u64> = Receiver::new(&mut buffer).unwrap();

    // First reserve/commit without touching the payload
    let (seq, _payload_ref) = sender.reserve(&mut buffer);
    sender.commit(&mut buffer);

    // Receiver should see the default value in that slot
    let (rseq, v) = rx.recv(&mut buffer);
    assert_eq!(rseq, seq, "seq_no must match between sender and receiver");
    assert_eq!(*v, u64::default(), "payload must be the default value");
}

#[test]
fn reserve_write_then_commit_publishes_written_value() {
    let mut buffer = HeapBuffer::<u64>::new(BUF);
    let mut sender = Sender::with_init(&mut buffer);
    let mut rx: Receiver<u64> = Receiver::new(&mut buffer).unwrap();

    // Reserve a slot, write into it, then commit
    let (seq, payload_ref) = sender.reserve(&mut buffer);
    *payload_ref = 42;
    sender.commit(&mut buffer);

    // Receiver should observe exactly that value with the same seq
    let (rseq, v) = rx.recv(&mut buffer);
    assert_eq!(rseq, seq, "seq_no must match between sender and receiver");
    assert_eq!(*v, 42, "payload written via reserve/commit must be visible");
}

#[test]
fn send_from_and_send_roundtrip() {
    let mut buffer = HeapBuffer::<u64>::new(BUF);
    let mut sender = Sender::with_init(&mut buffer);
    let mut rx: Receiver<u64> = Receiver::new(&mut buffer).unwrap();

    // send_from(&T) clones into the buffer
    let original = 123u64;
    let seq1 = sender.send_from(&mut buffer, &original);
    assert_eq!(original, 123, "send_from must not move the value");

    let (rseq1, v1) = rx.recv(&mut buffer);
    assert_eq!(seq1, rseq1, "seq_no must match for send_from");
    assert_eq!(*v1, 123, "payload must match cloned value");

    // send(T) moves into the buffer
    let seq2 = sender.send(&mut buffer, 456u64);
    let (rseq2, v2) = rx.recv(&mut buffer);
    assert_eq!(seq2, rseq2, "seq_no must match for send");
    assert_eq!(*v2, 456, "payload must match moved value");
}

#[test]
fn try_recv_returns_some_after_send() {
    let mut buffer = HeapBuffer::<u64>::new(BUF);
    let mut sender = Sender::with_init(&mut buffer);
    let mut rx: Receiver<u64> = Receiver::new(&mut buffer).unwrap();

    // Initially, receiver should see no committed message
    let (_seq0, v0) = rx.try_recv(&mut buffer);
    assert!(v0.is_none(), "no message should be available before send");

    // After sending, try_recv should return Some(...)
    let seq1 = sender.send(&mut buffer, 10);
    let (rseq1, v1) = rx.try_recv(&mut buffer);
    assert_eq!(rseq1, seq1);
    assert!(v1.is_some());
    assert_eq!(*v1.unwrap(), 10);
}

#[test]
fn recv_and_try_recv_interleave_correctly() {
    let mut buffer = HeapBuffer::<u64>::new(BUF);
    let mut sender = Sender::with_init(&mut buffer);
    let mut rx: Receiver<u64> = Receiver::new(&mut buffer).unwrap();

    // Send two messages
    let seq1 = sender.send(&mut buffer, 111);
    let seq2 = sender.send(&mut buffer, 222);

    // First message via blocking recv
    let (rseq1, v1) = rx.recv(&mut buffer);
    assert_eq!(rseq1, seq1);
    assert_eq!(*v1, 111);

    // Second message via try_recv (non-blocking)
    let (rseq2, v2) = rx.try_recv(&mut buffer);
    assert_eq!(rseq2, seq2);
    assert!(v2.is_some());
    assert_eq!(*v2.unwrap(), 222);

    // Now we should be at the next seq with nothing committed yet
    let (_seq3, v3) = rx.try_recv(&mut buffer);
    assert!(v3.is_none(), "no further messages should be available");
}

#[test]
fn try_peek_unsafe_returns_none_while_dirty_and_some_when_clean() {
    let mut buffer = HeapBuffer::<u64>::new(BUF);
    let mut sender = Sender::with_init(&mut buffer);
    let mut rx: Receiver<u64> = Receiver::new(&mut buffer).unwrap();

    // Immediately after init, the current slot is dirty (being written).
    // try_peek_unsafe should return None.
    let (_seq0, v0) = rx.try_peek_unsafe(&mut buffer);
    assert!(v0.is_none(), "peek on dirty slot must return None");

    // Publish a value
    let seq1 = sender.send(&mut buffer, 777);

    // Now the current readable slot should be clean and peekable
    let (pseq, v1) = rx.try_peek_unsafe(&mut buffer);
    assert_eq!(pseq, seq1, "peeked seq_no must match last sent");
    assert!(v1.is_some());
    assert_eq!(*v1.unwrap(), 777);
}

#[test]
fn peek_unsafe_and_advance_detect_overwrite() {
    // Use a small buffer to make overwrites easy to trigger
    const SMALL_BUF: usize = 4;
    let mut buffer = HeapBuffer::<u64>::new(SMALL_BUF);
    let mut sender = Sender::with_init(&mut buffer);
    let mut rx: Receiver<u64> = Receiver::new(&mut buffer).unwrap();

    // Produce one value and peek it
    let first_seq = sender.send(&mut buffer, 1);

    let (peek_seq, payload_ref) = rx.peek_unsafe(&mut buffer);
    assert_eq!(peek_seq, first_seq);
    assert_eq!(*payload_ref, 1);

    // Now advance the sender enough to overwrite this slot.
    // With capacity SMALL_BUF, sending SMALL_BUF more messages will lap the receiver.
    for i in 2..=(SMALL_BUF as u64 + 1) {
        sender.send(&mut buffer, i);
    }

    // Now advance() should notice that the seq_no changed and fail.
    let ok = rx.advance(&mut buffer);
    assert!(
        !ok,
        "advance() must return false when the peeked slot has been overwritten"
    );
}

#[test]
fn peek_unsafe_and_advance_succeeds_without_overwrite() {
    let mut buffer = HeapBuffer::<u64>::new(BUF);
    let mut sender = Sender::with_init(&mut buffer);
    let mut rx: Receiver<u64> = Receiver::new(&mut buffer).unwrap();

    // Produce exactly one value
    let seq = sender.send(&mut buffer, 999);

    // Use the (peek, advance) zero-copy pattern
    let (seen_seq, val) = loop {
        let (s, payload) = rx.peek_unsafe(&mut buffer);
        let v = *payload;
        if rx.advance(&mut buffer) {
            break (s, v);
        }
        // In this test, we expect advance() to succeed on the first try.
    };

    assert_eq!(seen_seq, seq);
    assert_eq!(val, 999);
}

const CAP: usize = 8;

#[test]
fn local_channel_roundtrip_with_large_array_payload() {
    // Channel over a large fixed-size array payload.
    let (mut sender, mut receiver, mut buffer) = local_channel::<[u8; 5]>(CAP);

    // --- First message via send(T) ---

    let mut payload1 = [0u8; 5];
    for (i, b) in payload1.iter_mut().enumerate() {
        *b = (i % 4) as u8;
    }

    let seq1 = sender.send(&mut buffer, payload1);
    let (rseq1, recv1) = receiver.recv(&mut buffer);

    assert_eq!(seq1, rseq1, "seq_no must match for array payload");
    // Check a few sentinel positions, not just equality
    assert_eq!(recv1[0], 0);
    assert_eq!(recv1[1], 1);
    assert_eq!(recv1[4], 0);

    // After consuming first message, no more data should be ready
    let (_seq_after1, maybe_val1) = receiver.try_recv(&mut buffer);
    assert!(
        maybe_val1.is_none(),
        "no further messages should be available after single recv"
    );

    // --- Second message via reserve/commit ---

    let (seq2, slot) = sender.reserve(&mut buffer);
    // Write directly into the reserved slot
    for (i, b) in slot.iter_mut().enumerate() {
        *b = ((i * 3) % 4) as u8;
    }
    sender.commit(&mut buffer);

    let (rseq2, recv2) = receiver.recv(&mut buffer);
    assert_eq!(
        seq2, rseq2,
        "seq_no must match for reserve/commit array payload"
    );
    assert_eq!(recv2[0], 0);
    assert_eq!(recv2[1], 3);
    assert_eq!(recv2[2], 2);
    assert_eq!(recv2[3], 1);

    // Still, after consuming, try_recv should see nothing pending
    let (_seq_after2, maybe_val2) = receiver.try_recv(&mut buffer);
    assert!(
        maybe_val2.is_none(),
        "no further messages should remain after second recv"
    );
}

#[test]
fn local_channel_roundtrip_with_vec_payload_clone_and_move() {
    let (mut sender, mut receiver, mut buffer) = local_channel::<Vec<u64>>(CAP);

    // --- send_from(&T): payload is cloned into the buffer ---

    let original = vec![1u64, 2, 3, 4, 5];
    let seq1 = sender.send_from(&mut buffer, &original);

    // original must remain usable and unchanged
    assert_eq!(original, vec![1, 2, 3, 4, 5]);

    let (rseq1, v1) = receiver.recv(&mut buffer);
    assert_eq!(seq1, rseq1, "seq_no must match for send_from");
    assert_eq!(&*v1, &original, "received vec must match cloned payload");

    // --- send(T): payload is moved into the buffer ---

    let payload2 = vec![10u64, 20, 30];
    let seq2 = sender.send(&mut buffer, payload2);
    // payload2 is moved and cannot be used here

    let (rseq2, v2) = receiver.recv(&mut buffer);
    assert_eq!(seq2, rseq2, "seq_no must match for send(T)");
    assert_eq!(&*v2, &[10, 20, 30]);

    // --- try_recv should now report that no more messages are available ---

    let (_seq_after, maybe_val) = receiver.try_recv(&mut buffer);
    assert!(
        maybe_val.is_none(),
        "no further messages should be available after consuming all sends"
    );

    // --- Mix send_from and send to ensure sequencing is consistent ---

    let base_vec = vec![100u64, 200, 300];
    let seq3 = sender.send_from(&mut buffer, &base_vec);
    let seq4 = sender.send(&mut buffer, vec![400u64, 500, 600]);

    let (rseq3, v3) = receiver.recv(&mut buffer);
    assert_eq!(rseq3, seq3);
    assert_eq!(&*v3, &base_vec);

    let (rseq4, v4) = receiver.recv(&mut buffer);
    assert_eq!(rseq4, seq4);
    assert_eq!(&*v4, &[400, 500, 600]);

    assert!(
        rseq4 > rseq3,
        "sequence numbers must be monotonically increasing"
    );
}

#[test]
fn capacities_are_rounded_up_to_powers_of_two() {
    for (requested, effective) in [(0, 2), (1, 2), (2, 2), (3, 4), (4, 4), (5, 8), (512, 512), (513, 1024)] {
        let (_, _, buffer) = local_channel::<u8>(requested);
        assert_eq!(buffer.capacity(), effective, "requested {}", requested);
    }
}

#[test]
fn messages_fall_on_their_number_modulo_the_capacity() {
    let (mut tx, _, mut buffer) = local_channel::<u64>(4);
    for i in 1..=9u64 {
        assert_eq!(tx.send(&mut buffer, 10 * i), i);
    }
    // The head is message 10, on slot 2; the ring holds messages 7, 8 and 9.
    assert_eq!(buffer.slot_mut(0).load(), (false, 8));
    assert_eq!(buffer.slot_mut(1).load(), (false, 9));
    assert_eq!(buffer.slot_mut(2).load(), (true, 10));
    assert_eq!(buffer.slot_mut(3).load(), (false, 7));
    assert_eq!(*buffer.slot(8).payload(), 80);
    assert_eq!(*buffer.slot(9).payload(), 90);
    assert_eq!(*buffer.slot(7).payload(), 70);
}

#[test]
fn a_receiver_less_than_a_round_behind_misses_nothing() {
    let (mut tx, mut rx, mut buffer) = local_channel::<u64>(4);
    for i in 1..=3 {
        tx.send(&mut buffer, i * 100);
    }
    for i in 1..=3 {
        let (seq_no, payload) = rx.recv(&mut buffer);
        assert_eq!((seq_no, *payload), (i, i * 100));
    }
    let (seq_no, payload) = rx.try_recv(&mut buffer);
    assert_eq!(seq_no, 4);
    assert!(payload.is_none());
}

#[test]
fn a_receiver_that_was_overtaken_sees_a_gap() {
    let (mut tx, mut rx, mut buffer) = local_channel::<u64>(4);
    for i in 1..=7 {
        tx.send(&mut buffer, i * 100);
    }
    // Message 1 shares its slot with message 5.
    let (seq_no, payload) = rx.recv(&mut buffer);
    assert_eq!((seq_no, *payload), (5, 500));
    let (seq_no, payload) = rx.recv(&mut buffer);
    assert_eq!((seq_no, *payload), (6, 600));
}

#[test]
fn a_receiver_that_was_overtaken_by_the_head_waits_for_it() {
    let (mut tx, mut rx, mut buffer) = local_channel::<u64>(4);
    for i in 1..=4 {
        tx.send(&mut buffer, i);
    }
    // Message 5 is being written into the slot of message 1.
    let (seq_no, payload) = rx.try_recv(&mut buffer);
    assert_eq!(seq_no, 5);
    assert!(payload.is_none());
    tx.send(&mut buffer, 5);
    let (seq_no, payload) = rx.try_recv(&mut buffer);
    assert_eq!((seq_no, payload.copied()), (5, Some(5)));
}

#[test]
fn an_overtaken_peek_is_not_confirmed_and_the_receiver_goes_on_from_there() {
    let (mut tx, mut rx, mut buffer) = local_channel::<u64>(2);
    tx.send(&mut buffer, 1);
    assert_eq!(rx.peek_unsafe(&mut buffer).0, 1);
    tx.send(&mut buffer, 2);
    tx.send(&mut buffer, 3);
    assert!(!rx.advance(&mut buffer));
    let (seq_no, payload) = rx.recv(&mut buffer);
    assert_eq!((seq_no, *payload), (3, 3));
}

#[test]
fn waiting_moves_the_receiver_to_the_number_in_its_slot() {
    let (mut tx, mut rx, mut buffer) = local_channel::<u64>(2);
    for i in 1..=3 {
        tx.send(&mut buffer, i);
    }
    assert_eq!(rx.wait(&mut buffer), 3);
    assert!(rx.advance(&mut buffer));
    let (seq_no, payload) = rx.try_recv(&mut buffer);
    assert_eq!(seq_no, 4);
    assert!(payload.is_none());
}

#[test]
fn receivers_go_ahead_independently() {
    let (mut tx, mut a, mut buffer) = local_channel::<u64>(8);
    tx.send(&mut buffer, 1);
    assert_eq!(*a.recv(&mut buffer).1, 1);
    let mut b = a.clone();
    tx.send(&mut buffer, 2);
    tx.send(&mut buffer, 3);
    assert_eq!(*a.recv(&mut buffer).1, 2);
    assert_eq!(*a.recv(&mut buffer).1, 3);
    assert_eq!(*b.recv(&mut buffer).1, 2);
    // A receiver made now starts at the head.
    let mut c: Receiver<u64> = Receiver::new(&mut buffer).unwrap();
    assert_eq!(c.try_recv(&mut buffer), (4, None));
    tx.send(&mut buffer, 4);
    assert_eq!(c.try_recv(&mut buffer), (4, Some(&4)));
    assert_eq!(*b.recv(&mut buffer).1, 3);
    assert_eq!(*b.recv(&mut buffer).1, 4);
}

#[test]
fn there_is_no_receiver_on_a_ring_that_was_never_initialized() {
    let mut buffer = HeapBuffer::<u64>::new(4);
    assert!(Receiver::<u64>::new(&mut buffer).is_none());
}

#[test]
fn a_sender_goes_on_where_another_one_left_off() {
    let (mut tx, mut rx, mut buffer) = local_channel::<u64>(4);
    for i in 1..=6 {
        tx.send(&mut buffer, i);
    }
    let mut again = Sender::new(&mut buffer);
    assert_eq!(again.send(&mut buffer, 70), 7);
    assert_eq!(*rx.recv(&mut buffer).1, 5);
    assert_eq!(*rx.recv(&mut buffer).1, 6);
    assert_eq!(rx.recv(&mut buffer), (7, &70));
}

#[test]
fn a_sender_initializes_a_ring_without_an_active_slot() {
    let mut buffer = HeapBuffer::<u64>::new(4);
    // A dirty slot without a number does not count.
    *buffer.slot_mut(3) = Message::new(State::new(true, 0), 9);
    buffer.slot_mut(2).store(false, 17);
    *buffer.slot_mut(2).payload_mut() = 8;
    let mut tx = Sender::new(&mut buffer);
    assert_eq!(buffer.slot_mut(0).load(), (false, 0));
    assert_eq!(buffer.slot_mut(1).load(), (true, 1));
    assert_eq!(buffer.slot_mut(2).load(), (false, 0));
    assert_eq!(buffer.slot_mut(3).load(), (false, 0));
    assert_eq!(*buffer.slot(2).payload(), 0);
    assert_eq!(*buffer.slot(3).payload(), 0);
    assert_eq!(tx.send(&mut buffer, 1), 1);
}

#[test]
fn reserving_again_or_not_committing_is_harmless() {
    let (mut tx, mut rx, mut buffer) = local_channel::<u64>(4);
    *tx.reserve(&mut buffer).1 = 1;
    *tx.reserve(&mut buffer).1 = 2;
    assert_eq!(rx.try_recv(&mut buffer), (1, None));
    assert_eq!(tx.reserve(&mut buffer), (1, &mut 2));
    tx.commit(&mut buffer);
    assert_eq!(rx.try_recv(&mut buffer), (1, Some(&2)));
}

#[test]
fn the_handle_gives_access_to_every_slot() {
    let mut buffer = HeapBuffer::<u64>::new(2);
    buffer.replace(0, Stamp { dirty: true, seq_no: 4 }, 40);
    buffer.store(1, Stamp { dirty: false, seq_no: 3 });
    *buffer.payload_mut(1) = 30;
    assert_eq!(buffer.load(0), Stamp { dirty: true, seq_no: 4 });
    assert_eq!(buffer.load(1), Stamp { dirty: false, seq_no: 3 });
    let mut copy = 0;
    buffer.copy_payload(0, &mut copy);
    assert_eq!(copy, 40);
    assert_eq!(*buffer.payload(1), 30);
}

#[test]
fn a_sender_takes_over_in_the_middle_of_a_commit() {
    // Message 1 is marked in slot 1, message 2 in slot 2: the first one found is gone on with.
    let mut buffer = HeapBuffer::<u64>::new(4);
    buffer.store(1, Stamp { dirty: true, seq_no: 1 });
    buffer.store(2, Stamp { dirty: true, seq_no: 2 });
    assert_eq!(Sender::new(&mut buffer).reserve(&mut buffer).0, 1);

    // Message 3 is marked in slot 3, message 4 in slot 0.
    let mut buffer = HeapBuffer::<u64>::new(4);
    buffer.store(1, Stamp { dirty: false, seq_no: 1 });
    buffer.store(2, Stamp { dirty: false, seq_no: 2 });
    buffer.store(3, Stamp { dirty: true, seq_no: 3 });
    buffer.store(0, Stamp { dirty: true, seq_no: 4 });
    assert_eq!(Sender::new(&mut buffer).reserve(&mut buffer).0, 4);
}

#[test]
fn between_two_messages_one_slot_is_dirty() {
    let (mut tx, _, mut buffer) = local_channel::<u64>(4);
    for i in 1..=9u64 {
        let dirty = (0..4).filter(|k| buffer.load(*k).dirty).count();
        assert_eq!(dirty, 1);
        *tx.reserve(&mut buffer).1 = i;
        assert_eq!(buffer.load(i as usize % 4), Stamp { dirty: true, seq_no: i });
        tx.commit(&mut buffer);
        assert_eq!(buffer.load(i as usize % 4), Stamp { dirty: false, seq_no: i });
    }
}

#[test]
fn payloads_are_cloned_into_what_is_there_already() {
    let (mut tx, mut rx, mut buffer) = local_channel::<Vec<u64>>(2);
    let payload = vec![1, 2, 3, 4];
    for _ in 0..2 {
        tx.send_from(&mut buffer, &payload);
        rx.recv(&mut buffer);
    }
    // Slot 1 and the receiver have room for four numbers by now.
    let slot = tx.reserve(&mut buffer).1.as_ptr();
    tx.send_from(&mut buffer, &vec![5, 6]);
    let held = rx.recv(&mut buffer).1.as_ptr();
    assert_eq!(buffer.slot(3).payload().as_ptr(), slot);
    tx.send_from(&mut buffer, &vec![7]);
    let (seq_no, payload) = rx.recv(&mut buffer);
    assert_eq!((seq_no, payload.as_ptr()), (4, held));
    assert_eq!(payload, &vec![7]);
}
