use hft_channel::buffer::Buffer;
use hft_channel::ring::Tag;
use hft_channel::state::Stamp;
use hft_channel::wide_state::WideStamp;
use hft_channel::{ring_buffer, spmc_broadcast, user_broadcast};

/// A handle on a ring that somebody else changes: before the look of a given number, a slot is
/// replaced.
struct Scripted<S> {
    slots: Vec<(S, u64)>,
    looks: usize,
    script: Vec<(usize, usize, S, u64)>,
}

impl<S: Tag> Scripted<S> {
    fn new(slots: Vec<(S, u64)>, script: Vec<(usize, usize, S, u64)>) -> Self {
        Scripted { slots, looks: 0, script }
    }

    fn look(&mut self) {
        self.looks += 1;
        for (at, index, state, payload) in &self.script {
            if *at == self.looks {
                self.slots[*index] = (*state, *payload);
            }
        }
    }
}

impl<S: Tag> Buffer<u64, S> for Scripted<S> {
    fn capacity(&self) -> usize {
        self.slots.len()
    }

    fn load(&mut self, index: usize) -> S {
        self.look();
        self.slots[index].0
    }

    fn copy_payload(&mut self, index: usize, copy: &mut u64) {
        self.look();
        *copy = self.slots[index].1;
    }

    fn payload(&mut self, index: usize) -> &u64 {
        &self.slots[index].1
    }

    fn payload_mut(&mut self, index: usize) -> &mut u64 {
        &mut self.slots[index].1
    }

    fn store(&mut self, index: usize, state: S) {
        self.slots[index].0 = state;
    }

    fn replace(&mut self, index: usize, state: S, payload: u64) {
        self.slots[index] = (state, payload);
    }
}

fn dirty(seq_no: u64) -> Stamp {
    Stamp { dirty: true, seq_no }
}

fn clean(seq_no: u64) -> Stamp {
    Stamp { dirty: false, seq_no }
}

fn wide(dirty: bool, seq_no: u64, user_state: u64) -> WideStamp {
    WideStamp { dirty, seq_no, user_state }
}

/// Message 1 is being written; a receiver takes two looks at it to find it.
fn fresh(script: Vec<(usize, usize, Stamp, u64)>) -> Scripted<Stamp> {
    Scripted::new(vec![(clean(0), 0), (dirty(1), 0)], script)
}

#[test]
fn a_receiver_waits_until_the_message_is_committed() {
    let mut ring = fresh(vec![(7, 0, dirty(2), 0), (7, 1, clean(1), 10)]);
    let mut rx = spmc_broadcast::Receiver::new(&mut ring).unwrap();
    assert_eq!(ring.looks, 3);
    assert_eq!(rx.recv(&mut ring), (1, &10));
    assert_eq!(ring.looks, 9);
    assert_eq!(rx.try_recv(&mut ring), (2, None));
}

#[test]
fn a_receiver_tries_again_if_the_message_is_overwritten() {
    // Committed before look 4, overwritten while it is copied, committed again before look 8.
    let mut ring = fresh(vec![
        (4, 1, clean(1), 10),
        (5, 1, dirty(3), 29),
        (8, 1, clean(3), 30),
    ]);
    let mut rx = spmc_broadcast::Receiver::new(&mut ring).unwrap();
    assert_eq!(rx.recv(&mut ring), (3, &30));
    assert_eq!(ring.looks, 10);
}

#[test]
fn an_attempt_fails_if_the_message_is_overwritten() {
    let mut ring = fresh(vec![
        (4, 1, clean(1), 10),
        (6, 1, dirty(3), 29),
        (7, 1, clean(3), 30),
    ]);
    let mut rx = spmc_broadcast::Receiver::new(&mut ring).unwrap();
    assert_eq!(rx.try_recv(&mut ring), (3, None));
    assert_eq!(ring.looks, 6);
    assert_eq!(rx.try_recv(&mut ring), (3, Some(&30)));
    assert_eq!(ring.looks, 9);
}

#[test]
fn a_peek_is_not_confirmed_if_the_message_is_overwritten() {
    let mut ring = fresh(vec![(4, 1, clean(1), 10), (5, 1, clean(3), 30)]);
    let mut rx = spmc_broadcast::Receiver::new(&mut ring).unwrap();
    assert_eq!(rx.try_peek_unsafe(&mut ring), (1, Some(&10)));
    assert!(!rx.advance(&mut ring));
    assert_eq!(rx.peek_unsafe(&mut ring), (3, &30));
    assert!(rx.advance(&mut ring));
}

#[test]
fn a_sender_can_outrun_the_search_of_a_receiver() {
    // The head moves on to slot 0 after the search has passed it.
    let script = vec![(2, 0, dirty(2), 0), (2, 1, clean(1), 10)];
    let mut ring = fresh(script);
    assert!(spmc_broadcast::Receiver::<u64>::new(&mut ring).is_none());
}

#[test]
fn a_receiver_takes_the_number_that_it_finds_at_the_second_look() {
    let mut ring = fresh(vec![(3, 1, dirty(3), 0), (4, 1, clean(3), 30)]);
    let mut rx = spmc_broadcast::Receiver::new(&mut ring).unwrap();
    assert_eq!(rx.wait(&mut ring), 3);
    assert_eq!(rx.recv(&mut ring), (3, &30));
}

#[test]
fn a_receiver_of_a_fixed_ring_tries_again_too() {
    let mut ring = Scripted::new(
        vec![(dirty(1), 0), (clean(0), 0)],
        vec![
            (4, 0, clean(1), 10),
            (5, 0, dirty(3), 29),
            (8, 0, clean(3), 30),
        ],
    );
    let mut rx = ring_buffer::Receiver::<u64, 2>::new(&mut ring).unwrap();
    assert_eq!(ring.looks, 1);
    assert_eq!(rx.recv(&mut ring), (3, &30));
    assert_eq!(ring.looks, 10);

    let mut ring = Scripted::new(
        vec![(dirty(1), 0), (clean(0), 0)],
        vec![(2, 0, clean(1), 10), (4, 0, dirty(3), 29)],
    );
    let mut rx = ring_buffer::Receiver::<u64, 2>::new(&mut ring).unwrap();
    assert_eq!(rx.try_recv(&mut ring), (3, None));
    assert_eq!(ring.looks, 4);
    assert_eq!(rx.try_load_state(&mut ring), (true, 3));
    assert_eq!(ring.looks, 5);
}

#[test]
fn a_receiver_of_a_wide_ring_tries_again_too() {
    let mut ring = Scripted::new(
        vec![(wide(true, 1, 0), 0), (wide(false, 0, 0), 0)],
        vec![
            (3, 0, wide(false, 1, 5), 10),
            (5, 0, wide(true, 3, 0), 29),
            (8, 0, wide(false, 3, 6), 30),
        ],
    );
    let mut rx = user_broadcast::Receiver::<u64>::new(&mut ring).unwrap();
    assert_eq!(rx.recv(&mut ring), (3, 6, &30));

    let mut ring = Scripted::new(
        vec![(wide(true, 1, 0), 0), (wide(false, 0, 0), 0)],
        vec![(3, 0, wide(false, 1, 5), 10), (5, 0, wide(true, 3, 0), 29)],
    );
    let mut rx = user_broadcast::Receiver::<u64>::new(&mut ring).unwrap();
    assert_eq!(rx.try_recv(&mut ring), (3, 0, None));
    assert_eq!(ring.looks, 5);
    assert!(!rx.advance_checked(&mut ring));
    assert_eq!(ring.looks, 6);
}

#[test]
fn an_attempt_at_a_dirty_slot_is_one_look() {
    let mut ring = fresh(vec![]);
    let mut rx = spmc_broadcast::Receiver::<u64>::new(&mut ring).unwrap();
    assert_eq!(rx.try_recv(&mut ring), (1, None));
    assert_eq!(ring.looks, 4);
    assert_eq!(rx.try_peek_unsafe(&mut ring), (1, None));
    assert_eq!(ring.looks, 5);
    assert!(rx.advance(&mut ring));
    assert_eq!(ring.looks, 6);
}

#[test]
fn an_attempt_that_was_overtaken_leaves_the_receiver_at_the_number_found() {
    // Overwritten while it is copied, by a message that is committed at once.
    let mut ring = fresh(vec![(4, 1, clean(1), 10), (5, 1, clean(3), 30)]);
    let mut rx = spmc_broadcast::Receiver::new(&mut ring).unwrap();
    assert_eq!(rx.try_recv(&mut ring), (3, None));
    assert_eq!(ring.looks, 6);
    assert_eq!(rx.try_recv(&mut ring), (3, Some(&30)));
}
