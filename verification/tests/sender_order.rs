use hft_channel::buffer::Buffer;
use hft_channel::ring::Tag;
use hft_channel::state::Stamp;
use hft_channel::wide_state::WideStamp;
use hft_channel::{ring_buffer, spmc_broadcast, user_broadcast};

/// What a sender did to the ring, and the ring as it was then.
#[derive(Debug, PartialEq)]
enum Deed<S> {
    Lent(usize, Vec<(S, u64)>),
    Stored(Vec<(S, u64)>),
}

/// A ring that keeps a record of what is done to it.
struct Recorder<S> {
    slots: Vec<(S, u64)>,
    deeds: Vec<Deed<S>>,
}

impl<S: Tag> Recorder<S> {
    fn new(len: usize, empty: S) -> Self {
        Recorder { slots: vec![(empty, 0); len], deeds: vec![] }
    }

    fn deeds(&mut self) -> Vec<Deed<S>> {
        std::mem::take(&mut self.deeds)
    }
}

impl<S: Tag> Buffer<u64, S> for Recorder<S> {
    fn capacity(&self) -> usize {
        self.slots.len()
    }

    fn load(&mut self, index: usize) -> S {
        self.slots[index].0
    }

    fn copy_payload(&mut self, index: usize, copy: &mut u64) {
        *copy = self.slots[index].1;
    }

    fn payload(&mut self, index: usize) -> &u64 {
        &self.slots[index].1
    }

    fn payload_mut(&mut self, index: usize) -> &mut u64 {
        self.deeds.push(Deed::Lent(index, self.slots.clone()));
        &mut self.slots[index].1
    }

    fn store(&mut self, index: usize, state: S) {
        self.slots[index].0 = state;
        self.deeds.push(Deed::Stored(self.slots.clone()));
    }

    fn replace(&mut self, index: usize, state: S, payload: u64) {
        self.slots[index] = (state, payload);
        self.deeds.push(Deed::Stored(self.slots.clone()));
    }
}

fn dirty(seq_no: u64) -> Stamp {
    Stamp { dirty: true, seq_no }
}

fn clean(seq_no: u64) -> Stamp {
    Stamp { dirty: false, seq_no }
}

fn wide(dirty: bool, seq_no: u64, user_state: u64) -> WideStamp {
    WideStamp { dirty, seq_no, user_state }
}

fn channel() -> (spmc_broadcast::Sender, Recorder<Stamp>) {
    let mut ring = Recorder::new(4, clean(0));
    let tx = spmc_broadcast::Sender::with_init(&mut ring);
    (tx, ring)
}

#[test]
fn a_commit_marks_the_next_slot_before_it_clears_the_flag() {
    let (mut tx, mut ring) = channel();
    ring.deeds();
    tx.commit(&mut ring);
    assert_eq!(
        ring.deeds(),
        vec![
            Deed::Stored(vec![(clean(0), 0), (dirty(1), 0), (dirty(2), 0), (clean(0), 0)]),
            Deed::Stored(vec![(clean(0), 0), (clean(1), 0), (dirty(2), 0), (clean(0), 0)]),
        ]
    );
}

#[test]
fn a_message_is_written_before_it_is_committed() {
    let (mut tx, mut ring) = channel();
    ring.deeds();
    let expected = vec![
        Deed::Lent(1, vec![(clean(0), 0), (dirty(1), 0), (clean(0), 0), (clean(0), 0)]),
        Deed::Stored(vec![(clean(0), 0), (dirty(1), 11), (dirty(2), 0), (clean(0), 0)]),
        Deed::Stored(vec![(clean(0), 0), (clean(1), 11), (dirty(2), 0), (clean(0), 0)]),
    ];
    tx.send(&mut ring, 11);
    assert_eq!(ring.deeds(), expected);

    let (mut tx, mut ring) = channel();
    ring.deeds();
    tx.send_from(&mut ring, &11);
    assert_eq!(ring.deeds(), expected);

    let (mut tx, mut ring) = channel();
    ring.deeds();
    *tx.reserve(&mut ring).1 = 11;
    tx.commit(&mut ring);
    assert_eq!(ring.deeds(), expected);
}

#[test]
fn some_slot_is_dirty_whatever_the_sender_does() {
    let (mut tx, mut ring) = channel();
    ring.deeds();
    for i in 1..=9 {
        tx.send(&mut ring, 10 * i);
    }
    let deeds = ring.deeds();
    assert_eq!(deeds.len(), 27);
    for deed in &deeds {
        let slots = match deed {
            Deed::Lent(index, slots) => {
                assert!(slots[*index].0.dirty);
                slots
            }
            Deed::Stored(slots) => slots,
        };
        assert!(slots.iter().any(|slot| slot.0.dirty));
        for slot in slots.iter().filter(|slot| !slot.0.dirty) {
            assert_eq!(slot.1, 10 * slot.0.seq_no);
        }
    }
}

#[test]
fn a_channel_is_initialized_slot_by_slot() {
    let mut ring = Recorder::new(2, clean(0));
    ring.slots = vec![(clean(8), 80), (dirty(9), 90)];
    spmc_broadcast::Sender::with_init(&mut ring);
    assert_eq!(
        ring.deeds(),
        vec![
            Deed::Stored(vec![(clean(0), 0), (dirty(9), 90)]),
            Deed::Stored(vec![(clean(0), 0), (clean(0), 0)]),
            Deed::Stored(vec![(clean(0), 0), (dirty(1), 0)]),
        ]
    );
}

#[test]
fn a_sender_that_goes_on_leaves_the_ring_alone() {
    let mut ring = Recorder::new(2, clean(0));
    ring.slots = vec![(clean(8), 80), (dirty(9), 90)];
    spmc_broadcast::Sender::new(&mut ring);
    ring_buffer::Sender::<2>::new(&mut ring);
    assert_eq!(ring.deeds(), vec![]);
}

#[test]
fn a_fixed_ring_is_marked_then_written_then_cleared() {
    let mut ring = Recorder::new(2, clean(0));
    let mut tx = ring_buffer::Sender::<2>::new(&mut ring);
    assert_eq!(
        ring.deeds(),
        vec![
            Deed::Stored(vec![(dirty(1), 0), (clean(0), 0)]),
            Deed::Stored(vec![(dirty(1), 0), (clean(0), 0)]),
        ]
    );
    tx.send(&mut ring, &11);
    assert_eq!(
        ring.deeds(),
        vec![
            Deed::Stored(vec![(dirty(1), 0), (dirty(2), 0)]),
            Deed::Lent(0, vec![(dirty(1), 0), (dirty(2), 0)]),
            Deed::Stored(vec![(clean(1), 11), (dirty(2), 0)]),
        ]
    );
}

#[test]
fn a_wide_ring_is_marked_then_written_then_cleared() {
    let mut ring = Recorder::new(user_broadcast::BUFFER_LEN, wide(false, 0, 0));
    let mut tx = user_broadcast::Sender::with_init(&mut ring);
    ring.deeds();
    let mut slots = ring.slots.clone();
    tx.send(&mut ring, 7, &11);
    slots[1].0 = wide(true, 2, 0);
    let marked = slots.clone();
    slots[0] = (wide(false, 1, 7), 11);
    assert_eq!(
        ring.deeds(),
        vec![
            Deed::Stored(marked.clone()),
            Deed::Lent(0, marked),
            Deed::Stored(slots),
        ]
    );
}
