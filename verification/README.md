# SPMC broadcast channel

A single-producer / multi-consumer broadcast channel for low-latency systems, verified with
[Verus](https://github.com/verus-lang/verus).

One sender writes numbered messages into the slots of a ring and never waits for anybody. Any number
of receivers read them, each at its own pace, by spinning on the state of the slot that they expect
a message in. A receiver that falls more than a round behind misses messages, and sees it by a gap
in the numbers.

```text
state of a slot:  [ dirty (1 bit, MSB) | seq_no (63 bits) ]
```

```rust
use hft_channel::spmc_broadcast::local_channel;

let (mut tx, mut rx, mut ring) = local_channel::<u64>(512);

let (_, payload) = tx.reserve(&mut ring);
*payload = 42;
tx.commit(&mut ring);

let (seq_no, payload) = rx.recv(&mut ring);
```

## What is proved

* What every operation does to the ring and to the handle, and what it returns: exactly on a ring
  that only the caller changes. On a ring that a sender changes meanwhile it is what follows from
  the looks that the operation takes at the ring, which are part of its contract.
* In which order a sender writes to the ring: every store of a state, and every time that a payload
  is lent out to be written, is part of its contract. A payload is written while its slot is dirty,
  and the next slot is marked before the flag of this one is cleared.
* So at least one slot is dirty at all times, and exactly one between two messages.
* A read is good if the number in the slot is the same afterwards, and the slot was overwritten if it
  is not. That goes for copies and for what is read in place. What is read in place of a slot that
  was overwritten is worth nothing, and nothing is said of it.
* A receiver less than a round behind misses nothing; one that is overtaken is reported a greater
  number, by a multiple of the capacity.
* A receiver that waits for a message that will be committed gets one.

`src/protocol.rs` and `src/laws.rs` hold the laws that span several operations.

## Layout

* `src/` is the verified library. What it takes on trust is marked there: `CachePadded` of
  `crossbeam-utils` (`padding.rs`), `AtomicU64` (`state.rs`), `AtomicU128` of `portable-atomic`
  (`wide_state.rs`), `spin_loop` (`spmc_broadcast.rs`) and the builders of `core::fmt` (`show.rs`).
* `tests/` are its tests.
* `app/` is ordinary Rust around it: rings in memory that threads and processes share, the mapping of
  that memory, clocks, and a benchmark (`writer|reader|both`).

A ring in shared memory is a [`Buffer`](src/buffer.rs) of `app/`. The proofs hold for it as far as it
keeps to the contract of that trait: single loads and stores of a state are atomic, and only the
sender writes.
