//! Single-producer / multi-consumer broadcast over a ring of stamped slots.
//!
//! One sender writes numbered messages into the slots of a ring, in turn, and never waits. Any
//! number of receivers read them, each at its own pace. Every slot has a state word, which holds
//! a dirty flag and the number of the message in the slot:
//!
//! ```text
//! [ dirty (1 bit, MSB) | seq_no (63 bits) ]
//! ```
//!
//! * At least one slot is dirty at all times: the one that is being written.
//! * A clean slot is readable, and stable until the sender comes round again.
//! * A receiver that finds another number in a slot than before knows that the slot was
//!   overwritten. One that finds the same number knows that what it read in between is good.
//!
//! To publish a message, the sender writes the payload into the dirty slot and marks the next slot
//! dirty, and only after both it clears the flag of this one.
//!
//! # Modules
//!
//! * [`spmc_broadcast`] is the channel, on any [`buffer::Buffer`]; [`heap_buffer`] has the one of
//!   an in-process channel.
//! * [`ring_buffer`] is the same protocol on a ring of a fixed length that is walked slot by slot;
//!   [`user_broadcast`], with [`wide_state`] and [`wide_buffer`], adds a word of the user's to the
//!   state of every slot.
//! * [`ring`] is the mathematical model of a ring. [`protocol`] says what readers can rely on that
//!   look at any time, and [`laws`] what the operations of the channels add up to.
//! * [`channel_laws`], [`fixed_ring_laws`] and [`user_ring_laws`] are laws of the calls of the
//!   three channels, [`storage_laws`] those of slots and rings, and [`benchmark_laws`] those of
//!   the rest.
//! * [`state`], [`capacity`] and [`padding`] are what slots are made of; [`show`] is for printing
//!   them.
//! * [`shm`] holds the decisions about regions of shared memory, [`clock`], [`trials`] and
//!   [`report`] those of a benchmark.
pub mod benchmark_laws;
pub mod buffer;
pub mod capacity;
pub mod channel_laws;
pub mod clock;
pub mod fixed_ring_laws;
pub mod heap_buffer;
pub mod laws;
pub mod padding;
pub mod protocol;
pub mod report;
pub mod ring;
pub mod ring_buffer;
pub mod shm;
pub mod show;
pub mod spmc_broadcast;
pub mod state;
pub mod storage_laws;
pub mod trials;
pub mod user_broadcast;
pub mod user_ring_laws;
pub mod wide_buffer;
pub mod wide_state;
pub use trials::Trials;
