//! The protocol between a sender and readers that look at the ring at any time.
//!
//! A sender changes the ring in single steps: it writes (part of) a payload, it marks a slot
//! dirty, it clears a dirty flag. Readers look in between. A run ([`is_run`]) is any sequence of
//! such steps, as seen by somebody who also keeps a log of what was committed. The laws below say
//! what every reader can rely on, at whatever moments it happens to look.
//!
//! Steps are taken to happen one after the other, as they do for atomic operations that order
//! the writes before a store before the reads after a load that sees it.
use crate::ring::{
    evolves, home, laid, lemma_clear, lemma_evolves_refl, lemma_evolves_trans, lemma_fill,
    lemma_mark, lemma_newest, lemma_newest_next, newest, slot_evolves, with_payload, with_state,
    Slot, Tag,
};
use vstd::arithmetic::div_mod::{lemma_mod_bound, lemma_mod_is_zero};
use vstd::prelude::*;

verus! {

/// A ring between two steps of its sender, with the log of what was committed so far.
#[verifier::ext_equal]
pub struct Moment<T, S> {
    pub slots: Seq<Slot<T, S>>,
    /// The message being written or committed.
    pub lo: int,
    /// The greatest number in the ring: `lo`, or `lo + 1` once the next slot is marked.
    pub hi: int,
    /// The number that falls on slot 0.
    pub shift: int,
    /// What was committed, by number.
    pub log: Map<int, Slot<T, S>>,
}

impl<T, S: Tag> Moment<T, S> {
    /// The slot of message `seq`.
    pub open spec fn at(self, seq: int) -> int {
        home(seq, self.shift, self.slots.len() as int)
    }

    /// The ring is laid out by the protocol, and every committed message in it is the one in
    /// the log.
    pub open spec fn valid(self) -> bool {
        &&& laid(self.slots, self.lo, self.hi, self.shift)
        &&& forall|i: int|
            #![trigger self.slots[i]]
            0 <= i < self.slots.len() && !self.slots[i].state.is_dirty()
                && self.slots[i].state.number() > 0 ==> {
                &&& self.log.contains_key(self.slots[i].state.number() as int)
                &&& self.log[self.slots[i].state.number() as int] == self.slots[i]
            }
        &&& forall|seq: int| #[trigger] self.log.contains_key(seq) ==> seq < self.lo
    }

    /// The moment after the payload of the message being written was changed.
    pub open spec fn filled(self, payload: T) -> Moment<T, S> {
        Moment { slots: with_payload(self.slots, self.at(self.lo), payload), ..self }
    }

    /// The moment after the slot of the next message was marked dirty.
    pub open spec fn marked(self, state: S) -> Moment<T, S> {
        Moment {
            slots: with_state(self.slots, self.at(self.lo + 1), state),
            hi: self.lo + 1,
            ..self
        }
    }

    /// The moment after the message being written was committed.
    pub open spec fn cleared(self, state: S) -> Moment<T, S> {
        Moment {
            slots: with_state(self.slots, self.at(self.lo), state),
            lo: self.lo + 1,
            log: self.log.insert(
                self.lo,
                Slot { state, payload: self.slots[self.at(self.lo)].payload },
            ),
            ..self
        }
    }
}

/// What a sender does in one step.
pub enum Step<T, S> {
    /// Writes the payload of the message being written.
    Fill { payload: T },
    /// Marks the slot of the next message dirty.
    Mark { state: S },
    /// Clears the dirty flag of the message being written.
    Clear { state: S },
}

/// Whether a sender may take `step` from moment `a`, and come to moment `b` by it.
pub open spec fn takes<T, S: Tag>(a: Moment<T, S>, step: Step<T, S>, b: Moment<T, S>) -> bool {
    match step {
        Step::Fill { payload } => b == a.filled(payload),
        Step::Mark { state } => {
            &&& a.hi == a.lo
            &&& state.is_dirty()
            &&& state.number() == a.lo + 1
            &&& b == a.marked(state)
        },
        Step::Clear { state } => {
            &&& a.hi == a.lo + 1
            &&& !state.is_dirty()
            &&& state.number() == a.lo
            &&& b == a.cleared(state)
        },
    }
}

/// Whether some step leads from `a` to `b`.
pub open spec fn leads_to<T, S: Tag>(a: Moment<T, S>, b: Moment<T, S>) -> bool {
    exists|step: Step<T, S>| #[trigger] takes(a, step, b)
}

/// A run of a sender: moments of which each leads to the next.
pub open spec fn is_run<T, S: Tag>(run: Seq<Moment<T, S>>) -> bool {
    &&& run.len() > 0
    &&& run[0].valid()
    &&& forall|t: int| #![trigger run[t]] 0 <= t < run.len() - 1 ==> leads_to(run[t], run[t + 1])
}

/// Every step of a sender keeps the ring valid and lets it evolve, and takes nothing from the log.
pub proof fn law_step<T, S: Tag>(a: Moment<T, S>, b: Moment<T, S>)
    requires
        a.valid(),
        leads_to(a, b),
    ensures
        b.valid(),
        evolves(a.slots, b.slots),
        a.log.submap_of(b.log),
        b.shift == a.shift,
        a.lo <= b.lo,
{
    let n = a.slots.len() as int;
    let step = choose|step: Step<T, S>| #[trigger] takes(a, step, b);
    lemma_newest_next(0, a.lo, a.shift, n);
    match step {
        Step::Fill { payload } => {
            lemma_fill(a.slots, a.lo, a.hi, a.shift, payload);
            lemma_newest(a.at(a.lo), a.hi, a.shift, n);
            assert(newest(a.at(a.lo), a.hi, a.shift, n) == a.lo);
            assert(a.slots[a.at(a.lo)].state.is_dirty());
        },
        Step::Mark { state } => {
            lemma_mark(a.slots, a.lo, a.shift, state);
        },
        Step::Clear { state } => {
            lemma_clear(a.slots, a.lo, a.shift, state);
            assert forall|i: int|
                #![trigger b.slots[i]]
                0 <= i < b.slots.len() && !b.slots[i].state.is_dirty()
                    && b.slots[i].state.number() > 0 implies {
                &&& b.log.contains_key(b.slots[i].state.number() as int)
                &&& b.log[b.slots[i].state.number() as int] == b.slots[i]
            } by {
                if i != a.at(a.lo) {
                    assert(b.slots[i] == a.slots[i]);
                    assert(a.log.contains_key(a.slots[i].state.number() as int));
                }
            }
            assert(a.log.submap_of(b.log));
        },
    }
}

/// Over any stretch of a run the ring evolves, and nothing leaves the log.
pub proof fn law_run<T, S: Tag>(run: Seq<Moment<T, S>>, s: int, t: int)
    requires
        is_run(run),
        0 <= s <= t < run.len(),
    ensures
        run[s].valid(),
        run[t].valid(),
        evolves(run[s].slots, run[t].slots),
        run[s].log.submap_of(run[t].log),
        run[t].shift == run[s].shift,
        run[s].lo <= run[t].lo,
    decreases t,
{
    if t == 0 {
        lemma_evolves_refl(run[0].slots);
    } else {
        let u = t - 1;
        law_run(run, if s == t { u } else { s }, u);
        assert(leads_to(run[u], run[u + 1]));
        law_step(run[u], run[t]);
        if s == t {
            lemma_evolves_refl(run[t].slots);
        } else {
            lemma_evolves_trans(run[s].slots, run[u].slots, run[t].slots);
        }
    }
}

/// At every moment at least one slot is dirty: that of the message being written. A dirty slot
/// always has a number.
pub proof fn law_some_slot_is_dirty<T, S: Tag>(m: Moment<T, S>)
    requires
        m.valid(),
    ensures
        0 <= m.at(m.lo) < m.slots.len(),
        m.slots[m.at(m.lo)].state.is_dirty(),
        m.slots[m.at(m.lo)].state.number() == m.lo,
        forall|i: int|
            0 <= i < m.slots.len() && (#[trigger] m.slots[i]).state.is_dirty()
                ==> m.slots[i].state.number() > 0,
{
    let n = m.slots.len() as int;
    lemma_mod_bound(m.lo - m.shift, n);
    lemma_newest(m.at(m.lo), m.hi, m.shift, n);
}

/// Between two messages exactly one slot is dirty.
pub proof fn law_one_slot_is_dirty<T, S: Tag>(m: Moment<T, S>, i: int)
    requires
        m.valid(),
        m.hi == m.lo,
        0 <= i < m.slots.len(),
    ensures
        m.slots[i].state.is_dirty() <==> i == m.at(m.lo),
{
    let n = m.slots.len() as int;
    lemma_mod_bound(m.lo - m.shift, n);
    lemma_newest(i, m.hi, m.shift, n);
    lemma_newest(m.at(m.lo), m.hi, m.shift, n);
}

/// If a reader finds a slot clean, and later finds the same number in it, then the slot was what
/// it is at every moment in between: all that was read from it in the meantime is the message
/// that was committed with that number, and no part of another.
pub proof fn law_unchanged_number_means_valid_read<T, S: Tag>(
    run: Seq<Moment<T, S>>,
    first: int,
    during: int,
    last: int,
    i: int,
)
    requires
        is_run(run),
        0 <= first <= during <= last < run.len(),
        0 <= i < run[first].slots.len(),
        !run[first].slots[i].state.is_dirty(),
        run[first].slots[i].state.number() > 0,
        run[last].slots[i].state.number() == run[first].slots[i].state.number(),
    ensures
        run[during].slots[i] == run[first].slots[i],
        run[last].slots[i] == run[first].slots[i],
        run[during].log.contains_key(run[first].slots[i].state.number() as int),
        run[last].log[run[first].slots[i].state.number() as int] == run[first].slots[i],
{
    let n = run[first].slots.len() as int;
    law_run(run, first, during);
    law_run(run, during, last);
    law_run(run, first, last);
    assert(slot_evolves(run[first].slots[i], run[during].slots[i], n));
    assert(slot_evolves(run[during].slots[i], run[last].slots[i], n));
    assert(run[first].log.contains_key(run[first].slots[i].state.number() as int));
}

/// If a reader finds another number in a slot than before, then the slot was overwritten, by a
/// message that came a whole round of the ring later, or more.
pub proof fn law_changed_number_means_overwritten<T, S: Tag>(
    run: Seq<Moment<T, S>>,
    first: int,
    last: int,
    i: int,
)
    requires
        is_run(run),
        0 <= first <= last < run.len(),
        0 <= i < run[first].slots.len(),
        run[first].slots[i].state.number() > 0,
        run[last].slots[i].state.number() != run[first].slots[i].state.number(),
    ensures
        run[last].slots[i].state.number() >= run[first].slots[i].state.number()
            + run[first].slots.len(),
        run[last].lo > run[first].slots[i].state.number(),
{
    let n = run[first].slots.len() as int;
    let a = run[first].slots[i].state.number() as int;
    let b = run[last].slots[i].state.number() as int;
    law_run(run, first, last);
    assert(slot_evolves(run[first].slots[i], run[last].slots[i], n));
    lemma_mod_is_zero((b - a) as nat, n as nat);
    lemma_newest(i, run[last].hi, run[last].shift, n);
}

/// A ring of `n` slots always holds the last `n - 1` messages that were committed, and the
/// last `n - 2` while the next one is being committed.
pub proof fn law_recent_messages_are_there<T, S: Tag>(m: Moment<T, S>, seq: int)
    requires
        m.valid(),
        1 <= seq < m.lo,
        seq > m.hi - m.slots.len(),
    ensures
        0 <= m.at(seq) < m.slots.len(),
        !m.slots[m.at(seq)].state.is_dirty(),
        m.slots[m.at(seq)].state.number() == seq,
        m.log.contains_key(seq),
        m.slots[m.at(seq)] == m.log[seq],
{
    let n = m.slots.len() as int;
    lemma_mod_bound(seq - m.shift, n);
    lemma_newest(m.at(seq), m.hi, m.shift, n);
    assert(newest(m.at(seq), m.hi, m.shift, n) == seq);
}

/// A message that is a whole round behind is gone, and its slot tells so: it holds a greater
/// number, by a multiple of the number of slots.
pub proof fn law_old_messages_are_overwritten<T, S: Tag>(m: Moment<T, S>, seq: int)
    requires
        m.valid(),
        1 <= seq <= m.hi - m.slots.len(),
    ensures
        0 <= m.at(seq) < m.slots.len(),
        m.slots[m.at(seq)].state.number() > seq,
        (m.slots[m.at(seq)].state.number() - seq) % (m.slots.len() as int) == 0,
{
    let n = m.slots.len() as int;
    lemma_mod_bound(seq - m.shift, n);
    lemma_newest(m.at(seq), m.hi, m.shift, n);
    assert(home(seq, m.shift, n) == m.at(seq));
}

/// A message that is yet to come has left no trace: its slot holds a smaller number, or none.
pub proof fn law_future_messages_are_not_there<T, S: Tag>(m: Moment<T, S>, seq: int)
    requires
        m.valid(),
        seq > m.hi,
    ensures
        0 <= m.at(seq) < m.slots.len(),
        m.slots[m.at(seq)].state.number() < seq,
{
    let n = m.slots.len() as int;
    lemma_mod_bound(seq - m.shift, n);
    lemma_newest(m.at(seq), m.hi, m.shift, n);
}

} // verus!
