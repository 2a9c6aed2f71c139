//! Access to the slots of a ring.
use crate::ring::{
    evolves, lemma_evolves_refl, lemma_evolves_trans, with_payload, with_state, Slot, Tag,
};
use vstd::prelude::*;

verus! {

/// One access through a handle that others may notice.
#[verifier::ext_equal]
pub enum Access<T, S> {
    /// The payload of slot `index` was lent out to be written. The ring was `slots` then. The
    /// borrower is done before the next access.
    Lend { index: int, slots: Seq<Slot<T, S>> },
    /// The state of a slot was stored. The ring was `slots` afterwards.
    Store { slots: Seq<Slot<T, S>> },
}

impl<T, S> Access<T, S> {
    /// The ring as it was at the access.
    pub open spec fn ring(self) -> Seq<Slot<T, S>> {
        match self {
            Access::Lend { slots, .. } => slots,
            Access::Store { slots } => slots,
        }
    }
}

/// One look through a handle at a slot.
#[verifier::ext_equal]
pub enum Look<T, S> {
    /// The state of slot `index` was loaded. The ring was `slots` then.
    Loaded { index: int, slots: Seq<Slot<T, S>> },
    /// The payload of slot `index` was copied, and `value` came out. The ring was `slots` when that
    /// was done.
    Copied { index: int, slots: Seq<Slot<T, S>>, value: T },
    /// The payload of slot `index` was lent out to be read, and `value` is what is read. The ring
    /// was `slots` at the look before.
    Lent { index: int, slots: Seq<Slot<T, S>>, value: T },
}

impl<T, S> Look<T, S> {
    /// The ring that was seen.
    pub open spec fn ring(self) -> Seq<Slot<T, S>> {
        match self {
            Look::Loaded { slots, .. } => slots,
            Look::Copied { slots, .. } => slots,
            Look::Lent { slots, .. } => slots,
        }
    }

    /// Whether this look loaded the state of slot `i`.
    pub open spec fn loads(self, i: int) -> bool {
        self matches Look::Loaded { index, .. } && index == i
    }

    /// Whether this look copied `copy` from slot `i`.
    pub open spec fn copies(self, i: int, copy: T) -> bool {
        self matches Look::Copied { index, value, .. } && index == i && value == copy
    }
}

/// What a handle knows of the ring behind it.
#[verifier::ext_equal]
pub struct RingModel<T, S> {
    /// The slots, as they were when the handle last looked.
    pub slots: Seq<Slot<T, S>>,
    /// Whether nothing but calls through this handle changes the ring.
    pub steady: bool,
    /// The slots whose message will be committed, or is.
    pub live: Set<int>,
    /// How often the ring may yet keep a reader of a live slot waiting.
    pub delay: nat,
    /// The accesses through this handle that wrote to the ring, or may have, one after the other:
    /// the order in which others see what was done.
    pub trail: Seq<Access<T, S>>,
    /// The looks at the ring through this handle, one after the other.
    pub looks: Seq<Look<T, S>>,
}

/// Whether `b` is `a` with more at the end.
pub open spec fn extends<L>(a: Seq<L>, b: Seq<L>) -> bool {
    &&& a.len() <= b.len()
    &&& forall|i: int| 0 <= i < a.len() ==> #[trigger] b[i] == a[i]
}

/// Whether what was read in place from slot `i` is good, as far as a ring that has evolved since
/// can tell: it is the payload of a committed message if the slot still has the same number.
pub open spec fn vouches<T, S: Tag>(m: RingModel<T, S>, i: int) -> bool {
    forall|k: int|
        #![trigger m.looks[k]]
        0 <= k < m.looks.len() ==> (m.looks[k] matches Look::Lent { index, slots, value } ==> {
            &&& index == i
            &&& evolves(slots, m.slots)
            &&& !slots[i].state.is_dirty()
            &&& slots[i].state.number() == m.slots[i].state.number()
        } ==> value == slots[i].payload)
}

/// Whether somebody waited for slot `at`: they loaded its state again and again for as long as the
/// slot was dirty, and stopped as soon as it was clean.
pub open spec fn waited<T, S: Tag>(
    before: Seq<Look<T, S>>,
    after: Seq<Look<T, S>>,
    at: int,
) -> bool {
    &&& extends(before, after)
    &&& before.len() < after.len()
    &&& forall|k: int|
        #![trigger after[k]]
        before.len() <= k < after.len() ==> {
            &&& after[k].loads(at)
            &&& after[k].ring()[at].state.is_dirty() <==> k < after.len() - 1
        }
}

/// Whether somebody made one attempt to receive from slot `at`, and whether it was a success: they
/// loaded its state. If the slot was dirty, that was all. If not, they copied the payload of the
/// message, from its slot `from`, and loaded the state of that slot. If the number was still the
/// same, the attempt was a success. If not, the slot was overwritten, and it was none.
pub open spec fn attempted<T, S: Tag>(
    m: RingModel<T, S>,
    m2: RingModel<T, S>,
    at: int,
    from: int,
    success: bool,
    held: T,
    held2: T,
) -> bool {
    let k = m.looks.len() as int;
    let first = m2.looks[k].ring()[at].state;
    &&& extends(m.looks, m2.looks)
    &&& m2.looks.len() > k
    &&& m2.looks[k].loads(at)
    &&& if first.is_dirty() {
        &&& m2.looks.len() == k + 1
        &&& m2.looks[k].ring() == m2.slots
        &&& !success
        &&& held2 == held
    } else {
        &&& m2.looks.len() == k + 3
        &&& m2.looks[k + 1].copies(from, held2)
        &&& m2.looks[k + 2] == (Look::Loaded { index: from, slots: m2.slots })
        &&& success == (m2.slots[from].state.number() == first.number())
    }
}

/// Whether the looks end with a copy of message `seq_no` from slot `at` that was checked: the slot
/// was clean, with that number, then the payload was copied, and then the slot had that number
/// still.
pub open spec fn copied<T, S: Tag>(m: RingModel<T, S>, at: int, seq_no: u64, copy: T) -> bool {
    let k = m.looks.len() - 3;
    &&& k >= 0
    &&& m.looks[k].loads(at)
    &&& !m.looks[k].ring()[at].state.is_dirty()
    &&& m.looks[k].ring()[at].state.number() == seq_no
    &&& m.looks[k + 1].copies(at, copy)
    &&& m.looks[k + 2] == (Look::Loaded { index: at, slots: m.slots })
    &&& m.slots[at].state.number() == seq_no
}

/// Whether the search for a slot that is being written stops at a slot: if it is dirty, and has a
/// number if that is asked for.
pub open spec fn stops<T, S: Tag>(slot: Slot<T, S>, numbered: bool) -> bool {
    slot.state.is_dirty() && (numbered ==> slot.state.number() != 0)
}

/// Whether somebody searched for a slot that is being written: they loaded the state of one slot
/// after the other, up to the first at which the search stops, or of all if it stops at none.
pub open spec fn searched<T, S: Tag>(
    m: RingModel<T, S>,
    m2: RingModel<T, S>,
    numbered: bool,
    found: Option<int>,
) -> bool {
    let k = m.looks.len() as int;
    let passed = match found {
        Some(i) => i,
        None => m.slots.len() as int,
    };
    &&& extends(m.looks, m2.looks)
    &&& m2.looks.len() >= k + passed
    &&& forall|j: int|
        #![trigger m2.looks[k + j]]
        0 <= j < passed ==> m2.looks[k + j].loads(j) && !stops(m2.looks[k + j].ring()[j], numbered)
    &&& found matches Some(i) ==> {
        &&& 0 <= i < m.slots.len()
        &&& m2.looks.len() > k + i
        &&& m2.looks[k + i].loads(i)
        &&& stops(m2.looks[k + i].ring()[i], numbered)
    }
}

/// Whether every message that is committed in a ring that nobody else changes is known to be so.
pub open spec fn settled<T, S: Tag>(m: RingModel<T, S>) -> bool {
    m.steady ==> forall|i: int|
        0 <= i < m.slots.len() && !(#[trigger] m.slots[i]).state.is_dirty() ==> m.live.contains(i)
}

/// What looking at a ring does to what a handle knows: the ring has evolved by then,
/// as the sender went on, and what was seen lies in between.
pub open spec fn looked<T, S: Tag>(a: RingModel<T, S>, b: RingModel<T, S>) -> bool {
    &&& evolves(a.slots, b.slots)
    &&& b.steady == a.steady
    &&& a.steady ==> b.slots == a.slots
    &&& a.live.subset_of(b.live)
    &&& b.delay <= a.delay
    &&& b.trail == a.trail
    &&& extends(a.looks, b.looks)
    &&& forall|k: int|
        #![trigger b.looks[k]]
        a.looks.len() <= k < b.looks.len() ==> {
            &&& evolves(a.slots, b.looks[k].ring())
            &&& evolves(b.looks[k].ring(), b.slots)
            &&& a.steady ==> b.looks[k].ring() == a.slots
        }
}

/// What a look at slot `i` does to what a handle knows. If the look was wasted, or if
/// the slot has changed, a reader that waits for the slot is one delay nearer to its
/// message.
pub open spec fn watched<T, S: Tag>(
    a: RingModel<T, S>,
    b: RingModel<T, S>,
    i: int,
    wasted: bool,
) -> bool {
    &&& looked(a, b)
    &&& a.live.contains(i) && (wasted || b.slots[i].state != a.slots[i].state) ==> b.delay
        < a.delay
}

/// A storage abstraction for the ring of a channel.
///
/// A `Buffer` is one handle on a ring. The ring may be private to the handle, or
/// shared with handles of other threads and processes, of which at most one, the
/// sender's, ever writes. What a reader is promised of a shared ring is that the
/// sender keeps to the protocol of [`crate::ring`] in between: every look at the
/// ring takes the handle from what it knew to a ring that has evolved from it. That the
/// senders of this library do so shows in the trail that they leave
/// ([`crate::laws::keeps_order`]).
///
/// Slots are addressed by index. The capacity is a power of two, and never less than
/// 2, wherever a sequence number is turned into an index by a mask.
pub trait Buffer<T, S: Tag>: Sized {
    /// What the handle knows of the ring. Code that is not verified leaves this, and the next, as
    /// they are.
    open spec fn view(&self) -> RingModel<T, S> {
        arbitrary()
    }

    /// What the handle keeps in order.
    open spec fn inv(&self) -> bool {
        true
    }

    /// The number of slots.
    fn capacity(&self) -> (n: usize)
        requires
            self.inv(),
        ensures
            n == self@.slots.len(),
            settled(self@),
    ;

    /// Loads the state of a slot, in one atomic step.
    fn load(&mut self, index: usize) -> (state: S)
        requires
            old(self).inv(),
            index < old(self)@.slots.len(),
        ensures
            final(self).inv(),
            watched(old(self)@, final(self)@, index as int, state.is_dirty()),
            state == final(self)@.slots[index as int].state,
            state.kept() == state,
            settled(final(self)@),
            final(self)@.looks == old(self)@.looks.push(
                Look::Loaded { index: index as int, slots: final(self)@.slots },
            ),
            vouches(final(self)@, index as int),
    ;

    /// Copies the payload of a slot into `copy`. The copy is a clone of the payload if the
    /// slot holds one committed message from beginning to end; if the slot is written
    /// meanwhile, the copy may be anything.
    fn copy_payload(&mut self, index: usize, copy: &mut T) where T: Clone
        requires
            old(self).inv(),
            index < old(self)@.slots.len(),
        ensures
            final(self).inv(),
            watched(old(self)@, final(self)@, index as int, false),
            ({
                let slot = old(self)@.slots[index as int];
                ||| old(self)@.steady
                ||| !slot.state.is_dirty() && final(self)@.slots[index as int].state.number()
                    == slot.state.number()
            }) ==> cloned(old(self)@.slots[index as int].payload, *final(copy)),
            final(self)@.looks == old(self)@.looks.push(
                Look::Copied {
                    index: index as int,
                    slots: final(self)@.slots,
                    value: *final(copy),
                },
            ),
    ;

    /// Lends out the payload of a slot in place. On a ring that others write, what is
    /// read through the reference is worth something only if the slot turns out not
    /// to have changed when its state is loaded afterwards.
    fn payload(&mut self, index: usize) -> (payload: &T)
        requires
            old(self).inv(),
            index < old(self)@.slots.len(),
        ensures
            final(self).inv(),
            watched(old(self)@, final(self)@, index as int, false),
            old(self)@.steady ==> *payload == old(self)@.slots[index as int].payload,
            final(self)@ == (RingModel {
                looks: old(self)@.looks.push(
                    Look::Lent {
                        index: index as int,
                        slots: old(self)@.slots,
                        value: *payload,
                    },
                ),
                ..old(self)@
            }),
    ;

    /// Lends out the payload of a slot to be written in place. For the sender alone.
    fn payload_mut(&mut self, index: usize) -> (payload: &mut T)
        requires
            old(self).inv(),
            index < old(self)@.slots.len(),
        ensures
            final(self).inv(),
            *payload == old(self)@.slots[index as int].payload,
            final(self)@.steady == old(self)@.steady,
            final(self)@.slots == with_payload(old(self)@.slots, index as int, *final(payload)),
            final(self)@.trail == old(self)@.trail.push(
                Access::Lend { index: index as int, slots: old(self)@.slots },
            ),
            final(self)@.looks == old(self)@.looks,
            settled(final(self)@),
    ;

    /// Stores the state of a slot, in one atomic step. For the sender alone.
    fn store(&mut self, index: usize, state: S)
        requires
            old(self).inv(),
            index < old(self)@.slots.len(),
        ensures
            final(self).inv(),
            final(self)@.steady == old(self)@.steady,
            final(self)@.slots == with_state(old(self)@.slots, index as int, state.kept()),
            final(self)@.trail == old(self)@.trail.push(
                Access::Store { slots: final(self)@.slots },
            ),
            final(self)@.looks == old(self)@.looks,
            settled(final(self)@),
    ;

    /// Replaces a slot, state and payload. For the sender alone.
    fn replace(&mut self, index: usize, state: S, payload: T)
        requires
            old(self).inv(),
            index < old(self)@.slots.len(),
        ensures
            final(self).inv(),
            final(self)@.steady == old(self)@.steady,
            final(self)@.slots == old(self)@.slots.update(
                index as int,
                Slot { state: state.kept(), payload },
            ),
            final(self)@.trail == old(self)@.trail.push(
                Access::Store { slots: final(self)@.slots },
            ),
            final(self)@.looks == old(self)@.looks,
            settled(final(self)@),
    ;
}

/// `Clone::clone_from` assigns a clone of `source` to `target`, and may reuse what `target` has
/// allocated for it. It is claimed to assign what `Clone::clone` may return.
#[verifier::external_body]
pub(crate) fn assign_clone<T: Clone>(target: &mut T, source: &T)
    ensures
        cloned(*source, *final(target)),
{
    target.clone_from(source)
}

/// What is known of a ring that only one handle has access to: the slots are what
/// they are, and a slot that is being written stays so until that handle commits it.
pub open spec fn private_ring<T, S: Tag>(
    slots: Seq<Slot<T, S>>,
    trail: Seq<Access<T, S>>,
    looks: Seq<Look<T, S>>,
) -> RingModel<T, S> {
    RingModel {
        slots,
        steady: true,
        live: Set::new(|i: int| 0 <= i < slots.len() && !slots[i].state.is_dirty()),
        delay: 0,
        trail,
        looks,
    }
}

/// Whether whatever was read in place is what was in the slot.
pub open spec fn faithful<T, S>(looks: Seq<Look<T, S>>) -> bool {
    forall|k: int|
        #![trigger looks[k]]
        0 <= k < looks.len() ==> (looks[k] matches Look::Lent { index, slots, value } ==> value
            == slots[index].payload)
}

/// Nothing changes without a look.
pub proof fn lemma_watched_refl<T, S: Tag>(a: RingModel<T, S>, i: int)
    ensures
        watched(a, a, i, false),
{
    lemma_evolves_refl(a.slots);
}

/// Looking at a ring that does not change makes no difference but to the looks.
pub proof fn lemma_watched_still<T, S: Tag>(a: RingModel<T, S>, look: Look<T, S>, i: int)
    requires
        look.ring() == a.slots,
    ensures
        watched(a, (RingModel { looks: a.looks.push(look), ..a }), i, false),
        !a.live.contains(i) ==> watched(
            a,
            (RingModel { looks: a.looks.push(look), ..a }),
            i,
            true,
        ),
{
    lemma_evolves_refl(a.slots);
}

/// Looks add up.
pub proof fn lemma_looked_trans<T, S: Tag>(
    a: RingModel<T, S>,
    b: RingModel<T, S>,
    c: RingModel<T, S>,
)
    requires
        looked(a, b),
        looked(b, c),
    ensures
        looked(a, c),
{
    lemma_evolves_trans(a.slots, b.slots, c.slots);
    assert forall|k: int| #![trigger c.looks[k]] a.looks.len() <= k < c.looks.len() implies {
        &&& evolves(a.slots, c.looks[k].ring())
        &&& evolves(c.looks[k].ring(), c.slots)
        &&& a.steady ==> c.looks[k].ring() == a.slots
    } by {
        let seen = c.looks[k].ring();
        if k < b.looks.len() {
            assert(c.looks[k] == b.looks[k]);
            lemma_evolves_trans(seen, b.slots, c.slots);
        } else {
            lemma_evolves_trans(a.slots, b.slots, seen);
        }
    }
}

/// Looks at one slot add up.
pub proof fn lemma_watched_trans<T, S: Tag>(
    a: RingModel<T, S>,
    b: RingModel<T, S>,
    c: RingModel<T, S>,
    i: int,
    first: bool,
    second: bool,
)
    requires
        watched(a, b, i, first),
        watched(b, c, i, second),
    ensures
        watched(a, c, i, first || second),
{
    lemma_looked_trans(a, b, c);
}

} // verus!
