//! The mathematical model of a broadcast ring.
//!
//! A ring is a sequence of slots. Each slot carries a state, from which a dirty
//! flag and a sequence number can be read, and a payload. One sender writes the
//! slots in turn, numbering its messages 1, 2, 3, ...; a slot is dirty while its
//! message is being written and clean once the message is committed.
//!
//! This module says what such a ring looks like between two steps of the sender
//! ([`laid`]), and how a ring may change while somebody else looks at it
//! ([`evolves`]).
use vstd::arithmetic::div_mod::{
    lemma_add_mod_noop, lemma_mod_bound, lemma_mod_equivalence, lemma_mod_is_zero, lemma_small_mod,
};
use vstd::prelude::*;

verus! {

/// What the protocol reads from the state of a slot.
pub trait Tag: Copy {
    /// Whether the slot is being written.
    spec fn is_dirty(self) -> bool;

    /// The sequence number of the message in the slot, 0 if there never was one.
    spec fn number(self) -> u64;

    /// The state that a slot holds after this one was stored in it.
    spec fn kept(self) -> Self;
}

/// One slot of a ring.
#[verifier::ext_equal]
pub struct Slot<T, S> {
    pub state: S,
    pub payload: T,
}

/// Two sequence numbers that fall on the same slot of a ring of `n` slots.
pub open spec fn congruent(a: int, b: int, n: int) -> bool {
    (a - b) % n == 0
}

/// The slot of message `seq` in a ring of `n` slots in which message `shift`
/// falls on slot 0.
pub open spec fn home(seq: int, shift: int, n: int) -> int {
    (seq - shift) % n
}

/// The greatest sequence number up to `hi` that falls on slot `i`.
pub open spec fn newest(i: int, hi: int, shift: int, n: int) -> int {
    hi - (hi - shift - i) % n
}

/// A ring between two steps of its sender: slot `i` holds the newest message up to
/// `hi` that falls on it, and the messages from `lo` on are being written.
///
/// `lo == hi` between two messages. `hi == lo + 1` while message `lo` is being
/// committed: the slot of the next message is already dirty, its own not yet clean.
pub open spec fn laid<T, S: Tag>(slots: Seq<Slot<T, S>>, lo: int, hi: int, shift: int) -> bool {
    &&& slots.len() >= 2
    &&& 1 <= lo <= hi <= lo + 1
    &&& forall|i: int|
        #![trigger slots[i]]
        0 <= i < slots.len() ==> {
            let m = newest(i, hi, shift, slots.len() as int);
            &&& slots[i].state.number() == (if m > 0 {
                m
            } else {
                0
            })
            &&& slots[i].state.is_dirty() == (m >= lo)
        }
}

/// A ring that a sender of the protocol may have left behind, between any two of
/// its steps.
pub open spec fn orderly<T, S: Tag>(slots: Seq<Slot<T, S>>) -> bool {
    exists|lo: int, hi: int, shift: int| laid(slots, lo, hi, shift)
}

/// How one slot of a ring of `n` slots may change under a reader: its number grows,
/// by multiples of `n` once there is one, and a committed message stays as it is
/// for as long as the number does.
pub open spec fn slot_evolves<T, S: Tag>(a: Slot<T, S>, b: Slot<T, S>, n: int) -> bool {
    &&& a.state.number() <= b.state.number()
    &&& a.state.number() != 0 ==> congruent(b.state.number() as int, a.state.number() as int, n)
    &&& a.state.number() == b.state.number() && !a.state.is_dirty() ==> b == a
}

/// How a ring may change under a reader, in any number of steps of its sender.
pub open spec fn evolves<T, S: Tag>(a: Seq<Slot<T, S>>, b: Seq<Slot<T, S>>) -> bool {
    &&& a.len() == b.len()
    &&& forall|i: int|
        #![trigger b[i]]
        0 <= i < a.len() ==> slot_evolves(a[i], b[i], a.len() as int)
    &&& orderly(a) ==> orderly(b)
}

/// Whether a slot is dirty and has a number.
pub open spec fn active<T, S: Tag>(slot: Slot<T, S>) -> bool {
    slot.state.is_dirty() && slot.state.number() != 0
}

/// Whether slot `i` is the first slot that is dirty and has a number.
pub open spec fn first_active<T, S: Tag>(slots: Seq<Slot<T, S>>, i: int) -> bool {
    &&& 0 <= i < slots.len()
    &&& active(slots[i])
    &&& forall|j: int| 0 <= j < i ==> !active(#[trigger] slots[j])
}

/// Whether there is a first slot that is dirty and has a number.
pub open spec fn has_active<T, S: Tag>(slots: Seq<Slot<T, S>>) -> bool {
    exists|i: int| #[trigger] first_active(slots, i)
}

/// Whether slot `i` is the first slot that is dirty.
pub open spec fn first_dirty<T, S: Tag>(slots: Seq<Slot<T, S>>, i: int) -> bool {
    &&& 0 <= i < slots.len()
    &&& slots[i].state.is_dirty()
    &&& forall|j: int| 0 <= j < i ==> !(#[trigger] slots[j]).state.is_dirty()
}

/// Whether there is a first slot that is dirty.
pub open spec fn has_dirty<T, S: Tag>(slots: Seq<Slot<T, S>>) -> bool {
    exists|i: int| #[trigger] first_dirty(slots, i)
}

// ---------------------------------------------------------------------------
// Arithmetic of slots and numbers
// ---------------------------------------------------------------------------

/// Congruence is an equivalence.
pub proof fn lemma_congruent(a: int, b: int, c: int, n: int)
    requires
        n > 0,
    ensures
        congruent(a, a, n),
        congruent(a, b, n) ==> congruent(b, a, n),
        congruent(a, b, n) && congruent(b, c, n) ==> congruent(a, c, n),
        congruent(a, b, n) <==> a % n == b % n,
{
    lemma_small_mod(0, n as nat);
    lemma_mod_equivalence(a, b, n);
    lemma_mod_equivalence(b, a, n);
    lemma_add_mod_noop(a - b, b - c, n);
}

/// Two congruent numbers less than `n` apart are equal.
pub proof fn lemma_congruent_near(a: int, b: int, n: int)
    requires
        n > 0,
        congruent(a, b, n),
        -n < a - b < n,
    ensures
        a == b,
{
    lemma_congruent(a, b, a, n);
    if a > b {
        lemma_mod_is_zero((a - b) as nat, n as nat);
    } else if b > a {
        lemma_mod_is_zero((b - a) as nat, n as nat);
    }
}

/// `newest` is what its name says: it falls on slot `i`, and within the last `n`
/// numbers up to `hi` no other does.
pub proof fn lemma_newest(i: int, hi: int, shift: int, n: int)
    requires
        n > 0,
        0 <= i < n,
    ensures
        hi - n < newest(i, hi, shift, n) <= hi,
        home(newest(i, hi, shift, n), shift, n) == i,
        forall|x: int|
            #![trigger home(x, shift, n)]
            hi - n < x <= hi && home(x, shift, n) == i ==> x == newest(i, hi, shift, n),
        forall|x: int|
            #![trigger home(x, shift, n)]
            x <= hi && home(x, shift, n) == i ==> x <= newest(i, hi, shift, n) && congruent(
                newest(i, hi, shift, n),
                x,
                n,
            ),
{
    let m = newest(i, hi, shift, n);
    lemma_mod_bound(hi - shift - i, n);
    // m - shift - i == (hi - shift - i) - (hi - shift - i) % n
    lemma_congruent(hi - shift - i, (hi - shift - i) % n, 0, n);
    lemma_mod_equivalence((hi - shift - i) % n, hi - shift - i, n);
    vstd::arithmetic::div_mod::lemma_mod_twice(hi - shift - i, n);
    assert(congruent(hi - shift - i, (hi - shift - i) % n, n));
    assert(congruent(m - shift, i, n));
    lemma_congruent(m - shift, i, 0, n);
    lemma_small_mod(i as nat, n as nat);
    assert forall|x: int| #![trigger home(x, shift, n)]
        x <= hi && home(x, shift, n) == i implies x <= m && congruent(m, x, n) && (hi - n < x ==> x
        == m) by {
        lemma_congruent(m - shift, x - shift, 0, n);
        assert((m - shift) - (x - shift) == m - x);
        if x > m {
            lemma_congruent_near(m, x, n);
        }
        if hi - n < x {
            lemma_congruent_near(m, x, n);
        }
    }
}

/// How `newest` moves when one more number comes in.
pub proof fn lemma_newest_next(i: int, hi: int, shift: int, n: int)
    requires
        n > 1,
        0 <= i < n,
    ensures
        0 <= home(hi, shift, n) < n,
        0 <= home(hi + 1, shift, n) < n,
        home(hi, shift, n) != home(hi + 1, shift, n),
        newest(home(hi, shift, n), hi, shift, n) == hi,
        newest(i, hi + 1, shift, n) == (if i == home(hi + 1, shift, n) {
            hi + 1
        } else {
            newest(i, hi, shift, n)
        }),
        i == home(hi + 1, shift, n) ==> newest(i, hi, shift, n) == hi + 1 - n,
{
    lemma_mod_bound(hi - shift, n);
    lemma_mod_bound(hi + 1 - shift, n);
    lemma_newest(i, hi, shift, n);
    lemma_newest(i, hi + 1, shift, n);
    lemma_newest(home(hi, shift, n), hi, shift, n);
    if home(hi, shift, n) == home(hi + 1, shift, n) {
        lemma_congruent(hi - shift, hi + 1 - shift, 0, n);
        assert((hi - shift) - (hi + 1 - shift) == hi - (hi + 1));
        lemma_congruent_near(hi, hi + 1, n);
    }
    let m = newest(i, hi + 1, shift, n);
    if i == home(hi + 1, shift, n) {
        assert(home(hi + 1, shift, n) == i);
        vstd::arithmetic::div_mod::lemma_mod_sub_multiples_vanish(hi + 1 - shift, n);
        assert(-n + (hi + 1 - shift) == (hi + 1 - n) - shift);
        assert(home(hi + 1 - n, shift, n) == i);
    } else {
        assert(home(m, shift, n) == i);
        assert(m != hi + 1);
    }
}

// ---------------------------------------------------------------------------
// The steps of the sender
// ---------------------------------------------------------------------------

/// The ring after slot `i` was given state `state`.
pub open spec fn with_state<T, S: Tag>(slots: Seq<Slot<T, S>>, i: int, state: S) -> Seq<
    Slot<T, S>,
> {
    slots.update(i, Slot { state, payload: slots[i].payload })
}

/// The ring after slot `i` was given payload `payload`.
pub open spec fn with_payload<T, S: Tag>(slots: Seq<Slot<T, S>>, i: int, payload: T) -> Seq<
    Slot<T, S>,
> {
    slots.update(i, Slot { state: slots[i].state, payload })
}

/// Marking the slot of the next message dirty, with its number, is a step of the
/// protocol.
pub proof fn lemma_mark<T, S: Tag>(slots: Seq<Slot<T, S>>, head: int, shift: int, state: S)
    requires
        laid(slots, head, head, shift),
        state.is_dirty(),
        state.number() == head + 1,
    ensures
        laid(
            with_state(slots, home(head + 1, shift, slots.len() as int), state),
            head,
            head + 1,
            shift,
        ),
        evolves(slots, with_state(slots, home(head + 1, shift, slots.len() as int), state)),
{
    let n = slots.len() as int;
    let at = home(head + 1, shift, n);
    let next = with_state(slots, at, state);
    lemma_newest_next(0, head, shift, n);
    assert forall|i: int| #![trigger next[i]] 0 <= i < n implies {
        let m = newest(i, head + 1, shift, n);
        &&& next[i].state.number() == (if m > 0 {
            m
        } else {
            0
        })
        &&& next[i].state.is_dirty() == (m >= head)
        &&& slot_evolves(slots[i], next[i], n)
    } by {
        lemma_newest_next(i, head, shift, n);
        lemma_newest(i, head, shift, n);
        lemma_congruent(slots[i].state.number() as int, slots[i].state.number() as int, 0, n);
        if i == at {
            vstd::arithmetic::div_mod::lemma_mod_self_0(n);
        }
    }
    assert(laid(next, head, head + 1, shift));
}

/// Clearing the dirty flag of the message being committed is a step of the protocol.
pub proof fn lemma_clear<T, S: Tag>(slots: Seq<Slot<T, S>>, head: int, shift: int, state: S)
    requires
        laid(slots, head, head + 1, shift),
        !state.is_dirty(),
        state.number() == head,
    ensures
        laid(
            with_state(slots, home(head, shift, slots.len() as int), state),
            head + 1,
            head + 1,
            shift,
        ),
        evolves(slots, with_state(slots, home(head, shift, slots.len() as int), state)),
{
    let n = slots.len() as int;
    let at = home(head, shift, n);
    let next = with_state(slots, at, state);
    lemma_newest_next(0, head, shift, n);
    assert forall|i: int| #![trigger next[i]] 0 <= i < n implies {
        let m = newest(i, head + 1, shift, n);
        &&& next[i].state.number() == (if m > 0 {
            m
        } else {
            0
        })
        &&& next[i].state.is_dirty() == (m >= head + 1)
        &&& slot_evolves(slots[i], next[i], n)
    } by {
        lemma_newest_next(i, head, shift, n);
        lemma_newest(i, head, shift, n);
        lemma_congruent(slots[i].state.number() as int, slots[i].state.number() as int, 0, n);
        if i != at && newest(i, head + 1, shift, n) == head {
            assert(home(head, shift, n) == at);
            lemma_newest(i, head + 1, shift, n);
        }
    }
    assert(laid(next, head + 1, head + 1, shift));
}

/// Writing the payload of the message being written is a step of the protocol.
pub proof fn lemma_fill<T, S: Tag>(
    slots: Seq<Slot<T, S>>,
    lo: int,
    hi: int,
    shift: int,
    payload: T,
)
    requires
        laid(slots, lo, hi, shift),
    ensures
        laid(with_payload(slots, home(lo, shift, slots.len() as int), payload), lo, hi, shift),
        evolves(slots, with_payload(slots, home(lo, shift, slots.len() as int), payload)),
{
    let n = slots.len() as int;
    let at = home(lo, shift, n);
    let next = with_payload(slots, at, payload);
    lemma_mod_bound(lo - shift, n);
    lemma_newest(at, hi, shift, n);
    assert(newest(at, hi, shift, n) == lo) by {
        assert(home(lo, shift, n) == at);
    }
    assert(slots[at].state.is_dirty());
    assert forall|i: int| #![trigger next[i]] 0 <= i < n implies {
        &&& next[i].state == slots[i].state
        &&& slot_evolves(slots[i], next[i], n)
    } by {
        lemma_congruent(slots[i].state.number() as int, slots[i].state.number() as int, 0, n);
    }
    assert(laid(next, lo, hi, shift)) by {
        assert forall|i: int| #![trigger next[i]] 0 <= i < next.len() implies next[i].state
            == slots[i].state by {}
    }
}

// ---------------------------------------------------------------------------
// What a reader may rely on
// ---------------------------------------------------------------------------

/// A ring that nobody touches evolves into itself.
pub proof fn lemma_evolves_refl<T, S: Tag>(a: Seq<Slot<T, S>>)
    ensures
        evolves(a, a),
{
    assert forall|i: int| #![trigger a[i]] 0 <= i < a.len() implies slot_evolves(
        a[i],
        a[i],
        a.len() as int,
    ) by {
        lemma_congruent(a[i].state.number() as int, a[i].state.number() as int, 0, a.len() as int);
    }
}

/// Changes add up.
pub proof fn lemma_evolves_trans<T, S: Tag>(
    a: Seq<Slot<T, S>>,
    b: Seq<Slot<T, S>>,
    c: Seq<Slot<T, S>>,
)
    requires
        evolves(a, b),
        evolves(b, c),
    ensures
        evolves(a, c),
{
    assert forall|i: int| #![trigger c[i]] 0 <= i < a.len() implies slot_evolves(
        a[i],
        c[i],
        a.len() as int,
    ) by {
        assert(slot_evolves(a[i], b[i], a.len() as int));
        assert(slot_evolves(b[i], c[i], a.len() as int));
        lemma_congruent(
            c[i].state.number() as int,
            b[i].state.number() as int,
            a[i].state.number() as int,
            a.len() as int,
        );
    }
}

/// A ring in which message `shift` falls on slot 0 keeps to that as it evolves.
pub proof fn lemma_laid_evolves<T, S: Tag>(
    a: Seq<Slot<T, S>>,
    b: Seq<Slot<T, S>>,
    lo: int,
    hi: int,
    shift: int,
)
    requires
        laid(a, lo, hi, shift),
        evolves(a, b),
    ensures
        exists|lo2: int, hi2: int| laid(b, lo2, hi2, shift),
{
    let n = a.len() as int;
    let j = home(lo, shift, n);
    lemma_mod_bound(lo - shift, n);
    lemma_newest(j, hi, shift, n);
    assert(newest(j, hi, shift, n) == lo);
    assert(slot_evolves(a[j], b[j], n));
    let number = b[j].state.number() as int;
    let (lo2, hi2, shift2) = choose|lo2: int, hi2: int, shift2: int| laid(b, lo2, hi2, shift2);
    assert(laid(b, lo2, hi2, shift2));
    lemma_newest(j, hi2, shift2, n);
    assert(home(number, shift2, n) == j);
    // The message in slot j pins down which message falls on slot 0.
    assert(congruent(number, lo, n));
    lemma_congruent(number - shift2, lo - shift, 0, n);
    lemma_congruent(number - shift2, number - lo, lo - shift, n);
    assert(congruent(number - lo, shift2 - shift, n)) by {
        assert((number - lo) - (shift2 - shift) == (number - shift2) - (lo - shift));
    }
    lemma_congruent(shift2 - shift, number - lo, 0, n);
    lemma_congruent(number - lo, 0, 0, n);
    assert(congruent(shift2 - shift, 0, n));
    assert forall|i: int| #![trigger b[i]] 0 <= i < n implies newest(i, hi2, shift, n) == newest(
        i,
        hi2,
        shift2,
        n,
    ) by {
        lemma_congruent(hi2 - shift - i, hi2 - shift2 - i, 0, n);
        assert((hi2 - shift - i) - (hi2 - shift2 - i) == (shift2 - shift) - 0);
    }
    assert(laid(b, lo2, hi2, shift));
}

/// Between two messages exactly one slot is dirty: that of the message being written.
pub proof fn lemma_head<T, S: Tag>(slots: Seq<Slot<T, S>>, head: int, shift: int)
    requires
        laid(slots, head, head, shift),
    ensures
        ({
            let at = home(head, shift, slots.len() as int);
            &&& 0 <= at < slots.len()
            &&& slots[at].state.number() == head
            &&& forall|i: int|
                0 <= i < slots.len() ==> ((#[trigger] slots[i]).state.is_dirty() <==> i == at)
        }),
{
    let n = slots.len() as int;
    lemma_newest_next(0, head, shift, n);
    assert forall|i: int| 0 <= i < n implies ((#[trigger] slots[i]).state.is_dirty() <==> i == home(
        head,
        shift,
        n,
    )) by {
        lemma_newest(i, head, shift, n);
    }
}

/// In an orderly ring the slot after a committed message holds the message that
/// follows it, or a later one that falls on the same slot.
pub proof fn lemma_follow<T, S: Tag>(slots: Seq<Slot<T, S>>, i: int)
    requires
        orderly(slots),
        0 <= i < slots.len(),
        !slots[i].state.is_dirty(),
        slots[i].state.number() > 0,
    ensures
        slots.len() >= 2,
        0 <= (i + 1) % (slots.len() as int) < slots.len(),
        slots[(i + 1) % (slots.len() as int)].state.number() >= slots[i].state.number() + 1,
        congruent(
            slots[(i + 1) % (slots.len() as int)].state.number() as int,
            slots[i].state.number() + 1,
            slots.len() as int,
        ),
{
    let n = slots.len() as int;
    let (lo, hi, shift) = choose|lo: int, hi: int, shift: int| laid(slots, lo, hi, shift);
    assert(laid(slots, lo, hi, shift));
    let s = slots[i].state.number() as int;
    let j = (i + 1) % n;
    lemma_mod_bound(i + 1, n);
    lemma_newest(i, hi, shift, n);
    lemma_newest(j, hi, shift, n);
    assert(s == newest(i, hi, shift, n));
    assert(home(s + 1, shift, n) == j) by {
        lemma_add_mod_noop(s - shift, 1, n);
        lemma_add_mod_noop(i, 1, n);
        lemma_small_mod(i as nat, n as nat);
        assert((s - shift) + 1 == s + 1 - shift);
    }
    assert(slots[j].state.number() == newest(j, hi, shift, n));
}

} // verus!
