//! Laws of the channels: what their operations add up to.
use crate::buffer::{
    lemma_looked_trans, looked, settled, vouches, watched, Access, Look, RingModel,
};
use crate::capacity::following;
use crate::protocol::{is_run, law_run, leads_to, takes, Moment, Step};
use crate::ring::{
    congruent, evolves, first_active, home, laid, lemma_clear, lemma_congruent,
    lemma_congruent_near, lemma_evolves_refl, lemma_evolves_trans, lemma_fill, lemma_follow,
    lemma_mark, lemma_newest, lemma_newest_next, newest, orderly, slot_evolves, with_payload, Slot,
    Tag,
};
use crate::ring_buffer;
use crate::spmc_broadcast::{
    advances, commit_trail, committed, initial, lemma_initial, lemma_published,
    lemma_tracks_evolves, lemma_tracks_slot, marked, peeks, published, receives, reception,
    send_trail, sends, slot_of, tracks, tries, Receiver, Sender,
};
use crate::state::{law_stamp_round_trip, Stamp, DIRTY_MASK};
use crate::user_broadcast;
use crate::wide_state::WideStamp;
use vstd::arithmetic::div_mod::{lemma_mod_bound, lemma_small_mod};
use vstd::prelude::*;

verus! {

// ---------------------------------------------------------------------------
// Operations are runs of the protocol
// ---------------------------------------------------------------------------

/// A ring in which nothing was sent yet is a moment of the protocol, at which nothing was logged.
pub proof fn law_fresh_ring<T: Default>(slots: Seq<Slot<T, Stamp>>)
    requires
        slots.len() >= 2,
        initial(slots),
    ensures
        (Moment { slots, lo: 1, hi: 1, shift: 0, log: Map::empty() }).valid(),
{
    lemma_initial(slots);
}

/// So is a ring of a fixed length.
pub proof fn law_fresh_fixed_ring<T: Default>(slots: Seq<Slot<T, Stamp>>)
    requires
        slots.len() >= 2,
        ring_buffer::initial(slots, slots.len() as int),
    ensures
        (Moment { slots, lo: 1, hi: 1, shift: 1, log: Map::empty() }).valid(),
{
    ring_buffer::lemma_initial(slots);
}

/// So is a ring for messages with a word of the user's.
pub proof fn law_fresh_user_ring<T: Default>(slots: Seq<Slot<T, WideStamp>>)
    requires
        slots.len() >= 2,
        user_broadcast::initial(slots, slots.len() as int),
    ensures
        (Moment { slots, lo: 1, hi: 1, shift: 1, log: Map::empty() }).valid(),
{
    user_broadcast::lemma_initial(slots);
}

/// Writing into the reserved slot is a step of the protocol.
pub proof fn law_reserve_is_a_step<T>(m: Moment<T, Stamp>, payload: T)
    requires
        m.valid(),
        m.shift == 0,
        m.lo < DIRTY_MASK,
    ensures
        leads_to(
            m,
            Moment {
                slots: with_payload(m.slots, slot_of(m.slots, m.lo as u64), payload),
                ..m
            },
        ),
{
    assert(takes(m, Step::Fill { payload }, m.filled(payload)));
}

/// Committing is a run of the protocol: the next slot is marked dirty, then the flag of this one is
/// cleared. It logs the payload that is in the slot under the number of the message. The rings of
/// the run are the ones that the sender leaves in its trail.
pub proof fn law_commit_is_a_run<T>(m: Moment<T, Stamp>) -> (run: Seq<Moment<T, Stamp>>)
    requires
        m.valid(),
        m.hi == m.lo,
        m.shift == 0,
        m.lo + 1 < DIRTY_MASK,
    ensures
        is_run(run),
        run.first() == m,
        run.last().slots == committed(m.slots, m.lo as u64),
        run.len() == 3,
        run[1].slots == commit_trail(m.slots, m.lo as u64)[0].ring(),
        run[2].slots == commit_trail(m.slots, m.lo as u64)[1].ring(),
        run.last().lo == m.lo + 1,
        run.last().hi == m.lo + 1,
        run.last().log == m.log.insert(
            m.lo,
            Slot {
                state: Stamp { dirty: false, seq_no: m.lo as u64 },
                payload: m.slots[slot_of(m.slots, m.lo as u64)].payload,
            },
        ),
{
    let s = m.lo as u64;
    let dirty = Stamp { dirty: true, seq_no: (s + 1) as u64 };
    let clean = Stamp { dirty: false, seq_no: s };
    let a = m.marked(dirty);
    let b = a.cleared(clean);
    lemma_newest_next(0, m.lo, 0, m.slots.len() as int);
    assert(takes(m, Step::Mark { state: dirty }, a));
    assert(takes(a, Step::Clear { state: clean }, b));
    let run = seq![m, a, b];
    assert forall|t: int| #![trigger run[t]] 0 <= t < run.len() - 1 implies leads_to(
        run[t],
        run[t + 1],
    ) by {
        if t == 0 {
            assert(leads_to(m, a));
        } else {
            assert(leads_to(a, b));
        }
    }
    run
}

/// Sending on a channel is a run of the protocol: the payload is written, the next slot is marked
/// dirty, the flag of this one is cleared. It logs the payload under the number of the message. The
/// rings of the run are the ones that the sender leaves in its trail.
pub proof fn law_send_is_a_run<T>(m: Moment<T, Stamp>, payload: T) -> (run: Seq<Moment<T, Stamp>>)
    requires
        m.valid(),
        m.hi == m.lo,
        m.shift == 0,
        m.lo + 1 < DIRTY_MASK,
    ensures
        is_run(run),
        run.first() == m,
        run.last().slots == published(m.slots, m.lo as u64, payload),
        run.len() == 4,
        run[0].slots == send_trail(m.slots, m.lo as u64, payload)[0].ring(),
        run[1].slots == with_payload(m.slots, slot_of(m.slots, m.lo as u64), payload),
        run[2].slots == send_trail(m.slots, m.lo as u64, payload)[1].ring(),
        run[3].slots == send_trail(m.slots, m.lo as u64, payload)[2].ring(),
        run.last().lo == m.lo + 1,
        run.last().hi == m.lo + 1,
        run.last().log == m.log.insert(
            m.lo,
            Slot { state: Stamp { dirty: false, seq_no: m.lo as u64 }, payload },
        ),
{
    let s = m.lo as u64;
    let dirty = Stamp { dirty: true, seq_no: (s + 1) as u64 };
    let clean = Stamp { dirty: false, seq_no: s };
    let a = m.filled(payload);
    let b = a.marked(dirty);
    let c = b.cleared(clean);
    lemma_newest_next(0, m.lo, 0, m.slots.len() as int);
    assert(takes(m, Step::Fill { payload }, a));
    assert(takes(a, Step::Mark { state: dirty }, b));
    assert(takes(b, Step::Clear { state: clean }, c));
    let run = seq![m, a, b, c];
    assert forall|t: int| #![trigger run[t]] 0 <= t < run.len() - 1 implies leads_to(
        run[t],
        run[t + 1],
    ) by {
        if t == 0 {
            assert(leads_to(m, a));
        } else if t == 1 {
            assert(leads_to(a, b));
        } else {
            assert(leads_to(b, c));
        }
    }
    run
}

/// Sending on a ring of a fixed length is a run of the protocol: the next slot is marked dirty,
/// the payload is written, the flag of this slot is cleared. The rings of the run are the ones that
/// the sender leaves in its trail.
pub proof fn law_ring_send_is_a_run<T>(m: Moment<T, Stamp>, payload: T) -> (run: Seq<
    Moment<T, Stamp>,
>)
    requires
        m.valid(),
        m.hi == m.lo,
        m.shift == 1,
        m.lo + 1 < DIRTY_MASK,
    ensures
        is_run(run),
        run.first() == m,
        run.last().slots == ring_buffer::sent(
            m.slots,
            m.at(m.lo),
            following(m.at(m.lo), m.slots.len() as int),
            m.lo as u64,
            payload,
        ),
        run.len() == 4,
        ({
            let trail = ring_buffer::send_trail(
                m.slots,
                m.at(m.lo),
                following(m.at(m.lo), m.slots.len() as int),
                m.lo as u64,
                payload,
            );
            &&& run[1].slots == trail[0].ring()
            &&& run[1].slots == trail[1].ring()
            &&& run[3].slots == trail[2].ring()
        }),
        run.last().lo == m.lo + 1,
        run.last().hi == m.lo + 1,
        run.last().log == m.log.insert(
            m.lo,
            Slot { state: Stamp { dirty: false, seq_no: m.lo as u64 }, payload },
        ),
{
    let n = m.slots.len() as int;
    let s = m.lo as u64;
    let dirty = Stamp { dirty: true, seq_no: (s + 1) as u64 };
    let clean = Stamp { dirty: false, seq_no: s };
    let a = m.marked(dirty);
    let b = a.filled(payload);
    let c = b.cleared(clean);
    lemma_newest_next(0, m.lo, 1, n);
    ring_buffer::lemma_sent(m.slots, m.at(m.lo), s, payload);
    law_stamp_round_trip(dirty);
    law_stamp_round_trip(clean);
    assert(takes(m, Step::Mark { state: dirty }, a));
    assert(takes(a, Step::Fill { payload }, b));
    assert(takes(b, Step::Clear { state: clean }, c));
    let run = seq![m, a, b, c];
    assert forall|t: int| #![trigger run[t]] 0 <= t < run.len() - 1 implies leads_to(
        run[t],
        run[t + 1],
    ) by {
        if t == 0 {
            assert(leads_to(m, a));
        } else if t == 1 {
            assert(leads_to(a, b));
        } else {
            assert(leads_to(b, c));
        }
    }
    run
}

/// Sending with a word of the user's is a run of the protocol too, and logs the word with the
/// payload.
pub proof fn law_user_send_is_a_run<T>(
    m: Moment<T, WideStamp>,
    user_state: u64,
    payload: T,
) -> (run: Seq<Moment<T, WideStamp>>)
    requires
        m.valid(),
        m.hi == m.lo,
        m.shift == 1,
        m.lo + 1 < DIRTY_MASK,
    ensures
        is_run(run),
        run.first() == m,
        run.last().slots == user_broadcast::sent(
            m.slots,
            m.at(m.lo),
            following(m.at(m.lo), m.slots.len() as int),
            m.lo as u64,
            user_state,
            payload,
        ),
        run.len() == 4,
        ({
            let trail = user_broadcast::send_trail(
                m.slots,
                m.at(m.lo),
                following(m.at(m.lo), m.slots.len() as int),
                m.lo as u64,
                user_state,
                payload,
            );
            &&& run[1].slots == trail[0].ring()
            &&& run[1].slots == trail[1].ring()
            &&& run[3].slots == trail[2].ring()
        }),
        run.last().lo == m.lo + 1,
        run.last().hi == m.lo + 1,
        run.last().log == m.log.insert(
            m.lo,
            Slot { state: WideStamp { dirty: false, seq_no: m.lo as u64, user_state }, payload },
        ),
{
    let n = m.slots.len() as int;
    let s = m.lo as u64;
    let dirty = WideStamp { dirty: true, seq_no: (s + 1) as u64, user_state: 0 };
    let clean = WideStamp { dirty: false, seq_no: s, user_state };
    let a = m.marked(dirty);
    let b = a.filled(payload);
    let c = b.cleared(clean);
    lemma_newest_next(0, m.lo, 1, n);
    user_broadcast::lemma_sent(m.slots, m.at(m.lo), s, user_state, payload);
    assert(takes(m, Step::Mark { state: dirty }, a));
    assert(takes(a, Step::Fill { payload }, b));
    assert(takes(b, Step::Clear { state: clean }, c));
    let run = seq![m, a, b, c];
    assert forall|t: int| #![trigger run[t]] 0 <= t < run.len() - 1 implies leads_to(
        run[t],
        run[t + 1],
    ) by {
        if t == 0 {
            assert(leads_to(m, a));
        } else if t == 1 {
            assert(leads_to(a, b));
        } else {
            assert(leads_to(b, c));
        }
    }
    run
}

// ---------------------------------------------------------------------------
// The order in which a sender does things
// ---------------------------------------------------------------------------

/// Whether some slot of a ring is dirty.
pub open spec fn some_dirty<T, S: Tag>(slots: Seq<Slot<T, S>>) -> bool {
    exists|i: int| 0 <= i < slots.len() && (#[trigger] slots[i]).state.is_dirty()
}

/// Whether a series of accesses to a ring keeps to the protocol: at each of them some slot is
/// dirty, the ring has evolved from what it was before and from what it was at the accesses before
/// it, and a payload is lent out only while its slot is dirty, so that the ring evolves whatever is
/// written into it.
pub open spec fn keeps_order<T, S: Tag>(before: Seq<Slot<T, S>>, trail: Seq<Access<T, S>>) -> bool {
    &&& forall|t: int|
        #![trigger trail[t]]
        0 <= t < trail.len() ==> some_dirty(trail[t].ring()) && evolves(before, trail[t].ring())
    &&& forall|t: int, u: int|
        #![trigger trail[t], trail[u]]
        0 <= t < u < trail.len() ==> evolves(trail[t].ring(), trail[u].ring())
    &&& forall|t: int|
        #![trigger trail[t]]
        0 <= t < trail.len() ==> (trail[t] matches Access::Lend { index, slots } ==> {
            &&& 0 <= index < slots.len()
            &&& slots[index].state.is_dirty()
            &&& forall|payload: T| #[trigger]
                evolves(slots, with_payload(slots, index, payload))
        })
}

/// While a message is being written or committed, its slot is dirty.
proof fn lemma_some_dirty<T, S: Tag>(slots: Seq<Slot<T, S>>, lo: int, hi: int, shift: int)
    requires
        laid(slots, lo, hi, shift),
    ensures
        some_dirty(slots),
        0 <= home(lo, shift, slots.len() as int) < slots.len(),
        slots[home(lo, shift, slots.len() as int)].state.is_dirty(),
        forall|payload: T| #[trigger]
            evolves(slots, with_payload(slots, home(lo, shift, slots.len() as int), payload)),
{
    let n = slots.len() as int;
    let at = home(lo, shift, n);
    lemma_mod_bound(lo - shift, n);
    lemma_newest(at, hi, shift, n);
    assert(newest(at, hi, shift, n) == lo);
    assert(slots[at].state.is_dirty());
    assert forall|payload: T| #[trigger] evolves(slots, with_payload(slots, at, payload)) by {
        lemma_fill(slots, lo, hi, shift, payload);
    }
}

/// A sender in step keeps to the protocol when it commits: the slot of the next message is dirty
/// before that of this one is clean, so some slot is dirty all the time.
pub proof fn law_commit_keeps_order<T>(slots: Seq<Slot<T, Stamp>>, seq_no: u64)
    requires
        laid(slots, seq_no as int, seq_no as int, 0),
        seq_no + 1 < DIRTY_MASK,
    ensures
        some_dirty(slots),
        keeps_order(slots, commit_trail(slots, seq_no)),
{
    let s = seq_no as int;
    let next: u64 = (seq_no + 1) as u64;
    let mid = marked(slots, next);
    let after = committed(slots, seq_no);
    lemma_mark(slots, s, 0, Stamp { dirty: true, seq_no: next });
    lemma_clear(mid, s, 0, Stamp { dirty: false, seq_no });
    lemma_evolves_trans(slots, mid, after);
    lemma_some_dirty(slots, s, s, 0);
    lemma_some_dirty(mid, s, s + 1, 0);
    lemma_some_dirty(after, s + 1, s + 1, 0);
}

/// So it does when it sends: the payload is written while the slot is dirty.
pub proof fn law_send_keeps_order<T>(slots: Seq<Slot<T, Stamp>>, seq_no: u64, payload: T)
    requires
        laid(slots, seq_no as int, seq_no as int, 0),
        seq_no + 1 < DIRTY_MASK,
    ensures
        keeps_order(slots, send_trail(slots, seq_no, payload)),
{
    let s = seq_no as int;
    let at = slot_of(slots, seq_no);
    let filled = with_payload(slots, at, payload);
    let trail = send_trail(slots, seq_no, payload);
    let rest = commit_trail(filled, seq_no);
    lemma_some_dirty(slots, s, s, 0);
    lemma_fill(slots, s, s, 0, payload);
    lemma_evolves_refl(slots);
    law_commit_keeps_order(filled, seq_no);
    assert forall|t: int| #![trigger trail[t]] 1 <= t < trail.len() implies trail[t] == rest[t - 1]
        && evolves(slots, trail[t].ring()) by {
        lemma_evolves_trans(slots, filled, rest[t - 1].ring());
    }
    assert forall|t: int, u: int|
        #![trigger trail[t], trail[u]]
        0 <= t < u < trail.len() implies evolves(trail[t].ring(), trail[u].ring()) by {
        if t > 0 {
            assert(evolves(rest[t - 1].ring(), rest[u - 1].ring()));
        }
    }
}

/// So does the sender of a ring of a fixed length.
pub proof fn law_ring_send_keeps_order<T>(
    slots: Seq<Slot<T, Stamp>>,
    at: int,
    seq_no: u64,
    payload: T,
)
    requires
        laid(slots, seq_no as int, seq_no as int, 1),
        at == home(seq_no as int, 1, slots.len() as int),
        seq_no + 1 < DIRTY_MASK,
    ensures
        keeps_order(
            slots,
            ring_buffer::send_trail(
                slots,
                at,
                following(at, slots.len() as int),
                seq_no,
                payload,
            ),
        ),
{
    let s = seq_no as int;
    let next = following(at, slots.len() as int);
    let dirty = Stamp { dirty: true, seq_no: (seq_no + 1) as u64 };
    let clean = Stamp { dirty: false, seq_no };
    let a = ring_buffer::marked(slots, next, seq_no);
    let b = with_payload(a, at, payload);
    let c = ring_buffer::sent(slots, at, next, seq_no, payload);
    law_stamp_round_trip(dirty);
    law_stamp_round_trip(clean);
    ring_buffer::lemma_sent(slots, at, seq_no, payload);
    lemma_mark(slots, s, 1, dirty);
    lemma_fill(a, s, s + 1, 1, payload);
    lemma_clear(b, s, 1, clean);
    lemma_evolves_refl(a);
    lemma_evolves_trans(a, b, c);
    lemma_some_dirty(a, s, s + 1, 1);
    lemma_some_dirty(c, s + 1, s + 1, 1);
}

/// So does the sender of a ring for messages with a word of the user's.
pub proof fn law_user_send_keeps_order<T>(
    slots: Seq<Slot<T, WideStamp>>,
    at: int,
    seq_no: u64,
    user_state: u64,
    payload: T,
)
    requires
        laid(slots, seq_no as int, seq_no as int, 1),
        at == home(seq_no as int, 1, slots.len() as int),
        seq_no + 1 < DIRTY_MASK,
    ensures
        keeps_order(
            slots,
            user_broadcast::send_trail(
                slots,
                at,
                following(at, slots.len() as int),
                seq_no,
                user_state,
                payload,
            ),
        ),
{
    let s = seq_no as int;
    let next = following(at, slots.len() as int);
    let dirty = WideStamp { dirty: true, seq_no: (seq_no + 1) as u64, user_state: 0 };
    let clean = WideStamp { dirty: false, seq_no, user_state };
    let a = user_broadcast::marked(slots, next, seq_no);
    let b = with_payload(a, at, payload);
    let c = user_broadcast::sent(slots, at, next, seq_no, user_state, payload);
    user_broadcast::lemma_sent(slots, at, seq_no, user_state, payload);
    lemma_mark(slots, s, 1, dirty);
    lemma_fill(a, s, s + 1, 1, payload);
    lemma_clear(b, s, 1, clean);
    lemma_evolves_refl(a);
    lemma_evolves_trans(a, b, c);
    lemma_some_dirty(a, s, s + 1, 1);
    lemma_some_dirty(c, s + 1, s + 1, 1);
}

/// Whoever sees a message clean, at whichever access of the sender that sends it, sees the slot of
/// the next message marked, and the payload written.
pub proof fn law_clean_means_complete<T>(
    slots: Seq<Slot<T, Stamp>>,
    seq_no: u64,
    payload: T,
    t: int,
)
    requires
        laid(slots, seq_no as int, seq_no as int, 0),
        seq_no + 1 < DIRTY_MASK,
        0 <= t < send_trail(slots, seq_no, payload).len(),
    ensures
        ({
            let ring = send_trail(slots, seq_no, payload)[t].ring();
            let at = slot_of(slots, seq_no);
            let next: u64 = (seq_no + 1) as u64;
            ring[at].state == (Stamp { dirty: false, seq_no }) ==> {
                &&& ring[slot_of(slots, next)].state == (Stamp { dirty: true, seq_no: next })
                &&& ring[at].payload == payload
            }
        }),
{
    lemma_some_dirty(slots, seq_no as int, seq_no as int, 0);
    lemma_newest_next(0, seq_no as int, 0, slots.len() as int);
}

/// In every ring that a sender of the protocol may leave behind, now or later, the slot after a
/// clean message holds the next message, or a later one that falls on the same slot.
pub proof fn law_next_is_marked<T, S: Tag>(slots: Seq<Slot<T, S>>, later: Seq<Slot<T, S>>, i: int)
    requires
        orderly(slots),
        evolves(slots, later),
        0 <= i < later.len(),
        !later[i].state.is_dirty(),
        later[i].state.number() > 0,
    ensures
        ({
            let next = following(i, later.len() as int);
            &&& 0 <= next < later.len()
            &&& later[next].state.number() >= later[i].state.number() + 1
            &&& congruent(
                later[next].state.number() as int,
                later[i].state.number() + 1,
                later.len() as int,
            )
        }),
{
    lemma_follow(later, i);
}

// ---------------------------------------------------------------------------
// Looking at the ring of a sender
// ---------------------------------------------------------------------------

/// What a handle knows of a ring that it looks at at moment `t` of a run: the slots as they are
/// then, and that the run goes on for as long as it does.
pub open spec fn seen<T, S: Tag>(run: Seq<Moment<T, S>>, t: int, live: Set<int>) -> RingModel<
    T,
    S,
> {
    RingModel {
        slots: run[t].slots,
        steady: false,
        live,
        delay: (run.len() - 1 - t) as nat,
        trail: Seq::empty(),
        looks: Seq::empty(),
    }
}

/// Looking at the ring of a sender that keeps to the protocol is what a [`Buffer`] promises of a
/// look: whatever the sender did in between, the ring has evolved. A look that is wasted brings a
/// reader nearer to its message if the sender went on since the look before.
///
/// [`Buffer`]: crate::buffer::Buffer
pub proof fn law_look_at_a_run<T, S: Tag>(
    run: Seq<Moment<T, S>>,
    s: int,
    t: int,
    live: Set<int>,
    i: int,
    wasted: bool,
)
    requires
        is_run(run),
        0 <= s <= t < run.len(),
        wasted ==> s < t,
    ensures
        watched(seen(run, s, live), seen(run, t, live), i, wasted),
{
    law_run(run, s, t);
}

// ---------------------------------------------------------------------------
// Sending and receiving
// ---------------------------------------------------------------------------

/// A message that was just sent is received: a receiver that expects it gets its number and its
/// payload, and expects the next one.
pub proof fn law_round_trip<T>(slots: Seq<Slot<T, Stamp>>, seq_no: u64, payload: T)
    requires
        slots.len() >= 2,
        seq_no < u64::MAX,
    ensures
        ({
            let after = published(slots, seq_no, payload);
            &&& reception(after, seq_no) == (
                seq_no,
                (seq_no + 1) as u64,
                Some(slot_of(after, seq_no)),
            )
            &&& after[slot_of(after, seq_no)].payload == payload
        }),
{
    lemma_newest_next(0, seq_no as int, 0, slots.len() as int);
}

/// On a ring of a fixed length too, what was sent is there to be received, the next slot is marked,
/// and nothing else is changed.
pub proof fn law_ring_round_trip<T>(
    slots: Seq<Slot<T, Stamp>>,
    at: int,
    seq_no: u64,
    payload: T,
    i: int,
)
    requires
        slots.len() >= 2,
        0 <= at < slots.len(),
        seq_no + 1 < DIRTY_MASK,
        0 <= i < slots.len(),
    ensures
        ({
            let next = following(at, slots.len() as int);
            let after = ring_buffer::sent(slots, at, next, seq_no, payload);
            &&& next != at
            &&& after[at] == (Slot { state: Stamp { dirty: false, seq_no }, payload })
            &&& after[next].state == (Stamp { dirty: true, seq_no: (seq_no + 1) as u64 })
            &&& after[next].payload == slots[next].payload
            &&& i != at && i != next ==> after[i] == slots[i]
        }),
{
    lemma_newest_next(0, at, 0, slots.len() as int);
    lemma_small_mod(at as nat, slots.len() as nat);
    law_stamp_round_trip(Stamp { dirty: false, seq_no });
    law_stamp_round_trip(Stamp { dirty: true, seq_no: (seq_no + 1) as u64 });
}

/// So it is where a word of the user's goes with the message: the word and the payload are there
/// together.
pub proof fn law_user_round_trip<T>(
    slots: Seq<Slot<T, WideStamp>>,
    at: int,
    seq_no: u64,
    user_state: u64,
    payload: T,
    i: int,
)
    requires
        slots.len() >= 2,
        0 <= at < slots.len(),
        seq_no + 1 < DIRTY_MASK,
        0 <= i < slots.len(),
    ensures
        ({
            let next = following(at, slots.len() as int);
            let after = user_broadcast::sent(slots, at, next, seq_no, user_state, payload);
            let dirty = WideStamp { dirty: true, seq_no: (seq_no + 1) as u64, user_state: 0 };
            &&& next != at
            &&& after[at] == (Slot {
                state: WideStamp { dirty: false, seq_no, user_state },
                payload,
            })
            &&& after[next] == (Slot { state: dirty, payload: slots[next].payload })
            &&& i != at && i != next ==> after[i] == slots[i]
        }),
{
    lemma_newest_next(0, at, 0, slots.len() as int);
    lemma_small_mod(at as nat, slots.len() as nat);
}

/// A peek that is confirmed was good: if a slot was clean, and later has the same number, then it
/// is what it was, so whatever was read from it in between is the message of that number.
pub proof fn law_confirmed_peek<T, S: Tag>(
    before: Seq<Slot<T, S>>,
    during: Seq<Slot<T, S>>,
    after: Seq<Slot<T, S>>,
    i: int,
)
    requires
        evolves(before, during),
        evolves(during, after),
        0 <= i < before.len(),
        !before[i].state.is_dirty(),
        after[i].state.number() == before[i].state.number(),
    ensures
        during[i] == before[i],
        after[i] == before[i],
{
    assert(slot_evolves(before[i], during[i], before.len() as int));
    assert(slot_evolves(during[i], after[i], before.len() as int));
}

/// Nothing else than the two slots concerned is changed by sending a message, and of the next
/// one's slot the payload stays.
pub proof fn law_send_touches_two_slots<T>(
    slots: Seq<Slot<T, Stamp>>,
    seq_no: u64,
    payload: T,
    i: int,
)
    requires
        slots.len() >= 2,
        seq_no < u64::MAX,
        0 <= i < slots.len(),
        i != slot_of(slots, seq_no),
    ensures
        published(slots, seq_no, payload)[i].payload == slots[i].payload,
        i != slot_of(slots, (seq_no + 1) as u64) ==> published(slots, seq_no, payload)[i]
            == slots[i],
{
    lemma_newest_next(0, seq_no as int, 0, slots.len() as int);
}

/// Before the sender commits the next message, a receiver that has received everything gets
/// nothing, and stays where it is.
pub proof fn law_nothing_to_receive<T>(slots: Seq<Slot<T, Stamp>>, head: u64)
    requires
        laid(slots, head as int, head as int, 0),
    ensures
        reception(slots, head) == (head, head, None::<int>),
{
    let n = slots.len() as int;
    lemma_newest_next(0, head as int, 0, n);
}

/// Committing without reserving is the same as reserving, writing nothing, and committing.
pub proof fn law_commit_without_reserve<T>(slots: Seq<Slot<T, Stamp>>, seq_no: u64)
    requires
        slots.len() > 0,
    ensures
        committed(
            with_payload(
                slots,
                slot_of(slots, seq_no),
                slots[slot_of(slots, seq_no)].payload,
            ),
            seq_no,
        ) == committed(slots, seq_no),
{
    lemma_mod_bound(seq_no as int, slots.len() as int);
    let at = slot_of(slots, seq_no);
    assert(with_payload(slots, at, slots[at].payload) =~= slots);
}

/// Reserving twice is reserving once: what counts is what was written last.
pub proof fn law_reserve_twice<T>(slots: Seq<Slot<T, Stamp>>, seq_no: u64, first: T, second: T)
    requires
        slots.len() > 0,
    ensures
        ({
            let at = slot_of(slots, seq_no);
            with_payload(with_payload(slots, at, first), at, second) == with_payload(
                slots,
                at,
                second,
            )
        }),
{
    lemma_mod_bound(seq_no as int, slots.len() as int);
    let at = slot_of(slots, seq_no);
    assert(with_payload(with_payload(slots, at, first), at, second) =~= with_payload(
        slots,
        at,
        second,
    ));
}

/// The first message of a fresh channel, if nothing is written into it, is a default value.
pub proof fn law_unwritten_message_is_default<T: Default>(slots: Seq<Slot<T, Stamp>>)
    requires
        slots.len() >= 2,
        initial(slots),
    ensures
        ({
            let after = committed(slots, 1);
            &&& reception(after, 1) == (1u64, 2u64, Some(slot_of(after, 1)))
            &&& T::default.ensures((), after[slot_of(after, 1)].payload)
        }),
{
    let n = slots.len() as int;
    lemma_newest_next(0, 1, 0, n);
    lemma_small_mod(1, n as nat);
}

/// The ring after a series of payloads was sent, the first of them as message `seq_no`.
pub open spec fn after_sending<T>(
    slots: Seq<Slot<T, Stamp>>,
    seq_no: u64,
    payloads: Seq<T>,
) -> Seq<Slot<T, Stamp>>
    decreases payloads.len(),
{
    if payloads.len() == 0 {
        slots
    } else {
        published(
            after_sending(slots, seq_no, payloads.drop_last()),
            (seq_no + payloads.len() - 1) as u64,
            payloads.last(),
        )
    }
}

/// However much is sent, the ring stays in step with the sender, and evolves.
pub proof fn law_sending_goes_on<T>(slots: Seq<Slot<T, Stamp>>, seq_no: u64, payloads: Seq<T>)
    requires
        laid(slots, seq_no as int, seq_no as int, 0),
        seq_no + payloads.len() < DIRTY_MASK,
    ensures
        laid(
            after_sending(slots, seq_no, payloads),
            seq_no + payloads.len(),
            seq_no + payloads.len(),
            0,
        ),
        evolves(slots, after_sending(slots, seq_no, payloads)),
    decreases payloads.len(),
{
    if payloads.len() == 0 {
        lemma_evolves_refl(slots);
    } else {
        let before = payloads.drop_last();
        let mid = after_sending(slots, seq_no, before);
        law_sending_goes_on(slots, seq_no, before);
        let last = (seq_no + payloads.len() - 1) as u64;
        lemma_published(mid, last, payloads.last());
        lemma_evolves_trans(slots, mid, published(mid, last, payloads.last()));
    }
}

/// A receiver that is less than a round behind misses nothing: whichever of the messages since
/// then it expects, it gets that one, with the payload that was sent.
pub proof fn law_no_message_is_lost<T>(
    slots: Seq<Slot<T, Stamp>>,
    seq_no: u64,
    payloads: Seq<T>,
    k: int,
)
    requires
        laid(slots, seq_no as int, seq_no as int, 0),
        seq_no + payloads.len() < DIRTY_MASK,
        0 <= k < payloads.len(),
        payloads.len() - k < slots.len(),
    ensures
        ({
            let after = after_sending(slots, seq_no, payloads);
            let expected = (seq_no + k) as u64;
            &&& reception(after, expected) == (
                expected,
                (expected + 1) as u64,
                Some(slot_of(after, expected)),
            )
            &&& after[slot_of(after, expected)].payload == payloads[k]
        }),
    decreases payloads.len(),
{
    let n = slots.len() as int;
    let before = payloads.drop_last();
    let mid = after_sending(slots, seq_no, before);
    let last = (seq_no + payloads.len() - 1) as u64;
    law_sending_goes_on(slots, seq_no, before);
    if k == payloads.len() - 1 {
        law_round_trip(mid, last, payloads.last());
    } else {
        let expected = (seq_no + k) as u64;
        law_no_message_is_lost(slots, seq_no, before, k);
        assert(before[k] == payloads[k]);
        lemma_newest_next(0, last as int, 0, n);
        // Less than a round apart, so on different slots.
        if slot_of(mid, expected) == slot_of(mid, last) {
            lemma_congruent(last as int, expected as int, 0, n);
            lemma_congruent_near(last as int, expected as int, n);
        }
        if slot_of(mid, expected) == slot_of(mid, (last + 1) as u64) {
            lemma_congruent(last + 1, expected as int, 0, n);
            lemma_congruent_near(last + 1, expected as int, n);
        }
        lemma_mod_bound(expected as int, n);
        law_send_touches_two_slots(mid, last, payloads.last(), slot_of(mid, expected));
    }
}

/// A receiver that is a round or more behind is told so: it is reported a greater number, by a
/// multiple of the capacity, so it sees how far it was overtaken.
pub proof fn law_loss_shows_as_a_gap<T>(
    slots: Seq<Slot<T, Stamp>>,
    seq_no: u64,
    payloads: Seq<T>,
    k: int,
)
    requires
        laid(slots, seq_no as int, seq_no as int, 0),
        seq_no + payloads.len() < DIRTY_MASK,
        0 <= k,
        payloads.len() - k >= slots.len(),
    ensures
        ({
            let expected = (seq_no + k) as u64;
            let reported = reception(after_sending(slots, seq_no, payloads), expected).0;
            &&& reported >= expected + slots.len()
            &&& congruent(reported as int, expected as int, slots.len() as int)
        }),
{
    let n = slots.len() as int;
    let after = after_sending(slots, seq_no, payloads);
    let head = seq_no + payloads.len();
    let expected = (seq_no + k) as u64;
    law_sending_goes_on(slots, seq_no, payloads);
    let i = slot_of(after, expected);
    lemma_mod_bound(expected as int, n);
    lemma_newest(i, head, 0, n);
    assert(home(expected as int, 0, n) == i);
    let number = after[i].state.seq_no as int;
    assert(number == newest(i, head, 0, n));
    assert(tracks(after, expected));
    lemma_tracks_slot(after, expected);
    if number < expected + n {
        lemma_congruent_near(number, expected as int, n);
    }
}

/// What is received is in order: a receiver that expects a message is never given an earlier
/// one, however the ring has evolved since.
pub proof fn law_numbers_never_go_back<T>(
    before: Seq<Slot<T, Stamp>>,
    after: Seq<Slot<T, Stamp>>,
    expected: u64,
)
    requires
        before.len() > 0,
        tracks(before, expected),
        evolves(before, after),
    ensures
        reception(after, expected).0 >= expected,
        reception(after, expected).1 >= reception(after, expected).0 || reception(
            after,
            expected,
        ).0 == u64::MAX,
{
    lemma_tracks_evolves(before, after, expected);
    lemma_tracks_slot(after, expected);
}

// ---------------------------------------------------------------------------
// Several calls
// ---------------------------------------------------------------------------

/// A series of calls that send: of `payloads`, one after the other, which return `numbers`.
pub open spec fn sends_all<T>(
    txs: Seq<Sender>,
    rings: Seq<RingModel<T, Stamp>>,
    payloads: Seq<T>,
    numbers: Seq<u64>,
) -> bool {
    &&& txs.len() == payloads.len() + 1
    &&& rings.len() == payloads.len() + 1
    &&& numbers.len() == payloads.len()
    &&& forall|i: int|
        #![trigger payloads[i]]
        0 <= i < payloads.len() ==> sends(
            txs[i],
            rings[i],
            payloads[i],
            txs[i + 1],
            rings[i + 1],
            numbers[i],
        )
}

/// A series of calls that receive: `values`, one after the other, under `numbers`. The ring is
/// `before[i]` when call `i` is made, and `after[i]` when it returns.
pub open spec fn receives_all<T: Clone>(
    rxs: Seq<Receiver<T>>,
    before: Seq<RingModel<T, Stamp>>,
    after: Seq<RingModel<T, Stamp>>,
    numbers: Seq<u64>,
    values: Seq<T>,
) -> bool {
    &&& rxs.len() == values.len() + 1
    &&& before.len() == values.len()
    &&& after.len() == values.len()
    &&& numbers.len() == values.len()
    &&& forall|i: int|
        #![trigger values[i]]
        0 <= i < values.len() ==> receives(
            rxs[i],
            before[i],
            rxs[i + 1],
            after[i],
            numbers[i],
            values[i],
        )
}

/// The ring when call `k` of a series that receives from ring `sent` is made, if nothing but these
/// calls goes on.
pub open spec fn ring_at<T>(
    sent: RingModel<T, Stamp>,
    after: Seq<RingModel<T, Stamp>>,
    k: int,
) -> RingModel<T, Stamp> {
    if k == 0 {
        sent
    } else {
        after[k - 1]
    }
}

/// After `k` calls that send, the sender is `k` messages further, and the ring is what sending the
/// payloads makes of it.
proof fn lemma_sends_all<T>(
    txs: Seq<Sender>,
    rings: Seq<RingModel<T, Stamp>>,
    payloads: Seq<T>,
    numbers: Seq<u64>,
    k: int,
)
    requires
        sends_all(txs, rings, payloads, numbers),
        txs[0].in_step(rings[0].slots),
        0 <= k <= payloads.len(),
        txs[0].next() + payloads.len() < DIRTY_MASK,
    ensures
        txs[k].next() == txs[0].next() + k,
        txs[k].in_step(rings[k].slots),
        rings[k].steady == rings[0].steady,
        rings[k].slots == after_sending(rings[0].slots, txs[0].next(), payloads.take(k)),
        k > 0 ==> settled(rings[k]),
        k < payloads.len() ==> numbers[k] == txs[0].next() + k,
    decreases k,
{
    if k < payloads.len() {
        assert(sends(txs[k], rings[k], payloads[k], txs[k + 1], rings[k + 1], numbers[k]));
    }
    if k > 0 {
        lemma_sends_all(txs, rings, payloads, numbers, k - 1);
        assert(sends(
            txs[k - 1],
            rings[k - 1],
            payloads[k - 1],
            txs[k],
            rings[k],
            numbers[k - 1],
        ));
        assert(payloads.take(k).drop_last() =~= payloads.take(k - 1));
    }
}

/// What is sent is received: after any number of calls that send, fewer than the ring has slots,
/// as many calls that receive can be made, on a ring that nobody else changes. They return the
/// numbers that the sending calls returned, and clones of the payloads, all of them, in the same
/// order. After that there is nothing left to receive.
pub proof fn law_sent_is_received<T: Clone>(
    txs: Seq<Sender>,
    rings: Seq<RingModel<T, Stamp>>,
    payloads: Seq<T>,
    numbers: Seq<u64>,
    rxs: Seq<Receiver<T>>,
    before: Seq<RingModel<T, Stamp>>,
    after: Seq<RingModel<T, Stamp>>,
    received: Seq<u64>,
    values: Seq<T>,
    k: int,
)
    requires
        rings.len() > 0,
        rings[0].steady,
        txs[0].in_step(rings[0].slots),
        txs[0].next() + payloads.len() < DIRTY_MASK,
        payloads.len() < rings[0].slots.len(),
        sends_all(txs, rings, payloads, numbers),
        rxs[0].expected() == txs[0].next(),
        receives_all(rxs, before, after, received, values),
        values.len() <= payloads.len(),
        forall|i: int|
            #![trigger before[i]]
            0 <= i < values.len() ==> before[i] == ring_at(rings.last(), after, i),
        0 <= k <= values.len(),
    ensures
        rxs[k].expected() == txs[0].next() + k,
        ({
            let ring = ring_at(rings.last(), after, k);
            let at = slot_of(ring.slots, rxs[k].expected());
            &&& ring.steady
            &&& ring.slots == rings.last().slots
            &&& rings.last().live.subset_of(ring.live)
            &&& k < payloads.len() ==> {
                &&& tracks(ring.slots, rxs[k].expected())
                &&& ring.live.contains(at)
            }
            &&& k == payloads.len() ==> forall|rx2: Receiver<T>, ring2: RingModel<T, Stamp>,
                seq_no: u64, payload: Option<&T>| #[trigger]
                tries(rxs[k], ring, rx2, ring2, seq_no, payload) ==> seq_no == txs[0].next() + k
                    && payload is None
        }),
        k < values.len() ==> {
            &&& received[k] == numbers[k]
            &&& cloned(payloads[k], values[k])
        },
    decreases k,
{
    let n = rings[0].slots.len() as int;
    let sent = rings.last();
    let count = payloads.len() as int;
    let first = txs[0].next();
    let ring = ring_at(sent, after, k);
    lemma_sends_all(txs, rings, payloads, numbers, count);
    assert(payloads.take(count) =~= payloads);
    law_sending_goes_on(rings[0].slots, first, payloads);
    if k > 0 {
        law_sent_is_received(
            txs,
            rings,
            payloads,
            numbers,
            rxs,
            before,
            after,
            received,
            values,
            k - 1,
        );
        assert(before[k - 1] == ring_at(sent, after, k - 1));
        assert(receives(
            rxs[k - 1],
            before[k - 1],
            rxs[k],
            after[k - 1],
            received[k - 1],
            values[k - 1],
        ));
        lemma_sends_all(txs, rings, payloads, numbers, k - 1);
    }
    if k < count {
        let expected = (first + k) as u64;
        law_no_message_is_lost(rings[0].slots, first, payloads, k);
        lemma_sends_all(txs, rings, payloads, numbers, k);
        lemma_mod_bound(expected as int, n);
        lemma_congruent(expected as int, expected as int, 0, n);
        assert(!sent.slots[slot_of(sent.slots, expected)].state.dirty);
        if k < values.len() {
            assert(before[k] == ring);
            assert(receives(rxs[k], before[k], rxs[k + 1], after[k], received[k], values[k]));
        }
    } else {
        law_nothing_to_receive(sent.slots, (first + count) as u64);
    }
}

/// Whatever the sender does in between, and during the calls, each call that receives returns a
/// greater number than the calls before it.
pub proof fn law_received_numbers_grow<T: Clone>(
    rxs: Seq<Receiver<T>>,
    before: Seq<RingModel<T, Stamp>>,
    after: Seq<RingModel<T, Stamp>>,
    numbers: Seq<u64>,
    values: Seq<T>,
    i: int,
    j: int,
)
    requires
        receives_all(rxs, before, after, numbers, values),
        0 <= i < j < values.len(),
    ensures
        numbers[i] < numbers[j],
    decreases j,
{
    assert(receives(rxs[j], before[j], rxs[j + 1], after[j], numbers[j], values[j]));
    assert(receives(
        rxs[j - 1],
        before[j - 1],
        rxs[j],
        after[j - 1],
        numbers[j - 1],
        values[j - 1],
    ));
    if i < j - 1 {
        law_received_numbers_grow(rxs, before, after, numbers, values, i, j - 1);
    }
}

/// What is received is a clone of the committed message that is in the slot afterwards.
proof fn lemma_received<T: Clone>(
    rx: Receiver<T>,
    m: RingModel<T, Stamp>,
    rx2: Receiver<T>,
    m2: RingModel<T, Stamp>,
    seq_no: u64,
    value: T,
) -> (at: int)
    requires
        m2.slots.len() > 0,
        tracks(m.slots, rx.expected()),
        receives(rx, m, rx2, m2, seq_no, value),
    ensures
        0 <= at < m2.slots.len(),
        m2.slots[at].state == (Stamp { dirty: false, seq_no }),
        seq_no > 0,
        cloned(m2.slots[at].payload, value),
        rx2.held() == value,
{
    lemma_mod_bound(rx.expected() as int, m.slots.len() as int);
    slot_of(m.slots, rx.expected())
}

/// A committed message in the ring is in the log, from then on.
proof fn lemma_run_logs<T, S: Tag>(run: Seq<Moment<T, S>>, t: int, u: int)
    requires
        is_run(run),
        0 <= t <= u < run.len(),
    ensures
        run[t].slots.len() > 0,
        forall|i: int|
            #![trigger run[t].slots[i]]
            0 <= i < run[t].slots.len() && !run[t].slots[i].state.is_dirty()
                && run[t].slots[i].state.number() > 0 ==> {
                &&& run[u].log.contains_key(run[t].slots[i].state.number() as int)
                &&& run[u].log[run[t].slots[i].state.number() as int] == run[t].slots[i]
            },
{
    law_run(run, t, u);
}

/// Whatever the sender does meanwhile, what a call that receives returns is a clone of the payload
/// that was committed under the number that it returns, and stays so: nothing leaves the log.
pub proof fn law_received_is_committed<T: Clone>(
    run: Seq<Moment<T, Stamp>>,
    t: int,
    u: int,
    rx: Receiver<T>,
    m: RingModel<T, Stamp>,
    rx2: Receiver<T>,
    m2: RingModel<T, Stamp>,
    seq_no: u64,
    value: T,
)
    requires
        is_run(run),
        0 <= t <= u < run.len(),
        m2.slots == run[t].slots,
        tracks(m.slots, rx.expected()),
        receives(rx, m, rx2, m2, seq_no, value),
    ensures
        run[u].log.contains_key(seq_no as int),
        run[u].log[seq_no as int].state == (Stamp { dirty: false, seq_no }),
        cloned(run[u].log[seq_no as int].payload, value),
        rx2.held() == value,
{
    lemma_run_logs(run, t, u);
    let at = lemma_received(rx, m, rx2, m2, seq_no, value);
    assert(run[u].log[seq_no as int] == run[t].slots[at]);
}

/// Peeking changes nothing: on a ring that nobody else changes, peeking again gives the same number
/// and the same payload, that of the slot of the message. Only confirming it moves the receiver on,
/// and the peek is confirmed.
pub proof fn law_peeking_again<T>(
    rx: Receiver<T>,
    m: RingModel<T, Stamp>,
    rx1: Receiver<T>,
    m1: RingModel<T, Stamp>,
    first: (u64, T),
    rx2: Receiver<T>,
    m2: RingModel<T, Stamp>,
    second: (u64, T),
    rx3: Receiver<T>,
    m3: RingModel<T, Stamp>,
    valid: bool,
)
    requires
        m.slots.len() > 0,
        m.steady,
        settled(m),
        tracks(m.slots, rx.expected()),
        !m.slots[slot_of(m.slots, rx.expected())].state.dirty,
        peeks(rx, m, rx1, m1, first.0, first.1),
        peeks(rx1, m1, rx2, m2, second.0, second.1),
        advances(rx2, m2, rx3, m3, valid),
    ensures
        ({
            let at = slot_of(m.slots, rx.expected());
            &&& m.live.contains(at)
            &&& m1.live.contains(slot_of(m1.slots, rx1.expected()))
            &&& first == (m.slots[at].state.seq_no, m.slots[at].payload)
            &&& at == slot_of(m.slots, first.0)
            &&& second == first
            &&& rx1.expected() == first.0
            &&& rx2.expected() == first.0
            &&& valid
            &&& rx3.expected() == first.0 + 1
            &&& m3.slots == m.slots
        }),
{
    lemma_mod_bound(rx.expected() as int, m.slots.len() as int);
    assert(m.live.contains(slot_of(m.slots, rx.expected())));
}

/// An attempt to receive is one attempt, whatever the sender does meanwhile. If the slot is dirty
/// at the first look, its number is returned, and nothing else. If the slot is clean at the first
/// look and has the same number after the copy, the message is delivered, and the receiver goes on.
/// If it has another number after the copy, the slot was overwritten: nothing is delivered, that
/// number is returned, and the receiver expects it, at the same slot.
pub proof fn law_one_attempt<T: Clone>(
    rx: Receiver<T>,
    m: RingModel<T, Stamp>,
    rx2: Receiver<T>,
    m2: RingModel<T, Stamp>,
    seq_no: u64,
    payload: Option<&T>,
)
    requires
        m.slots.len() > 0,
        tracks(m.slots, rx.expected()),
        tries(rx, m, rx2, m2, seq_no, payload),
    ensures
        ({
            let at = slot_of(m.slots, rx.expected());
            let k = m.looks.len() as int;
            let first = m2.looks[k].ring()[at].state;
            let last = m2.slots[at].state;
            &&& m2.looks[k].loads(at)
            &&& first.dirty ==> {
                &&& m2.looks.len() == k + 1
                &&& payload is None
                &&& seq_no == first.seq_no
            }
            &&& !first.dirty ==> {
                &&& m2.looks.len() == k + 3
                &&& m2.looks[k + 1].copies(at, rx2.held())
                &&& m2.looks[k + 2].loads(at)
                &&& payload is Some <==> last.seq_no == first.seq_no
                &&& seq_no == last.seq_no
            }
            &&& payload is Some ==> rx2.expected() == seq_no + 1
            &&& payload is None ==> rx2.expected() == seq_no && slot_of(m.slots, seq_no) == at
        }),
{
    let k = m.looks.len() as int;
    let seen = m2.looks[k].ring();
    assert(evolves(m.slots, seen));
    lemma_tracks_evolves(m.slots, seen, rx.expected());
    lemma_tracks_slot(seen, rx.expected());
    lemma_tracks_evolves(m.slots, m2.slots, rx.expected());
    lemma_tracks_slot(m2.slots, rx.expected());
}

/// What was read in place is good if a load confirms it, on whichever ring: if the slot was clean
/// when its payload was lent out, and has the same number at a later load, then what was read is
/// the payload of the message.
pub proof fn law_confirmed_value<T, S: Tag>(
    a: RingModel<T, S>,
    b: RingModel<T, S>,
    k: int,
    i: int,
    value: T,
)
    requires
        0 <= i < a.slots.len(),
        0 <= k < a.looks.len(),
        a.looks[k] == (Look::Lent { index: i, slots: a.slots, value }),
        !a.slots[i].state.is_dirty(),
        looked(a, b),
        vouches(b, i),
        b.slots[i].state.number() == a.slots[i].state.number(),
    ensures
        value == a.slots[i].payload,
        b.slots[i] == a.slots[i],
{
    assert(b.looks[k] == a.looks[k]);
    assert(slot_evolves(a.slots[i], b.slots[i], a.slots.len() as int));
}

/// A peek that is confirmed was valid, whatever the sender does in between and during the calls:
/// what was read is the payload of the message of the number that the peek returned, which is in
/// the slot still. The receiver has gone on to the next message.
pub proof fn law_peek_is_valid<T>(
    rx: Receiver<T>,
    m: RingModel<T, Stamp>,
    rx1: Receiver<T>,
    m1: RingModel<T, Stamp>,
    seq_no: u64,
    value: T,
    m2: RingModel<T, Stamp>,
    rx3: Receiver<T>,
    m3: RingModel<T, Stamp>,
)
    requires
        m.slots.len() > 0,
        tracks(m.slots, rx.expected()),
        peeks(rx, m, rx1, m1, seq_no, value),
        looked(m1, m2),
        advances(rx1, m2, rx3, m3, true),
    ensures
        ({
            let at = slot_of(m.slots, rx.expected());
            &&& 0 <= at < m3.slots.len()
            &&& m3.slots[at] == (Slot { state: Stamp { dirty: false, seq_no }, payload: value })
            &&& m1.slots[at] == m3.slots[at]
            &&& seq_no > 0
            &&& rx3.expected() == seq_no + 1
        }),
{
    let at = slot_of(m.slots, rx.expected());
    lemma_mod_bound(rx.expected() as int, m.slots.len() as int);
    lemma_looked_trans(m1, m2, m3);
    law_confirmed_value(m1, m3, m1.looks.len() - 1, at, value);
}

/// So what was read by a peek that is confirmed is the payload that was committed under the number
/// that the peek returned.
pub proof fn law_confirmed_is_committed<T>(
    run: Seq<Moment<T, Stamp>>,
    t: int,
    u: int,
    rx: Receiver<T>,
    m: RingModel<T, Stamp>,
    rx1: Receiver<T>,
    m1: RingModel<T, Stamp>,
    seq_no: u64,
    value: T,
    m2: RingModel<T, Stamp>,
    rx3: Receiver<T>,
    m3: RingModel<T, Stamp>,
)
    requires
        is_run(run),
        0 <= t <= u < run.len(),
        m3.slots == run[t].slots,
        m.slots.len() > 0,
        tracks(m.slots, rx.expected()),
        peeks(rx, m, rx1, m1, seq_no, value),
        looked(m1, m2),
        advances(rx1, m2, rx3, m3, true),
    ensures
        run[u].log.contains_key(seq_no as int),
        run[u].log[seq_no as int].payload == value,
{
    law_peek_is_valid(rx, m, rx1, m1, seq_no, value, m2, rx3, m3);
    lemma_run_logs(run, t, u);
    let at = slot_of(m.slots, rx.expected());
    assert(run[u].log[seq_no as int] == run[t].slots[at]);
}

/// A new sender on a ring that another one left in the middle of committing message `head` goes
/// on with that message, or with the next one.
pub proof fn law_resume_within_commit<T>(slots: Seq<Slot<T, Stamp>>, head: int)
    requires
        laid(slots, head, head + 1, 0),
    ensures
        exists|i: int| #[trigger] first_active(slots, i),
        forall|i: int| #[trigger]
            first_active(slots, i) ==> head <= slots[i].state.seq_no <= head + 1,
{
    let n = slots.len() as int;
    let a = home(head, 0, n);
    let b = home(head + 1, 0, n);
    lemma_newest_next(0, head, 0, n);
    lemma_newest_next(a, head, 0, n);
    lemma_newest_next(b, head, 0, n);
    assert forall|i: int| 0 <= i < n && (#[trigger] slots[i]).state.dirty implies (i == a || i == b)
        && head <= slots[i].state.seq_no <= head + 1 by {
        lemma_newest(i, head + 1, 0, n);
    }
    assert(slots[a].state.seq_no == head && slots[a].state.dirty);
    assert(slots[b].state.seq_no == head + 1 && slots[b].state.dirty);
    if a < b {
        assert(first_active(slots, a));
    } else {
        assert(first_active(slots, b));
    }
}

} // verus!
