//! Bookkeeping of a benchmark: what a writer and a reader note down about every message.
use crate::trials::{stably_sorted, Trials};
use vstd::laws_cmp::obeys_cmp;
use vstd::prelude::*;

verus! {

/// How far a reader was thrown ahead: the difference of two message numbers received one after the
/// other, if the second is not the one that follows the first. Number 0 stands for no message.
pub fn skipped(prev_seq_no: u64, seq_no: u64) -> (ahead: Option<u64>)
    requires
        prev_seq_no <= seq_no,
    ensures
        ahead == (if prev_seq_no != 0 && prev_seq_no + 1 != seq_no {
            Some((seq_no - prev_seq_no) as u64)
        } else {
            None
        }),
{
    if prev_seq_no != 0 && prev_seq_no.wrapping_add(1) != seq_no {
        Some(seq_no - prev_seq_no)
    } else {
        None
    }
}

/// What a writer notes down: how long it took to send each message, and how long it takes to read
/// the clock.
pub struct WriterLog {
    sending: Trials<u64>,
    clock: Trials<u64>,
    target: usize,
}

impl WriterLog {
    /// How long it took to send each message.
    pub closed spec fn sending_times(&self) -> Seq<u64> {
        self.sending@
    }

    /// How long it took to read the clock after each message.
    pub closed spec fn clock_times(&self) -> Seq<u64> {
        self.clock@
    }

    /// How many messages are to be noted down.
    pub closed spec fn goal(&self) -> nat {
        self.target as nat
    }

    /// An empty log, for `target` messages.
    pub fn new(target: usize) -> (log: WriterLog)
        ensures
            log.sending_times() == Seq::<u64>::empty(),
            log.clock_times() == Seq::<u64>::empty(),
            log.goal() == target,
    {
        WriterLog {
            sending: Trials::with_capacity(target),
            clock: Trials::with_capacity(target),
            target,
        }
    }

    /// Notes down a message: `before` and `after` it was sent, and `again` right afterwards. Says
    /// whether that was the last one.
    pub fn note(&mut self, before: u64, after: u64, again: u64) -> (done: bool)
        requires
            before <= after <= again,
        ensures
            final(self).sending_times() == old(self).sending_times().push((after - before) as u64),
            final(self).clock_times() == old(self).clock_times().push((again - after) as u64),
            final(self).goal() == old(self).goal(),
            done == (final(self).sending_times().len() == final(self).goal()),
    {
        self.sending.push(after - before);
        self.clock.push(again - after);
        self.sending.len() == self.target
    }

    /// The times that were noted down, in ascending order: for sending, and for the clock.
    pub fn finish(self) -> (sorted: (Trials<u64>, Trials<u64>))
        ensures
            sorted.0@.to_multiset() == self.sending_times().to_multiset(),
            sorted.1@.to_multiset() == self.clock_times().to_multiset(),
            stably_sorted(self.sending_times(), sorted.0@),
            stably_sorted(self.clock_times(), sorted.1@),
    {
        broadcast use vstd::laws_cmp::group_laws_cmp;

        let mut sending = self.sending;
        let mut clock = self.clock;
        sending.sort();
        clock.sort();
        proof {
            assert(obeys_cmp::<u64>());
        }
        (sending, clock)
    }
}

/// What a reader notes down: how long each message was on its way, and how long it was waited for.
pub struct ReaderLog {
    transit: Trials<u64>,
    waiting: Trials<u64>,
    prev_seq_no: u64,
    target: usize,
}

impl ReaderLog {
    /// How long each message was on its way.
    pub closed spec fn transit_times(&self) -> Seq<u64> {
        self.transit@
    }

    /// How long each message was waited for.
    pub closed spec fn waiting_times(&self) -> Seq<u64> {
        self.waiting@
    }

    /// The number of the last message, 0 if there was none.
    pub closed spec fn last_number(&self) -> u64 {
        self.prev_seq_no
    }

    /// How many messages are to be noted down.
    pub closed spec fn goal(&self) -> nat {
        self.target as nat
    }

    /// An empty log, for `target` messages.
    pub fn new(target: usize) -> (log: ReaderLog)
        ensures
            log.transit_times() == Seq::<u64>::empty(),
            log.waiting_times() == Seq::<u64>::empty(),
            log.last_number() == 0,
            log.goal() == target,
    {
        ReaderLog {
            transit: Trials::with_capacity(target),
            waiting: Trials::with_capacity(target),
            prev_seq_no: 0,
            target,
        }
    }

    /// The number of the last message, 0 if there was none.
    pub fn previous(&self) -> (seq_no: u64)
        ensures
            seq_no == self.last_number(),
    {
        self.prev_seq_no
    }

    /// Notes down message `seq_no`: since when it was waited for, when it was sent, and when it was
    /// received. Says how far ahead of the previous message it is, if not the next one, and whether
    /// it was the last.
    pub fn note(&mut self, since: u64, sent: u64, received: u64, seq_no: u64) -> (noted: (
        Option<u64>,
        bool,
    ))
        requires
            since <= received,
            sent <= received,
            old(self).last_number() <= seq_no,
        ensures
            final(self).transit_times() == old(self).transit_times().push((received - sent) as u64),
            final(self).waiting_times() == old(self).waiting_times().push(
                (received - since) as u64,
            ),
            final(self).last_number() == seq_no,
            final(self).goal() == old(self).goal(),
            noted.0 == (if old(self).last_number() != 0 && old(self).last_number() + 1 != seq_no {
                Some((seq_no - old(self).last_number()) as u64)
            } else {
                None
            }),
            noted.1 == (final(self).transit_times().len() == final(self).goal()),
    {
        self.transit.push(received - sent);
        self.waiting.push(received - since);
        let ahead = skipped(self.prev_seq_no, seq_no);
        self.prev_seq_no = seq_no;
        (ahead, self.transit.len() == self.target)
    }

    /// The times that were noted down, in ascending order: on the way, and waited for.
    pub fn finish(self) -> (sorted: (Trials<u64>, Trials<u64>))
        ensures
            sorted.0@.to_multiset() == self.transit_times().to_multiset(),
            sorted.1@.to_multiset() == self.waiting_times().to_multiset(),
            stably_sorted(self.transit_times(), sorted.0@),
            stably_sorted(self.waiting_times(), sorted.1@),
    {
        broadcast use vstd::laws_cmp::group_laws_cmp;

        let mut transit = self.transit;
        let mut waiting = self.waiting;
        transit.sort();
        waiting.sort();
        proof {
            assert(obeys_cmp::<u64>());
        }
        (transit, waiting)
    }
}

} // verus!
