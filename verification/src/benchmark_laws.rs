//! Laws of what surrounds a channel, stated of the calls: tables of measurements, regions of
//! shared memory, clocks, and the logs of a benchmark.
//!
//! The laws speak of calls by [`call_ensures`], so they hold of whatever the functions promise.
//! A mutable reference stands for what it refers to before the call (`old`) and after it
//! (`final`).
use crate::clock::{cycle_count, timespec_fits, timespec_ns};
use crate::report::{skipped, ReaderLog, WriterLog};
use crate::shm::{region_name_ok, region_size, Answer, Stage};
use crate::trials::{comma_separated, csv_header, csv_line, ties, Trials};
use core::cmp::Ordering;
use core::fmt::Display;
use vstd::laws_cmp::obeys_cmp;
use vstd::prelude::*;
use vstd::std_specs::cmp::OrdSpec;
use vstd::string::to_string_from_display_ensures;

verus! {

// ---------------------------------------------------------------------------
// Lines of a table
// ---------------------------------------------------------------------------

/// Where the fields of a line start, and what lies between them.
proof fn lemma_line(texts: Seq<Seq<char>>, i: int)
    requires
        0 <= i < texts.len(),
    ensures
        ({
            let line = comma_separated(texts);
            let width = |n: int, text: Seq<char>| n + text.len() + 1;
            let start = texts.subrange(0, i).fold_left(0, width);
            &&& line.len() + 1 == texts.fold_left(0, width)
            &&& 0 <= start
            &&& start + texts[i].len() <= line.len()
            &&& line.subrange(start, start + texts[i].len()) == texts[i]
            &&& i > 0 ==> start > 0 && line[start - 1] == ','
            &&& i == 0 ==> start == 0
            &&& i == texts.len() - 1 ==> start + texts[i].len() == line.len()
        }),
    decreases texts.len(),
{
    let line = comma_separated(texts);
    let width = |n: int, text: Seq<char>| n + text.len() + 1;
    let start = texts.subrange(0, i).fold_left(0, width);
    if texts.len() == 1 {
        assert(texts.drop_last() =~= Seq::empty());
        assert(texts.subrange(0, 0) =~= Seq::empty());
        assert(texts.drop_last().fold_left(0, width) == 0);
        assert(line.subrange(0, line.len() as int) =~= line);
    } else {
        let before = texts.drop_last();
        let rest = comma_separated(before);
        assert(line == rest + seq![','] + texts.last());
        if i < before.len() {
            lemma_line(before, i);
            assert(before.subrange(0, i) =~= texts.subrange(0, i));
            assert(line.subrange(start, start + texts[i].len()) =~= rest.subrange(
                start,
                start + texts[i].len(),
            ));
        } else {
            lemma_line(before, 0);
            assert(texts.subrange(0, i) =~= before);
            assert(line.subrange(start, start + texts[i].len()) =~= texts[i]);
        }
    }
}

/// A line is its fields, in order, with one comma between each and the next. Field `i` starts
/// after the fields before it and as many commas; the character before it is a comma, whatever
/// the field holds; and the line ends with the last field. So its length is the sum of the
/// lengths of the fields, and one less than their number.
pub proof fn law_csv_line(fields: Vec<String>, line: String, i: int)
    requires
        call_ensures(csv_line, (&fields,), line),
        0 <= i < fields@.len(),
    ensures
        ({
            let width = |n: int, field: String| n + field@.len() + 1;
            let start = fields@.subrange(0, i).fold_left(0, width);
            let field = fields@[i]@;
            &&& line@.len() + 1 == fields@.fold_left(0, width)
            &&& 0 <= start
            &&& start + field.len() <= line@.len()
            &&& line@.subrange(start, start + field.len()) == field
            &&& i > 0 ==> start > 0 && line@[start - 1] == ','
            &&& i == 0 ==> start == 0
            &&& i == fields@.len() - 1 ==> start + field.len() == line@.len()
        }),
{
    let texts = fields@.map_values(|field: String| field@);
    lemma_line(texts, i);
    lemma_widths(fields@.subrange(0, i));
    lemma_widths(fields@);
    assert(fields@.subrange(0, i).map_values(|field: String| field@) =~= texts.subrange(0, i));
}

/// Fields take up as much room as their characters.
proof fn lemma_widths(fields: Seq<String>)
    ensures
        fields.fold_left(0, |n: int, field: String| n + field@.len() + 1) == fields.map_values(
            |field: String| field@,
        ).fold_left(0, |n: int, text: Seq<char>| n + text.len() + 1),
    decreases fields.len(),
{
    if fields.len() > 0 {
        lemma_widths(fields.drop_last());
        assert(fields.drop_last().map_values(|field: String| field@) =~= fields.map_values(
            |field: String| field@,
        ).drop_last());
    }
}

/// No fields make an empty line, and one field is a line by itself.
pub proof fn law_csv_short_line(fields: Vec<String>, line: String)
    requires
        call_ensures(csv_line, (&fields,), line),
    ensures
        fields@.len() == 0 ==> line@.len() == 0,
        fields@.len() == 1 ==> line@ == fields@[0]@,
{
}

/// A field more is a comma and the field more.
pub proof fn law_csv_longer_line(
    fields: Vec<String>,
    line: String,
    field: String,
    more: Vec<String>,
    longer: String,
)
    requires
        fields@.len() > 0,
        call_ensures(csv_line, (&fields,), line),
        more@ == fields@.push(field),
        call_ensures(csv_line, (&more,), longer),
    ensures
        longer@ == line@.push(',') + field@,
{
    let texts = more@.map_values(|field: String| field@);
    assert(texts.drop_last() =~= fields@.map_values(|field: String| field@));
    assert(line@.push(',') =~= line@ + seq![',']);
}

/// If no field holds a comma, the only commas in a line are those between the fields, so that
/// splitting the line at its commas gives back the fields.
pub proof fn law_csv_commas(fields: Vec<String>, line: String)
    requires
        call_ensures(csv_line, (&fields,), line),
        fields@.len() > 0,
        forall|i: int, k: int|
            #![trigger fields@[i]@[k]]
            0 <= i < fields@.len() && 0 <= k < fields@[i]@.len() ==> fields@[i]@[k] != ',',
    ensures
        line@.filter(|c: char| c == ',').len() == fields@.len() - 1,
{
    let texts = fields@.map_values(|field: String| field@);
    assert forall|i: int, k: int|
        #![trigger texts[i][k]]
        0 <= i < texts.len() && 0 <= k < texts[i].len() implies texts[i][k] != ',' by {
        assert(texts[i][k] == fields@[i]@[k]);
    }
    lemma_commas(texts);
}

/// The commas of a line whose fields hold none.
proof fn lemma_commas(texts: Seq<Seq<char>>)
    requires
        texts.len() > 0,
        forall|i: int, k: int|
            #![trigger texts[i][k]]
            0 <= i < texts.len() && 0 <= k < texts[i].len() ==> texts[i][k] != ',',
    ensures
        comma_separated(texts).filter(|c: char| c == ',').len() == texts.len() - 1,
    decreases texts.len(),
{
    let comma = |c: char| c == ',';
    let last = texts.last();
    assert(forall|k: int| 0 <= k < last.len() ==> texts[texts.len() - 1][k] == #[trigger] last[k]);
    lemma_no_commas(last);
    if texts.len() > 1 {
        let before = texts.drop_last();
        assert forall|i: int, k: int|
            #![trigger before[i][k]]
            0 <= i < before.len() && 0 <= k < before[i].len() implies before[i][k] != ',' by {
            assert(before[i][k] == texts[i][k]);
        }
        lemma_commas(before);
        let rest = comma_separated(before);
        Seq::filter_distributes_over_add(rest + seq![','], last, comma);
        Seq::filter_distributes_over_add(rest, seq![','], comma);
        assert(seq![','].filter(comma).len() == 1) by {
            reveal(Seq::filter);
            assert(seq![','].drop_last() =~= Seq::<char>::empty());
            assert(Seq::<char>::empty().filter(comma).len() == 0);
        }
    }
}

/// A text without commas has none.
proof fn lemma_no_commas(text: Seq<char>)
    requires
        forall|k: int| 0 <= k < text.len() ==> #[trigger] text[k] != ',',
    ensures
        text.filter(|c: char| c == ',').len() == 0,
    decreases text.len(),
{
    reveal(Seq::filter);
    if text.len() > 0 {
        lemma_no_commas(text.drop_last());
    }
}

/// The heading names the columns: the title, the number, the least and the greatest, and nine
/// positions in between.
pub proof fn law_csv_header(header: &'static str)
    requires
        call_ensures(csv_header, (), header),
    ensures
        header@ == "name,n,min,max,0.1,0.5,0.75,0.9,0.95,0.99,0.999,0.9999,0.99999"@,
{
}

// ---------------------------------------------------------------------------
// Measurements
// ---------------------------------------------------------------------------

/// A new collection is empty, and has no measurements.
pub proof fn law_trials_start<T: Ord>(capacity: usize, trials: Trials<T>, n: usize, empty: bool)
    requires
        call_ensures(Trials::<T>::with_capacity, (capacity,), trials),
        call_ensures(Trials::<T>::len, (&trials,), n),
        call_ensures(Trials::<T>::is_empty, (&trials,), empty),
    ensures
        n == 0,
        empty,
        call_requires(Trials::<T>::with_capacity, (capacity,)),
{
}

/// A measurement that is added is one more, at the end; the others stay where they are.
pub proof fn law_trials_push<T: Ord>(
    trials: &mut Trials<T>,
    value: T,
    n: usize,
    m: usize,
    empty: bool,
    index: usize,
    before: &T,
    after: &T,
)
    requires
        call_ensures(Trials::<T>::push, (trials, value), ()),
        call_ensures(Trials::<T>::len, (&*old(trials),), n),
        call_ensures(Trials::<T>::len, (&*final(trials),), m),
        call_ensures(Trials::<T>::is_empty, (&*final(trials),), empty),
        index <= n,
        call_ensures(Trials::<T>::at, (&*old(trials), index), before),
        call_ensures(Trials::<T>::at, (&*final(trials), index), after),
    ensures
        m == n + 1,
        !empty,
        *after == (if index == n {
            value
        } else {
            *before
        }),
        call_requires(Trials::<T>::at, (&*final(trials), index)),
        call_requires(Trials::<T>::min, (&*final(trials),)),
        call_requires(Trials::<T>::max, (&*final(trials),)),
{
}

/// There are no measurements if and only if their number is 0. The first one and the last one
/// are those at the first position and at the last.
pub proof fn law_trials_ends<T: Ord>(
    trials: Trials<T>,
    n: usize,
    empty: bool,
    first: &T,
    last: &T,
    zero: &T,
    end: &T,
    index: usize,
)
    requires
        call_ensures(Trials::<T>::len, (&trials,), n),
        call_ensures(Trials::<T>::is_empty, (&trials,), empty),
        call_ensures(Trials::<T>::min, (&trials,), first),
        call_ensures(Trials::<T>::max, (&trials,), last),
        call_ensures(Trials::<T>::at, (&trials, 0), zero),
        index + 1 == n,
        call_ensures(Trials::<T>::at, (&trials, index), end),
    ensures
        empty <==> n == 0,
        n == trials@.len(),
        *first == *zero,
        *zero == trials@[0],
        *last == *end,
        *end == trials@[n - 1],
{
}

/// Emptiness is having no measurements.
pub proof fn law_trials_is_empty<T: Ord>(trials: Trials<T>, n: usize, empty: bool)
    requires
        call_ensures(Trials::<T>::len, (&trials,), n),
        call_ensures(Trials::<T>::is_empty, (&trials,), empty),
    ensures
        empty <==> n == 0,
        n == trials@.len(),
{
}

/// Sorting loses no measurement and makes up none, whatever the comparison of their type does.
pub proof fn law_trials_sort_keeps<T: Ord>(trials: &mut Trials<T>, x: T)
    requires
        call_ensures(Trials::<T>::sort, (trials,), ()),
    ensures
        final(trials)@.len() == old(trials)@.len(),
        final(trials)@.to_multiset().count(x) == old(trials)@.to_multiset().count(x),
        final(trials)@.contains(x) <==> old(trials)@.contains(x),
{
    broadcast use vstd::seq_lib::group_to_multiset_ensures;

    assert(final(trials)@.len() == final(trials)@.to_multiset().len());
    assert(old(trials)@.len() == old(trials)@.to_multiset().len());
    assert(final(trials)@.contains(x) <==> final(trials)@.to_multiset().count(x) > 0);
    assert(old(trials)@.contains(x) <==> old(trials)@.to_multiset().count(x) > 0);
}

/// If the comparison is a total order, the sorted measurements are in ascending order, and
/// equal ones are in the order in which they were.
pub proof fn law_trials_sort_orders<T: Ord>(trials: &mut Trials<T>, i: int, j: int, key: T)
    requires
        obeys_cmp::<T>(),
        call_ensures(Trials::<T>::sort, (trials,), ()),
    ensures
        0 <= i <= j < final(trials)@.len() ==> final(trials)@[i].cmp_spec(&final(trials)@[j])
            != Ordering::Greater,
        final(trials)@.filter(|x: T| x.cmp_spec(&key) == Ordering::Equal) == old(trials)@.filter(
            |x: T| x.cmp_spec(&key) == Ordering::Equal,
        ),
{
    assert(ties(final(trials)@, key) == ties(old(trials)@, key));
}

/// Numbers are sorted by size: none is greater than one that stands behind it, and the first
/// and the last are the least and the greatest.
pub proof fn law_trials_sort_numbers(
    trials: &mut Trials<u64>,
    i: int,
    j: int,
    least: &u64,
    greatest: &u64,
)
    requires
        call_ensures(Trials::<u64>::sort, (trials,), ()),
        call_ensures(Trials::<u64>::min, (&*final(trials),), least),
        call_ensures(Trials::<u64>::max, (&*final(trials),), greatest),
    ensures
        0 <= i <= j < final(trials)@.len() ==> final(trials)@[i] <= final(trials)@[j],
        0 <= i < old(trials)@.len() ==> *least <= old(trials)@[i] <= *greatest,
{
    broadcast use vstd::laws_cmp::group_laws_cmp;

    assert(obeys_cmp::<u64>());
    if 0 <= i < old(trials)@.len() {
        law_trials_sort_keeps(trials, old(trials)@[i]);
        let k = choose|k: int|
            0 <= k < final(trials)@.len() && final(trials)@[k] == old(trials)@[i];
        assert(final(trials)@[k] == old(trials)@[i]);
        law_trials_sort_orders(trials, 0, k, 0);
        law_trials_sort_orders(trials, k, final(trials)@.len() - 1, 0);
    }
    law_trials_sort_orders(trials, i, j, 0);
}

/// The fields of a line of measurements are the title, how their number, the first and the last
/// of them are displayed, and how those at the given positions are, in that order.
pub proof fn law_csv_fields<T: Ord + Display>(
    trials: Trials<T>,
    title: &str,
    positions: Vec<usize>,
    fields: Vec<String>,
    n: usize,
    i: int,
)
    requires
        call_ensures(Trials::<T>::csv_fields, (&trials, title, &positions), fields),
        call_ensures(Trials::<T>::len, (&trials,), n),
    ensures
        fields@.len() == 4 + positions@.len(),
        fields@[0]@ == title@,
        to_string_from_display_ensures::<usize>(&n, fields@[1]),
        to_string_from_display_ensures::<T>(&trials@[0], fields@[2]),
        to_string_from_display_ensures::<T>(&trials@.last(), fields@[3]),
        0 <= i < positions@.len() ==> to_string_from_display_ensures::<T>(
            &trials@[positions@[i] as int],
            fields@[4 + i],
        ),
        trials@.len() > 0 && (forall|j: int|
            0 <= j < positions@.len() ==> #[trigger] positions@[j] < trials@.len())
            ==> call_requires(Trials::<T>::csv_fields, (&trials, title, &positions)),
{
}

// ---------------------------------------------------------------------------
// Regions of shared memory
// ---------------------------------------------------------------------------

/// A name is accepted if and only if it is a slash followed by characters none of which is a
/// slash or NUL, however many.
pub proof fn law_region_name(name: &str, ok: bool)
    requires
        call_ensures(region_name_ok, (name,), ok),
    ensures
        ok <==> {
            &&& name@.len() > 0
            &&& name@[0] == '/'
            &&& !name@.subrange(1, name@.len() as int).contains('/')
            &&& !name@.subrange(1, name@.len() as int).contains('\0')
        },
        call_requires(region_name_ok, (name,)),
{
    if name@.len() > 0 {
        let rest = name@.subrange(1, name@.len() as int);
        assert forall|i: int| 0 < i < name@.len() implies #[trigger] name@[i] == rest[i - 1] by {}
        if rest.contains('/') {
            let i = choose|i: int| 0 <= i < rest.len() && rest[i] == '/';
            assert(name@[i + 1] == '/');
        }
        if rest.contains('\0') {
            let i = choose|i: int| 0 <= i < rest.len() && rest[i] == '\0';
            assert(name@[i + 1] == '\0');
        }
    }
}

/// A slash is a name.
pub proof fn law_region_name_slash(name: &str, ok: bool)
    requires
        name@ == seq!['/'],
        call_ensures(region_name_ok, (name,), ok),
    ensures
        ok,
{
}

/// If a name is accepted, so is the name with one more character at the end, unless that is a
/// slash or NUL, however long the name is. If one is not, no longer one is.
pub proof fn law_region_name_grows(name: &str, ok: bool, c: char, longer: &str, longer_ok: bool)
    requires
        name@.len() > 0,
        call_ensures(region_name_ok, (name,), ok),
        longer@ == name@.push(c),
        call_ensures(region_name_ok, (longer,), longer_ok),
    ensures
        longer_ok <==> ok && c != '/' && c != '\0',
{
    assert forall|i: int| 0 <= i < name@.len() implies #[trigger] name@[i] == longer@[i] by {}
    assert(longer@[name@.len() as int] == c);
}

/// The size of a region is the product of the number of slots and the size of one, and there is
/// none if that is not a number.
pub proof fn law_region_size(capacity: usize, slot_size: usize, size: Option<usize>)
    requires
        call_ensures(region_size, (capacity, slot_size), size),
    ensures
        size is Some <==> capacity * slot_size <= usize::MAX,
        size matches Some(bytes) ==> bytes == capacity * slot_size,
        call_requires(region_size, (capacity, slot_size)),
{
}

/// What follows each answer while a region is mapped. A region that was opened is resized,
/// mapped and closed; an error skips to closing it, or to the end if it was not opened; and the
/// end has the address if mapping succeeded, and the error that came up if not, however closing
/// goes.
pub proof fn law_stage_next(fd: i32, address: usize, code: i32, result: Stage)
    ensures
        call_ensures(Stage::next, (Stage::Open, Answer::Descriptor { fd }), result) ==> result == (
        Stage::Resize { fd }),
        call_ensures(Stage::next, (Stage::Open, Answer::Error { code }), result) ==> result == (
        Stage::End { outcome: Err(code) }),
        call_ensures(Stage::next, (Stage::Resize { fd }, Answer::Done), result) ==> result == (
        Stage::Attach { fd }),
        call_ensures(Stage::next, (Stage::Resize { fd }, Answer::Error { code }), result)
            ==> result == (Stage::Close { fd, outcome: Err(code) }),
        call_ensures(Stage::next, (Stage::Attach { fd }, Answer::Address { address }), result)
            ==> result == (Stage::Close { fd, outcome: Ok(address) }),
        call_ensures(Stage::next, (Stage::Attach { fd }, Answer::Error { code }), result)
            ==> result == (Stage::Close { fd, outcome: Err(code) }),
        call_requires(Stage::next, (Stage::Open, Answer::Descriptor { fd })),
        call_requires(Stage::next, (Stage::Open, Answer::Error { code })),
        call_requires(Stage::next, (Stage::Resize { fd }, Answer::Done)),
        call_requires(Stage::next, (Stage::Resize { fd }, Answer::Error { code })),
        call_requires(Stage::next, (Stage::Attach { fd }, Answer::Address { address })),
        call_requires(Stage::next, (Stage::Attach { fd }, Answer::Error { code })),
{
}

/// Closing a descriptor ends the mapping with the outcome that it had before, whatever the
/// system answers.
pub proof fn law_stage_close(
    fd: i32,
    outcome: Result<usize, i32>,
    code: i32,
    answer: Answer,
    result: Stage,
)
    requires
        answer == Answer::Done || answer == (Answer::Error { code }),
        call_ensures(Stage::next, (Stage::Close { fd, outcome }, answer), result),
    ensures
        result == (Stage::End { outcome }),
        call_requires(Stage::next, (Stage::Close { fd, outcome }, answer)),
{
}

/// A mapping in which nothing fails: it opens the region, resizes it, maps it, and closes the
/// descriptor that it opened.
pub proof fn law_mapping_succeeds(
    fd: i32,
    address: usize,
    code: i32,
    opened: Stage,
    resized: Stage,
    attached: Stage,
    closing: Answer,
    closed: Stage,
)
    requires
        call_ensures(Stage::next, (Stage::Open, Answer::Descriptor { fd }), opened),
        call_ensures(Stage::next, (opened, Answer::Done), resized),
        call_ensures(Stage::next, (resized, Answer::Address { address }), attached),
        closing == Answer::Done || closing == (Answer::Error { code }),
        call_ensures(Stage::next, (attached, closing), closed),
    ensures
        opened matches Stage::Resize { fd: kept } && kept == fd,
        resized matches Stage::Attach { fd: kept } && kept == fd,
        attached matches Stage::Close { fd: kept, .. } && kept == fd,
        closed == (Stage::End { outcome: Ok(address) }),
{
}

// ---------------------------------------------------------------------------
// Clocks
// ---------------------------------------------------------------------------

/// A reading is told in nanoseconds if the number of them is a number, and only then.
pub proof fn law_timespec(sec: u64, nsec: u64, fits: bool, ns: u64)
    requires
        call_ensures(timespec_fits, (sec, nsec), fits),
    ensures
        fits <==> sec * 1_000_000_000 + nsec <= 0xffff_ffff_ffff_ffff,
        fits ==> call_requires(timespec_ns, (sec, nsec)),
        call_ensures(timespec_ns, (sec, nsec), ns) ==> ns == sec * 1_000_000_000 + nsec,
        call_requires(timespec_fits, (sec, nsec)),
{
}

/// A nanosecond later is one more, and a second later is a thousand million more.
pub proof fn law_timespec_steps(
    sec: u64,
    nsec: u64,
    now: u64,
    next_nsec: u64,
    soon: u64,
    next_sec: u64,
    later: u64,
)
    requires
        next_nsec == nsec + 1,
        next_sec == sec + 1,
        call_ensures(timespec_ns, (sec, nsec), now),
        call_ensures(timespec_ns, (sec, next_nsec), soon),
        call_ensures(timespec_ns, (next_sec, nsec), later),
    ensures
        soon == now + 1,
        later == now + 1_000_000_000,
{
}

/// The count of a cycle counter has the one half above the other.
pub proof fn law_cycle_count(high: u32, low: u32, count: u64)
    requires
        call_ensures(cycle_count, (high, low), count),
    ensures
        count == high * 0x1_0000_0000 + low,
        count as int / 0x1_0000_0000 == high,
        count as int % 0x1_0000_0000 == low,
        call_requires(cycle_count, (high, low)),
{
}

// ---------------------------------------------------------------------------
// Logs
// ---------------------------------------------------------------------------

/// A reader was thrown ahead if it has a previous message, and the new one is not the one that
/// follows it; by how much is the difference of their numbers.
pub proof fn law_skipped(prev_seq_no: u64, seq_no: u64, ahead: Option<u64>)
    requires
        prev_seq_no <= seq_no,
        call_ensures(skipped, (prev_seq_no, seq_no), ahead),
    ensures
        ahead is Some <==> prev_seq_no > 0 && seq_no - prev_seq_no != 1,
        ahead matches Some(by) ==> by == seq_no - prev_seq_no,
        call_requires(skipped, (prev_seq_no, seq_no)),
{
}

/// A writer's log starts empty, and notes down for each message the time that sending it took,
/// and the time that reading the clock took after it. It says so when it has noted down as many
/// as asked for.
pub proof fn law_writer_log(
    target: usize,
    made: WriterLog,
    log: &mut WriterLog,
    before: u64,
    after: u64,
    again: u64,
    done: bool,
)
    requires
        call_ensures(WriterLog::new, (target,), made),
        old(log).goal() == made.goal(),
        before <= after <= again,
        call_ensures(WriterLog::note, (log, before, after, again), done),
    ensures
        made.sending_times().len() == 0,
        made.clock_times().len() == 0,
        made.goal() == target,
        final(log).goal() == target,
        final(log).sending_times().len() == old(log).sending_times().len() + 1,
        final(log).sending_times().drop_last() == old(log).sending_times(),
        final(log).sending_times().last() == after - before,
        final(log).clock_times().len() == old(log).clock_times().len() + 1,
        final(log).clock_times().drop_last() == old(log).clock_times(),
        final(log).clock_times().last() == again - after,
        done <==> final(log).sending_times().len() == target,
        call_requires(WriterLog::note, (log, before, after, again)),
{
}

/// A writer's log ends with all the times that it noted down, and no others, in ascending
/// order.
pub proof fn law_writer_log_finish(
    log: WriterLog,
    sorted: (Trials<u64>, Trials<u64>),
    x: u64,
    i: int,
    j: int,
)
    requires
        call_ensures(WriterLog::finish, (log,), sorted),
    ensures
        sorted.0@.to_multiset().count(x) == log.sending_times().to_multiset().count(x),
        sorted.1@.to_multiset().count(x) == log.clock_times().to_multiset().count(x),
        0 <= i <= j < sorted.0@.len() ==> sorted.0@[i] <= sorted.0@[j],
        0 <= i <= j < sorted.1@.len() ==> sorted.1@[i] <= sorted.1@[j],
        sorted.0@.len() == log.sending_times().len(),
        sorted.1@.len() == log.clock_times().len(),
        call_requires(WriterLog::finish, (log,)),
{
    broadcast use vstd::seq_lib::group_to_multiset_ensures;

    assert(sorted.0@.len() == sorted.0@.to_multiset().len());
    assert(sorted.1@.len() == sorted.1@.to_multiset().len());
    assert(log.sending_times().len() == log.sending_times().to_multiset().len());
    assert(log.clock_times().len() == log.clock_times().to_multiset().len());
}

/// A reader's log starts empty, and notes down for each message the time since it was sent, and
/// the time since it was waited for. It says how far ahead of the message before it is, if that
/// is not the one right before, and whether as many were noted down as asked for.
pub proof fn law_reader_log(
    target: usize,
    made: ReaderLog,
    log: &mut ReaderLog,
    since: u64,
    sent: u64,
    received: u64,
    seq_no: u64,
    noted: (Option<u64>, bool),
    before: u64,
    after: u64,
    first: u64,
)
    requires
        call_ensures(ReaderLog::new, (target,), made),
        call_ensures(ReaderLog::previous, (&made,), first),
        old(log).goal() == made.goal(),
        call_ensures(ReaderLog::previous, (&*old(log),), before),
        since <= received,
        sent <= received,
        before <= seq_no,
        call_ensures(ReaderLog::note, (log, since, sent, received, seq_no), noted),
        call_ensures(ReaderLog::previous, (&*final(log),), after),
    ensures
        made.transit_times().len() == 0,
        made.waiting_times().len() == 0,
        made.goal() == target,
        first == 0,
        after == seq_no,
        final(log).goal() == target,
        final(log).transit_times().len() == old(log).transit_times().len() + 1,
        final(log).transit_times().drop_last() == old(log).transit_times(),
        final(log).transit_times().last() == received - sent,
        final(log).waiting_times().len() == old(log).waiting_times().len() + 1,
        final(log).waiting_times().drop_last() == old(log).waiting_times(),
        final(log).waiting_times().last() == received - since,
        noted.0 is Some <==> before > 0 && seq_no - before != 1,
        noted.0 matches Some(by) ==> by == seq_no - before,
        noted.1 <==> final(log).transit_times().len() == target,
        call_requires(ReaderLog::note, (log, since, sent, received, seq_no)),
{
}

/// A reader's log ends with all the times that it noted down, and no others, in ascending
/// order.
pub proof fn law_reader_log_finish(
    log: ReaderLog,
    sorted: (Trials<u64>, Trials<u64>),
    x: u64,
    i: int,
    j: int,
)
    requires
        call_ensures(ReaderLog::finish, (log,), sorted),
    ensures
        sorted.0@.to_multiset().count(x) == log.transit_times().to_multiset().count(x),
        sorted.1@.to_multiset().count(x) == log.waiting_times().to_multiset().count(x),
        0 <= i <= j < sorted.0@.len() ==> sorted.0@[i] <= sorted.0@[j],
        0 <= i <= j < sorted.1@.len() ==> sorted.1@[i] <= sorted.1@[j],
        sorted.0@.len() == log.transit_times().len(),
        sorted.1@.len() == log.waiting_times().len(),
        call_requires(ReaderLog::finish, (log,)),
{
    broadcast use vstd::seq_lib::group_to_multiset_ensures;

    assert(sorted.0@.len() == sorted.0@.to_multiset().len());
    assert(sorted.1@.len() == sorted.1@.to_multiset().len());
    assert(log.transit_times().len() == log.transit_times().to_multiset().len());
    assert(log.waiting_times().len() == log.waiting_times().to_multiset().len());
}

} // verus!
