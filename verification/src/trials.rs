//! Measurements: collecting them, putting them in order, reading off the extremes.
use core::cmp::Ordering;
use core::fmt::Display;
use vstd::laws_cmp::{
    obeys_cmp, obeys_cmp_ord, obeys_cmp_partial_ord, obeys_partial_cmp_spec_properties,
};
use vstd::laws_eq::obeys_eq_spec_properties;
use vstd::prelude::*;
use vstd::std_specs::cmp::{OrdSpec, PartialEqSpec, PartialOrdSpec};
use vstd::string::{to_string_from_display_ensures, StringExecFns};

verus! {

/// Whether `a` may stand before `b` in an ordered sequence.
pub open spec fn at_most<T: Ord>(a: T, b: T) -> bool {
    a.cmp_spec(&b) != Ordering::Greater
}

/// Whether a sequence is in ascending order.
pub open spec fn ascending<T: Ord>(s: Seq<T>) -> bool {
    forall|i: int, j: int|
        #![trigger s[i], s[j]]
        0 <= i <= j < s.len() ==> at_most(s[i], s[j])
}

/// The elements of a sequence that are equal to `key`, in the order in which they
/// occur.
pub open spec fn ties<T: Ord>(s: Seq<T>, key: T) -> Seq<T> {
    s.filter(|x: T| x.cmp_spec(&key) == Ordering::Equal)
}

/// Whether `b` is what a stable sort makes of `a`.
pub open spec fn stably_sorted<T: Ord>(a: Seq<T>, b: Seq<T>) -> bool {
    &&& ascending(b)
    &&& forall|key: T| #[trigger] ties(b, key) == ties(a, key)
}

/// In a type whose comparison is a total order, `at_most` is one.
proof fn lemma_at_most<T: Ord>(a: T, b: T, c: T)
    requires
        obeys_cmp::<T>(),
    ensures
        at_most(a, a),
        at_most(a, b) || at_most(b, a),
        at_most(a, b) && at_most(b, c) ==> at_most(a, c),
        at_most(a, b) && !at_most(b, a) && at_most(b, c) ==> !at_most(c, a),
        at_most(a, b) && at_most(b, c) && !at_most(c, b) ==> !at_most(c, a),
        a.cmp_spec(&b) == Ordering::Equal <==> at_most(a, b) && at_most(b, a),
        a.cmp_spec(&b) == Ordering::Equal && b.cmp_spec(&c) == Ordering::Equal ==> a.cmp_spec(&c)
            == Ordering::Equal,
{
    reveal(obeys_eq_spec_properties);
    reveal(obeys_partial_cmp_spec_properties);
    reveal(obeys_cmp_partial_ord);
    reveal(obeys_cmp_ord);
    assert(a.partial_cmp_spec(&b) == Some(a.cmp_spec(&b)));
    assert(b.partial_cmp_spec(&a) == Some(b.cmp_spec(&a)));
    assert(b.partial_cmp_spec(&c) == Some(b.cmp_spec(&c)));
    assert(c.partial_cmp_spec(&b) == Some(c.cmp_spec(&b)));
    assert(a.partial_cmp_spec(&c) == Some(a.cmp_spec(&c)));
    assert(c.partial_cmp_spec(&a) == Some(c.cmp_spec(&a)));
    assert(a.partial_cmp_spec(&a) == Some(a.cmp_spec(&a)));
    assert(a.eq_spec(&a));
}

/// Taking an element from the end of one sequence to the front of another.
proof fn lemma_ties_move<T: Ord>(from: Seq<T>, x: T, to: Seq<T>, key: T)
    ensures
        ties(from.push(x), key) == ties(from, key) + ties(seq![x], key),
        ties(seq![x] + to, key) == ties(seq![x], key) + ties(to, key),
{
    let pred = |y: T| y.cmp_spec(&key) == Ordering::Equal;
    assert(from.push(x) == from + seq![x]);
    Seq::filter_distributes_over_add(from, seq![x], pred);
    Seq::filter_distributes_over_add(seq![x], to, pred);
}

/// A sequence that holds nothing equal to `key` has no ties with it.
proof fn lemma_no_ties<T: Ord>(s: Seq<T>, key: T)
    requires
        forall|i: int| 0 <= i < s.len() ==> (#[trigger] s[i]).cmp_spec(&key) != Ordering::Equal,
    ensures
        ties(s, key) == Seq::<T>::empty(),
    decreases s.len(),
{
    reveal(Seq::filter);
    if s.len() > 0 {
        lemma_no_ties(s.drop_last(), key);
    }
}

/// Moves the elements of a vector to a new one, last first.
fn reversed<T>(v: Vec<T>) -> (out: Vec<T>)
    ensures
        out@ == v@.reverse(),
{
    let mut rest = v;
    let mut out: Vec<T> = Vec::with_capacity(rest.len());
    while rest.len() > 0
        invariant
            rest@.len() + out@.len() == v@.len(),
            rest@ == v@.subrange(0, rest@.len() as int),
            forall|i: int| 0 <= i < out@.len() ==> #[trigger] out@[i] == v@[v@.len() - 1 - i],
        decreases rest.len(),
    {
        if let Some(x) = rest.pop() {
            out.push(x);
        }
    }
    out
}

/// What is left to merge of two ordered runs, and what has been merged already.
spec fn merging<T: Ord>(l: Seq<T>, r: Seq<T>, t: Seq<T>, left: Seq<T>, right: Seq<T>) -> bool {
    &&& ascending(l)
    &&& ascending(r)
    &&& ascending(t)
    &&& forall|i: int, j: int|
        #![trigger l[i], t[j]]
        0 <= i < l.len() && 0 <= j < t.len() ==> at_most(l[i], t[j])
    &&& forall|i: int, j: int|
        #![trigger r[i], t[j]]
        0 <= i < r.len() && 0 <= j < t.len() ==> at_most(r[i], t[j])
    &&& forall|key: T|
        #![trigger ties(t, key)]
        ties(l, key) + ties(r, key) + ties(t, key) == ties(left, key) + ties(right, key)
}

/// One step of a merge that takes from the left run.
proof fn lemma_take_left<T: Ord>(l: Seq<T>, x: T, r: Seq<T>, t: Seq<T>, left: Seq<T>, right: Seq<T>)
    requires
        obeys_cmp::<T>(),
        merging(l.push(x), r, t, left, right),
        r.len() > 0 ==> x.cmp_spec(&r.last()) == Ordering::Greater,
    ensures
        merging(l, r, seq![x] + t, left, right),
{
    let lx = l.push(x);
    let xt = seq![x] + t;
    let k = lx.len() - 1;
    assert(lx[k] == x);
    assert forall|i: int| 0 <= i < r.len() implies at_most(#[trigger] r[i], x) && !at_most(
        x,
        r[i],
    ) by {
        lemma_at_most(r[i], r.last(), x);
        lemma_at_most(r.last(), x, x);
        assert(at_most(r[i], r[r.len() - 1]));
    }
    assert forall|i: int, j: int| #![trigger l[i], l[j]] 0 <= i <= j < l.len() implies at_most(
        l[i],
        l[j],
    ) by {
        assert(lx[i] == l[i] && lx[j] == l[j]);
    }
    assert forall|i: int, j: int| #![trigger xt[i], xt[j]] 0 <= i <= j < xt.len() implies at_most(
        xt[i],
        xt[j],
    ) by {
        if i == 0 && j == 0 {
            lemma_at_most(x, x, x);
        } else if i == 0 {
            assert(xt[j] == t[j - 1]);
            assert(at_most(lx[k], t[j - 1]));
        } else {
            assert(xt[i] == t[i - 1] && xt[j] == t[j - 1]);
        }
    }
    assert forall|i: int, j: int|
        #![trigger l[i], xt[j]]
        0 <= i < l.len() && 0 <= j < xt.len() implies at_most(l[i], xt[j]) by {
        assert(lx[i] == l[i]);
        if j == 0 {
            assert(at_most(lx[i], lx[k]));
        } else {
            assert(xt[j] == t[j - 1]);
        }
    }
    assert forall|i: int, j: int|
        #![trigger r[i], xt[j]]
        0 <= i < r.len() && 0 <= j < xt.len() implies at_most(r[i], xt[j]) by {
        if j > 0 {
            assert(xt[j] == t[j - 1]);
        }
    }
    assert forall|key: T| #![trigger ties(xt, key)] ties(l, key) + ties(r, key) + ties(xt, key)
        == ties(left, key) + ties(right, key) by {
        lemma_ties_move(l, x, t, key);
        assert(ties(lx, key) + ties(r, key) + ties(t, key) == ties(left, key) + ties(right, key));
        if x.cmp_spec(&key) == Ordering::Equal {
            assert forall|i: int| 0 <= i < r.len() implies (#[trigger] r[i]).cmp_spec(&key)
                != Ordering::Equal by {
                lemma_at_most(r[i], key, x);
                lemma_at_most(key, x, key);
                lemma_at_most(x, key, x);
                lemma_at_most(r[i], x, x);
            }
            lemma_no_ties(r, key);
            assert(ties(l, key) + ties(r, key) + ties(xt, key) =~= ties(lx, key) + ties(r, key)
                + ties(t, key));
        } else {
            lemma_no_ties(seq![x], key);
            assert(ties(l, key) + ties(r, key) + ties(xt, key) =~= ties(lx, key) + ties(r, key)
                + ties(t, key));
        }
    }
}

/// One step of a merge that takes from the right run.
proof fn lemma_take_right<T: Ord>(
    l: Seq<T>,
    r: Seq<T>,
    x: T,
    t: Seq<T>,
    left: Seq<T>,
    right: Seq<T>,
)
    requires
        obeys_cmp::<T>(),
        merging(l, r.push(x), t, left, right),
        l.len() > 0 ==> at_most(l.last(), x),
    ensures
        merging(l, r, seq![x] + t, left, right),
{
    let rx = r.push(x);
    let xt = seq![x] + t;
    let k = rx.len() - 1;
    assert(rx[k] == x);
    assert forall|i: int| 0 <= i < l.len() implies at_most(#[trigger] l[i], x) by {
        lemma_at_most(l[i], l.last(), x);
        assert(at_most(l[i], l[l.len() - 1]));
    }
    assert forall|i: int, j: int| #![trigger r[i], r[j]] 0 <= i <= j < r.len() implies at_most(
        r[i],
        r[j],
    ) by {
        assert(rx[i] == r[i] && rx[j] == r[j]);
    }
    assert forall|i: int, j: int| #![trigger xt[i], xt[j]] 0 <= i <= j < xt.len() implies at_most(
        xt[i],
        xt[j],
    ) by {
        if i == 0 && j == 0 {
            lemma_at_most(x, x, x);
        } else if i == 0 {
            assert(xt[j] == t[j - 1]);
            assert(at_most(rx[k], t[j - 1]));
        } else {
            assert(xt[i] == t[i - 1] && xt[j] == t[j - 1]);
        }
    }
    assert forall|i: int, j: int|
        #![trigger r[i], xt[j]]
        0 <= i < r.len() && 0 <= j < xt.len() implies at_most(r[i], xt[j]) by {
        assert(rx[i] == r[i]);
        if j == 0 {
            assert(at_most(rx[i], rx[k]));
        } else {
            assert(xt[j] == t[j - 1]);
        }
    }
    assert forall|i: int, j: int|
        #![trigger l[i], xt[j]]
        0 <= i < l.len() && 0 <= j < xt.len() implies at_most(l[i], xt[j]) by {
        if j > 0 {
            assert(xt[j] == t[j - 1]);
        }
    }
    assert forall|key: T| #![trigger ties(xt, key)] ties(l, key) + ties(r, key) + ties(xt, key)
        == ties(left, key) + ties(right, key) by {
        lemma_ties_move(r, x, t, key);
        assert(ties(l, key) + ties(rx, key) + ties(t, key) == ties(left, key) + ties(right, key));
        assert(ties(l, key) + ties(r, key) + ties(xt, key) =~= ties(l, key) + ties(rx, key) + ties(
            t,
            key,
        ));
    }
}

/// Merges two ordered runs. Of equal elements, those of the left run come first.
fn merge<T: Ord>(left: Vec<T>, right: Vec<T>) -> (out: Vec<T>)
    ensures
        out@.to_multiset() == left@.to_multiset().add(right@.to_multiset()),
        obeys_cmp::<T>() && ascending(left@) && ascending(right@) ==> stably_sorted(
            left@ + right@,
            out@,
        ),
{
    let ghost ordered = obeys_cmp::<T>() && ascending(left@) && ascending(right@);
    let mut l = left;
    let mut r = right;
    let mut tail: Vec<T> = Vec::with_capacity(l.len());
    let ghost mut t: Seq<T> = Seq::empty();
    proof {
        reveal(Seq::filter);
        assert(tail@.reverse() =~= t);
        broadcast use vstd::seq_lib::group_to_multiset_ensures;
        assert(t.to_multiset() =~= vstd::multiset::Multiset::empty()) by {
            t.to_multiset_ensures();
            assert(t.to_multiset().len() == 0);
        }
        assert forall|key: T| #![trigger ties(t, key)] ties(l@, key) + ties(r@, key) + ties(t, key)
            == ties(left@, key) + ties(right@, key) by {
            assert(ties(t, key) =~= Seq::<T>::empty());
        }
    }
    while l.len() > 0 || r.len() > 0
        invariant
            ordered ==> obeys_cmp::<T>() && merging(l@, r@, t, left@, right@),
            ordered == (obeys_cmp::<T>() && ascending(left@) && ascending(right@)),
            t == tail@.reverse(),
            l@.to_multiset().add(r@.to_multiset()).add(tail@.to_multiset())
                == left@.to_multiset().add(right@.to_multiset()),
        decreases l.len() + r.len(),
    {
        let take_left = if l.len() == 0 {
            false
        } else if r.len() == 0 {
            true
        } else {
            match l[l.len() - 1].cmp(&r[r.len() - 1]) {
                Ordering::Greater => true,
                _ => false,
            }
        };
        let ghost before = tail@;
        let ghost l0 = l@;
        let ghost r0 = r@;
        proof {
            reveal(obeys_cmp_ord);
        }
        if take_left {
            if let Some(x) = l.pop() {
                tail.push(x);
                proof {
                    broadcast use vstd::seq_lib::group_to_multiset_ensures;
                    assert(l0 == l@.push(x));
                    if ordered {
                        lemma_take_left(l@, x, r@, t, left@, right@);
                    }
                    assert(tail@.reverse() =~= seq![x] + t);
                    t = seq![x] + t;
                    assert(l@.to_multiset().add(r@.to_multiset()).add(tail@.to_multiset())
                        =~= l0.to_multiset().add(r0.to_multiset()).add(before.to_multiset()));
                }
            }
        } else {
            if let Some(x) = r.pop() {
                tail.push(x);
                proof {
                    broadcast use vstd::seq_lib::group_to_multiset_ensures;
                    assert(r0 == r@.push(x));
                    if ordered {
                        lemma_take_right(l@, r@, x, t, left@, right@);
                    }
                    assert(tail@.reverse() =~= seq![x] + t);
                    t = seq![x] + t;
                    assert(l@.to_multiset().add(r@.to_multiset()).add(tail@.to_multiset())
                        =~= l0.to_multiset().add(r0.to_multiset()).add(before.to_multiset()));
                }
            }
        }
    }
    proof {
        broadcast use vstd::seq_lib::group_to_multiset_ensures;
        tail@.lemma_reverse_to_multiset();
        l@.to_multiset_ensures();
        r@.to_multiset_ensures();
        assert(l@.to_multiset().len() == 0);
        assert(r@.to_multiset().len() == 0);
        assert(l@.to_multiset().add(r@.to_multiset()).add(tail@.to_multiset())
            =~= tail@.to_multiset());
        if ordered {
            assert forall|key: T| #[trigger] ties(t, key) == ties(left@ + right@, key) by {
                let pred = |y: T| y.cmp_spec(&key) == Ordering::Equal;
                Seq::filter_distributes_over_add(left@, right@, pred);
                lemma_no_ties(l@, key);
                lemma_no_ties(r@, key);
                assert(ties(l@, key) + ties(r@, key) + ties(t, key) =~= ties(t, key));
            }
        }
    }
    reversed(tail)
}

/// Sorts a vector by merging. Equal elements keep their order.
fn merge_sort<T: Ord>(v: Vec<T>) -> (out: Vec<T>)
    ensures
        out@.to_multiset() == v@.to_multiset(),
        obeys_cmp::<T>() ==> stably_sorted(v@, out@),
    decreases v.len(),
{
    if v.len() < 2 {
        proof {
            if obeys_cmp::<T>() && v@.len() == 1 {
                lemma_at_most(v@[0], v@[0], v@[0]);
            }
        }
        return v;
    }
    let mut front = v;
    let mid = front.len() / 2;
    let back = front.split_off(mid);
    proof {
        vstd::seq_lib::lemma_multiset_commutative(front@, back@);
        assert(front@ + back@ =~= v@);
    }
    let ghost a = front@;
    let ghost b = back@;
    let left = merge_sort(front);
    let right = merge_sort(back);
    let out = merge(left, right);
    proof {
        if obeys_cmp::<T>() {
            assert forall|key: T| #[trigger] ties(out@, key) == ties(v@, key) by {
                let pred = |y: T| y.cmp_spec(&key) == Ordering::Equal;
                Seq::filter_distributes_over_add(a, b, pred);
                Seq::filter_distributes_over_add(left@, right@, pred);
                assert(ties(left@, key) == ties(a, key));
                assert(ties(right@, key) == ties(b, key));
                assert(ties(out@, key) == ties(left@ + right@, key));
            }
        }
    }
    out
}

/// A collection of measurements.
pub struct Trials<T> {
    trials: Vec<T>,
}

impl<T> View for Trials<T> {
    type V = Seq<T>;

    closed spec fn view(&self) -> Seq<T> {
        self.trials@
    }
}

impl<T: Ord> Trials<T> {
    /// An empty collection with room for `capacity` measurements.
    pub fn with_capacity(capacity: usize) -> (trials: Trials<T>)
        ensures
            trials@ == Seq::<T>::empty(),
    {
        Trials { trials: Vec::with_capacity(capacity) }
    }

    /// Adds a measurement.
    pub fn push(&mut self, value: T)
        ensures
            final(self)@ == old(self)@.push(value),
    {
        self.trials.push(value);
    }

    /// The number of measurements.
    pub fn len(&self) -> (n: usize)
        ensures
            n == self@.len(),
    {
        self.trials.len()
    }

    /// Whether there are no measurements.
    pub fn is_empty(&self) -> (empty: bool)
        ensures
            empty == (self@.len() == 0),
    {
        self.trials.len() == 0
    }

    /// Puts the measurements in ascending order. Equal ones keep their order.
    ///
    /// Whatever the comparison of `T` does, no measurement is lost or made up; that
    /// the result is in order rests on its being a total order.
    pub fn sort(&mut self)
        ensures
            final(self)@.to_multiset() == old(self)@.to_multiset(),
            obeys_cmp::<T>() ==> stably_sorted(old(self)@, final(self)@),
    {
        let mut trials: Vec<T> = Vec::new();
        std::mem::swap(&mut self.trials, &mut trials);
        self.trials = merge_sort(trials);
    }

    /// The first measurement: the least one, once they are sorted.
    pub fn min(&self) -> (value: &T)
        requires
            self@.len() > 0,
        ensures
            *value == self@[0],
    {
        &self.trials[0]
    }

    /// The last measurement: the greatest one, once they are sorted.
    pub fn max(&self) -> (value: &T)
        requires
            self@.len() > 0,
        ensures
            *value == self@.last(),
    {
        &self.trials[self.trials.len() - 1]
    }

    /// The measurement at position `index`.
    pub fn at(&self, index: usize) -> (value: &T)
        requires
            index < self@.len(),
        ensures
            *value == self@[index as int],
    {
        &self.trials[index]
    }
}

/// Whether `text` is how `value` is displayed.
pub open spec fn displays<T: Display>(value: T, text: String) -> bool {
    to_string_from_display_ensures::<T>(&value, text)
}

impl<T: Ord + Display> Trials<T> {
    /// The fields of a line of a table: a title, the number of measurements, the first and the
    /// last of them, and the measurements at the given positions.
    pub fn csv_fields(&self, title: &str, positions: &Vec<usize>) -> (fields: Vec<String>)
        requires
            self@.len() > 0,
            forall|i: int| 0 <= i < positions@.len() ==> #[trigger] positions@[i] < self@.len(),
        ensures
            fields@.len() == 4 + positions@.len(),
            fields@[0]@ == title@,
            displays(self@.len() as usize, fields@[1]),
            displays(self@[0], fields@[2]),
            displays(self@.last(), fields@[3]),
            forall|i: int|
                0 <= i < positions@.len() ==> displays(
                    self@[positions@[i] as int],
                    #[trigger] fields@[4 + i],
                ),
    {
        let mut fields: Vec<String> = Vec::with_capacity(4);
        fields.push(title.to_owned());
        fields.push(self.len().to_string());
        fields.push(self.min().to_string());
        fields.push(self.max().to_string());
        let mut i: usize = 0;
        while i < positions.len()
            invariant
                i <= positions@.len(),
                self@.len() > 0,
                forall|j: int| 0 <= j < positions@.len() ==> #[trigger] positions@[j] < self@.len(),
                fields@.len() == 4 + i,
                fields@[0]@ == title@,
                displays(self@.len() as usize, fields@[1]),
                displays(self@[0], fields@[2]),
                displays(self@.last(), fields@[3]),
                forall|j: int|
                    0 <= j < i ==> displays(
                        self@[positions@[j] as int],
                        #[trigger] fields@[4 + j],
                    ),
            decreases positions@.len() - i,
        {
            fields.push(self.at(positions[i]).to_string());
            i = i + 1;
        }
        fields
    }
}

/// Fields with a comma between each and the next.
pub open spec fn comma_separated(fields: Seq<Seq<char>>) -> Seq<char>
    decreases fields.len(),
{
    if fields.len() == 0 {
        Seq::empty()
    } else if fields.len() == 1 {
        fields[0]
    } else {
        comma_separated(fields.drop_last()) + seq![','] + fields.last()
    }
}

/// A line of a table.
pub fn csv_line(fields: &Vec<String>) -> (line: String)
    ensures
        line@ == comma_separated(fields@.map_values(|field: String| field@)),
{
    let ghost texts = fields@.map_values(|field: String| field@);
    let mut line = String::new();
    let mut i: usize = 0;
    while i < fields.len()
        invariant
            i <= fields@.len(),
            texts == fields@.map_values(|field: String| field@),
            line@ == comma_separated(texts.subrange(0, i as int)),
        decreases fields@.len() - i,
    {
        proof {
            reveal_strlit(",");
            assert(","@ =~= seq![',']);
            assert(texts.subrange(0, i + 1).drop_last() =~= texts.subrange(0, i as int));
        }
        if i > 0 {
            line.append(",");
        }
        line.append(fields[i].as_str());
        i = i + 1;
    }
    proof {
        assert(texts.subrange(0, i as int) =~= texts);
    }
    line
}

/// The heading of a table of measurements.
pub fn csv_header() -> (header: &'static str)
    ensures
        header@ == "name,n,min,max,0.1,0.5,0.75,0.9,0.95,0.99,0.999,0.9999,0.99999"@,
{
    "name,n,min,max,0.1,0.5,0.75,0.9,0.95,0.99,0.999,0.9999,0.99999"
}

/// Once the measurements are sorted, every one of them lies between the first and
/// the last.
pub proof fn law_extremes<T: Ord>(before: Seq<T>, sorted: Seq<T>, x: T)
    requires
        obeys_cmp::<T>(),
        stably_sorted(before, sorted),
        sorted.to_multiset() == before.to_multiset(),
        before.contains(x),
    ensures
        sorted.len() == before.len(),
        at_most(sorted[0], x),
        at_most(x, sorted.last()),
{
    broadcast use vstd::seq_lib::group_to_multiset_ensures;
    assert(before.to_multiset().count(x) > 0);
    assert(sorted.contains(x));
    assert(sorted.len() == sorted.to_multiset().len());
    assert(before.len() == before.to_multiset().len());
    let i = choose|i: int| 0 <= i < sorted.len() && sorted[i] == x;
    assert(at_most(sorted[0], sorted[i]));
    assert(at_most(sorted[i], sorted[sorted.len() - 1]));
}

} // verus!
