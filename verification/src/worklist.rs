//! The pending changes of a propagation, least timestamp first.
use vstd::prelude::*;
use crate::order::{Key, Value};
use crate::location::Location;
use crate::change_batch::sum64;

verus! {

/// The order of pending changes: by timestamp, then by location, then by the
/// change itself.
pub open spec fn entry_before<T: Key>(a: (T, Location, i64), b: (T, Location, i64)) -> bool {
    a.0.before(b.0) || (a.0 == b.0 && (a.1.before(b.1) || (a.1 == b.1 && a.2 < b.2)))
}

/// No entry of `w` sorts ahead of an entry that stands before it: the least
/// entry is the last.
pub open spec fn descending<T: Key>(w: Seq<(T, Location, i64)>) -> bool {
    forall|i: int, j: int| 0 <= i < j < w.len() ==> !entry_before(#[trigger] w[i], #[trigger] w[j])
}

/// The index at which `e` enters `w[..upto]`: behind every entry that does not
/// sort ahead of it.
pub open spec fn berth<T: Key>(w: Seq<(T, Location, i64)>, e: (T, Location, i64), upto: int) -> int
    decreases upto,
{
    if 0 < upto <= w.len() && entry_before(w[upto - 1], e) {
        berth(w, e, upto - 1)
    } else {
        upto
    }
}

/// `w` with `e` entered at its place.
pub open spec fn enqueued<T: Key>(w: Seq<(T, Location, i64)>, e: (T, Location, i64)) -> Seq<
    (T, Location, i64),
> {
    w.insert(berth(w, e, w.len() as int), e)
}

/// Takes from the end of `w` the entries at `time` and `location` and adds their
/// changes to `acc`. Gives what is left of `w` and the sum; `None` where a sum
/// does not fit in a count.
pub open spec fn gathered<T: Key>(w: Seq<(T, Location, i64)>, time: T, location: Location, acc: i64)
    -> Option<(Seq<(T, Location, i64)>, i64)>
    decreases w.len(),
{
    if w.len() > 0 && w.last().0 == time && w.last().1 == location {
        match sum64(acc, w.last().2) {
            None => None,
            Some(sum) => gathered(w.drop_last(), time, location, sum),
        }
    } else {
        Some((w, acc))
    }
}

/// The order of pending changes is a strict total order.
pub proof fn lemma_entry_order<T: Key>(
    a: (T, Location, i64),
    b: (T, Location, i64),
    c: (T, Location, i64),
)
    ensures
        !entry_before(a, a),
        entry_before(a, b) && entry_before(b, c) ==> entry_before(a, c),
        entry_before(a, b) || entry_before(b, a) || a == b,
        entry_before(a, c) ==> entry_before(a, b) || entry_before(b, c),
{
    T::before_irreflexive(a.0);
    T::before_irreflexive(b.0);
    T::before_irreflexive(c.0);
    T::before_total(a.0, b.0);
    T::before_total(b.0, c.0);
    T::before_total(a.0, c.0);
    if a.0.before(b.0) && b.0.before(c.0) {
        T::before_transitive(a.0, b.0, c.0);
    }
    if b.0.before(a.0) && a.0.before(c.0) {
        T::before_transitive(b.0, a.0, c.0);
    }
    if a.0.before(c.0) && c.0.before(b.0) {
        T::before_transitive(a.0, c.0, b.0);
    }
    Location::before_total(a.1, b.1);
    Location::before_total(b.1, c.1);
}

/// Where `berth` lands.
pub proof fn lemma_berth<T: Key>(w: Seq<(T, Location, i64)>, e: (T, Location, i64), upto: int)
    requires
        0 <= upto <= w.len(),
    ensures
        0 <= berth(w, e, upto) <= upto,
        forall|i: int| berth(w, e, upto) <= i < upto ==> entry_before(#[trigger] w[i], e),
        berth(w, e, upto) > 0 ==> !entry_before(w[berth(w, e, upto) - 1], e),
    decreases upto,
{
    if 0 < upto && entry_before(w[upto - 1], e) {
        lemma_berth(w, e, upto - 1);
    }
}

/// Entering an entry keeps the order.
pub proof fn lemma_enqueued_descending<T: Key>(w: Seq<(T, Location, i64)>, e: (T, Location, i64))
    requires
        descending(w),
    ensures
        descending(enqueued(w, e)),
        enqueued(w, e).len() == w.len() + 1,
{
    let p = berth(w, e, w.len() as int);
    let m = enqueued(w, e);
    lemma_berth(w, e, w.len() as int);
    w.insert_ensures(p, e);
    assert forall|i: int, j: int| 0 <= i < j < m.len() implies !entry_before(
        #[trigger] m[i],
        #[trigger] m[j],
    ) by {
        if i < p {
            assert(m[i] == w[i]);
        } else if i > p {
            assert(m[i] == w[i - 1]);
        }
        if j < p {
            assert(m[j] == w[j]);
        } else if j > p {
            assert(m[j] == w[j - 1]);
        }
        if j == p {
            lemma_entry_order(w[i], w[p - 1], e);
            if i < p - 1 {
                assert(!entry_before(w[i], w[p - 1]));
            }
        } else if i == p {
            lemma_entry_order(e, w[j - 1], e);
        }
    }
}

/// Gathering leaves a shorter or equal sequence in the same order.
pub proof fn lemma_gathered<T: Key>(w: Seq<(T, Location, i64)>, time: T, location: Location, acc: i64)
    requires
        gathered(w, time, location, acc) is Some,
    ensures
        gathered(w, time, location, acc).unwrap().0.len() <= w.len(),
        gathered(w, time, location, acc).unwrap().0 == w.take(
            gathered(w, time, location, acc).unwrap().0.len() as int,
        ),
    decreases w.len(),
{
    if w.len() > 0 && w.last().0 == time && w.last().1 == location {
        let sum = sum64(acc, w.last().2).unwrap();
        lemma_gathered(w.drop_last(), time, location, sum);
        let rest = gathered(w, time, location, acc).unwrap().0;
        assert(w.drop_last().take(rest.len() as int) == w.take(rest.len() as int));
    } else {
        assert(w.take(w.len() as int) == w);
    }
}

/// Decides the order of pending changes.
fn entry_precedes<T: Key>(a: &(T, Location, i64), b: &(T, Location, i64)) -> (r: bool)
    ensures
        r == entry_before(*a, *b),
{
    if a.0.precedes(&b.0) {
        true
    } else if a.0.same(&b.0) {
        if a.1.precedes(&b.1) {
            true
        } else {
            a.1.same(&b.1) && a.2 < b.2
        }
    } else {
        false
    }
}

/// Pending changes `(timestamp, location, change)`, kept in order so that the
/// least is at hand.
pub struct Worklist<T: Key> {
    entries: Vec<(T, Location, i64)>,
}

impl<T: Key> View for Worklist<T> {
    type V = Seq<(T, Location, i64)>;

    /// The pending changes, the least last.
    closed spec fn view(&self) -> Seq<(T, Location, i64)> {
        self.entries@
    }
}

impl<T: Key> Worklist<T> {
    /// The entries are in order.
    pub open spec fn wf(self) -> bool {
        descending(self@)
    }

    /// No pending changes.
    pub fn new() -> (r: Self)
        ensures
            r@ == Seq::<(T, Location, i64)>::empty(),
            r.wf(),
    {
        Worklist { entries: Vec::new() }
    }

    /// Whether nothing is pending.
    pub fn is_empty(&self) -> (r: bool)
        ensures
            r == (self@.len() == 0),
    {
        self.entries.len() == 0
    }

    /// Enters a pending change.
    pub fn push(&mut self, time: T, location: Location, diff: i64)
        requires
            old(self).wf(),
        ensures
            final(self)@ == enqueued(old(self)@, (time, location, diff)),
            final(self).wf(),
    {
        let entry = (time, location, diff);
        let mut i: usize = self.entries.len();
        while i > 0 && entry_precedes(&self.entries[i - 1], &entry)
            invariant
                0 <= i <= self.entries.len(),
                self@ == old(self)@,
                berth(self@, entry, i as int) == berth(self@, entry, self@.len() as int),
            decreases i,
        {
            i -= 1;
        }
        proof {
            lemma_enqueued_descending(self@, entry);
        }
        self.entries.insert(i, entry);
    }

    /// Takes the least pending change out.
    pub fn pop(&mut self) -> (r: Option<(T, Location, i64)>)
        requires
            old(self).wf(),
        ensures
            old(self)@.len() == 0 ==> r is None && final(self)@ == old(self)@,
            old(self)@.len() > 0 ==> r == Some(old(self)@.last()) && final(self)@ == old(
                self,
            )@.drop_last(),
            final(self).wf(),
    {
        self.entries.pop()
    }

    /// Takes out the pending changes at `time` and `location` that are the least
    /// at hand, and returns `diff` with their changes added; `None` where a sum
    /// is not a count.
    pub fn gather(&mut self, time: &T, location: &Location, diff: i64) -> (r: Option<i64>)
        requires
            old(self).wf(),
        ensures
            r is Some == gathered(old(self)@, *time, *location, diff) is Some,
            r matches Some(sum) ==> (final(self)@, sum) == gathered(
                old(self)@,
                *time,
                *location,
                diff,
            ).unwrap() && final(self).wf(),
    {
        let mut sum = diff;
        loop
            invariant
                self.wf(),
                gathered(self@, *time, *location, sum) == gathered(
                    old(self)@,
                    *time,
                    *location,
                    diff,
                ),
            ensures
                gathered(old(self)@, *time, *location, diff) == Some((self@, sum)),
                self.wf(),
            decreases self.entries.len(),
        {
            let n = self.entries.len();
            if n == 0 {
                break ;
            }
            if !(self.entries[n - 1].0.same(time) && self.entries[n - 1].1.same(location)) {
                break ;
            }
            match sum.checked_add(self.entries[n - 1].2) {
                None => {
                    return None;
                },
                Some(next) => {
                    sum = next;
                },
            }
            self.entries.pop();
        }
        Some(sum)
    }

    /// A copy.
    pub fn duplicate(&self) -> (r: Self)
        ensures
            r@ == self@,
    {
        let mut entries: Vec<(T, Location, i64)> = Vec::new();
        let mut i: usize = 0;
        while i < self.entries.len()
            invariant
                0 <= i <= self.entries.len(),
                entries@ == self.entries@.take(i as int),
            decreases self.entries.len() - i,
        {
            entries.push(
                (self.entries[i].0.duplicate(), self.entries[i].1.duplicate(), self.entries[i].2),
            );
            assert(self.entries@.take(i + 1) == self.entries@.take(i as int).push(
                self.entries@[i as int],
            ));
            i += 1;
        }
        assert(self.entries@.take(i as int) == self.entries@);
        Worklist { entries }
    }
}

} // verus!
