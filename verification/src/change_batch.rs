//! A buffer of signed changes, one net change for each key.
use vstd::prelude::*;
use crate::order::Key;

verus! {

/// The sum of two counts, where it fits in a count.
pub open spec fn sum64(a: i64, b: i64) -> Option<i64> {
    if i64::MIN <= a + b <= i64::MAX {
        Some((a + b) as i64)
    } else {
        None
    }
}

/// The keys of `s` strictly ascend.
pub open spec fn ascending<K: Key>(s: Seq<(K, i64)>) -> bool {
    forall|i: int, j: int|
        0 <= i < j < s.len() ==> (#[trigger] s[i]).0.before((#[trigger] s[j]).0)
}

/// The keys of `s` strictly ascend and no change in it is zero.
pub open spec fn consolidated<K: Key>(s: Seq<(K, i64)>) -> bool {
    &&& ascending(s)
    &&& forall|i: int| 0 <= i < s.len() ==> (#[trigger] s[i]).1 != 0
}

/// The first index at or after `from` whose key does not sort ahead of `key`.
pub open spec fn slot<K: Key>(s: Seq<(K, i64)>, key: K, from: int) -> int
    decreases s.len() - from,
{
    if 0 <= from < s.len() && s[from].0.before(key) {
        slot(s, key, from + 1)
    } else {
        from
    }
}

/// The net change that `s` holds for `key`: zero where it holds none.
pub open spec fn stored<K: Key>(s: Seq<(K, i64)>, key: K) -> i64 {
    let p = slot(s, key, 0);
    if p < s.len() && s[p].0 == key {
        s[p].1
    } else {
        0
    }
}

/// `s` with `delta` added to the net change of `key`; `None` where the sum does
/// not fit in a count.
pub open spec fn merged<K: Key>(s: Seq<(K, i64)>, key: K, delta: i64) -> Option<Seq<(K, i64)>> {
    let p = slot(s, key, 0);
    if p < s.len() && s[p].0 == key {
        match sum64(s[p].1, delta) {
            None => None,
            Some(v) => if v == 0 {
                Some(s.remove(p))
            } else {
                Some(s.update(p, (key, v)))
            },
        }
    } else if delta == 0 {
        Some(s)
    } else {
        Some(s.insert(p, (key, delta)))
    }
}

/// Where `slot` lands.
pub proof fn lemma_slot<K: Key>(s: Seq<(K, i64)>, key: K, from: int)
    requires
        0 <= from <= s.len(),
    ensures
        from <= slot(s, key, from) <= s.len(),
        forall|i: int| from <= i < slot(s, key, from) ==> (#[trigger] s[i]).0.before(key),
        slot(s, key, from) < s.len() ==> !s[slot(s, key, from)].0.before(key),
    decreases s.len() - from,
{
    if from < s.len() && s[from].0.before(key) {
        lemma_slot(s, key, from + 1);
    }
}

/// In an ascending sequence nothing from the slot of `key` on sorts ahead of
/// `key`, and only the slot itself can hold `key`.
pub proof fn lemma_slot_ascending<K: Key>(s: Seq<(K, i64)>, key: K)
    requires
        ascending(s),
    ensures
        0 <= slot(s, key, 0) <= s.len(),
        forall|i: int| 0 <= i < slot(s, key, 0) ==> (#[trigger] s[i]).0.before(key),
        forall|i: int| 0 <= i < slot(s, key, 0) ==> (#[trigger] s[i]).0 != key,
        forall|j: int|
            slot(s, key, 0) <= j < s.len() ==> (#[trigger] s[j]).0 == key || key.before(s[j].0),
        forall|j: int| slot(s, key, 0) < j < s.len() ==> key.before((#[trigger] s[j]).0),
{
    let p = slot(s, key, 0);
    lemma_slot(s, key, 0);
    K::before_irreflexive(key);
    assert forall|j: int| p <= j < s.len() implies (#[trigger] s[j]).0 == key || key.before(
        s[j].0,
    ) by {
        K::before_total(s[p].0, key);
        if j > p {
            assert(s[p].0.before(s[j].0));
            if s[p].0 != key {
                K::before_transitive(key, s[p].0, s[j].0);
            }
        }
    }
    assert forall|j: int| p < j < s.len() implies key.before((#[trigger] s[j]).0) by {
        K::before_total(s[p].0, key);
        assert(s[p].0.before(s[j].0));
        if s[p].0 != key {
            K::before_transitive(key, s[p].0, s[j].0);
        }
    }
}

/// Adding a change keeps a sequence consolidated.
pub proof fn lemma_merged_consolidated<K: Key>(s: Seq<(K, i64)>, key: K, delta: i64)
    requires
        consolidated(s),
        merged(s, key, delta) is Some,
    ensures
        consolidated(merged(s, key, delta).unwrap()),
{
    let p = slot(s, key, 0);
    let m = merged(s, key, delta).unwrap();
    lemma_slot_ascending(s, key);
    if p < s.len() && s[p].0 == key {
        let v = sum64(s[p].1, delta).unwrap();
        if v == 0 {
            s.remove_ensures(p);
            assert forall|i: int, j: int| 0 <= i < j < m.len() implies (#[trigger] m[i]).0.before(
                (#[trigger] m[j]).0,
            ) by {
                let a = if i < p { i } else { i + 1 };
                let b = if j < p { j } else { j + 1 };
                assert(m[i] == s[a]);
                assert(m[j] == s[b]);
            }
            assert forall|i: int| 0 <= i < m.len() implies (#[trigger] m[i]).1 != 0 by {
                let a = if i < p { i } else { i + 1 };
                assert(m[i] == s[a]);
            }
        } else {
            assert forall|i: int, j: int| 0 <= i < j < m.len() implies (#[trigger] m[i]).0.before(
                (#[trigger] m[j]).0,
            ) by {
                assert(m[i].0 == s[i].0);
                assert(m[j].0 == s[j].0);
            }
        }
    } else if delta != 0 {
        s.insert_ensures(p, (key, delta));
        assert forall|i: int, j: int| 0 <= i < j < m.len() implies (#[trigger] m[i]).0.before(
            (#[trigger] m[j]).0,
        ) by {
            if i < p {
                assert(m[i] == s[i]);
            } else if i > p {
                assert(m[i] == s[i - 1]);
            }
            if j < p {
                assert(m[j] == s[j]);
            } else if j > p {
                assert(m[j] == s[j - 1]);
            }
        }
        assert forall|i: int| 0 <= i < m.len() implies (#[trigger] m[i]).1 != 0 by {
            if i < p {
                assert(m[i] == s[i]);
            } else if i > p {
                assert(m[i] == s[i - 1]);
            }
        }
    }
}

/// Adding a change brings in no key but its own.
pub proof fn lemma_merged_keys<K: Key>(s: Seq<(K, i64)>, key: K, delta: i64)
    requires
        merged(s, key, delta) is Some,
    ensures
        forall|i: int|
            0 <= i < merged(s, key, delta).unwrap().len() ==> (#[trigger] merged(
                s,
                key,
                delta,
            ).unwrap()[i]).0 == key || exists|j: int|
                0 <= j < s.len() && (#[trigger] s[j]).0 == merged(s, key, delta).unwrap()[i].0,
{
    let p = slot(s, key, 0);
    let m = merged(s, key, delta).unwrap();
    lemma_slot(s, key, 0);
    if p < s.len() && s[p].0 == key {
        let v = sum64(s[p].1, delta).unwrap();
        if v == 0 {
            s.remove_ensures(p);
            assert forall|i: int| 0 <= i < m.len() implies (#[trigger] m[i]).0 == key || exists|j: int|
                0 <= j < s.len() && (#[trigger] s[j]).0 == m[i].0 by {
                let a = if i < p { i } else { i + 1 };
                assert(m[i] == s[a]);
            }
        } else {
            assert forall|i: int| 0 <= i < m.len() implies (#[trigger] m[i]).0 == key || exists|j: int|
                0 <= j < s.len() && (#[trigger] s[j]).0 == m[i].0 by {
                assert(m[i].0 == s[i].0);
            }
        }
    } else if delta != 0 {
        s.insert_ensures(p, (key, delta));
        assert forall|i: int| 0 <= i < m.len() implies (#[trigger] m[i]).0 == key || exists|j: int|
            0 <= j < s.len() && (#[trigger] s[j]).0 == m[i].0 by {
            if i < p {
                assert(m[i] == s[i]);
            } else if i > p {
                assert(m[i] == s[i - 1]);
            }
        }
    } else {
        assert forall|i: int| 0 <= i < m.len() implies (#[trigger] m[i]).0 == key || exists|j: int|
            0 <= j < s.len() && (#[trigger] s[j]).0 == m[i].0 by {
            assert(m[i] == s[i]);
        }
    }
}

/// Adding a change leaves the entries of the other keys as they are.
pub proof fn lemma_merged_others<K: Key>(s: Seq<(K, i64)>, key: K, delta: i64)
    requires
        merged(s, key, delta) is Some,
    ensures
        forall|e: (K, i64)| e.0 != key ==> (merged(s, key, delta).unwrap().contains(e) <==> s.contains(e)),
{
    let p = slot(s, key, 0);
    let m = merged(s, key, delta).unwrap();
    lemma_slot(s, key, 0);
    assert forall|e: (K, i64)| e.0 != key implies (m.contains(e) <==> s.contains(e)) by {
        if p < s.len() && s[p].0 == key {
            let v = sum64(s[p].1, delta).unwrap();
            if v == 0 {
                s.remove_ensures(p);
                if m.contains(e) {
                    let i = m.index_of(e);
                    let a = if i < p { i } else { i + 1 };
                    assert(s[a] == e);
                }
                if s.contains(e) {
                    let j = s.index_of(e);
                    let a = if j < p { j } else { j - 1 };
                    assert(m[a] == e);
                }
            } else {
                if m.contains(e) {
                    let i = m.index_of(e);
                    assert(s[i] == e);
                }
                if s.contains(e) {
                    let j = s.index_of(e);
                    assert(m[j] == e);
                }
            }
        } else if delta != 0 {
            s.insert_ensures(p, (key, delta));
            if m.contains(e) {
                let i = m.index_of(e);
                let a = if i < p { i } else { i - 1 };
                assert(s[a] == e);
            }
            if s.contains(e) {
                let j = s.index_of(e);
                let a = if j < p { j } else { j + 1 };
                assert(m[a] == e);
            }
        }
    }
}

/// In a consolidated sequence the net change of a key is the change of its
/// entry.
pub proof fn lemma_stored_entry<K: Key>(s: Seq<(K, i64)>, key: K)
    requires
        consolidated(s),
    ensures
        forall|d: i64| s.contains((key, d)) ==> stored(s, key) == d,
        stored(s, key) != 0 ==> s.contains((key, stored(s, key))),
{
    let p = slot(s, key, 0);
    lemma_slot_ascending(s, key);
    K::before_irreflexive(key);
    assert forall|d: i64| s.contains((key, d)) implies stored(s, key) == d by {
        let j = s.index_of((key, d));
        assert(s[j] == (key, d));
        if j < p {
            assert(s[j].0 != key);
        } else if j > p {
            assert(key.before(s[j].0));
        }
    }
    if stored(s, key) != 0 {
        assert(s[p] == (key, stored(s, key)));
    }
}

/// Adding a change adds it to the net change of its key, and leaves the net
/// changes of the other keys.
pub proof fn lemma_merged_stored<K: Key>(s: Seq<(K, i64)>, key: K, delta: i64, other: K)
    requires
        consolidated(s),
        merged(s, key, delta) is Some,
    ensures
        stored(merged(s, key, delta).unwrap(), other) == stored(s, other) + if other == key {
            delta as int
        } else {
            0
        },
{
    let m = merged(s, key, delta).unwrap();
    let p = slot(s, key, 0);
    lemma_merged_consolidated(s, key, delta);
    lemma_merged_others(s, key, delta);
    lemma_stored_entry(s, other);
    lemma_stored_entry(m, other);
    if other != key {
        if stored(s, other) != 0 {
            assert(m.contains((other, stored(s, other))));
        }
        if stored(m, other) != 0 {
            assert(s.contains((other, stored(m, other))));
        }
    } else {
        lemma_slot_ascending(s, key);
        K::before_irreflexive(key);
        if p < s.len() && s[p].0 == key {
            let v = sum64(s[p].1, delta).unwrap();
            assert(s.contains(s[p]));
            if v == 0 {
                s.remove_ensures(p);
                if stored(m, key) != 0 {
                    let i = m.index_of((key, stored(m, key)));
                    let a = if i < p { i } else { i + 1 };
                    assert(s[a] == m[i]);
                    if a > p {
                        assert(key.before(s[a].0));
                    } else {
                        assert(s[a].0 != key);
                    }
                }
            } else {
                assert(m[p] == (key, v));
                assert(m.contains((key, v)));
            }
        } else {
            if stored(s, key) != 0 {
                let j = s.index_of((key, stored(s, key)));
                assert(s[j].0 == key);
                if j > p {
                    assert(key.before(s[j].0));
                } else if j < p {
                    assert(s[j].0 != key);
                }
            }
            if delta != 0 {
                s.insert_ensures(p, (key, delta));
                assert(m[p] == (key, delta));
                assert(m.contains((key, delta)));
            }
        }
    }
}

/// Two consolidated sequences that hold the same net change for every key
/// are the same sequence.
pub proof fn lemma_consolidated_unique<K: Key>(a: Seq<(K, i64)>, b: Seq<(K, i64)>)
    requires
        consolidated(a),
        consolidated(b),
        forall|k: K| stored(a, k) == stored(b, k),
    ensures
        a == b,
    decreases a.len(),
{
    assert forall|e: (K, i64)| a.contains(e) <==> b.contains(e) by {
        lemma_stored_entry(a, e.0);
        lemma_stored_entry(b, e.0);
        if a.contains(e) {
            let j = a.index_of(e);
            assert(a[j].1 != 0);
        }
        if b.contains(e) {
            let j = b.index_of(e);
            assert(b[j].1 != 0);
        }
    }
    if a.len() == 0 {
        if b.len() > 0 {
            assert(b.contains(b[0]));
        }
        assert(a =~= b);
    } else {
        let x = a.last();
        assert(a.contains(x));
        if b.len() == 0 {
            assert(false);
        }
        let y = b.last();
        assert(b.contains(y));
        let i = b.index_of(x);
        let j = a.index_of(y);
        K::before_irreflexive(x.0);
        K::before_irreflexive(y.0);
        if i < b.len() - 1 {
            assert(b[i].0.before(b[b.len() - 1].0));
            if j < a.len() - 1 {
                assert(a[j].0.before(a[a.len() - 1].0));
                K::before_transitive(x.0, y.0, x.0);
            }
        }
        assert(x.0 == y.0);
        lemma_stored_entry(a, x.0);
        lemma_stored_entry(b, x.0);
        assert(x == y);
        let a0 = a.drop_last();
        let b0 = b.drop_last();
        assert(consolidated(a0)) by {
            assert forall|p: int, q: int| 0 <= p < q < a0.len() implies (#[trigger] a0[p]).0.before(
                (#[trigger] a0[q]).0,
            ) by {
                assert(a0[p] == a[p] && a0[q] == a[q]);
            }
            assert forall|p: int| 0 <= p < a0.len() implies (#[trigger] a0[p]).1 != 0 by {
                assert(a0[p] == a[p]);
            }
        }
        assert(consolidated(b0)) by {
            assert forall|p: int, q: int| 0 <= p < q < b0.len() implies (#[trigger] b0[p]).0.before(
                (#[trigger] b0[q]).0,
            ) by {
                assert(b0[p] == b[p] && b0[q] == b[q]);
            }
            assert forall|p: int| 0 <= p < b0.len() implies (#[trigger] b0[p]).1 != 0 by {
                assert(b0[p] == b[p]);
            }
        }
        assert forall|k: K| stored(a0, k) == stored(b0, k) by {
            lemma_stored_entry(a0, k);
            lemma_stored_entry(b0, k);
            lemma_stored_entry(a, k);
            lemma_stored_entry(b, k);
            if stored(a0, k) != 0 {
                let p = a0.index_of((k, stored(a0, k)));
                assert(a[p] == a0[p]);
                assert(a.contains((k, stored(a0, k))));
                assert(b.contains((k, stored(a0, k))));
                let q = b.index_of((k, stored(a0, k)));
                assert(a[p].0.before(a[a.len() - 1].0));
                if q == b.len() - 1 {
                    assert(false);
                }
                assert(b0[q] == b[q]);
                assert(b0.contains((k, stored(a0, k))));
            }
            if stored(b0, k) != 0 {
                let p = b0.index_of((k, stored(b0, k)));
                assert(b[p] == b0[p]);
                assert(b.contains((k, stored(b0, k))));
                assert(a.contains((k, stored(b0, k))));
                let q = a.index_of((k, stored(b0, k)));
                assert(b[p].0.before(b[b.len() - 1].0));
                if q == a.len() - 1 {
                    assert(false);
                }
                assert(a0[q] == a[q]);
                assert(a0.contains((k, stored(b0, k))));
            }
        }
        lemma_consolidated_unique(a0, b0);
        assert(a =~= a0.push(x));
        assert(b =~= b0.push(y));
    }
}

/// A change can be added exactly where the net change of its key and the
/// change add up to a count.
pub proof fn lemma_merged_some<K: Key>(s: Seq<(K, i64)>, key: K, delta: i64)
    ensures
        merged(s, key, delta) is Some <==> sum64(stored(s, key), delta) is Some,
{
}

/// A buffer of changes to the counts of keys. It holds one entry for each key
/// whose changes do not cancel, in ascending order of the keys.
pub struct ChangeBatch<K: Key> {
    updates: Vec<(K, i64)>,
}

impl<K: Key> View for ChangeBatch<K> {
    type V = Seq<(K, i64)>;

    /// The keys with their net changes, in ascending order.
    closed spec fn view(&self) -> Seq<(K, i64)> {
        self.updates@
    }
}

impl<K: Key> ChangeBatch<K> {
    /// The entries are consolidated.
    pub open spec fn wf(self) -> bool {
        consolidated(self@)
    }

    /// An empty buffer.
    pub fn new() -> (r: Self)
        ensures
            r@ == Seq::<(K, i64)>::empty(),
            r.wf(),
    {
        ChangeBatch { updates: Vec::new() }
    }

    /// Adds `delta` to the net change of `key`.
    pub fn update(&mut self, key: K, delta: i64)
        requires
            old(self).wf(),
            merged(old(self)@, key, delta) is Some,
        ensures
            final(self)@ == merged(old(self)@, key, delta).unwrap(),
            final(self).wf(),
            forall|other: K|
                #[trigger] stored(final(self)@, other) == stored(old(self)@, other) + if other == key {
                    delta as int
                } else {
                    0
                },
    {
        let ghost s0 = self@;
        proof {
            assert forall|other: K|
                #[trigger] stored(merged(s0, key, delta).unwrap(), other) == stored(s0, other)
                    + if other == key {
                    delta as int
                } else {
                    0
                } by {
                lemma_merged_stored(s0, key, delta, other);
            }
        }
        let mut i: usize = 0;
        while i < self.updates.len() && self.updates[i].0.precedes(&key)
            invariant
                0 <= i <= self.updates.len(),
                self@ == s0,
                slot(s0, key, i as int) == slot(s0, key, 0),
            decreases self.updates.len() - i,
        {
            i += 1;
        }
        proof {
            lemma_merged_consolidated(s0, key, delta);
        }
        if i < self.updates.len() && self.updates[i].0.same(&key) {
            let v = self.updates[i].1 + delta;
            if v == 0 {
                self.updates.remove(i);
            } else {
                self.updates[i] = (key, v);
            }
        } else if delta != 0 {
            self.updates.insert(i, (key, delta));
        }
    }

    /// Whether `delta` can be added to the net change of `key`: whether their
    /// sum is a count.
    pub fn fits(&self, key: &K, delta: i64) -> (r: bool)
        ensures
            r == merged(self@, *key, delta) is Some,
    {
        proof {
            lemma_merged_some(self@, *key, delta);
        }
        self.count_of(key).checked_add(delta).is_some()
    }

    /// Whether every net change is zero.
    pub fn is_empty(&self) -> (r: bool)
        ensures
            r == (self@.len() == 0),
            self.wf() ==> r == forall|key: K| stored(self@, key) == 0,
    {
        proof {
            if self.wf() && self@.len() > 0 {
                let first = self@[0];
                assert(self@.contains(first));
                lemma_stored_entry(self@, first.0);
                assert(stored(self@, first.0) != 0);
            }
        }
        self.updates.len() == 0
    }

    /// The number of keys with a net change.
    pub fn len(&self) -> (r: usize)
        ensures
            r == self@.len(),
    {
        self.updates.len()
    }

    /// The net change of `key`.
    pub fn count_of(&self, key: &K) -> (r: i64)
        ensures
            r == stored(self@, *key),
    {
        let mut i: usize = 0;
        while i < self.updates.len() && self.updates[i].0.precedes(key)
            invariant
                0 <= i <= self.updates.len(),
                slot(self@, *key, i as int) == slot(self@, *key, 0),
            decreases self.updates.len() - i,
        {
            i += 1;
        }
        if i < self.updates.len() && self.updates[i].0.same(key) {
            self.updates[i].1
        } else {
            0
        }
    }

    /// The entry at `index`.
    pub fn entry(&self, index: usize) -> (r: &(K, i64))
        requires
            index < self@.len(),
        ensures
            *r == self@[index as int],
    {
        &self.updates[index]
    }

    /// Takes every entry out, in ascending order of the keys, and leaves the
    /// buffer empty.
    pub fn drain(&mut self) -> (r: Vec<(K, i64)>)
        ensures
            r@ == old(self)@,
            final(self)@ == Seq::<(K, i64)>::empty(),
            final(self).wf(),
    {
        let mut out: Vec<(K, i64)> = Vec::new();
        core::mem::swap(&mut self.updates, &mut out);
        out
    }

    /// A copy of the buffer.
    pub fn duplicate(&self) -> (r: Self)
        ensures
            r@ == self@,
    {
        let mut updates: Vec<(K, i64)> = Vec::new();
        let mut i: usize = 0;
        while i < self.updates.len()
            invariant
                0 <= i <= self.updates.len(),
                updates@ == self.updates@.take(i as int),
            decreases self.updates.len() - i,
        {
            updates.push((self.updates[i].0.duplicate(), self.updates[i].1));
            assert(self.updates@.take(i + 1) == self.updates@.take(i as int).push(self.updates@[i as int]));
            i += 1;
        }
        assert(self.updates@.take(i as int) == self.updates@);
        ChangeBatch { updates }
    }
}

} // verus!
