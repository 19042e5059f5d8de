//! Counts of timestamps, with the frontier of those counted.
use vstd::prelude::*;
use crate::order::{PartialOrder, Key, Timestamp};
use crate::antichain::dominated;
use crate::change_batch::{
    ChangeBatch, merged, consolidated, ascending, stored, lemma_merged_others,
    lemma_merged_consolidated,
};

verus! {

/// The frontier of the counts `counts`: scanning them in order, each timestamp
/// with a positive count that no timestamp kept so far is less than or equal to.
/// For consolidated counts these are the minimal timestamps of positive count
/// (`lemma_frontier_minimal`).
pub open spec fn frontier_of<T: PartialOrder>(counts: Seq<(T, i64)>) -> Seq<T>
    decreases counts.len(),
{
    if counts.len() == 0 {
        Seq::empty()
    } else {
        let f = frontier_of(counts.drop_last());
        let e = counts.last();
        if e.1 > 0 && !dominated(f, e.0) {
            f.push(e.0)
        } else {
            f
        }
    }
}

/// `counts` after the changes `updates[from..]`, one after the other; `None`
/// where a count does not fit.
pub open spec fn applied<T: Key>(counts: Seq<(T, i64)>, updates: Seq<(T, i64)>, from: int) -> Option<
    Seq<(T, i64)>,
>
    decreases updates.len() - from,
{
    if 0 <= from < updates.len() {
        match merged(counts, updates[from].0, updates[from].1) {
            None => None,
            Some(next) => applied(next, updates, from + 1),
        }
    } else {
        Some(counts)
    }
}

/// The walk along two ascending sequences from `i` and `j` on that collects,
/// behind `acc`, each timestamp of `a` that `b` lacks with -1 and each of `b`
/// that `a` lacks with +1, in ascending order.
pub open spec fn delta_walk<T: Key>(a: Seq<T>, b: Seq<T>, i: int, j: int, acc: Seq<(T, i64)>) -> Seq<
    (T, i64),
>
    decreases (if i < a.len() { a.len() - i } else { 0 }) + (if j < b.len() { b.len() - j } else { 0 }),
{
    if 0 <= i < a.len() && 0 <= j < b.len() {
        if a[i] == b[j] {
            delta_walk(a, b, i + 1, j + 1, acc)
        } else if a[i].before(b[j]) {
            delta_walk(a, b, i + 1, j, acc.push((a[i], -1i64)))
        } else {
            delta_walk(a, b, i, j + 1, acc.push((b[j], 1i64)))
        }
    } else if 0 <= i < a.len() {
        delta_walk(a, b, i + 1, j, acc.push((a[i], -1i64)))
    } else if 0 <= j < b.len() {
        delta_walk(a, b, i, j + 1, acc.push((b[j], 1i64)))
    } else {
        acc
    }
}

/// The changes that turn the frontier `a` into the frontier `b`: -1 for each
/// timestamp that leaves, +1 for each that enters, in ascending order.
pub open spec fn frontier_changes<T: Key>(a: Seq<T>, b: Seq<T>) -> Seq<(T, i64)> {
    delta_walk(a, b, 0, 0, Seq::empty())
}

/// Applying one change is adding it to the counts.
pub proof fn lemma_applied_one<T: Key>(counts: Seq<(T, i64)>, time: T, delta: i64)
    ensures
        applied(counts, seq![(time, delta)], 0) == merged(counts, time, delta),
{
    let u = seq![(time, delta)];
    assert(u[0] == (time, delta));
    match merged(counts, time, delta) {
        None => {},
        Some(next) => {
            assert(applied(next, u, 1) == Some(next));
        },
    }
}

/// Applying changes keeps counts consolidated.
pub proof fn lemma_applied_consolidated<T: Key>(
    counts: Seq<(T, i64)>,
    updates: Seq<(T, i64)>,
    from: int,
)
    requires
        consolidated(counts),
        applied(counts, updates, from) is Some,
    ensures
        consolidated(applied(counts, updates, from).unwrap()),
    decreases updates.len() - from,
{
    if 0 <= from < updates.len() {
        lemma_merged_consolidated(counts, updates[from].0, updates[from].1);
        lemma_applied_consolidated(
            merged(counts, updates[from].0, updates[from].1).unwrap(),
            updates,
            from + 1,
        );
    }
}

/// `time` has a positive count in `counts`.
pub open spec fn positive<T>(counts: Seq<(T, i64)>, time: T) -> bool {
    exists|j: int| 0 <= j < counts.len() && (#[trigger] counts[j]).0 == time && counts[j].1 > 0
}

/// `time` has a positive count in `counts`, and no other timestamp with a
/// positive count is less than or equal to it.
pub open spec fn minimal<T: PartialOrder>(counts: Seq<(T, i64)>, time: T) -> bool {
    &&& positive(counts, time)
    &&& forall|u: T| positive(counts, u) && u.leq(time) ==> u == time
}

/// The timestamps of `f` strictly ascend.
pub open spec fn rising<T: Key>(f: Seq<T>) -> bool {
    forall|i: int, j: int| 0 <= i < j < f.len() ==> (#[trigger] f[i]).before(#[trigger] f[j])
}

/// What the scan for the frontier keeps: timestamps of positive count, in the
/// order of the counts, pairwise incomparable, and below every timestamp of
/// positive count one of them.
pub proof fn lemma_frontier_scan<T: Timestamp>(counts: Seq<(T, i64)>)
    requires
        consolidated(counts),
    ensures
        rising(frontier_of(counts)),
        forall|i: int|
            0 <= i < frontier_of(counts).len() ==> positive(counts, #[trigger] frontier_of(counts)[i]),
        forall|i: int, j: int|
            0 <= i < frontier_of(counts).len() && 0 <= j < frontier_of(counts).len() && i != j ==> !(
            #[trigger] frontier_of(counts)[i]).leq(#[trigger] frontier_of(counts)[j]),
        forall|u: T| positive(counts, u) ==> dominated(frontier_of(counts), u),
        counts.len() > 0 ==> forall|i: int|
            0 <= i < frontier_of(counts).len() ==> (#[trigger] frontier_of(counts)[i]) == counts.last().0
                || frontier_of(counts)[i].before(counts.last().0),
    decreases counts.len(),
{
    if counts.len() > 0 {
        let rest = counts.drop_last();
        let e = counts.last();
        let f0 = frontier_of(rest);
        let f = frontier_of(counts);
        assert(consolidated(rest)) by {
            assert forall|i: int, j: int| 0 <= i < j < rest.len() implies (#[trigger] rest[i]).0.before(
                (#[trigger] rest[j]).0,
            ) by {
                assert(rest[i] == counts[i] && rest[j] == counts[j]);
            }
            assert forall|i: int| 0 <= i < rest.len() implies (#[trigger] rest[i]).1 != 0 by {
                assert(rest[i] == counts[i]);
            }
        }
        lemma_frontier_scan(rest);
        // every timestamp kept so far sorts ahead of the last timestamp
        assert forall|i: int| 0 <= i < f0.len() implies (#[trigger] f0[i]).before(e.0) by {
            let t = f0[i];
            assert(positive(rest, t));
            let j = choose|j: int| 0 <= j < rest.len() && (#[trigger] rest[j]).0 == t && rest[j].1 > 0;
            assert(rest[j] == counts[j]);
            assert(counts[j].0.before(counts[counts.len() - 1].0));
        }
        assert forall|u: T| positive(rest, u) implies positive(counts, u) by {
            let j = choose|j: int| 0 <= j < rest.len() && (#[trigger] rest[j]).0 == u && rest[j].1 > 0;
            assert(counts[j] == rest[j]);
        }
        assert forall|i: int| 0 <= i < f.len() implies positive(counts, #[trigger] f[i]) by {
            if i < f0.len() {
                assert(f[i] == f0[i]);
                assert(positive(rest, f0[i]));
            } else {
                assert(f[i] == e.0);
                assert(counts[counts.len() - 1] == e);
            }
        }
        assert forall|i: int, j: int| 0 <= i < j < f.len() implies (#[trigger] f[i]).before(
            #[trigger] f[j],
        ) by {
            if j < f0.len() {
                assert(f[i] == f0[i] && f[j] == f0[j]);
            } else {
                assert(f[i] == f0[i]);
            }
        }
        assert forall|i: int, j: int|
            0 <= i < f.len() && 0 <= j < f.len() && i != j implies !(#[trigger] f[i]).leq(
            #[trigger] f[j],
        ) by {
            if i < f0.len() && j < f0.len() {
                assert(f[i] == f0[i] && f[j] == f0[j]);
            } else if j == f0.len() {
                // f[j] is the last timestamp, which nothing kept so far is below
                assert(f[i] == f0[i]);
                assert(!dominated(f0, e.0));
            } else {
                // f[i] is the last timestamp; it sorts behind f[j]
                assert(f[j] == f0[j]);
                if f[i].leq(f[j]) {
                    T::le_sorts(f[i], f[j]);
                    T::before_irreflexive(f[j]);
                    if f[i].before(f[j]) {
                        T::before_transitive(f[i], f[j], f[i]);
                        T::before_irreflexive(f[i]);
                    }
                }
            }
        }
        assert forall|u: T| positive(counts, u) implies dominated(f, u) by {
            let j = choose|j: int| 0 <= j < counts.len() && (#[trigger] counts[j]).0 == u && counts[j].1 > 0;
            if j < rest.len() {
                assert(rest[j] == counts[j]);
                assert(positive(rest, u));
                assert(dominated(f0, u));
                let i = choose|i: int| 0 <= i < f0.len() && (#[trigger] f0[i]).leq(u);
                assert(f[i] == f0[i]);
            } else {
                assert(u == e.0);
                if dominated(f0, e.0) {
                    let i = choose|i: int| 0 <= i < f0.len() && (#[trigger] f0[i]).leq(e.0);
                    assert(f[i] == f0[i]);
                } else {
                    T::le_reflexive(e.0);
                    assert(f[f0.len() as int] == e.0);
                }
            }
        }
        assert forall|i: int| 0 <= i < f.len() implies (#[trigger] f[i]) == counts.last().0 || f[i].before(
            counts.last().0,
        ) by {
            if i < f0.len() {
                assert(f[i] == f0[i]);
            }
        }
    }
}

/// The frontier of consolidated counts holds exactly the minimal timestamps
/// of positive count, in ascending order.
pub proof fn lemma_frontier_minimal<T: Timestamp>(counts: Seq<(T, i64)>)
    requires
        consolidated(counts),
    ensures
        rising(frontier_of(counts)),
        forall|t: T| frontier_of(counts).contains(t) <==> minimal(counts, t),
{
    let f = frontier_of(counts);
    lemma_frontier_scan(counts);
    assert forall|t: T| f.contains(t) implies minimal(counts, t) by {
        let i = f.index_of(t);
        assert(f[i] == t);
        assert forall|u: T| positive(counts, u) && u.leq(t) implies u == t by {
            assert(dominated(f, u));
            let k = choose|k: int| 0 <= k < f.len() && (#[trigger] f[k]).leq(u);
            T::le_transitive(f[k], u, t);
            if k != i {
                assert(!f[k].leq(f[i]));
            }
            T::le_antisymmetric(u, t);
        }
    }
    assert forall|t: T| minimal(counts, t) implies f.contains(t) by {
        assert(dominated(f, t));
        let k = choose|k: int| 0 <= k < f.len() && (#[trigger] f[k]).leq(t);
        assert(positive(counts, f[k]));
    }
}

/// `e` is a change from the frontier `a` to the frontier `b`: -1 at a timestamp
/// that `a` holds and `b` lacks, or +1 at one that `b` holds and `a` lacks.
pub open spec fn is_change<T>(a: Seq<T>, b: Seq<T>, e: (T, i64)) -> bool {
    ||| e.1 == -1 && a.contains(e.0) && !b.contains(e.0)
    ||| e.1 == 1 && b.contains(e.0) && !a.contains(e.0)
}

/// What holds of the walk along two frontiers when it stands at `i` and `j`
/// with `acc` collected.
pub open spec fn walked<T: Key>(a: Seq<T>, b: Seq<T>, i: int, j: int, acc: Seq<(T, i64)>) -> bool {
    &&& 0 <= i <= a.len()
    &&& 0 <= j <= b.len()
    &&& forall|x: int, y: int| 0 <= x < i && j <= y < b.len() ==> (#[trigger] a[x]).before(#[trigger] b[y])
    &&& forall|y: int, x: int| 0 <= y < j && i <= x < a.len() ==> (#[trigger] b[y]).before(#[trigger] a[x])
    &&& ascending(acc)
    &&& forall|k: int, x: int|
        0 <= k < acc.len() && i <= x < a.len() ==> (#[trigger] acc[k]).0.before(#[trigger] a[x])
    &&& forall|k: int, y: int|
        0 <= k < acc.len() && j <= y < b.len() ==> (#[trigger] acc[k]).0.before(#[trigger] b[y])
    &&& forall|k: int| 0 <= k < acc.len() ==> is_change(a, b, #[trigger] acc[k])
    &&& forall|x: int| 0 <= x < i && !b.contains(#[trigger] a[x]) ==> acc.contains((a[x], -1i64))
    &&& forall|y: int| 0 <= y < j && !a.contains(#[trigger] b[y]) ==> acc.contains((b[y], 1i64))
}

/// Collecting one more change keeps what holds of the walk.
proof fn lemma_walk_push<T: Key>(acc: Seq<(T, i64)>, e: (T, i64))
    requires
        ascending(acc),
        forall|k: int| 0 <= k < acc.len() ==> (#[trigger] acc[k]).0.before(e.0),
    ensures
        ascending(acc.push(e)),
        forall|x: (T, i64)| acc.contains(x) ==> acc.push(e).contains(x),
        acc.push(e).contains(e),
{
    assert forall|x: (T, i64)| acc.contains(x) implies acc.push(e).contains(x) by {
        let k = acc.index_of(x);
        assert(acc.push(e)[k] == x);
    }
    assert(acc.push(e)[acc.len() as int] == e);
}

/// The walk along two ascending frontiers collects exactly the changes from
/// the one to the other, in ascending order.
proof fn lemma_delta_walk<T: Key>(a: Seq<T>, b: Seq<T>, i: int, j: int, acc: Seq<(T, i64)>)
    requires
        rising(a),
        rising(b),
        walked(a, b, i, j, acc),
    ensures
        ascending(delta_walk(a, b, i, j, acc)),
        forall|k: int|
            0 <= k < delta_walk(a, b, i, j, acc).len() ==> is_change(
                a,
                b,
                #[trigger] delta_walk(a, b, i, j, acc)[k],
            ),
        forall|x: int|
            0 <= x < a.len() && !b.contains(#[trigger] a[x]) ==> delta_walk(a, b, i, j, acc).contains(
                (a[x], -1i64),
            ),
        forall|y: int|
            0 <= y < b.len() && !a.contains(#[trigger] b[y]) ==> delta_walk(a, b, i, j, acc).contains(
                (b[y], 1i64),
            ),
    decreases (if i < a.len() { a.len() - i } else { 0 }) + (if j < b.len() { b.len() - j } else { 0 }),
{
    if i < a.len() && j < b.len() {
        T::before_total(a[i], b[j]);
        T::before_irreflexive(a[i]);
        T::before_irreflexive(b[j]);
        if a[i] == b[j] {
            assert(b.contains(a[i]));
            assert(a.contains(b[j]));
            assert forall|x: int, y: int| 0 <= x < i + 1 && j + 1 <= y < b.len() implies (
            #[trigger] a[x]).before(#[trigger] b[y]) by {
                if x == i {
                    assert(b[j].before(b[y]));
                }
            }
            assert forall|y: int, x: int| 0 <= y < j + 1 && i + 1 <= x < a.len() implies (
            #[trigger] b[y]).before(#[trigger] a[x]) by {
                if y == j {
                    assert(a[i].before(a[x]));
                }
            }
            lemma_delta_walk(a, b, i + 1, j + 1, acc);
        } else if a[i].before(b[j]) {
            let e = (a[i], -1i64);
            assert(a.contains(a[i]));
            assert(!b.contains(a[i])) by {
                if b.contains(a[i]) {
                    let y = b.index_of(a[i]);
                    if y < j {
                        assert(b[y].before(a[i]));
                    } else if y > j {
                        assert(b[j].before(b[y]));
                        T::before_transitive(a[i], b[j], b[y]);
                    }
                }
            }
            assert forall|k: int| 0 <= k < acc.len() implies (#[trigger] acc[k]).0.before(e.0) by {
                assert(acc[k].0.before(a[i]));
            }
            lemma_walk_push(acc, e);
            let next = acc.push(e);
            assert forall|x: int, y: int| 0 <= x < i + 1 && j <= y < b.len() implies (#[trigger] a[x]).before(
                #[trigger] b[y],
            ) by {
                if x == i && y > j {
                    assert(b[j].before(b[y]));
                    T::before_transitive(a[i], b[j], b[y]);
                }
            }
            assert forall|k: int, x: int| 0 <= k < next.len() && i + 1 <= x < a.len() implies (
            #[trigger] next[k]).0.before(#[trigger] a[x]) by {
                if k < acc.len() {
                    assert(next[k] == acc[k]);
                } else {
                    assert(a[i].before(a[x]));
                }
            }
            assert forall|k: int, y: int| 0 <= k < next.len() && j <= y < b.len() implies (
            #[trigger] next[k]).0.before(#[trigger] b[y]) by {
                if k < acc.len() {
                    assert(next[k] == acc[k]);
                } else if y > j {
                    assert(b[j].before(b[y]));
                    T::before_transitive(a[i], b[j], b[y]);
                }
            }
            assert forall|k: int| 0 <= k < next.len() implies is_change(a, b, #[trigger] next[k]) by {
                if k < acc.len() {
                    assert(next[k] == acc[k]);
                }
            }
            lemma_delta_walk(a, b, i + 1, j, next);
        } else {
            let e = (b[j], 1i64);
            assert(b.contains(b[j]));
            assert(!a.contains(b[j])) by {
                if a.contains(b[j]) {
                    let x = a.index_of(b[j]);
                    if x < i {
                        assert(a[x].before(b[j]));
                    } else if x > i {
                        assert(a[i].before(a[x]));
                        T::before_transitive(b[j], a[i], a[x]);
                    }
                }
            }
            assert forall|k: int| 0 <= k < acc.len() implies (#[trigger] acc[k]).0.before(e.0) by {
                assert(acc[k].0.before(b[j]));
            }
            lemma_walk_push(acc, e);
            let next = acc.push(e);
            assert forall|y: int, x: int| 0 <= y < j + 1 && i <= x < a.len() implies (#[trigger] b[y]).before(
                #[trigger] a[x],
            ) by {
                if y == j && x > i {
                    assert(a[i].before(a[x]));
                    T::before_transitive(b[j], a[i], a[x]);
                }
            }
            assert forall|k: int, x: int| 0 <= k < next.len() && i <= x < a.len() implies (
            #[trigger] next[k]).0.before(#[trigger] a[x]) by {
                if k < acc.len() {
                    assert(next[k] == acc[k]);
                } else if x > i {
                    assert(a[i].before(a[x]));
                    T::before_transitive(b[j], a[i], a[x]);
                }
            }
            assert forall|k: int, y: int| 0 <= k < next.len() && j + 1 <= y < b.len() implies (
            #[trigger] next[k]).0.before(#[trigger] b[y]) by {
                if k < acc.len() {
                    assert(next[k] == acc[k]);
                } else {
                    assert(b[j].before(b[y]));
                }
            }
            assert forall|k: int| 0 <= k < next.len() implies is_change(a, b, #[trigger] next[k]) by {
                if k < acc.len() {
                    assert(next[k] == acc[k]);
                }
            }
            lemma_delta_walk(a, b, i, j + 1, next);
        }
    } else if i < a.len() {
        let e = (a[i], -1i64);
        T::before_irreflexive(a[i]);
        assert(a.contains(a[i]));
        assert(!b.contains(a[i])) by {
            if b.contains(a[i]) {
                let y = b.index_of(a[i]);
                assert(b[y].before(a[i]));
            }
        }
        assert forall|k: int| 0 <= k < acc.len() implies (#[trigger] acc[k]).0.before(e.0) by {
            assert(acc[k].0.before(a[i]));
        }
        lemma_walk_push(acc, e);
        let next = acc.push(e);
        assert forall|k: int, x: int| 0 <= k < next.len() && i + 1 <= x < a.len() implies (
        #[trigger] next[k]).0.before(#[trigger] a[x]) by {
            if k < acc.len() {
                assert(next[k] == acc[k]);
            } else {
                assert(a[i].before(a[x]));
            }
        }
        assert forall|k: int| 0 <= k < next.len() implies is_change(a, b, #[trigger] next[k]) by {
            if k < acc.len() {
                assert(next[k] == acc[k]);
            }
        }
        lemma_delta_walk(a, b, i + 1, j, next);
    } else if j < b.len() {
        let e = (b[j], 1i64);
        T::before_irreflexive(b[j]);
        assert(b.contains(b[j]));
        assert(!a.contains(b[j])) by {
            if a.contains(b[j]) {
                let x = a.index_of(b[j]);
                assert(a[x].before(b[j]));
            }
        }
        assert forall|k: int| 0 <= k < acc.len() implies (#[trigger] acc[k]).0.before(e.0) by {
            assert(acc[k].0.before(b[j]));
        }
        lemma_walk_push(acc, e);
        let next = acc.push(e);
        assert forall|k: int, y: int| 0 <= k < next.len() && j + 1 <= y < b.len() implies (
        #[trigger] next[k]).0.before(#[trigger] b[y]) by {
            if k < acc.len() {
                assert(next[k] == acc[k]);
            } else {
                assert(b[j].before(b[y]));
            }
        }
        assert forall|k: int| 0 <= k < next.len() implies is_change(a, b, #[trigger] next[k]) by {
            if k < acc.len() {
                assert(next[k] == acc[k]);
            }
        }
        lemma_delta_walk(a, b, i, j + 1, next);
    }
}

/// Between two ascending frontiers the changes are: -1 at each timestamp that
/// leaves, +1 at each that enters, each timestamp once, in ascending order,
/// and nothing else.
pub proof fn lemma_frontier_changes<T: Key>(a: Seq<T>, b: Seq<T>)
    requires
        rising(a),
        rising(b),
    ensures
        ascending(frontier_changes(a, b)),
        forall|e: (T, i64)| frontier_changes(a, b).contains(e) <==> is_change(a, b, e),
{
    let r = frontier_changes(a, b);
    lemma_delta_walk(a, b, 0, 0, Seq::empty());
    assert forall|e: (T, i64)| r.contains(e) implies is_change(a, b, e) by {
        let k = r.index_of(e);
        assert(is_change(a, b, r[k]));
    }
    assert forall|e: (T, i64)| is_change(a, b, e) implies r.contains(e) by {
        if e.1 == -1 && a.contains(e.0) && !b.contains(e.0) {
            let x = a.index_of(e.0);
            assert(r.contains((a[x], -1i64)));
        } else {
            let y = b.index_of(e.0);
            assert(r.contains((b[y], 1i64)));
        }
    }
}

/// A timestamp that one change of frontier reports with a sign is not
/// reported with the same sign by the next change of frontier.
pub proof fn lemma_reports_alternate<T: Key>(f0: Seq<T>, f1: Seq<T>, f2: Seq<T>, e: (T, i64))
    requires
        rising(f0),
        rising(f1),
        rising(f2),
        frontier_changes(f0, f1).contains(e),
    ensures
        !frontier_changes(f1, f2).contains(e),
{
    lemma_frontier_changes(f0, f1);
    lemma_frontier_changes(f1, f2);
    assert(is_change(f0, f1, e));
    if frontier_changes(f1, f2).contains(e) {
        assert(is_change(f1, f2, e));
    }
}

/// A change to the count of one timestamp changes the frontier only at
/// timestamps that the changed timestamp is less than or equal to.
pub proof fn lemma_changes_follow<T: Timestamp>(counts: Seq<(T, i64)>, time: T, delta: i64, e: (T, i64))
    requires
        consolidated(counts),
        merged(counts, time, delta) is Some,
        frontier_changes(
            frontier_of(counts),
            frontier_of(merged(counts, time, delta).unwrap()),
        ).contains(e),
    ensures
        time.leq(e.0),
{
    let next = merged(counts, time, delta).unwrap();
    lemma_merged_consolidated(counts, time, delta);
    lemma_merged_others(counts, time, delta);
    lemma_frontier_minimal(counts);
    lemma_frontier_minimal(next);
    lemma_frontier_changes(frontier_of(counts), frontier_of(next));
    assert(is_change(frontier_of(counts), frontier_of(next), e));
    let t = e.0;
    T::le_reflexive(time);
    assert forall|u: T| u != time implies (positive(counts, u) <==> positive(next, u)) by {
        if positive(counts, u) {
            let j = choose|j: int| 0 <= j < counts.len() && (#[trigger] counts[j]).0 == u && counts[j].1 > 0;
            assert(counts.contains(counts[j]));
            assert(next.contains(counts[j]));
            let i = next.index_of(counts[j]);
            assert(next[i].0 == u && next[i].1 > 0);
        }
        if positive(next, u) {
            let j = choose|j: int| 0 <= j < next.len() && (#[trigger] next[j]).0 == u && next[j].1 > 0;
            assert(next.contains(next[j]));
            assert(counts.contains(next[j]));
            let i = counts.index_of(next[j]);
            assert(counts[i].0 == u && counts[i].1 > 0);
        }
    }
    if t != time {
        if frontier_of(counts).contains(t) {
            assert(minimal(counts, t));
            assert(!minimal(next, t));
            assert(positive(next, t));
            let u = choose|u: T| positive(next, u) && u.leq(t) && u != t;
            if u != time {
                assert(positive(counts, u));
            }
        } else {
            assert(minimal(next, t));
            assert(!minimal(counts, t));
            assert(positive(counts, t));
            let u = choose|u: T| positive(counts, u) && u.leq(t) && u != t;
            if u != time {
                assert(positive(next, u));
            }
        }
    }
}

/// Counts of timestamps, which may pass below zero, and their frontier: the
/// minimal timestamps whose count is positive.
pub struct MutableAntichain<T: Timestamp> {
    updates: ChangeBatch<T>,
    frontier: Vec<T>,
}

impl<T: Timestamp> View for MutableAntichain<T> {
    type V = Seq<(T, i64)>;

    /// The timestamps whose count is not zero, with their counts, in ascending
    /// order.
    closed spec fn view(&self) -> Seq<(T, i64)> {
        self.updates@
    }
}

/// Whether an element of `frontier` is less than or equal to `time`.
fn reaches<T: Timestamp>(frontier: &Vec<T>, time: &T) -> (r: bool)
    ensures
        r == dominated(frontier@, *time),
{
    let mut i: usize = 0;
    while i < frontier.len()
        invariant
            0 <= i <= frontier.len(),
            forall|j: int| 0 <= j < i ==> !(#[trigger] frontier@[j]).leq(*time),
        decreases frontier.len() - i,
    {
        if frontier[i].less_equal(time) {
            return true;
        }
        i += 1;
    }
    false
}

impl<T: Timestamp> MutableAntichain<T> {
    /// The frontier that is held.
    pub closed spec fn held(self) -> Seq<T> {
        self.frontier@
    }

    /// The counts are consolidated and the frontier held is theirs.
    pub open spec fn wf(self) -> bool {
        &&& consolidated(self@)
        &&& self.held() == frontier_of(self@)
    }

    /// No counts.
    pub fn new() -> (r: Self)
        ensures
            r@ == Seq::<(T, i64)>::empty(),
            r.wf(),
    {
        MutableAntichain { updates: ChangeBatch::new(), frontier: Vec::new() }
    }

    /// Adds each change of `updates` to the count of its timestamp, and returns
    /// how the frontier changed by it: -1 for each timestamp that left it and +1
    /// for each that entered it, in ascending order.
    pub fn update_iter(&mut self, updates: Vec<(T, i64)>) -> (r: Vec<(T, i64)>)
        requires
            old(self).wf(),
            applied(old(self)@, updates@, 0) is Some,
        ensures
            final(self)@ == applied(old(self)@, updates@, 0).unwrap(),
            final(self).wf(),
            r@ == frontier_changes(frontier_of(old(self)@), frontier_of(final(self)@)),
            ascending(r@),
            forall|e: (T, i64)|
                r@.contains(e) <==> is_change(frontier_of(old(self)@), frontier_of(final(self)@), e),
    {
        let ghost c0 = self@;
        proof {
            lemma_applied_consolidated(c0, updates@, 0);
        }
        let mut i: usize = 0;
        while i < updates.len()
            invariant
                0 <= i <= updates.len(),
                self.updates.wf(),
                self.frontier@ == frontier_of(c0),
                applied(self@, updates@, i as int) == applied(c0, updates@, 0),
                applied(c0, updates@, 0) is Some,
            decreases updates.len() - i,
        {
            let delta = updates[i].1;
            let time = updates[i].0.duplicate();
            self.updates.update(time, delta);
            i += 1;
        }
        let mut frontier: Vec<T> = Vec::new();
        let mut k: usize = 0;
        while k < self.updates.len()
            invariant
                0 <= k <= self@.len(),
                frontier@ == frontier_of(self@.take(k as int)),
            decreases self@.len() - k,
        {
            let entry = self.updates.entry(k);
            proof {
                assert(self@.take(k + 1).drop_last() == self@.take(k as int));
                assert(self@.take(k + 1).last() == self@[k as int]);
            }
            if entry.1 > 0 && !reaches(&frontier, &entry.0) {
                frontier.push(entry.0.duplicate());
            }
            k += 1;
        }
        assert(self@.take(k as int) == self@);
        let mut changes: Vec<(T, i64)> = Vec::new();
        let mut a: usize = 0;
        let mut b: usize = 0;
        while a < self.frontier.len() || b < frontier.len()
            invariant
                0 <= a <= self.frontier.len(),
                0 <= b <= frontier.len(),
                delta_walk(self.frontier@, frontier@, a as int, b as int, changes@)
                    == frontier_changes(self.frontier@, frontier@),
            decreases (self.frontier.len() - a) + (frontier.len() - b),
        {
            if a < self.frontier.len() && b < frontier.len() {
                if self.frontier[a].same(&frontier[b]) {
                    a += 1;
                    b += 1;
                } else if self.frontier[a].precedes(&frontier[b]) {
                    changes.push((self.frontier[a].duplicate(), -1i64));
                    a += 1;
                } else {
                    changes.push((frontier[b].duplicate(), 1i64));
                    b += 1;
                }
            } else if a < self.frontier.len() {
                changes.push((self.frontier[a].duplicate(), -1i64));
                a += 1;
            } else {
                changes.push((frontier[b].duplicate(), 1i64));
                b += 1;
            }
        }
        proof {
            lemma_frontier_minimal(c0);
            lemma_frontier_minimal(self@);
            lemma_frontier_changes(self.frontier@, frontier@);
        }
        self.frontier = frontier;
        changes
    }

    /// Whether `delta` can be added to the count of `time`: whether their sum
    /// is a count.
    pub fn fits(&self, time: &T, delta: i64) -> (r: bool)
        ensures
            r == merged(self@, *time, delta) is Some,
    {
        self.updates.fits(time, delta)
    }

    /// The count of `time`.
    pub fn count_for(&self, time: &T) -> (r: i64)
        ensures
            r == stored(self@, *time),
    {
        self.updates.count_of(time)
    }

    /// The frontier: the minimal timestamps whose count is positive, in
    /// ascending order.
    pub fn frontier(&self) -> (r: &Vec<T>)
        ensures
            r@ == self.held(),
            self.wf() ==> rising(r@) && forall|t: T| r@.contains(t) <==> minimal(self@, t),
    {
        proof {
            if self.wf() {
                lemma_frontier_minimal(self@);
            }
        }
        &self.frontier
    }

    /// A copy.
    pub fn duplicate(&self) -> (r: Self)
        ensures
            r@ == self@,
            r.held() == self.held(),
    {
        let mut frontier: Vec<T> = Vec::new();
        let mut i: usize = 0;
        while i < self.frontier.len()
            invariant
                0 <= i <= self.frontier.len(),
                frontier@ == self.frontier@.take(i as int),
            decreases self.frontier.len() - i,
        {
            frontier.push(self.frontier[i].duplicate());
            assert(self.frontier@.take(i + 1) == self.frontier@.take(i as int).push(
                self.frontier@[i as int],
            ));
            i += 1;
        }
        assert(self.frontier@.take(i as int) == self.frontier@);
        MutableAntichain { updates: self.updates.duplicate(), frontier }
    }
}

} // verus!
