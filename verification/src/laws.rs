//! What holds of propagation, whatever the graph and the changes.
use vstd::prelude::*;
use crate::order::{Key, PartialOrder, PathSummary, Timestamp};
use crate::location::{Location, Port, Source, Target};
use crate::change_batch::{
    merged, consolidated, stored, lemma_merged_consolidated, lemma_merged_stored,
    lemma_consolidated_unique,
};
use crate::frontier::{
    applied, frontier_of, frontier_changes, lemma_changes_follow, lemma_applied_consolidated,
};
use crate::worklist::{enqueued, gathered, entry_before, berth, lemma_berth, lemma_gathered};
use crate::propagation::{
    Plan, Ledger, crossed, sent, relayed, moved, step, run, quiet_after, taken_up, lemma_run_stays,
    lemma_run_fits,
};
use crate::tracker::Tracker;

verus! {

/// No pending change of `w` is at a timestamp that sorts ahead of `time`.
pub open spec fn none_before<T: Key>(w: Seq<(T, Location, i64)>, time: T) -> bool {
    forall|i: int| 0 <= i < w.len() ==> !(#[trigger] w[i]).0.before(time)
}

/// What does not sort ahead of `b` does not sort ahead of what `b` does not
/// sort ahead of.
pub proof fn lemma_not_before<T: Key>(a: T, b: T, c: T)
    requires
        !b.before(a),
        !c.before(b),
    ensures
        !c.before(a),
{
    T::before_total(a, b);
    T::before_total(b, c);
    T::before_irreflexive(a);
    if c.before(a) {
        if a.before(b) {
            T::before_transitive(c, a, b);
        }
    }
}

/// A timestamp is not moved ahead of itself along a path.
pub proof fn lemma_le_not_before<T: Timestamp>(a: T, b: T)
    requires
        a.leq(b),
    ensures
        !b.before(a),
{
    T::le_sorts(a, b);
    T::before_irreflexive(a);
    if a.before(b) && b.before(a) {
        T::before_transitive(a, b, a);
    }
}

/// Entering a change that is not ahead of `time` leaves nothing ahead of it.
proof fn lemma_enqueued_after<T: Key>(w: Seq<(T, Location, i64)>, e: (T, Location, i64), time: T)
    requires
        none_before(w, time),
        !e.0.before(time),
    ensures
        none_before(enqueued(w, e), time),
{
    let p = berth(w, e, w.len() as int);
    lemma_berth(w, e, w.len() as int);
    w.insert_ensures(p, e);
    let m = enqueued(w, e);
    assert forall|i: int| 0 <= i < m.len() implies !(#[trigger] m[i]).0.before(time) by {
        if i < p {
            assert(m[i] == w[i]);
        } else if i > p {
            assert(m[i] == w[i - 1]);
        }
    }
}

/// Crossing a node with a change that is not ahead of `time` leaves nothing
/// ahead of it.
proof fn lemma_crossed_after<T: Timestamp>(
    w: Seq<(T, Location, i64)>,
    row: Seq<Seq<T::Summary>>,
    node: usize,
    j: int,
    k: int,
    at: T,
    diff: i64,
    time: T,
)
    requires
        none_before(w, time),
        !at.before(time),
        0 <= j,
        0 <= k,
    ensures
        none_before(crossed(w, row, node, j, k, at, diff), time),
    decreases row.len() - j, (if 0 <= j < row.len() { row[j].len() - k } else { 0 }),
{
    if j < row.len() {
        if k < row[j].len() {
            match row[j][k].apply(at) {
                Some(t) => {
                    <T::Summary as PathSummary<T>>::apply_advances(row[j][k], at);
                    lemma_le_not_before(at, t);
                    lemma_not_before(time, at, t);
                    let e = (t, Location { node, port: Port::Source(j as usize) }, diff);
                    lemma_enqueued_after(w, e, time);
                    lemma_crossed_after(enqueued(w, e), row, node, j, k + 1, at, diff, time);
                },
                None => {
                    lemma_crossed_after(w, row, node, j, k + 1, at, diff, time);
                },
            }
        } else {
            lemma_crossed_after(w, row, node, j + 1, 0, at, diff, time);
        }
    }
}

/// Sending a change that is not ahead of `time` leaves nothing ahead of it.
proof fn lemma_sent_after<T: Timestamp>(
    w: Seq<(T, Location, i64)>,
    targets: Seq<Target>,
    k: int,
    at: T,
    diff: i64,
    time: T,
)
    requires
        none_before(w, time),
        !at.before(time),
        0 <= k,
    ensures
        none_before(sent(w, targets, k, at, diff), time),
    decreases targets.len() - k,
{
    if k < targets.len() {
        let e = (at, Location::of_target(targets[k]), diff);
        lemma_enqueued_after(w, e, time);
        lemma_sent_after(enqueued(w, e), targets, k + 1, at, diff, time);
    }
}

/// Relaying changes none of which is ahead of `time` leaves nothing ahead of
/// it.
proof fn lemma_relayed_after<T: Timestamp>(
    plan: Plan<T>,
    s: Ledger<T>,
    loc: Location,
    changes: Seq<(T, i64)>,
    c: int,
    time: T,
)
    requires
        none_before(s.worklist, time),
        forall|i: int| 0 <= i < changes.len() ==> !(#[trigger] changes[i]).0.before(time),
        relayed(plan, s, loc, changes, c) is Some,
        0 <= c,
    ensures
        none_before(relayed(plan, s, loc, changes, c).unwrap().worklist, time),
    decreases changes.len() - c,
{
    if c < changes.len() {
        let at = changes[c].0;
        let diff = changes[c].1;
        let worklist = match loc.port {
            Port::Target(i) => crossed(
                s.worklist,
                plan.nodes[loc.node as int][i as int],
                loc.node,
                0,
                0,
                at,
                diff,
            ),
            Port::Source(p) => sent(s.worklist, plan.edges[loc.node as int][p as int], 0, at, diff),
        };
        match loc.port {
            Port::Target(i) => {
                lemma_crossed_after(
                    s.worklist,
                    plan.nodes[loc.node as int][i as int],
                    loc.node,
                    0,
                    0,
                    at,
                    diff,
                    time,
                );
            },
            Port::Source(p) => {
                lemma_sent_after(s.worklist, plan.edges[loc.node as int][p as int], 0, at, diff, time);
            },
        }
        let pushed = merged(s.pushed, (loc, at), diff).unwrap();
        lemma_relayed_after(plan, Ledger { worklist, pushed, ..s }, loc, changes, c + 1, time);
    }
}

/// After a step of propagation no pending change is at a timestamp that sorts
/// ahead of the timestamp of the change that the step took out: the timestamps
/// at which changes are taken out never fall.
pub proof fn lemma_pops_ascend<T: Timestamp>(plan: Plan<T>, s: Ledger<T>)
    requires
        plan.wf(),
        s.wf(plan),
        s.worklist.len() > 0,
        step(plan, s) is Some,
    ensures
        none_before(step(plan, s).unwrap().worklist, s.worklist.last().0),
{
    let least = s.worklist.last();
    let time = least.0;
    lemma_gathered(s.worklist.drop_last(), least.0, least.1, least.2);
    let (rest, diff) = gathered(s.worklist.drop_last(), least.0, least.1, least.2).unwrap();
    assert forall|i: int| 0 <= i < rest.len() implies !(#[trigger] rest[i]).0.before(time) by {
        assert(rest[i] == s.worklist.drop_last().take(rest.len() as int)[i]);
        assert(rest[i] == s.worklist[i]);
        assert(!entry_before(s.worklist[i], s.worklist[s.worklist.len() - 1]));
    }
    let next = Ledger { worklist: rest, ..s };
    if diff != 0 {
        let loc = least.1;
        let counts = merged(s.implications[loc], time, diff).unwrap();
        let changes = frontier_changes(frontier_of(s.implications[loc]), frontier_of(counts));
        assert forall|i: int| 0 <= i < changes.len() implies !(#[trigger] changes[i]).0.before(time) by {
            assert(changes.contains(changes[i]));
            lemma_changes_follow(s.implications[loc], time, diff, changes[i]);
            lemma_le_not_before(time, changes[i].0);
        }
        lemma_relayed_after(
            plan,
            Ledger { implications: next.implications.insert(loc, counts), ..next },
            loc,
            changes,
            0,
            time,
        );
    }
}

/// Along a run of propagation, a change that is taken out later is not at a
/// timestamp that sorts ahead of one taken out earlier.
pub proof fn lemma_run_pops_ascend<T: Timestamp>(plan: Plan<T>, s: Ledger<T>, a: nat, b: nat)
    requires
        plan.wf(),
        s.wf(plan),
        a <= b,
        run(plan, s, b) is Some,
        run(plan, s, a).unwrap().worklist.len() > 0,
    ensures
        run(plan, s, a) is Some,
        none_before(run(plan, s, b).unwrap().worklist, run(plan, s, a).unwrap().worklist.last().0),
    decreases b - a,
{
    lemma_run_fits(plan, s, b, a);
    let first = run(plan, s, a).unwrap();
    let time = first.worklist.last().0;
    if a == b {
        assert forall|i: int| 0 <= i < first.worklist.len() implies !(
        #[trigger] first.worklist[i]).0.before(time) by {
            if i < first.worklist.len() - 1 {
                assert(!entry_before(first.worklist[i], first.worklist[first.worklist.len() - 1]));
            } else {
                T::before_irreflexive(time);
            }
        }
    } else {
        lemma_run_fits(plan, s, b, (b - 1) as nat);
        lemma_run_pops_ascend(plan, s, a, (b - 1) as nat);
        let before = run(plan, s, (b - 1) as nat).unwrap();
        let after = run(plan, s, b).unwrap();
        if before.worklist.len() > 0 {
            lemma_pops_ascend(plan, before);
            let mid = before.worklist.last().0;
            assert(!mid.before(time));
            assert forall|i: int| 0 <= i < after.worklist.len() implies !(
            #[trigger] after.worklist[i]).0.before(time) by {
                lemma_not_before(time, mid, after.worklist[i].0);
            }
        }
    }
}

/// What propagation comes to is a function of the graph, the state and what
/// is buffered: two trackers that agree on them agree on whether propagation
/// ends, and on the state in which it ends.
pub proof fn lemma_propagation_determined<T: Timestamp>(a: Tracker<T>, b: Tracker<T>)
    requires
        a.plan() == b.plan(),
        a.ledger() == b.ledger(),
        a.buffered_targets() == b.buffered_targets(),
        a.buffered_sources() == b.buffered_sources(),
    ensures
        a.propagation_settles() == b.propagation_settles(),
        a.propagated() == b.propagated(),
{
}

/// With nothing buffered and nothing pending, propagation ends at once and
/// changes nothing: propagating twice gives what propagating once gives.
pub proof fn lemma_propagation_idempotent<T: Timestamp>(t: Tracker<T>)
    requires
        t.buffered_targets().len() == 0,
        t.buffered_sources().len() == 0,
        t.ledger().worklist.len() == 0,
    ensures
        t.propagation_settles(),
        t.propagated() == t.ledger(),
{
    let plan = t.plan();
    let s = t.ledger();
    assert(taken_up(plan, s, t.buffered_targets(), t.buffered_sources()) == Some(s));
    assert(quiet_after(plan, s, 0));
    let n = choose|n: nat| quiet_after(plan, s, n);
    lemma_run_stays(plan, s, 0, n);
}

/// The sum of the changes to `key` among `updates[from..]`.
pub open spec fn net<K>(updates: Seq<(K, i64)>, key: K, from: int) -> int
    decreases updates.len() - from,
{
    if 0 <= from < updates.len() {
        (if updates[from].0 == key {
            updates[from].1 as int
        } else {
            0
        }) + net(updates, key, from + 1)
    } else {
        0
    }
}

/// Changes that are added one after the other add up, key by key.
pub proof fn lemma_applied_stored<K: Key>(s: Seq<(K, i64)>, updates: Seq<(K, i64)>, from: int, key: K)
    requires
        consolidated(s),
        applied(s, updates, from) is Some,
        0 <= from,
    ensures
        consolidated(applied(s, updates, from).unwrap()),
        stored(applied(s, updates, from).unwrap(), key) == stored(s, key) + net(updates, key, from),
    decreases updates.len() - from,
{
    if from < updates.len() {
        let next = merged(s, updates[from].0, updates[from].1).unwrap();
        lemma_merged_consolidated(s, updates[from].0, updates[from].1);
        lemma_merged_stored(s, updates[from].0, updates[from].1, key);
        lemma_applied_stored(next, updates, from + 1, key);
    }
}

/// What is buffered does not depend on the order in which changes come: two
/// sequences of changes whose sums agree key by key leave the same buffer.
pub proof fn lemma_updates_order_free<K: Key>(s: Seq<(K, i64)>, first: Seq<(K, i64)>, second: Seq<(K, i64)>)
    requires
        consolidated(s),
        applied(s, first, 0) is Some,
        applied(s, second, 0) is Some,
        forall|k: K| net(first, k, 0) == net(second, k, 0),
    ensures
        applied(s, first, 0) == applied(s, second, 0),
{
    let a = applied(s, first, 0).unwrap();
    let b = applied(s, second, 0).unwrap();
    assert forall|k: K| stored(a, k) == stored(b, k) by {
        lemma_applied_stored(s, first, 0, k);
        lemma_applied_stored(s, second, 0, k);
    }
    lemma_applied_consolidated(s, first, 0);
    lemma_applied_consolidated(s, second, 0);
    lemma_consolidated_unique(a, b);
}

} // verus!
