//! The balance that propagation keeps.
//!
//! At every port and timestamp, what counts among the implications together
//! with what is pending there is what is due there: the capabilities held at
//! the port in the frontier, and what the frontiers of the implications at
//! other ports pass on along the summaries and edges that lead to the port.
use vstd::prelude::*;
use crate::order::{Key, PartialOrder, PathSummary, Timestamp};
use crate::location::{Location, Port, Source, Target};
use crate::change_batch::{
    merged, consolidated, stored, sum64, lemma_merged_stored, lemma_merged_consolidated,
    lemma_stored_entry,
};
use crate::frontier::{
    frontier_of, frontier_changes, delta_walk, minimal, positive, rising, lemma_frontier_minimal,
};
use crate::worklist::{enqueued, gathered, berth, lemma_berth};
use crate::acyclic::{port_list, lemma_port_list, lemma_port_list_distinct, arc, has_cycle};
use crate::propagation::{
    Plan, Ledger, crossed, sent, projected, noted, absorbed_one, absorbed_targets,
    absorbed_sources, relayed, step, run, taken_up, settles, settled, quiet_after,
    lemma_absorbed_one_fits, lemma_absorbed_targets_fits, lemma_absorbed_sources_fits,
    lemma_run_fits,
};
use crate::ending::{guided, lemma_arc_deepens, lemma_sortable};

verus! {

/// The sum of the pending changes of `w` at the port `v` and the timestamp
/// `t`.
pub open spec fn pending<T>(w: Seq<(T, Location, i64)>, v: Location, t: T) -> int
    decreases w.len(),
{
    if w.len() == 0 {
        0
    } else {
        pending(w.drop_last(), v, t) + if w.last().0 == t && w.last().1 == v {
            w.last().2 as int
        } else {
            0
        }
    }
}

/// A pending change that enters adds to the sum at its port and timestamp.
pub proof fn lemma_pending_insert<T>(w: Seq<(T, Location, i64)>, p: int, e: (T, Location, i64), v: Location, t: T)
    requires
        0 <= p <= w.len(),
    ensures
        pending(w.insert(p, e), v, t) == pending(w, v, t) + if e.0 == t && e.1 == v {
            e.2 as int
        } else {
            0
        },
    decreases w.len() - p,
{
    w.insert_ensures(p, e);
    let m = w.insert(p, e);
    if p == w.len() {
        assert(m.drop_last() =~= w);
        assert(m.last() == e);
    } else {
        assert(m.last() == w.last());
        assert(m.drop_last() =~= w.drop_last().insert(p, e)) by {
            w.drop_last().insert_ensures(p, e);
        }
        lemma_pending_insert(w.drop_last(), p, e, v, t);
    }
}

/// A pending change that is entered at its place adds to the sum at its port
/// and timestamp.
pub proof fn lemma_pending_enqueued<T: Key>(w: Seq<(T, Location, i64)>, e: (T, Location, i64), v: Location, t: T)
    ensures
        pending(enqueued(w, e), v, t) == pending(w, v, t) + if e.0 == t && e.1 == v {
            e.2 as int
        } else {
            0
        },
{
    lemma_berth(w, e, w.len() as int);
    lemma_pending_insert(w, berth(w, e, w.len() as int), e, v, t);
}

/// What is gathered is taken from the sum at its port and timestamp, and
/// from no other.
pub proof fn lemma_pending_gathered<T: Key>(
    w: Seq<(T, Location, i64)>,
    time: T,
    location: Location,
    acc: i64,
    v: Location,
    t: T,
)
    requires
        gathered(w, time, location, acc) is Some,
    ensures
        pending(w, v, t) == pending(gathered(w, time, location, acc).unwrap().0, v, t) + if v
            == location && t == time {
            gathered(w, time, location, acc).unwrap().1 - acc
        } else {
            0
        },
    decreases w.len(),
{
    if w.len() > 0 && w.last().0 == time && w.last().1 == location {
        let sum = sum64(acc, w.last().2).unwrap();
        lemma_pending_gathered(w.drop_last(), time, location, sum, v, t);
    }
}

/// How many of the summaries of `row` from `row[j][k]` on lead to the port
/// `v` and turn the timestamp `at` into `t`.
pub open spec fn flow_cross<T: Timestamp>(
    row: Seq<Seq<T::Summary>>,
    node: usize,
    j: int,
    k: int,
    at: T,
    v: Location,
    t: T,
) -> int
    decreases row.len() - j, (if 0 <= j < row.len() { row[j].len() - k } else { 0 }),
{
    if 0 <= j < row.len() {
        if 0 <= k < row[j].len() {
            (if row[j][k].apply(at) == Some(t) && v == (Location {
                node,
                port: Port::Source(j as usize),
            }) {
                1int
            } else {
                0
            }) + flow_cross::<T>(row, node, j, k + 1, at, v, t)
        } else {
            flow_cross::<T>(row, node, j + 1, 0, at, v, t)
        }
    } else {
        0
    }
}

/// How many of `targets[k..]` are the port `v`, where `at` is `t`; nothing
/// otherwise.
pub open spec fn flow_send<T>(targets: Seq<Target>, k: int, at: T, v: Location, t: T) -> int
    decreases targets.len() - k,
{
    if 0 <= k < targets.len() {
        (if at == t && Location::of_target(targets[k]) == v {
            1int
        } else {
            0
        }) + flow_send(targets, k + 1, at, v, t)
    } else {
        0
    }
}

/// How many changes pending at `v` and `t` come of one change to the
/// frontier of the implications at `u`, at the timestamp `at`.
pub open spec fn flow_out<T: Timestamp>(plan: Plan<T>, u: Location, at: T, v: Location, t: T) -> int {
    match u.port {
        Port::Target(i) => flow_cross::<T>(plan.nodes[u.node as int][i as int], u.node, 0, 0, at, v, t),
        Port::Source(p) => flow_send(plan.edges[u.node as int][p as int], 0, at, v, t),
    }
}

/// Crossing a node adds the change to the sum at a port and timestamp as
/// often as summaries lead there.
pub proof fn lemma_pending_crossed<T: Timestamp>(
    w: Seq<(T, Location, i64)>,
    row: Seq<Seq<T::Summary>>,
    node: usize,
    j: int,
    k: int,
    at: T,
    diff: i64,
    v: Location,
    t: T,
)
    requires
        0 <= j,
        0 <= k,
    ensures
        pending(crossed(w, row, node, j, k, at, diff), v, t) == pending(w, v, t) + diff * flow_cross::<T>(
            row,
            node,
            j,
            k,
            at,
            v,
            t,
        ),
    decreases row.len() - j, (if 0 <= j < row.len() { row[j].len() - k } else { 0 }),
{
    if j < row.len() {
        if k < row[j].len() {
            let rest = flow_cross::<T>(row, node, j, k + 1, at, v, t);
            match row[j][k].apply(at) {
                Some(u) => {
                    let e = (u, Location { node, port: Port::Source(j as usize) }, diff);
                    lemma_pending_enqueued(w, e, v, t);
                    lemma_pending_crossed(enqueued(w, e), row, node, j, k + 1, at, diff, v, t);
                    assert(diff * (1 + rest) == diff + diff * rest) by (nonlinear_arith);
                },
                None => {
                    lemma_pending_crossed(w, row, node, j, k + 1, at, diff, v, t);
                },
            }
        } else {
            lemma_pending_crossed(w, row, node, j + 1, 0, at, diff, v, t);
        }
    } else {
        assert(diff * 0 == 0) by (nonlinear_arith);
    }
}

/// Sending along edges adds the change to the sum at a port and timestamp as
/// often as edges lead there.
pub proof fn lemma_pending_sent<T: Timestamp>(
    w: Seq<(T, Location, i64)>,
    targets: Seq<Target>,
    k: int,
    at: T,
    diff: i64,
    v: Location,
    t: T,
)
    requires
        0 <= k,
    ensures
        pending(sent(w, targets, k, at, diff), v, t) == pending(w, v, t) + diff * flow_send(
            targets,
            k,
            at,
            v,
            t,
        ),
    decreases targets.len() - k,
{
    if k < targets.len() {
        let rest = flow_send(targets, k + 1, at, v, t);
        let e = (at, Location::of_target(targets[k]), diff);
        lemma_pending_enqueued(w, e, v, t);
        lemma_pending_sent(enqueued(w, e), targets, k + 1, at, diff, v, t);
        assert(diff * (1 + rest) == diff + diff * rest) by (nonlinear_arith);
    } else {
        assert(diff * 0 == 0) by (nonlinear_arith);
    }
}

/// The sum of `g` over `front[from..]`.
pub open spec fn tally<T>(front: Seq<T>, from: int, g: spec_fn(T) -> int) -> int
    decreases front.len() - from,
{
    if 0 <= from < front.len() {
        g(front[from]) + tally(front, from + 1, g)
    } else {
        0
    }
}

/// The sum of the changes `changes[from..]`, each times `g` of its timestamp.
pub open spec fn weighed<T>(changes: Seq<(T, i64)>, from: int, g: spec_fn(T) -> int) -> int
    decreases changes.len() - from,
{
    if 0 <= from < changes.len() {
        changes[from].1 * g(changes[from].0) + weighed(changes, from + 1, g)
    } else {
        0
    }
}

/// A change more at the end adds its part to the sum.
pub proof fn lemma_weighed_push<T>(changes: Seq<(T, i64)>, from: int, e: (T, i64), g: spec_fn(T) -> int)
    requires
        0 <= from <= changes.len(),
    ensures
        weighed(changes.push(e), from, g) == weighed(changes, from, g) + e.1 * g(e.0),
    decreases changes.len() - from,
{
    if from < changes.len() {
        lemma_weighed_push(changes, from + 1, e, g);
        assert(changes.push(e)[from] == changes[from]);
    } else {
        assert(changes.push(e)[from] == e);
        assert(weighed(changes.push(e), from + 1, g) == 0);
    }
}

/// The walk along two frontiers collects changes that sum to what the second
/// frontier sums to less what the first sums to.
pub proof fn lemma_weighed_walk<T: Key>(
    a: Seq<T>,
    b: Seq<T>,
    i: int,
    j: int,
    acc: Seq<(T, i64)>,
    g: spec_fn(T) -> int,
)
    requires
        0 <= i <= a.len(),
        0 <= j <= b.len(),
    ensures
        weighed(delta_walk(a, b, i, j, acc), 0, g) == weighed(acc, 0, g) + tally(b, j, g) - tally(a, i, g),
    decreases (if i < a.len() { a.len() - i } else { 0 }) + (if j < b.len() { b.len() - j } else { 0 }),
{
    if i < a.len() && j < b.len() {
        if a[i] == b[j] {
            lemma_weighed_walk(a, b, i + 1, j + 1, acc, g);
        } else if a[i].before(b[j]) {
            lemma_weighed_push(acc, 0, (a[i], -1i64), g);
            lemma_weighed_walk(a, b, i + 1, j, acc.push((a[i], -1i64)), g);
        } else {
            lemma_weighed_push(acc, 0, (b[j], 1i64), g);
            lemma_weighed_walk(a, b, i, j + 1, acc.push((b[j], 1i64)), g);
        }
    } else if i < a.len() {
        lemma_weighed_push(acc, 0, (a[i], -1i64), g);
        lemma_weighed_walk(a, b, i + 1, j, acc.push((a[i], -1i64)), g);
    } else if j < b.len() {
        lemma_weighed_push(acc, 0, (b[j], 1i64), g);
        lemma_weighed_walk(a, b, i, j + 1, acc.push((b[j], 1i64)), g);
    }
}

/// The changes from one frontier to another sum to what the second frontier
/// sums to less what the first sums to.
pub proof fn lemma_weighed_changes<T: Key>(a: Seq<T>, b: Seq<T>, g: spec_fn(T) -> int)
    ensures
        weighed(frontier_changes(a, b), 0, g) == tally(b, 0, g) - tally(a, 0, g),
{
    lemma_weighed_walk(a, b, 0, 0, Seq::empty(), g);
}

/// For a timestamp, how many changes pending at `v` and `t` come of a change
/// to the frontier of the implications at `u` at that timestamp.
pub open spec fn passing<T: Timestamp>(plan: Plan<T>, u: Location, v: Location, t: T) -> spec_fn(T)
    -> int {
    |at: T| flow_out(plan, u, at, v, t)
}

/// For a timestamp, one where it is `t`, and nothing otherwise.
pub open spec fn hitting<T>(t: T) -> spec_fn(T) -> int {
    |at: T|
        if at == t {
            1int
        } else {
            0
        }
}

/// For every timestamp, one.
pub open spec fn counting<T>() -> spec_fn(T) -> int {
    |at: T| 1int
}

/// The ports of the plan, each once.
pub open spec fn ports_of<T: Timestamp>(plan: Plan<T>) -> Seq<Location> {
    port_list(plan.nodes, plan.edges, plan.nodes.len() as int)
}

/// What the frontiers of the implications at `ports[..upto]` pass on to the
/// port `v` at the timestamp `t`.
pub open spec fn due_in<T: Timestamp>(
    plan: Plan<T>,
    implications: Map<Location, Seq<(T, i64)>>,
    ports: Seq<Location>,
    upto: int,
    v: Location,
    t: T,
) -> int
    decreases upto,
{
    if upto <= 0 {
        0
    } else {
        due_in(plan, implications, ports, upto - 1, v, t) + tally(
            frontier_of(implications[ports[upto - 1]]),
            0,
            passing(plan, ports[upto - 1], v, t),
        )
    }
}

/// The number of timestamps in the frontiers of the capabilities held at
/// `ports[..upto]`.
pub open spec fn held_in<T: Timestamp>(
    pointstamps: Map<Location, Seq<(T, i64)>>,
    ports: Seq<Location>,
    upto: int,
) -> int
    decreases upto,
{
    if upto <= 0 {
        0
    } else {
        held_in(pointstamps, ports, upto - 1) + tally(
            frontier_of(pointstamps[ports[upto - 1]]),
            0,
            counting(),
        )
    }
}

/// At the port `v` and the timestamp `t`, what counts among the implications
/// and what is pending is what is due: the capability held there in the
/// frontier, and what the frontiers of the implications pass on.
pub open spec fn balanced_at<T: Timestamp>(plan: Plan<T>, s: Ledger<T>, v: Location, t: T) -> bool {
    stored(s.implications[v], t) + pending(s.worklist, v, t) == tally(
        frontier_of(s.pointstamps[v]),
        0,
        hitting(t),
    ) + due_in(plan, s.implications, ports_of(plan), ports_of(plan).len() as int, v, t)
}

/// The state is in balance at every port and timestamp, and its total is the
/// number of timestamps in the frontiers of the capabilities held.
pub open spec fn balanced<T: Timestamp>(plan: Plan<T>, s: Ledger<T>) -> bool {
    &&& forall|v: Location, t: T| plan.has(v) ==> #[trigger] balanced_at(plan, s, v, t)
    &&& s.total == held_in(s.pointstamps, ports_of(plan), ports_of(plan).len() as int)
}

/// Where the counts of the implications at one port change, what is passed
/// on changes by what the frontier there passes on.
pub proof fn lemma_due_in_insert<T: Timestamp>(
    plan: Plan<T>,
    implications: Map<Location, Seq<(T, i64)>>,
    ports: Seq<Location>,
    upto: int,
    loc: Location,
    counts: Seq<(T, i64)>,
    v: Location,
    t: T,
)
    requires
        ports.no_duplicates(),
        0 <= upto <= ports.len(),
    ensures
        due_in(plan, implications.insert(loc, counts), ports, upto, v, t) == due_in(
            plan,
            implications,
            ports,
            upto,
            v,
            t,
        ) + if exists|a: int| 0 <= a < upto && ports[a] == loc {
            tally(frontier_of(counts), 0, passing(plan, loc, v, t)) - tally(
                frontier_of(implications[loc]),
                0,
                passing(plan, loc, v, t),
            )
        } else {
            0
        },
    decreases upto,
{
    if upto > 0 {
        lemma_due_in_insert(plan, implications, ports, upto - 1, loc, counts, v, t);
        if ports[upto - 1] == loc {
            assert(0 <= upto - 1 < upto && ports[upto - 1] == loc);
            if exists|a: int| 0 <= a < upto - 1 && ports[a] == loc {
                let a = choose|a: int| 0 <= a < upto - 1 && ports[a] == loc;
                assert(ports[a] == ports[upto - 1]);
                assert(false);
            }
        } else {
            if exists|a: int| 0 <= a < upto && ports[a] == loc {
                let a = choose|a: int| 0 <= a < upto && ports[a] == loc;
                assert(0 <= a < upto - 1 && ports[a] == loc);
            }
        }
    }
}

/// Where the counts of the capabilities held at one port change, the number
/// of timestamps in the frontiers changes by that of the frontier there.
pub proof fn lemma_held_in_insert<T: Timestamp>(
    pointstamps: Map<Location, Seq<(T, i64)>>,
    ports: Seq<Location>,
    upto: int,
    loc: Location,
    counts: Seq<(T, i64)>,
)
    requires
        ports.no_duplicates(),
        0 <= upto <= ports.len(),
    ensures
        held_in(pointstamps.insert(loc, counts), ports, upto) == held_in(pointstamps, ports, upto)
            + if exists|a: int| 0 <= a < upto && ports[a] == loc {
            tally(frontier_of(counts), 0, counting()) - tally(frontier_of(pointstamps[loc]), 0, counting())
        } else {
            0
        },
    decreases upto,
{
    if upto > 0 {
        lemma_held_in_insert(pointstamps, ports, upto - 1, loc, counts);
        if ports[upto - 1] == loc {
            assert(0 <= upto - 1 < upto && ports[upto - 1] == loc);
            if exists|a: int| 0 <= a < upto - 1 && ports[a] == loc {
                let a = choose|a: int| 0 <= a < upto - 1 && ports[a] == loc;
                assert(ports[a] == ports[upto - 1]);
                assert(false);
            }
        } else {
            if exists|a: int| 0 <= a < upto && ports[a] == loc {
                let a = choose|a: int| 0 <= a < upto && ports[a] == loc;
                assert(0 <= a < upto - 1 && ports[a] == loc);
            }
        }
    }
}

/// Relaying changes adds to what is pending at a port and timestamp each
/// change as often as it is passed on there, and leaves the counts.
pub proof fn lemma_relayed_effect<T: Timestamp>(
    plan: Plan<T>,
    s: Ledger<T>,
    loc: Location,
    changes: Seq<(T, i64)>,
    c: int,
    v: Location,
    t: T,
)
    requires
        relayed(plan, s, loc, changes, c) is Some,
        0 <= c,
    ensures
        pending(relayed(plan, s, loc, changes, c).unwrap().worklist, v, t) == pending(s.worklist, v, t)
            + weighed(changes, c, passing(plan, loc, v, t)),
        relayed(plan, s, loc, changes, c).unwrap().implications == s.implications,
        relayed(plan, s, loc, changes, c).unwrap().pointstamps == s.pointstamps,
        relayed(plan, s, loc, changes, c).unwrap().total == s.total,
        relayed(plan, s, loc, changes, c).unwrap().outputs == s.outputs,
    decreases changes.len() - c,
{
    if c < changes.len() {
        let at = changes[c].0;
        let diff = changes[c].1;
        let worklist = match loc.port {
            Port::Target(i) => crossed(
                s.worklist,
                plan.nodes[loc.node as int][i as int],
                loc.node,
                0,
                0,
                at,
                diff,
            ),
            Port::Source(p) => sent(s.worklist, plan.edges[loc.node as int][p as int], 0, at, diff),
        };
        match loc.port {
            Port::Target(i) => {
                lemma_pending_crossed(
                    s.worklist,
                    plan.nodes[loc.node as int][i as int],
                    loc.node,
                    0,
                    0,
                    at,
                    diff,
                    v,
                    t,
                );
            },
            Port::Source(p) => {
                lemma_pending_sent(s.worklist, plan.edges[loc.node as int][p as int], 0, at, diff, v, t);
            },
        }
        let pushed = merged(s.pushed, (loc, at), diff).unwrap();
        lemma_relayed_effect(plan, Ledger { worklist, pushed, ..s }, loc, changes, c + 1, v, t);
        assert(passing(plan, loc, v, t)(at) == flow_out(plan, loc, at, v, t));
    }
}

/// Noting changes adds each to what is pending at its port and timestamp and
/// to the total, and leaves the counts.
pub proof fn lemma_noted_effect<T: Timestamp>(
    plan: Plan<T>,
    s: Ledger<T>,
    loc: Location,
    changes: Seq<(T, i64)>,
    c: int,
    v: Location,
    t: T,
)
    requires
        noted(plan, s, loc, changes, c) is Some,
        0 <= c,
    ensures
        pending(noted(plan, s, loc, changes, c).unwrap().worklist, v, t) == pending(s.worklist, v, t)
            + if v == loc {
            weighed(changes, c, hitting(t))
        } else {
            0
        },
        noted(plan, s, loc, changes, c).unwrap().total == s.total + weighed(changes, c, counting()),
        noted(plan, s, loc, changes, c).unwrap().implications == s.implications,
        noted(plan, s, loc, changes, c).unwrap().pointstamps == s.pointstamps,
        noted(plan, s, loc, changes, c).unwrap().pushed == s.pushed,
    decreases changes.len() - c,
{
    if c < changes.len() {
        let time = changes[c].0;
        let diff = changes[c].1;
        let total = sum64(s.total, diff).unwrap();
        let outputs = projected(s.outputs, plan.summaries[loc], 0, 0, time, diff).unwrap();
        let e = (time, loc, diff);
        lemma_pending_enqueued(s.worklist, e, v, t);
        let next = Ledger { total, outputs, worklist: enqueued(s.worklist, e), ..s };
        lemma_noted_effect(plan, next, loc, changes, c + 1, v, t);
        assert(hitting(t)(time) == if time == t { 1int } else { 0 });
        assert(counting::<T>()(time) == 1);
        assert(diff * 1 == diff) by (nonlinear_arith);
        assert(diff * 0 == 0) by (nonlinear_arith);
    }
}

/// A step of propagation keeps the balance.
pub proof fn lemma_step_balanced<T: Timestamp>(plan: Plan<T>, s: Ledger<T>)
    requires
        plan.wf(),
        s.wf(plan),
        balanced(plan, s),
        step(plan, s) is Some,
    ensures
        balanced(plan, step(plan, s).unwrap()),
{
    let after = step(plan, s).unwrap();
    let ports = ports_of(plan);
    if s.worklist.len() > 0 {
        let least = s.worklist.last();
        let time = least.0;
        let loc = least.1;
        let (rest, diff) = gathered(s.worklist.drop_last(), least.0, least.1, least.2).unwrap();
        let next = Ledger { worklist: rest, ..s };
        lemma_port_list_distinct(plan.nodes, plan.edges, plan.nodes.len() as int);
        assert(plan.has(loc));
        lemma_port_list(plan.nodes, plan.edges, plan.nodes.len() as int, loc);
        assert forall|v: Location, t: T| plan.has(v) implies #[trigger] balanced_at(plan, after, v, t) by {
            assert(balanced_at(plan, s, v, t));
            lemma_pending_gathered(s.worklist.drop_last(), least.0, least.1, least.2, v, t);
            if diff != 0 {
                let counts = merged(s.implications[loc], time, diff).unwrap();
                let front0 = frontier_of(s.implications[loc]);
                let front1 = frontier_of(counts);
                let changes = frontier_changes(front0, front1);
                let mid = Ledger { implications: next.implications.insert(loc, counts), ..next };
                lemma_merged_stored(s.implications[loc], time, diff, t);
                lemma_relayed_effect(plan, mid, loc, changes, 0, v, t);
                lemma_weighed_changes(front0, front1, passing(plan, loc, v, t));
                lemma_due_in_insert(plan, s.implications, ports, ports.len() as int, loc, counts, v, t);
                let a = ports.index_of(loc);
                assert(0 <= a < ports.len() && ports[a] == loc);
            }
        }
        if diff != 0 {
            let counts = merged(s.implications[loc], time, diff).unwrap();
            let changes = frontier_changes(frontier_of(s.implications[loc]), frontier_of(counts));
            let mid = Ledger { implications: next.implications.insert(loc, counts), ..next };
            lemma_relayed_effect(plan, mid, loc, changes, 0, loc, time);
        }
    }
}

/// Taking up a buffered change keeps the balance.
pub proof fn lemma_absorbed_one_balanced<T: Timestamp>(
    plan: Plan<T>,
    s: Ledger<T>,
    loc: Location,
    time: T,
    diff: i64,
)
    requires
        plan.wf(),
        s.wf(plan),
        plan.has(loc),
        balanced(plan, s),
        absorbed_one(plan, s, loc, time, diff) is Some,
    ensures
        balanced(plan, absorbed_one(plan, s, loc, time, diff).unwrap()),
{
    let after = absorbed_one(plan, s, loc, time, diff).unwrap();
    let ports = ports_of(plan);
    let counts = merged(s.pointstamps[loc], time, diff).unwrap();
    let front0 = frontier_of(s.pointstamps[loc]);
    let front1 = frontier_of(counts);
    let changes = frontier_changes(front0, front1);
    let mid = Ledger { pointstamps: s.pointstamps.insert(loc, counts), ..s };
    lemma_port_list_distinct(plan.nodes, plan.edges, plan.nodes.len() as int);
    lemma_port_list(plan.nodes, plan.edges, plan.nodes.len() as int, loc);
    let a = ports.index_of(loc);
    assert(0 <= a < ports.len() && ports[a] == loc);
    assert forall|v: Location, t: T| plan.has(v) implies #[trigger] balanced_at(plan, after, v, t) by {
        assert(balanced_at(plan, s, v, t));
        lemma_noted_effect(plan, mid, loc, changes, 0, v, t);
        lemma_weighed_changes(front0, front1, hitting(t));
    }
    lemma_noted_effect(plan, mid, loc, changes, 0, loc, time);
    lemma_weighed_changes(front0, front1, counting());
    lemma_held_in_insert(s.pointstamps, ports, ports.len() as int, loc, counts);
}

/// Steps of propagation keep the balance.
pub proof fn lemma_run_balanced<T: Timestamp>(plan: Plan<T>, s: Ledger<T>, n: nat)
    requires
        plan.wf(),
        s.wf(plan),
        balanced(plan, s),
        run(plan, s, n) is Some,
    ensures
        balanced(plan, run(plan, s, n).unwrap()),
    decreases n,
{
    if n > 0 {
        lemma_run_fits(plan, s, n, (n - 1) as nat);
        lemma_run_balanced(plan, s, (n - 1) as nat);
        lemma_step_balanced(plan, run(plan, s, (n - 1) as nat).unwrap());
    }
}

/// Taking up buffered changes at input ports keeps the balance.
pub proof fn lemma_absorbed_targets_balanced<T: Timestamp>(
    plan: Plan<T>,
    s: Ledger<T>,
    entries: Seq<((Target, T), i64)>,
    e: int,
)
    requires
        plan.wf(),
        s.wf(plan),
        balanced(plan, s),
        forall|i: int| 0 <= i < entries.len() ==> plan.has(Location::of_target((#[trigger] entries[i]).0.0)),
        absorbed_targets(plan, s, entries, e) is Some,
        0 <= e,
    ensures
        balanced(plan, absorbed_targets(plan, s, entries, e).unwrap()),
    decreases entries.len() - e,
{
    if e < entries.len() {
        let loc = Location::of_target(entries[e].0.0);
        lemma_absorbed_one_fits(plan, s, loc, entries[e].0.1, entries[e].1);
        lemma_absorbed_one_balanced(plan, s, loc, entries[e].0.1, entries[e].1);
        lemma_absorbed_targets_balanced(
            plan,
            absorbed_one(plan, s, loc, entries[e].0.1, entries[e].1).unwrap(),
            entries,
            e + 1,
        );
    }
}

/// Taking up buffered changes at output ports keeps the balance.
pub proof fn lemma_absorbed_sources_balanced<T: Timestamp>(
    plan: Plan<T>,
    s: Ledger<T>,
    entries: Seq<((Source, T), i64)>,
    e: int,
)
    requires
        plan.wf(),
        s.wf(plan),
        balanced(plan, s),
        forall|i: int| 0 <= i < entries.len() ==> plan.has(Location::of_source((#[trigger] entries[i]).0.0)),
        absorbed_sources(plan, s, entries, e) is Some,
        0 <= e,
    ensures
        balanced(plan, absorbed_sources(plan, s, entries, e).unwrap()),
    decreases entries.len() - e,
{
    if e < entries.len() {
        let loc = Location::of_source(entries[e].0.0);
        lemma_absorbed_one_fits(plan, s, loc, entries[e].0.1, entries[e].1);
        lemma_absorbed_one_balanced(plan, s, loc, entries[e].0.1, entries[e].1);
        lemma_absorbed_sources_balanced(
            plan,
            absorbed_one(plan, s, loc, entries[e].0.1, entries[e].1).unwrap(),
            entries,
            e + 1,
        );
    }
}

/// Propagation keeps the balance: from a state in balance, the state in
/// which propagation ends is in balance.
pub proof fn lemma_propagation_balanced<T: Timestamp>(
    plan: Plan<T>,
    s: Ledger<T>,
    targets: Seq<((Target, T), i64)>,
    sources: Seq<((Source, T), i64)>,
)
    requires
        plan.wf(),
        s.wf(plan),
        balanced(plan, s),
        forall|i: int| 0 <= i < targets.len() ==> plan.has(Location::of_target((#[trigger] targets[i]).0.0)),
        forall|i: int| 0 <= i < sources.len() ==> plan.has(Location::of_source((#[trigger] sources[i]).0.0)),
        taken_up(plan, s, targets, sources) is Some,
        settles(plan, taken_up(plan, s, targets, sources).unwrap()),
    ensures
        balanced(plan, taken_up(plan, s, targets, sources).unwrap()),
        balanced(plan, settled(plan, taken_up(plan, s, targets, sources).unwrap())),
        settled(plan, taken_up(plan, s, targets, sources).unwrap()).wf(plan),
        settled(plan, taken_up(plan, s, targets, sources).unwrap()).worklist.len() == 0,
{
    lemma_absorbed_targets_fits(plan, s, targets, 0);
    lemma_absorbed_targets_balanced(plan, s, targets, 0);
    let mid = absorbed_targets(plan, s, targets, 0).unwrap();
    lemma_absorbed_sources_fits(plan, mid, sources, 0);
    lemma_absorbed_sources_balanced(plan, mid, sources, 0);
    let taken = taken_up(plan, s, targets, sources).unwrap();
    let n = choose|n: nat| quiet_after(plan, taken, n);
    lemma_run_fits(plan, taken, n, n);
    lemma_run_balanced(plan, taken, n);
}

/// Sums of what is nowhere negative are not negative, and where they are
/// positive, a part of them is.
pub proof fn lemma_tally_positive<T>(front: Seq<T>, from: int, g: spec_fn(T) -> int)
    requires
        0 <= from,
        forall|i: int| 0 <= i < front.len() ==> g(#[trigger] front[i]) >= 0,
    ensures
        tally(front, from, g) >= 0,
        tally(front, from, g) > 0 ==> exists|i: int| from <= i < front.len() && g(#[trigger] front[i]) > 0,
    decreases front.len() - from,
{
    if from < front.len() {
        lemma_tally_positive(front, from + 1, g);
        if tally(front, from, g) > 0 {
            if g(front[from]) > 0 {
            } else {
                let i = choose|i: int| from + 1 <= i < front.len() && g(#[trigger] front[i]) > 0;
                assert(from <= i < front.len() && g(front[i]) > 0);
            }
        }
    }
}

/// What a summary passes on, it passes on along a summary that leads there.
pub proof fn lemma_flow_cross_positive<T: Timestamp>(
    row: Seq<Seq<T::Summary>>,
    node: usize,
    j: int,
    k: int,
    at: T,
    v: Location,
    t: T,
)
    requires
        0 <= j,
        0 <= k,
    ensures
        flow_cross::<T>(row, node, j, k, at, v, t) >= 0,
        flow_cross::<T>(row, node, j, k, at, v, t) > 0 ==> exists|j2: int, k2: int|
            0 <= j2 < row.len() && 0 <= k2 < row[j2].len() && (#[trigger] row[j2][k2]).apply(at) == Some(t)
                && v == (Location { node, port: Port::Source(j2 as usize) }),
    decreases row.len() - j, (if 0 <= j < row.len() { row[j].len() - k } else { 0 }),
{
    if j < row.len() {
        if k < row[j].len() {
            lemma_flow_cross_positive::<T>(row, node, j, k + 1, at, v, t);
            if flow_cross::<T>(row, node, j, k, at, v, t) > 0 {
                if row[j][k].apply(at) == Some(t) && v == (Location { node, port: Port::Source(j as usize) }) {
                    assert(0 <= j < row.len() && 0 <= k < row[j].len() && row[j][k].apply(at) == Some(t));
                }
            }
        } else {
            lemma_flow_cross_positive::<T>(row, node, j + 1, 0, at, v, t);
        }
    }
}

/// What an edge passes on, it passes on along an edge that leads there, at
/// the same timestamp.
pub proof fn lemma_flow_send_positive<T>(targets: Seq<Target>, k: int, at: T, v: Location, t: T)
    requires
        0 <= k,
    ensures
        flow_send(targets, k, at, v, t) >= 0,
        flow_send(targets, k, at, v, t) > 0 ==> at == t && exists|k2: int|
            0 <= k2 < targets.len() && Location::of_target(#[trigger] targets[k2]) == v,
    decreases targets.len() - k,
{
    if k < targets.len() {
        lemma_flow_send_positive(targets, k + 1, at, v, t);
        if flow_send(targets, k, at, v, t) > 0 {
            if at == t && Location::of_target(targets[k]) == v {
                assert(0 <= k < targets.len() && Location::of_target(targets[k]) == v);
            }
        }
    }
}

/// What is passed on to a port is not negative, and where it is positive,
/// the frontier of the implications at some port passes something on.
pub proof fn lemma_due_in_positive<T: Timestamp>(
    plan: Plan<T>,
    implications: Map<Location, Seq<(T, i64)>>,
    ports: Seq<Location>,
    upto: int,
    v: Location,
    t: T,
)
    requires
        0 <= upto <= ports.len(),
    ensures
        due_in(plan, implications, ports, upto, v, t) >= 0,
        due_in(plan, implications, ports, upto, v, t) > 0 ==> exists|a: int, i: int|
            0 <= a < upto && 0 <= i < frontier_of(implications[ports[a]]).len() && #[trigger] flow_out(
                plan,
                ports[a],
                frontier_of(implications[ports[a]])[i],
                v,
                t,
            ) > 0,
    decreases upto,
{
    if upto > 0 {
        lemma_due_in_positive(plan, implications, ports, upto - 1, v, t);
        let u = ports[upto - 1];
        let front = frontier_of(implications[u]);
        let g = passing(plan, u, v, t);
        assert forall|i: int| 0 <= i < front.len() implies g(#[trigger] front[i]) >= 0 by {
            lemma_flow_out_positive(plan, u, front[i], v, t);
        }
        lemma_tally_positive(front, 0, g);
        if due_in(plan, implications, ports, upto, v, t) > 0 {
            if tally(front, 0, g) > 0 {
                let i = choose|i: int| 0 <= i < front.len() && g(#[trigger] front[i]) > 0;
                assert(flow_out(plan, ports[upto - 1], frontier_of(implications[ports[upto - 1]])[i], v, t) > 0);
            } else {
                let (a, i) = choose|a: int, i: int|
                    0 <= a < upto - 1 && 0 <= i < frontier_of(implications[ports[a]]).len()
                        && #[trigger] flow_out(
                        plan,
                        ports[a],
                        frontier_of(implications[ports[a]])[i],
                        v,
                        t,
                    ) > 0;
                assert(0 <= a < upto);
            }
        }
    }
}

/// What a change at a port passes on is not negative.
pub proof fn lemma_flow_out_positive<T: Timestamp>(plan: Plan<T>, u: Location, at: T, v: Location, t: T)
    ensures
        flow_out(plan, u, at, v, t) >= 0,
{
    match u.port {
        Port::Target(i) => {
            lemma_flow_cross_positive::<T>(plan.nodes[u.node as int][i as int], u.node, 0, 0, at, v, t);
        },
        Port::Source(p) => {
            lemma_flow_send_positive(plan.edges[u.node as int][p as int], 0, at, v, t);
        },
    }
}

/// How far from the front of `order` the location `loc` stands.
pub open spec fn place(order: Seq<Location>, loc: Location) -> nat {
    if order.contains(loc) {
        order.index_of(loc) as nat
    } else {
        0
    }
}

/// Every port of the plan holds no capability in its frontier.
pub open spec fn nothing_held<T: Timestamp>(plan: Plan<T>, s: Ledger<T>) -> bool {
    forall|l: Location| plan.has(l) ==> (#[trigger] frontier_of(s.pointstamps[l])).len() == 0
}

/// With nothing held and nothing pending, in a graph without a cycle, no
/// timestamp is in the frontier of the implications at a port: it would be
/// passed on from a frontier at an earlier timestamp, or from one at the same
/// timestamp further up the graph, and so without end.
pub proof fn lemma_nothing_implied<T: Timestamp>(
    plan: Plan<T>,
    s: Ledger<T>,
    order: Seq<Location>,
    v: Location,
    t: T,
)
    requires
        plan.wf(),
        s.wf(plan),
        balanced(plan, s),
        s.worklist.len() == 0,
        nothing_held(plan, s),
        guided(plan, order),
        plan.has(v),
    ensures
        !frontier_of(s.implications[v]).contains(t),
    decreases T::horizon() - t.height(), place(order, v),
{
    let unit = T::Summary::identity();
    let counts = s.implications[v];
    T::height_bounded(t);
    if frontier_of(counts).contains(t) {
        lemma_frontier_minimal(counts);
        assert(minimal(counts, t));
        let j = choose|j: int| 0 <= j < counts.len() && (#[trigger] counts[j]).0 == t && counts[j].1 > 0;
        assert(counts.contains(counts[j]));
        lemma_stored_entry(counts, t);
        assert(stored(counts, t) > 0);
        assert(balanced_at(plan, s, v, t));
        assert(frontier_of(s.pointstamps[v]).len() == 0);
        let ports = ports_of(plan);
        lemma_due_in_positive(plan, s.implications, ports, ports.len() as int, v, t);
        let (a, i) = choose|a: int, i: int|
            0 <= a < ports.len() && 0 <= i < frontier_of(s.implications[ports[a]]).len()
                && #[trigger] flow_out(plan, ports[a], frontier_of(s.implications[ports[a]])[i], v, t) > 0;
        let u = ports[a];
        let front = frontier_of(s.implications[u]);
        let at = front[i];
        lemma_port_list_distinct(plan.nodes, plan.edges, plan.nodes.len() as int);
        assert(plan.has(u));
        assert(front.contains(at));
        T::height_bounded(at);
        match u.port {
            Port::Target(p) => {
                let row = plan.nodes[u.node as int][p as int];
                lemma_flow_cross_positive::<T>(row, u.node, 0, 0, at, v, t);
                let (j2, k2) = choose|j2: int, k2: int|
                    0 <= j2 < row.len() && 0 <= k2 < row[j2].len() && (#[trigger] row[j2][k2]).apply(at)
                        == Some(t) && v == (Location { node: u.node, port: Port::Source(j2 as usize) });
                <T::Summary as PathSummary<T>>::apply_advances(row[j2][k2], at);
                T::le_sorts(at, t);
                if at == t {
                    if row[j2][k2] != unit {
                        <T::Summary as PathSummary<T>>::apply_changes(row[j2][k2], at);
                    }
                    assert(row[j2].contains(unit));
                    assert(arc(plan.nodes, plan.edges, unit, u, v));
                    lemma_arc_deepens(plan.nodes, plan.edges, unit, order, u, v);
                    lemma_nothing_implied(plan, s, order, u, at);
                } else {
                    T::height_falls(at, t);
                    lemma_nothing_implied(plan, s, order, u, at);
                }
            },
            Port::Source(p) => {
                let targets = plan.edges[u.node as int][p as int];
                lemma_flow_send_positive(targets, 0, at, v, t);
                let k2 = choose|k2: int|
                    0 <= k2 < targets.len() && Location::of_target(#[trigger] targets[k2]) == v;
                assert(targets.contains(targets[k2]));
                assert(arc(plan.nodes, plan.edges, unit, u, v));
                lemma_arc_deepens(plan.nodes, plan.edges, unit, order, u, v);
                lemma_nothing_implied(plan, s, order, u, at);
            },
        }
        assert(false);
    }
}

/// Counting every timestamp of a frontier gives its length.
pub proof fn lemma_tally_counting<T>(front: Seq<T>, from: int)
    requires
        0 <= from <= front.len(),
    ensures
        tally(front, from, counting()) == front.len() - from,
    decreases front.len() - from,
{
    if from < front.len() {
        lemma_tally_counting(front, from + 1);
        assert(counting::<T>()(front[from]) == 1);
    }
}

/// In a frontier, which holds each timestamp once, a timestamp is hit once
/// or not at all.
pub proof fn lemma_tally_hitting<T: Key>(front: Seq<T>, from: int, t: T)
    requires
        rising(front),
        0 <= from <= front.len(),
    ensures
        tally(front, from, hitting(t)) == if exists|i: int| from <= i < front.len() && front[i] == t {
            1int
        } else {
            0
        },
    decreases front.len() - from,
{
    if from < front.len() {
        lemma_tally_hitting(front, from + 1, t);
        assert(hitting(t)(front[from]) == if front[from] == t { 1int } else { 0 });
        if front[from] == t {
            assert(from <= from < front.len() && front[from] == t);
            if exists|i: int| from + 1 <= i < front.len() && front[i] == t {
                let i = choose|i: int| from + 1 <= i < front.len() && front[i] == t;
                assert(front[from].before(front[i]));
                T::before_irreflexive(t);
            }
        } else {
            if exists|i: int| from <= i < front.len() && front[i] == t {
                let i = choose|i: int| from <= i < front.len() && front[i] == t;
                assert(from + 1 <= i < front.len() && front[i] == t);
            }
        }
    }
}

/// The number of timestamps in the frontiers of the capabilities held is
/// not negative, and where it is nothing, each frontier is empty.
pub proof fn lemma_held_in_zero<T: Timestamp>(
    pointstamps: Map<Location, Seq<(T, i64)>>,
    ports: Seq<Location>,
    upto: int,
)
    requires
        0 <= upto <= ports.len(),
    ensures
        held_in(pointstamps, ports, upto) >= 0,
        held_in(pointstamps, ports, upto) == 0 <==> forall|a: int|
            0 <= a < upto ==> (#[trigger] frontier_of(pointstamps[ports[a]])).len() == 0,
    decreases upto,
{
    if upto > 0 {
        lemma_held_in_zero(pointstamps, ports, upto - 1);
        lemma_tally_counting(frontier_of(pointstamps[ports[upto - 1]]), 0);
        if held_in(pointstamps, ports, upto) == 0 {
            assert forall|a: int| 0 <= a < upto implies (#[trigger] frontier_of(pointstamps[ports[a]])).len()
                == 0 by {
                if a < upto - 1 {
                }
            }
        }
    }
}

/// Empty frontiers pass nothing on.
pub proof fn lemma_due_in_zero<T: Timestamp>(
    plan: Plan<T>,
    implications: Map<Location, Seq<(T, i64)>>,
    ports: Seq<Location>,
    upto: int,
    v: Location,
    t: T,
)
    requires
        0 <= upto <= ports.len(),
        forall|a: int| 0 <= a < upto ==> (#[trigger] frontier_of(implications[ports[a]])).len() == 0,
    ensures
        due_in(plan, implications, ports, upto, v, t) == 0,
    decreases upto,
{
    if upto > 0 {
        lemma_due_in_zero(plan, implications, ports, upto - 1, v, t);
        assert(frontier_of(implications[ports[upto - 1]]).len() == 0);
    }
}

/// Every port of the plan has no implications at all.
pub open spec fn nothing_implied<T: Timestamp>(plan: Plan<T>, s: Ledger<T>) -> bool {
    forall|l: Location| plan.has(l) ==> #[trigger] s.implications[l] == Seq::<(T, i64)>::empty()
}

/// With nothing held in a frontier and nothing pending, in a graph without a
/// cycle, nothing is implied anywhere, and the total is nothing.
pub proof fn lemma_clear<T: Timestamp>(plan: Plan<T>, s: Ledger<T>)
    requires
        plan.wf(),
        s.wf(plan),
        balanced(plan, s),
        s.worklist.len() == 0,
        !has_cycle(plan.nodes, plan.edges, T::Summary::identity()),
        nothing_held(plan, s),
    ensures
        nothing_implied(plan, s),
        s.total == 0,
{
    let ports = ports_of(plan);
    let order = lemma_sortable(
        plan.nodes,
        plan.edges,
        T::Summary::identity(),
        Set::empty(),
        Seq::empty(),
    );
    lemma_port_list_distinct(plan.nodes, plan.edges, plan.nodes.len() as int);
    lemma_held_in_zero(s.pointstamps, ports, ports.len() as int);
    assert forall|a: int| 0 <= a < ports.len() implies (#[trigger] frontier_of(s.pointstamps[ports[a]])).len()
        == 0 by {
        assert(plan.has(ports[a]));
    }
    assert forall|a: int| 0 <= a < ports.len() implies (#[trigger] frontier_of(
        s.implications[ports[a]],
    )).len() == 0 by {
        let front = frontier_of(s.implications[ports[a]]);
        assert(plan.has(ports[a]));
        if front.len() > 0 {
            lemma_nothing_implied(plan, s, order, ports[a], front[0]);
            assert(front.contains(front[0]));
        }
    }
    assert forall|l: Location| plan.has(l) implies #[trigger] s.implications[l] == Seq::<
        (T, i64),
    >::empty() by {
        let counts = s.implications[l];
        if counts.len() > 0 {
            let e = counts[0];
            assert(counts.contains(e));
            lemma_stored_entry(counts, e.0);
            assert(stored(counts, e.0) == e.1);
            assert(balanced_at(plan, s, l, e.0));
            lemma_due_in_zero(plan, s.implications, ports, ports.len() as int, l, e.0);
            assert(frontier_of(s.pointstamps[l]).len() == 0);
            assert(false);
        }
        assert(counts =~= Seq::<(T, i64)>::empty());
    }
}

/// Conservation: where propagation has ended and the total is not positive,
/// in a graph without a cycle, the total is nothing, no capability is held in
/// a frontier, and nothing is implied anywhere.
pub proof fn lemma_conservation<T: Timestamp>(plan: Plan<T>, s: Ledger<T>)
    requires
        plan.wf(),
        s.wf(plan),
        balanced(plan, s),
        s.worklist.len() == 0,
        !has_cycle(plan.nodes, plan.edges, T::Summary::identity()),
        s.total <= 0,
    ensures
        s.total == 0,
        nothing_held(plan, s),
        nothing_implied(plan, s),
{
    let ports = ports_of(plan);
    lemma_held_in_zero(s.pointstamps, ports, ports.len() as int);
    assert forall|l: Location| plan.has(l) implies (#[trigger] frontier_of(s.pointstamps[l])).len() == 0 by {
        lemma_port_list(plan.nodes, plan.edges, plan.nodes.len() as int, l);
        let a = ports.index_of(l);
        assert(frontier_of(s.pointstamps[ports[a]]).len() == 0);
    }
    lemma_clear(plan, s);
}

/// What was pushed for the port `v` and the timestamp `t` beyond whether `t`
/// is in the frontier of the implications there.
pub open spec fn reported<T: Timestamp>(s: Ledger<T>, v: Location, t: T) -> int {
    stored(s.pushed, (v, t)) - tally(frontier_of(s.implications[v]), 0, hitting(t))
}

/// What was pushed beyond the frontier is what was pushed for the port and
/// the timestamp, less one where the timestamp is in the frontier of the
/// implications there: where it is nothing, what was pushed and not yet taken
/// is one for each timestamp of the frontier, and nothing for every other.
pub proof fn lemma_reported_membership<T: Timestamp>(plan: Plan<T>, s: Ledger<T>, v: Location, t: T)
    requires
        s.wf(plan),
        plan.has(v),
    ensures
        reported(s, v, t) == stored(s.pushed, (v, t)) - if frontier_of(s.implications[v]).contains(t) {
            1int
        } else {
            0
        },
{
    let front = frontier_of(s.implications[v]);
    lemma_frontier_minimal(s.implications[v]);
    lemma_tally_hitting(front, 0, t);
    if front.contains(t) {
        let i = front.index_of(t);
        assert(0 <= i < front.len() && front[i] == t);
    }
}

/// Relaying changes records each as pushed.
pub proof fn lemma_relayed_pushed<T: Timestamp>(
    plan: Plan<T>,
    s: Ledger<T>,
    loc: Location,
    changes: Seq<(T, i64)>,
    c: int,
    v: Location,
    t: T,
)
    requires
        consolidated(s.pushed),
        relayed(plan, s, loc, changes, c) is Some,
        0 <= c,
    ensures
        stored(relayed(plan, s, loc, changes, c).unwrap().pushed, (v, t)) == stored(s.pushed, (v, t))
            + if v == loc {
            weighed(changes, c, hitting(t))
        } else {
            0
        },
    decreases changes.len() - c,
{
    if c < changes.len() {
        let at = changes[c].0;
        let diff = changes[c].1;
        let worklist = match loc.port {
            Port::Target(i) => crossed(
                s.worklist,
                plan.nodes[loc.node as int][i as int],
                loc.node,
                0,
                0,
                at,
                diff,
            ),
            Port::Source(p) => sent(s.worklist, plan.edges[loc.node as int][p as int], 0, at, diff),
        };
        let pushed = merged(s.pushed, (loc, at), diff).unwrap();
        lemma_merged_consolidated(s.pushed, (loc, at), diff);
        lemma_merged_stored(s.pushed, (loc, at), diff, (v, t));
        lemma_relayed_pushed(plan, Ledger { worklist, pushed, ..s }, loc, changes, c + 1, v, t);
        assert(hitting(t)(at) == if at == t { 1int } else { 0 });
        assert(diff * 1 == diff) by (nonlinear_arith);
        assert(diff * 0 == 0) by (nonlinear_arith);
    }
}

/// A step of propagation pushes exactly the changes of the frontiers of the
/// implications.
pub proof fn lemma_step_reports<T: Timestamp>(plan: Plan<T>, s: Ledger<T>, v: Location, t: T)
    requires
        plan.wf(),
        s.wf(plan),
        step(plan, s) is Some,
    ensures
        reported(step(plan, s).unwrap(), v, t) == reported(s, v, t),
{
    if s.worklist.len() > 0 {
        let least = s.worklist.last();
        let time = least.0;
        let loc = least.1;
        let (rest, diff) = gathered(s.worklist.drop_last(), least.0, least.1, least.2).unwrap();
        let next = Ledger { worklist: rest, ..s };
        if diff != 0 {
            let counts = merged(s.implications[loc], time, diff).unwrap();
            let front0 = frontier_of(s.implications[loc]);
            let front1 = frontier_of(counts);
            let changes = frontier_changes(front0, front1);
            let mid = Ledger { implications: next.implications.insert(loc, counts), ..next };
            lemma_relayed_pushed(plan, mid, loc, changes, 0, v, t);
            lemma_relayed_effect(plan, mid, loc, changes, 0, v, t);
            lemma_weighed_changes(front0, front1, hitting(t));
        }
    }
}

/// Steps of propagation push exactly the changes of the frontiers of the
/// implications.
pub proof fn lemma_run_reports<T: Timestamp>(plan: Plan<T>, s: Ledger<T>, n: nat, v: Location, t: T)
    requires
        plan.wf(),
        s.wf(plan),
        run(plan, s, n) is Some,
    ensures
        reported(run(plan, s, n).unwrap(), v, t) == reported(s, v, t),
        run(plan, s, n).unwrap().pointstamps == s.pointstamps,
    decreases n,
{
    if n > 0 {
        lemma_run_fits(plan, s, n, (n - 1) as nat);
        lemma_run_reports(plan, s, (n - 1) as nat, v, t);
        let before = run(plan, s, (n - 1) as nat).unwrap();
        lemma_step_reports(plan, before, v, t);
        lemma_step_pointstamps(plan, before);
    }
}

/// A step of propagation leaves the capabilities held.
pub proof fn lemma_step_pointstamps<T: Timestamp>(plan: Plan<T>, s: Ledger<T>)
    requires
        step(plan, s) is Some,
    ensures
        step(plan, s).unwrap().pointstamps == s.pointstamps,
{
    if s.worklist.len() > 0 {
        let least = s.worklist.last();
        let (rest, diff) = gathered(s.worklist.drop_last(), least.0, least.1, least.2).unwrap();
        let next = Ledger { worklist: rest, ..s };
        if diff != 0 {
            let counts = merged(s.implications[least.1], least.0, diff).unwrap();
            let changes = frontier_changes(frontier_of(s.implications[least.1]), frontier_of(counts));
            let mid = Ledger { implications: next.implications.insert(least.1, counts), ..next };
            lemma_relayed_effect(plan, mid, least.1, changes, 0, least.1, least.0);
        }
    }
}

/// Taking up a buffered change leaves what was pushed and what is implied,
/// and adds the change to the count of the capabilities held.
pub proof fn lemma_absorbed_one_effect<T: Timestamp>(
    plan: Plan<T>,
    s: Ledger<T>,
    loc: Location,
    time: T,
    diff: i64,
    v: Location,
    t: T,
)
    requires
        plan.wf(),
        s.wf(plan),
        plan.has(loc),
        plan.has(v),
        absorbed_one(plan, s, loc, time, diff) is Some,
    ensures
        absorbed_one(plan, s, loc, time, diff).unwrap().pushed == s.pushed,
        absorbed_one(plan, s, loc, time, diff).unwrap().implications == s.implications,
        stored(absorbed_one(plan, s, loc, time, diff).unwrap().pointstamps[v], t) == stored(
            s.pointstamps[v],
            t,
        ) + if v == loc && t == time {
            diff as int
        } else {
            0
        },
{
    let counts = merged(s.pointstamps[loc], time, diff).unwrap();
    let changes = frontier_changes(frontier_of(s.pointstamps[loc]), frontier_of(counts));
    let mid = Ledger { pointstamps: s.pointstamps.insert(loc, counts), ..s };
    lemma_noted_effect(plan, mid, loc, changes, 0, v, t);
    lemma_merged_stored(s.pointstamps[loc], time, diff, t);
}

/// The sum of the buffered changes `entries[e..]` at the port `v` and the
/// timestamp `t`.
pub open spec fn net_targets<T>(entries: Seq<((Target, T), i64)>, e: int, v: Location, t: T) -> int
    decreases entries.len() - e,
{
    if 0 <= e < entries.len() {
        (if Location::of_target(entries[e].0.0) == v && entries[e].0.1 == t {
            entries[e].1 as int
        } else {
            0
        }) + net_targets(entries, e + 1, v, t)
    } else {
        0
    }
}

/// The sum of the buffered changes `entries[e..]` at the port `v` and the
/// timestamp `t`.
pub open spec fn net_sources<T>(entries: Seq<((Source, T), i64)>, e: int, v: Location, t: T) -> int
    decreases entries.len() - e,
{
    if 0 <= e < entries.len() {
        (if Location::of_source(entries[e].0.0) == v && entries[e].0.1 == t {
            entries[e].1 as int
        } else {
            0
        }) + net_sources(entries, e + 1, v, t)
    } else {
        0
    }
}

/// In a consolidated buffer the sum of the changes at an input port and
/// timestamp is the net change of their key.
pub proof fn lemma_net_targets<T: Key>(entries: Seq<((Target, T), i64)>, e: int, target: Target, t: T)
    requires
        consolidated(entries),
        0 <= e,
    ensures
        forall|i: int|
            e <= i < entries.len() && (#[trigger] entries[i]).0 == (target, t) ==> net_targets(
                entries,
                e,
                Location::of_target(target),
                t,
            ) == entries[i].1,
        (forall|i: int| e <= i < entries.len() ==> (#[trigger] entries[i]).0 != (target, t)) ==> net_targets(
            entries,
            e,
            Location::of_target(target),
            t,
        ) == 0,
        e == 0 ==> net_targets(entries, e, Location::of_target(target), t) == stored(entries, (target, t)),
    decreases entries.len() - e,
{
    let v = Location::of_target(target);
    if e < entries.len() {
        lemma_net_targets(entries, e + 1, target, t);
        <(Target, T) as Key>::before_irreflexive((target, t));
        assert(Location::of_target(entries[e].0.0) == v <==> entries[e].0.0 == target);
        if entries[e].0 == (target, t) {
            assert forall|i: int| e + 1 <= i < entries.len() implies (#[trigger] entries[i]).0 != (target, t) by {
                assert(entries[e].0.before(entries[i].0));
            }
        }
    }
    if e == 0 {
        lemma_stored_entry(entries, (target, t));
        if stored(entries, (target, t)) != 0 {
            let i = entries.index_of(((target, t), stored(entries, (target, t))));
            assert(entries[i].0 == (target, t));
        } else {
            if exists|i: int| 0 <= i < entries.len() && (#[trigger] entries[i]).0 == (target, t) {
                let i = choose|i: int| 0 <= i < entries.len() && (#[trigger] entries[i]).0 == (target, t);
                assert(entries.contains(entries[i]));
                assert(entries[i] == ((target, t), entries[i].1));
            }
        }
    }
}

/// In a consolidated buffer the sum of the changes at an output port and
/// timestamp is the net change of their key.
pub proof fn lemma_net_sources<T: Key>(entries: Seq<((Source, T), i64)>, e: int, source: Source, t: T)
    requires
        consolidated(entries),
        0 <= e,
    ensures
        forall|i: int|
            e <= i < entries.len() && (#[trigger] entries[i]).0 == (source, t) ==> net_sources(
                entries,
                e,
                Location::of_source(source),
                t,
            ) == entries[i].1,
        (forall|i: int| e <= i < entries.len() ==> (#[trigger] entries[i]).0 != (source, t)) ==> net_sources(
            entries,
            e,
            Location::of_source(source),
            t,
        ) == 0,
        e == 0 ==> net_sources(entries, e, Location::of_source(source), t) == stored(entries, (source, t)),
    decreases entries.len() - e,
{
    let v = Location::of_source(source);
    if e < entries.len() {
        lemma_net_sources(entries, e + 1, source, t);
        <(Source, T) as Key>::before_irreflexive((source, t));
        assert(Location::of_source(entries[e].0.0) == v <==> entries[e].0.0 == source);
        if entries[e].0 == (source, t) {
            assert forall|i: int| e + 1 <= i < entries.len() implies (#[trigger] entries[i]).0 != (source, t) by {
                assert(entries[e].0.before(entries[i].0));
            }
        }
    }
    if e == 0 {
        lemma_stored_entry(entries, (source, t));
        if stored(entries, (source, t)) != 0 {
            let i = entries.index_of(((source, t), stored(entries, (source, t))));
            assert(entries[i].0 == (source, t));
        } else {
            if exists|i: int| 0 <= i < entries.len() && (#[trigger] entries[i]).0 == (source, t) {
                let i = choose|i: int| 0 <= i < entries.len() && (#[trigger] entries[i]).0 == (source, t);
                assert(entries.contains(entries[i]));
                assert(entries[i] == ((source, t), entries[i].1));
            }
        }
    }
}

/// Taking up buffered changes at input ports leaves what was pushed and what
/// is implied, and adds the changes to the counts of the capabilities held.
pub proof fn lemma_absorbed_targets_effect<T: Timestamp>(
    plan: Plan<T>,
    s: Ledger<T>,
    entries: Seq<((Target, T), i64)>,
    e: int,
    v: Location,
    t: T,
)
    requires
        plan.wf(),
        s.wf(plan),
        plan.has(v),
        forall|i: int| 0 <= i < entries.len() ==> plan.has(Location::of_target((#[trigger] entries[i]).0.0)),
        absorbed_targets(plan, s, entries, e) is Some,
        0 <= e,
    ensures
        absorbed_targets(plan, s, entries, e).unwrap().pushed == s.pushed,
        absorbed_targets(plan, s, entries, e).unwrap().implications == s.implications,
        stored(absorbed_targets(plan, s, entries, e).unwrap().pointstamps[v], t) == stored(
            s.pointstamps[v],
            t,
        ) + net_targets(entries, e, v, t),
    decreases entries.len() - e,
{
    if e < entries.len() {
        let loc = Location::of_target(entries[e].0.0);
        lemma_absorbed_one_fits(plan, s, loc, entries[e].0.1, entries[e].1);
        lemma_absorbed_one_effect(plan, s, loc, entries[e].0.1, entries[e].1, v, t);
        lemma_absorbed_targets_effect(
            plan,
            absorbed_one(plan, s, loc, entries[e].0.1, entries[e].1).unwrap(),
            entries,
            e + 1,
            v,
            t,
        );
    }
}

/// Taking up buffered changes at output ports leaves what was pushed and
/// what is implied, and adds the changes to the counts of the capabilities
/// held.
pub proof fn lemma_absorbed_sources_effect<T: Timestamp>(
    plan: Plan<T>,
    s: Ledger<T>,
    entries: Seq<((Source, T), i64)>,
    e: int,
    v: Location,
    t: T,
)
    requires
        plan.wf(),
        s.wf(plan),
        plan.has(v),
        forall|i: int| 0 <= i < entries.len() ==> plan.has(Location::of_source((#[trigger] entries[i]).0.0)),
        absorbed_sources(plan, s, entries, e) is Some,
        0 <= e,
    ensures
        absorbed_sources(plan, s, entries, e).unwrap().pushed == s.pushed,
        absorbed_sources(plan, s, entries, e).unwrap().implications == s.implications,
        stored(absorbed_sources(plan, s, entries, e).unwrap().pointstamps[v], t) == stored(
            s.pointstamps[v],
            t,
        ) + net_sources(entries, e, v, t),
    decreases entries.len() - e,
{
    if e < entries.len() {
        let loc = Location::of_source(entries[e].0.0);
        lemma_absorbed_one_fits(plan, s, loc, entries[e].0.1, entries[e].1);
        lemma_absorbed_one_effect(plan, s, loc, entries[e].0.1, entries[e].1, v, t);
        lemma_absorbed_sources_effect(
            plan,
            absorbed_one(plan, s, loc, entries[e].0.1, entries[e].1).unwrap(),
            entries,
            e + 1,
            v,
            t,
        );
    }
}

/// What propagation does: it adds the buffered changes to the counts of the
/// capabilities held, and pushes exactly the changes of the frontiers of the
/// implications.
pub proof fn lemma_propagation_effect<T: Timestamp>(
    plan: Plan<T>,
    s: Ledger<T>,
    targets: Seq<((Target, T), i64)>,
    sources: Seq<((Source, T), i64)>,
    v: Location,
    t: T,
)
    requires
        plan.wf(),
        s.wf(plan),
        plan.has(v),
        forall|i: int| 0 <= i < targets.len() ==> plan.has(Location::of_target((#[trigger] targets[i]).0.0)),
        forall|i: int| 0 <= i < sources.len() ==> plan.has(Location::of_source((#[trigger] sources[i]).0.0)),
        taken_up(plan, s, targets, sources) is Some,
        settles(plan, taken_up(plan, s, targets, sources).unwrap()),
    ensures
        reported(settled(plan, taken_up(plan, s, targets, sources).unwrap()), v, t) == reported(s, v, t),
        stored(settled(plan, taken_up(plan, s, targets, sources).unwrap()).pointstamps[v], t) == stored(
            s.pointstamps[v],
            t,
        ) + net_targets(targets, 0, v, t) + net_sources(sources, 0, v, t),
{
    lemma_absorbed_targets_fits(plan, s, targets, 0);
    lemma_absorbed_targets_effect(plan, s, targets, 0, v, t);
    let mid = absorbed_targets(plan, s, targets, 0).unwrap();
    lemma_absorbed_sources_fits(plan, mid, sources, 0);
    lemma_absorbed_sources_effect(plan, mid, sources, 0, v, t);
    let taken = taken_up(plan, s, targets, sources).unwrap();
    let n = choose|n: nat| quiet_after(plan, taken, n);
    lemma_run_reports(plan, taken, n, v, t);
}

/// The buffers `first` and `second` undo each other: key by key their net
/// changes add up to nothing.
pub open spec fn undoes<K: Key>(first: Seq<(K, i64)>, second: Seq<(K, i64)>) -> bool {
    forall|k: K| stored(first, k) + stored(second, k) == 0
}

/// Round trip: from a state in which no capability is held, taking up
/// changes and propagating, and then taking up changes that undo them and
/// propagating again, leaves no capability held and nothing implied, and the
/// total nothing, in a graph without a cycle.
pub proof fn lemma_round_trip<T: Timestamp>(
    plan: Plan<T>,
    s: Ledger<T>,
    targets: Seq<((Target, T), i64)>,
    sources: Seq<((Source, T), i64)>,
    targets_back: Seq<((Target, T), i64)>,
    sources_back: Seq<((Source, T), i64)>,
)
    requires
        plan.wf(),
        s.wf(plan),
        balanced(plan, s),
        !has_cycle(plan.nodes, plan.edges, T::Summary::identity()),
        forall|l: Location| plan.has(l) ==> #[trigger] s.pointstamps[l] == Seq::<(T, i64)>::empty(),
        consolidated(targets),
        consolidated(sources),
        consolidated(targets_back),
        consolidated(sources_back),
        undoes(targets, targets_back),
        undoes(sources, sources_back),
        forall|i: int| 0 <= i < targets.len() ==> plan.has(Location::of_target((#[trigger] targets[i]).0.0)),
        forall|i: int| 0 <= i < sources.len() ==> plan.has(Location::of_source((#[trigger] sources[i]).0.0)),
        forall|i: int|
            0 <= i < targets_back.len() ==> plan.has(Location::of_target((#[trigger] targets_back[i]).0.0)),
        forall|i: int|
            0 <= i < sources_back.len() ==> plan.has(Location::of_source((#[trigger] sources_back[i]).0.0)),
        taken_up(plan, s, targets, sources) is Some,
        settles(plan, taken_up(plan, s, targets, sources).unwrap()),
        taken_up(
            plan,
            settled(plan, taken_up(plan, s, targets, sources).unwrap()),
            targets_back,
            sources_back,
        ) is Some,
        settles(
            plan,
            taken_up(
                plan,
                settled(plan, taken_up(plan, s, targets, sources).unwrap()),
                targets_back,
                sources_back,
            ).unwrap(),
        ),
    ensures
        ({
            let there = settled(plan, taken_up(plan, s, targets, sources).unwrap());
            let back = settled(plan, taken_up(plan, there, targets_back, sources_back).unwrap());
            &&& forall|l: Location| plan.has(l) ==> #[trigger] back.pointstamps[l] == Seq::<(T, i64)>::empty()
            &&& forall|l: Location| plan.has(l) ==> #[trigger] back.implications[l] == Seq::<(T, i64)>::empty()
            &&& back.total == 0
        }),
{
    let there = settled(plan, taken_up(plan, s, targets, sources).unwrap());
    lemma_propagation_balanced(plan, s, targets, sources);
    let back = settled(plan, taken_up(plan, there, targets_back, sources_back).unwrap());
    lemma_propagation_balanced(plan, there, targets_back, sources_back);
    assert forall|l: Location| plan.has(l) implies #[trigger] back.pointstamps[l] == Seq::<(T, i64)>::empty() by {
        let counts = back.pointstamps[l];
        if counts.len() > 0 {
            let key = counts[0].0;
            assert(counts.contains(counts[0]));
            lemma_stored_entry(counts, key);
            assert(stored(counts, key) == counts[0].1);
            lemma_propagation_effect(plan, s, targets, sources, l, key);
            lemma_propagation_effect(plan, there, targets_back, sources_back, l, key);
            assert(s.pointstamps[l] == Seq::<(T, i64)>::empty());
            assert(stored(s.pointstamps[l], key) == 0);
            match l.port {
                Port::Target(p) => {
                    let target = Target { node: l.node, port: p };
                    assert(Location::of_target(target) == l);
                    lemma_net_targets(targets, 0, target, key);
                    lemma_net_targets(targets_back, 0, target, key);
                    lemma_net_sources_elsewhere(sources, 0, l, key);
                    lemma_net_sources_elsewhere(sources_back, 0, l, key);
                    assert(stored(targets, (target, key)) + stored(targets_back, (target, key)) == 0);
                },
                Port::Source(p) => {
                    let source = Source { node: l.node, port: p };
                    assert(Location::of_source(source) == l);
                    lemma_net_sources(sources, 0, source, key);
                    lemma_net_sources(sources_back, 0, source, key);
                    lemma_net_targets_elsewhere(targets, 0, l, key);
                    lemma_net_targets_elsewhere(targets_back, 0, l, key);
                    assert(stored(sources, (source, key)) + stored(sources_back, (source, key)) == 0);
                },
            }
            assert(false);
        }
        assert(counts =~= Seq::<(T, i64)>::empty());
    }
    assert(nothing_held(plan, back)) by {
        assert forall|l: Location| plan.has(l) implies (#[trigger] frontier_of(back.pointstamps[l])).len()
            == 0 by {
            assert(back.pointstamps[l] == Seq::<(T, i64)>::empty());
        }
    }
    lemma_clear(plan, back);
}

/// Changes buffered at input ports add nothing at an output port.
pub proof fn lemma_net_targets_elsewhere<T>(entries: Seq<((Target, T), i64)>, e: int, v: Location, t: T)
    requires
        v.port is Source,
        0 <= e,
    ensures
        net_targets(entries, e, v, t) == 0,
    decreases entries.len() - e,
{
    if e < entries.len() {
        lemma_net_targets_elsewhere(entries, e + 1, v, t);
    }
}

/// Changes buffered at output ports add nothing at an input port.
pub proof fn lemma_net_sources_elsewhere<T>(entries: Seq<((Source, T), i64)>, e: int, v: Location, t: T)
    requires
        v.port is Target,
        0 <= e,
    ensures
        net_sources(entries, e, v, t) == 0,
    decreases entries.len() - e,
{
    if e < entries.len() {
        lemma_net_sources_elsewhere(entries, e + 1, v, t);
    }
}

/// A state in which nothing is held, implied or pending, with the total
/// nothing, is in balance.
pub proof fn lemma_blank_balanced<T: Timestamp>(plan: Plan<T>, s: Ledger<T>)
    requires
        plan.wf(),
        forall|l: Location| plan.has(l) ==> #[trigger] s.pointstamps[l] == Seq::<(T, i64)>::empty(),
        forall|l: Location| plan.has(l) ==> #[trigger] s.implications[l] == Seq::<(T, i64)>::empty(),
        s.worklist.len() == 0,
        s.total == 0,
    ensures
        balanced(plan, s),
{
    let ports = ports_of(plan);
    lemma_port_list_distinct(plan.nodes, plan.edges, plan.nodes.len() as int);
    assert forall|a: int| 0 <= a < ports.len() implies (#[trigger] frontier_of(s.pointstamps[ports[a]])).len()
        == 0 by {
        assert(plan.has(ports[a]));
        assert(s.pointstamps[ports[a]] == Seq::<(T, i64)>::empty());
    }
    assert forall|a: int| 0 <= a < ports.len() implies (#[trigger] frontier_of(
        s.implications[ports[a]],
    )).len() == 0 by {
        assert(plan.has(ports[a]));
        assert(s.implications[ports[a]] == Seq::<(T, i64)>::empty());
    }
    lemma_held_in_zero(s.pointstamps, ports, ports.len() as int);
    assert forall|v: Location, t: T| plan.has(v) implies #[trigger] balanced_at(plan, s, v, t) by {
        lemma_due_in_zero(plan, s.implications, ports, ports.len() as int, v, t);
        assert(s.pointstamps[v] == Seq::<(T, i64)>::empty());
        assert(s.implications[v] == Seq::<(T, i64)>::empty());
    }
}

} // verus!
