//! Why propagation comes to an end.
//!
//! Where no location passes timestamps back to itself as they are, where every
//! other summary moves timestamps strictly forward, and where timestamps cannot
//! rise without end, each step of propagation brings the pending changes
//! nearer to nothing: a step at a timestamp takes out pending changes there,
//! and what it makes pending at the same timestamp lies further along the
//! arcs of the graph.
use vstd::prelude::*;
use crate::order::{Key, PartialOrder, PathSummary, Timestamp};
use crate::location::{Location, Port, Source, Target};
use crate::graph::{shaped, is_port, edges_closed};
use crate::acyclic::{
    arc, has_cycle, sorted_by_arcs, earlier, stuck, port_list, lemma_port_list, lemma_stuck_cycle,
    lemma_arc_ports,
};
use crate::change_batch::{merged, ascending, lemma_merged_consolidated};
use crate::frontier::{
    frontier_of, frontier_changes, lemma_frontier_minimal, lemma_frontier_changes,
    lemma_changes_follow,
};
use crate::worklist::{enqueued, gathered, berth, entry_before, lemma_berth, lemma_gathered};
use crate::propagation::{
    Plan, Ledger, crossed, sent, relayed, step, run, quiet_after, settles, lemma_step_fits,
};
use crate::laws::{none_before, lemma_le_not_before, lemma_pops_ascend};

verus! {

/// Every arc into `v` is from a location of `gone`.
pub open spec fn freed<S>(
    nodes: Seq<Seq<Seq<Seq<S>>>>,
    edges: Seq<Seq<Seq<Target>>>,
    unit: S,
    gone: Set<Location>,
    v: Location,
) -> bool {
    forall|u: Location| arc(nodes, edges, unit, u, v) ==> gone.contains(u)
}

/// The ports of a graph without a cycle can be put in an order in which each
/// stands behind every location from which an arc leads to it: `order`, which
/// lists `gone` in such an order, can be continued to all the ports.
pub proof fn lemma_sortable<S>(
    nodes: Seq<Seq<Seq<Seq<S>>>>,
    edges: Seq<Seq<Seq<Target>>>,
    unit: S,
    gone: Set<Location>,
    order: Seq<Location>,
) -> (full: Seq<Location>)
    requires
        shaped(nodes, edges),
        edges_closed(nodes, edges),
        !has_cycle(nodes, edges, unit),
        order.no_duplicates(),
        forall|l: Location| gone.contains(l) <==> order.contains(l),
        forall|l: Location| gone.contains(l) ==> is_port(nodes, edges, l),
        sorted_by_arcs(nodes, edges, unit, order),
    ensures
        full.no_duplicates(),
        forall|l: Location| is_port(nodes, edges, l) <==> full.contains(l),
        sorted_by_arcs(nodes, edges, unit, full),
    decreases port_list(nodes, edges, nodes.len() as int).to_set().len() - gone.len(),
{
    let ports = port_list(nodes, edges, nodes.len() as int);
    let all = ports.to_set();
    vstd::seq_lib::seq_to_set_is_finite(ports);
    assert(gone.subset_of(all)) by {
        assert forall|l: Location| gone.contains(l) implies all.contains(l) by {
            lemma_port_list(nodes, edges, nodes.len() as int, l);
        }
    }
    vstd::set_lib::lemma_len_subset(gone, all);
    if exists|v: Location| is_port(nodes, edges, v) && !gone.contains(v) {
        let v0 = choose|v: Location| is_port(nodes, edges, v) && !gone.contains(v);
        if !exists|v: Location|
            is_port(nodes, edges, v) && !gone.contains(v) && #[trigger] freed(nodes, edges, unit, gone, v) {
            assert(stuck(nodes, edges, unit, gone)) by {
                reveal(stuck);
                assert forall|v: Location| #[trigger]
                    is_port(nodes, edges, v) && !gone.contains(v) implies exists|u: Location| #[trigger]
                    arc(nodes, edges, unit, u, v) && !gone.contains(u) by {
                    assert(!freed(nodes, edges, unit, gone, v));
                }
            }
            lemma_stuck_cycle(nodes, edges, unit, gone, v0);
            assert(false);
        }
        let v = choose|v: Location|
            is_port(nodes, edges, v) && !gone.contains(v) && #[trigger] freed(nodes, edges, unit, gone, v);
        let gone2 = gone.insert(v);
        let order2 = order.push(v);
        lemma_port_list(nodes, edges, nodes.len() as int, v);
        assert(gone2.subset_of(all));
        vstd::set_lib::lemma_len_subset(gone2, all);
        assert forall|l: Location| gone2.contains(l) <==> order2.contains(l) by {
            vstd::seq_lib::lemma_seq_contains_after_push(order, v, l);
        }
        assert(order2.no_duplicates()) by {
            assert forall|a: int, b: int|
                0 <= a < order2.len() && 0 <= b < order2.len() && a != b implies order2[a]
                != order2[b] by {
                if a == order.len() {
                    assert(order[b] == order2[b]);
                    assert(order.contains(order[b]));
                } else if b == order.len() {
                    assert(order[a] == order2[a]);
                    assert(order.contains(order[a]));
                } else {
                    assert(order[a] == order2[a] && order[b] == order2[b]);
                }
            }
        }
        assert forall|idx: int, u: Location|
            0 <= idx < order2.len() && arc(nodes, edges, unit, u, order2[idx]) implies #[trigger] earlier(
            order2,
            u,
            idx,
        ) by {
            if idx < order.len() {
                assert(order2[idx] == order[idx]);
                assert(earlier(order, u, idx));
                let a = choose|a: int| 0 <= a < idx && order[a] == u;
                assert(order2[a] == u);
            } else {
                assert(gone.contains(u));
                let a = order.index_of(u);
                assert(order2[a] == u);
            }
        }
        lemma_sortable(nodes, edges, unit, gone2, order2)
    } else {
        order
    }
}

/// How far from the end of `order` the location `loc` stands; nothing for a
/// location that `order` does not hold.
pub open spec fn depth(order: Seq<Location>, loc: Location) -> nat {
    if order.contains(loc) {
        (order.len() - order.index_of(loc)) as nat
    } else {
        0
    }
}

/// The number of walks along arcs that start at `loc`, the walk without a hop
/// among them. `order` holds the ports, each behind the locations from which
/// an arc leads to it.
pub open spec fn reach<S>(
    nodes: Seq<Seq<Seq<Seq<S>>>>,
    edges: Seq<Seq<Seq<Target>>>,
    unit: S,
    order: Seq<Location>,
    loc: Location,
) -> nat
    decreases depth(order, loc), 2nat, 0nat, 0nat,
{
    1 + match loc.port {
        Port::Target(i) => cross_reach(nodes, edges, unit, order, loc, 0, 0),
        Port::Source(p) => send_reach(nodes, edges, unit, order, loc, 0),
    }
}

/// The number of walks that start at the output port `loc` with an edge to
/// one of its targets from `k` on.
pub open spec fn send_reach<S>(
    nodes: Seq<Seq<Seq<Seq<S>>>>,
    edges: Seq<Seq<Seq<Target>>>,
    unit: S,
    order: Seq<Location>,
    loc: Location,
    k: int,
) -> nat
    decreases depth(order, loc), 1nat, (if loc.port is Source && 0 <= k < edges[loc.node as int][
        loc.port->Source_0 as int
    ].len() {
        edges[loc.node as int][loc.port->Source_0 as int].len() - k
    } else {
        0
    }) as nat, 0nat,
{
    if loc.port is Source && 0 <= k < edges[loc.node as int][loc.port->Source_0 as int].len() {
        let next = Location::of_target(edges[loc.node as int][loc.port->Source_0 as int][k]);
        (if depth(order, next) < depth(order, loc) {
            reach(nodes, edges, unit, order, next)
        } else {
            0
        }) + send_reach(nodes, edges, unit, order, loc, k + 1)
    } else {
        0
    }
}

/// The number of walks that start at the input port `loc` with a summary
/// `unit` inside its node, from the summary `k` to the output port `j` on.
pub open spec fn cross_reach<S>(
    nodes: Seq<Seq<Seq<Seq<S>>>>,
    edges: Seq<Seq<Seq<Target>>>,
    unit: S,
    order: Seq<Location>,
    loc: Location,
    j: int,
    k: int,
) -> nat
    decreases depth(order, loc), 1nat, (if loc.port is Target && 0 <= j < nodes[loc.node as int][
        loc.port->Target_0 as int
    ].len() {
        nodes[loc.node as int][loc.port->Target_0 as int].len() - j
    } else {
        0
    }) as nat, (if loc.port is Target && 0 <= j < nodes[loc.node as int][loc.port->Target_0 as int].len()
        && 0 <= k < nodes[loc.node as int][loc.port->Target_0 as int][j].len() {
        nodes[loc.node as int][loc.port->Target_0 as int][j].len() - k
    } else {
        0
    }) as nat,
{
    if loc.port is Target && 0 <= j < nodes[loc.node as int][loc.port->Target_0 as int].len() {
        let row = nodes[loc.node as int][loc.port->Target_0 as int];
        if 0 <= k < row[j].len() {
            let next = Location { node: loc.node, port: Port::Source(j as usize) };
            (if row[j][k] == unit && depth(order, next) < depth(order, loc) {
                reach(nodes, edges, unit, order, next)
            } else {
                0
            }) + cross_reach(nodes, edges, unit, order, loc, j, k + 1)
        } else {
            cross_reach(nodes, edges, unit, order, loc, j + 1, 0)
        }
    } else {
        0
    }
}

/// An arc leads to a location of lesser depth.
pub proof fn lemma_arc_deepens<S>(
    nodes: Seq<Seq<Seq<Seq<S>>>>,
    edges: Seq<Seq<Seq<Target>>>,
    unit: S,
    order: Seq<Location>,
    u: Location,
    v: Location,
)
    requires
        shaped(nodes, edges),
        edges_closed(nodes, edges),
        order.no_duplicates(),
        forall|l: Location| is_port(nodes, edges, l) <==> order.contains(l),
        sorted_by_arcs(nodes, edges, unit, order),
        arc(nodes, edges, unit, u, v),
    ensures
        depth(order, v) < depth(order, u),
{
    lemma_arc_ports(nodes, edges, unit, u, v);
    assert(order.contains(v));
    assert(order.contains(u));
    let idx = order.index_of(v);
    assert(0 <= idx < order.len() && order[idx] == v);
    assert(earlier(order, u, idx));
    let a = choose|a: int| 0 <= a < idx && order[a] == u;
    let b = order.index_of(u);
    assert(0 <= b < order.len() && order[b] == u);
    assert(a == b);
}

/// The sum, over the pending changes of `w` at `time`, of the numbers of
/// walks that start at their locations.
pub open spec fn load<T, S>(
    nodes: Seq<Seq<Seq<Seq<S>>>>,
    edges: Seq<Seq<Seq<Target>>>,
    unit: S,
    order: Seq<Location>,
    w: Seq<(T, Location, i64)>,
    time: T,
) -> nat
    decreases w.len(),
{
    if w.len() == 0 {
        0
    } else {
        load(nodes, edges, unit, order, w.drop_last(), time) + if w.last().0 == time {
            reach(nodes, edges, unit, order, w.last().1)
        } else {
            0
        }
    }
}

/// A pending change that enters adds its walks to the load at its timestamp.
pub proof fn lemma_load_insert<T, S>(
    nodes: Seq<Seq<Seq<Seq<S>>>>,
    edges: Seq<Seq<Seq<Target>>>,
    unit: S,
    order: Seq<Location>,
    w: Seq<(T, Location, i64)>,
    time: T,
    p: int,
    e: (T, Location, i64),
)
    requires
        0 <= p <= w.len(),
    ensures
        load(nodes, edges, unit, order, w.insert(p, e), time) == load(
            nodes,
            edges,
            unit,
            order,
            w,
            time,
        ) + if e.0 == time {
            reach(nodes, edges, unit, order, e.1)
        } else {
            0
        },
    decreases w.len() - p,
{
    w.insert_ensures(p, e);
    let m = w.insert(p, e);
    if p == w.len() {
        assert(m.drop_last() =~= w);
        assert(m.last() == e);
    } else {
        assert(m.last() == w.last());
        assert(m.drop_last() =~= w.drop_last().insert(p, e)) by {
            w.drop_last().insert_ensures(p, e);
        }
        lemma_load_insert(nodes, edges, unit, order, w.drop_last(), time, p, e);
    }
}

/// The front of a sequence of pending changes carries no more load than the
/// whole.
pub proof fn lemma_load_take<T, S>(
    nodes: Seq<Seq<Seq<Seq<S>>>>,
    edges: Seq<Seq<Seq<Target>>>,
    unit: S,
    order: Seq<Location>,
    w: Seq<(T, Location, i64)>,
    time: T,
    n: int,
)
    requires
        0 <= n <= w.len(),
    ensures
        load(nodes, edges, unit, order, w.take(n), time) <= load(nodes, edges, unit, order, w, time),
    decreases w.len() - n,
{
    if n == w.len() {
        assert(w.take(n) =~= w);
    } else {
        assert(w.drop_last().take(n) =~= w.take(n));
        lemma_load_take(nodes, edges, unit, order, w.drop_last(), time, n);
    }
}

/// `order` holds the ports of the plan, each behind the locations from which
/// an arc leads to it.
pub open spec fn guided<T: Timestamp>(plan: Plan<T>, order: Seq<Location>) -> bool {
    &&& order.no_duplicates()
    &&& forall|l: Location| plan.has(l) <==> order.contains(l)
    &&& sorted_by_arcs(plan.nodes, plan.edges, T::Summary::identity(), order)
}

/// Every summary but that of the empty path changes the timestamps that it
/// applies to.
pub open spec fn advancing<T: Timestamp>() -> bool {
    forall|x: T::Summary, t: T| x != T::Summary::identity() ==> #[trigger] x.apply(t) != Some(t)
}

/// The number of walks along arcs of the plan that start at `loc`.
pub open spec fn weight<T: Timestamp>(plan: Plan<T>, order: Seq<Location>, loc: Location) -> nat {
    reach(plan.nodes, plan.edges, T::Summary::identity(), order, loc)
}

/// The load of the pending changes `w` at `time`.
pub open spec fn burden<T: Timestamp>(
    plan: Plan<T>,
    order: Seq<Location>,
    w: Seq<(T, Location, i64)>,
    time: T,
) -> nat {
    load(plan.nodes, plan.edges, T::Summary::identity(), order, w, time)
}

/// A pending change that is entered adds its walks to the load at its
/// timestamp.
proof fn lemma_enqueued_load<T: Timestamp>(
    plan: Plan<T>,
    order: Seq<Location>,
    w: Seq<(T, Location, i64)>,
    e: (T, Location, i64),
    time: T,
)
    ensures
        burden(plan, order, enqueued(w, e), time) == burden(plan, order, w, time) + if e.0 == time {
            weight(plan, order, e.1)
        } else {
            0
        },
{
    lemma_berth(w, e, w.len() as int);
    lemma_load_insert(
        plan.nodes,
        plan.edges,
        T::Summary::identity(),
        order,
        w,
        time,
        berth(w, e, w.len() as int),
        e,
    );
}

/// Crossing a node with a change at `time` adds to the load there the walks
/// that start with a summary of the empty path; with a later change it adds
/// nothing.
proof fn lemma_crossed_load<T: Timestamp>(
    plan: Plan<T>,
    order: Seq<Location>,
    w: Seq<(T, Location, i64)>,
    loc: Location,
    j: int,
    k: int,
    at: T,
    diff: i64,
    time: T,
)
    requires
        plan.wf(),
        guided(plan, order),
        advancing::<T>(),
        plan.has(loc),
        loc.port is Target,
        0 <= j,
        0 <= k,
        at == time || time.before(at),
    ensures
        burden(
            plan,
            order,
            crossed(
                w,
                plan.nodes[loc.node as int][loc.port->Target_0 as int],
                loc.node,
                j,
                k,
                at,
                diff,
            ),
            time,
        ) == burden(plan, order, w, time) + if at == time {
            cross_reach(plan.nodes, plan.edges, T::Summary::identity(), order, loc, j, k)
        } else {
            0
        },
    decreases plan.nodes[loc.node as int][loc.port->Target_0 as int].len() - j, (if 0 <= j
        < plan.nodes[loc.node as int][loc.port->Target_0 as int].len() {
        plan.nodes[loc.node as int][loc.port->Target_0 as int][j].len() - k
    } else {
        0
    }),
{
    let row = plan.nodes[loc.node as int][loc.port->Target_0 as int];
    let unit = T::Summary::identity();
    if j < row.len() {
        if k < row[j].len() {
            let next = Location { node: loc.node, port: Port::Source(j as usize) };
            match row[j][k].apply(at) {
                Some(t) => {
                    let e = (t, next, diff);
                    lemma_enqueued_load(plan, order, w, e, time);
                    <T::Summary as PathSummary<T>>::apply_advances(row[j][k], at);
                    lemma_le_not_before(at, t);
                    T::before_irreflexive(time);
                    if at == time {
                        if row[j][k] == unit {
                            <T::Summary as PathSummary<T>>::identity_applies(at);
                            assert(row[j].contains(unit));
                            assert(row.len() == plan.edges[loc.node as int].len());
                            assert(plan.edges[loc.node as int].len() <= usize::MAX);
                            assert(arc(plan.nodes, plan.edges, unit, loc, next));
                            lemma_arc_deepens(plan.nodes, plan.edges, unit, order, loc, next);
                        } else {
                            assert(row[j][k].apply(at) != Some(at));
                        }
                    } else {
                        assert(t != time);
                    }
                    lemma_crossed_load(plan, order, enqueued(w, e), loc, j, k + 1, at, diff, time);
                },
                None => {
                    if at == time && row[j][k] == unit {
                        <T::Summary as PathSummary<T>>::identity_applies(at);
                    }
                    lemma_crossed_load(plan, order, w, loc, j, k + 1, at, diff, time);
                },
            }
        } else {
            lemma_crossed_load(plan, order, w, loc, j + 1, 0, at, diff, time);
        }
    }
}

/// Sending a change at `time` along edges adds to the load there the walks
/// that start with one of the edges; with a later change it adds nothing.
proof fn lemma_sent_load<T: Timestamp>(
    plan: Plan<T>,
    order: Seq<Location>,
    w: Seq<(T, Location, i64)>,
    loc: Location,
    k: int,
    at: T,
    diff: i64,
    time: T,
)
    requires
        plan.wf(),
        guided(plan, order),
        plan.has(loc),
        loc.port is Source,
        0 <= k,
        at == time || time.before(at),
    ensures
        burden(
            plan,
            order,
            sent(w, plan.edges[loc.node as int][loc.port->Source_0 as int], k, at, diff),
            time,
        ) == burden(plan, order, w, time) + if at == time {
            send_reach(plan.nodes, plan.edges, T::Summary::identity(), order, loc, k)
        } else {
            0
        },
    decreases plan.edges[loc.node as int][loc.port->Source_0 as int].len() - k,
{
    let targets = plan.edges[loc.node as int][loc.port->Source_0 as int];
    let unit = T::Summary::identity();
    if k < targets.len() {
        let next = Location::of_target(targets[k]);
        let e = (at, next, diff);
        lemma_enqueued_load(plan, order, w, e, time);
        T::before_irreflexive(time);
        if at == time {
            assert(targets.contains(targets[k]));
            assert(arc(plan.nodes, plan.edges, unit, loc, next));
            lemma_arc_deepens(plan.nodes, plan.edges, unit, order, loc, next);
        }
        lemma_sent_load(plan, order, enqueued(w, e), loc, k + 1, at, diff, time);
    }
}

/// Relaying changes at later timestamps leaves the load at `time`.
proof fn lemma_relayed_load_later<T: Timestamp>(
    plan: Plan<T>,
    order: Seq<Location>,
    s: Ledger<T>,
    loc: Location,
    changes: Seq<(T, i64)>,
    c: int,
    time: T,
)
    requires
        plan.wf(),
        guided(plan, order),
        advancing::<T>(),
        plan.has(loc),
        forall|i: int| c <= i < changes.len() ==> time.before((#[trigger] changes[i]).0),
        relayed(plan, s, loc, changes, c) is Some,
        0 <= c,
    ensures
        burden(plan, order, relayed(plan, s, loc, changes, c).unwrap().worklist, time) == burden(
            plan,
            order,
            s.worklist,
            time,
        ),
    decreases changes.len() - c,
{
    if c < changes.len() {
        let at = changes[c].0;
        let diff = changes[c].1;
        T::before_irreflexive(time);
        let worklist = match loc.port {
            Port::Target(i) => crossed(
                s.worklist,
                plan.nodes[loc.node as int][i as int],
                loc.node,
                0,
                0,
                at,
                diff,
            ),
            Port::Source(p) => sent(s.worklist, plan.edges[loc.node as int][p as int], 0, at, diff),
        };
        match loc.port {
            Port::Target(i) => {
                lemma_crossed_load(plan, order, s.worklist, loc, 0, 0, at, diff, time);
            },
            Port::Source(p) => {
                lemma_sent_load(plan, order, s.worklist, loc, 0, at, diff, time);
            },
        }
        let pushed = merged(s.pushed, (loc, at), diff).unwrap();
        lemma_relayed_load_later(plan, order, Ledger { worklist, pushed, ..s }, loc, changes, c + 1, time);
    }
}

/// Relaying the changes of a frontier adds less to the load at `time` than
/// the walks that start at the location.
proof fn lemma_relayed_load<T: Timestamp>(
    plan: Plan<T>,
    order: Seq<Location>,
    s: Ledger<T>,
    loc: Location,
    changes: Seq<(T, i64)>,
    time: T,
)
    requires
        plan.wf(),
        guided(plan, order),
        advancing::<T>(),
        plan.has(loc),
        ascending(changes),
        forall|i: int| 0 <= i < changes.len() ==> !(#[trigger] changes[i]).0.before(time),
        relayed(plan, s, loc, changes, 0) is Some,
    ensures
        burden(plan, order, relayed(plan, s, loc, changes, 0).unwrap().worklist, time) + 1 <= burden(
            plan,
            order,
            s.worklist,
            time,
        ) + weight(plan, order, loc),
{
    if changes.len() > 0 {
        let at = changes[0].0;
        let diff = changes[0].1;
        T::before_total(at, time);
        if at == time {
            let worklist = match loc.port {
                Port::Target(i) => crossed(
                    s.worklist,
                    plan.nodes[loc.node as int][i as int],
                    loc.node,
                    0,
                    0,
                    at,
                    diff,
                ),
                Port::Source(p) => sent(s.worklist, plan.edges[loc.node as int][p as int], 0, at, diff),
            };
            match loc.port {
                Port::Target(i) => {
                    lemma_crossed_load(plan, order, s.worklist, loc, 0, 0, at, diff, time);
                },
                Port::Source(p) => {
                    lemma_sent_load(plan, order, s.worklist, loc, 0, at, diff, time);
                },
            }
            let pushed = merged(s.pushed, (loc, at), diff).unwrap();
            assert forall|i: int| 1 <= i < changes.len() implies time.before((#[trigger] changes[i]).0) by {
                assert(changes[0].0.before(changes[i].0));
            }
            lemma_relayed_load_later(plan, order, Ledger { worklist, pushed, ..s }, loc, changes, 1, time);
        } else {
            assert forall|i: int| 0 <= i < changes.len() implies time.before((#[trigger] changes[i]).0) by {
                if i > 0 {
                    assert(changes[0].0.before(changes[i].0));
                    T::before_transitive(time, changes[0].0, changes[i].0);
                }
            }
            lemma_relayed_load_later(plan, order, s, loc, changes, 0, time);
        }
    }
}

/// A step of propagation lessens the load at the timestamp at which it takes
/// a change out.
pub proof fn lemma_step_load<T: Timestamp>(plan: Plan<T>, order: Seq<Location>, s: Ledger<T>)
    requires
        plan.wf(),
        s.wf(plan),
        guided(plan, order),
        advancing::<T>(),
        s.worklist.len() > 0,
        step(plan, s) is Some,
    ensures
        burden(plan, order, step(plan, s).unwrap().worklist, s.worklist.last().0) < burden(
            plan,
            order,
            s.worklist,
            s.worklist.last().0,
        ),
{
    let least = s.worklist.last();
    let time = least.0;
    let loc = least.1;
    let unit = T::Summary::identity();
    lemma_gathered(s.worklist.drop_last(), least.0, least.1, least.2);
    let (rest, diff) = gathered(s.worklist.drop_last(), least.0, least.1, least.2).unwrap();
    lemma_load_take(plan.nodes, plan.edges, unit, order, s.worklist.drop_last(), time, rest.len() as int);
    assert(burden(plan, order, rest, time) + weight(plan, order, loc) <= burden(
        plan,
        order,
        s.worklist,
        time,
    ));
    let next = Ledger { worklist: rest, ..s };
    if diff != 0 {
        assert(plan.has(loc));
        let counts = merged(s.implications[loc], time, diff).unwrap();
        let changes = frontier_changes(frontier_of(s.implications[loc]), frontier_of(counts));
        lemma_merged_consolidated(s.implications[loc], time, diff);
        lemma_frontier_minimal(s.implications[loc]);
        lemma_frontier_minimal(counts);
        lemma_frontier_changes(frontier_of(s.implications[loc]), frontier_of(counts));
        assert forall|i: int| 0 <= i < changes.len() implies !(#[trigger] changes[i]).0.before(time) by {
            assert(changes.contains(changes[i]));
            lemma_changes_follow(s.implications[loc], time, diff, changes[i]);
            lemma_le_not_before(time, changes[i].0);
        }
        lemma_relayed_load(
            plan,
            order,
            Ledger { implications: next.implications.insert(loc, counts), ..next },
            loc,
            changes,
            time,
        );
    }
}

/// A run of one step more is a run from the state after one step.
pub proof fn lemma_run_shift<T: Timestamp>(plan: Plan<T>, s: Ledger<T>, n: nat)
    ensures
        run(plan, s, n + 1) == match step(plan, s) {
            None => None,
            Some(next) => run(plan, next, n),
        },
    decreases n,
{
    if n > 0 {
        lemma_run_shift(plan, s, (n - 1) as nat);
    } else {
        assert(run(plan, s, 1) == step(plan, run(plan, s, 0).unwrap()));
    }
}

/// `height` falls as timestamps rise.
pub open spec fn falling<T: Key>(height: spec_fn(T) -> nat) -> bool {
    forall|a: T, b: T| #[trigger] a.before(b) ==> height(b) < height(a)
}

/// Every pending change of `w` is at a timestamp of height at most `level`.
pub open spec fn below<T>(w: Seq<(T, Location, i64)>, height: spec_fn(T) -> nat, level: nat) -> bool {
    forall|i: int| 0 <= i < w.len() ==> height((#[trigger] w[i]).0) <= level
}

/// What does not sort ahead of a timestamp is no higher than it.
proof fn lemma_below<T: Key>(w: Seq<(T, Location, i64)>, height: spec_fn(T) -> nat, time: T)
    requires
        falling(height),
        none_before(w, time),
    ensures
        below(w, height, height(time)),
{
    assert forall|i: int| 0 <= i < w.len() implies height((#[trigger] w[i]).0) <= height(time) by {
        T::before_total(w[i].0, time);
    }
}

/// The least pending change is at hand: nothing pending sorts ahead of it.
proof fn lemma_least_last<T: Key>(w: Seq<(T, Location, i64)>)
    requires
        crate::worklist::descending(w),
        w.len() > 0,
    ensures
        none_before(w, w.last().0),
{
    assert forall|i: int| 0 <= i < w.len() implies !(#[trigger] w[i]).0.before(w.last().0) by {
        if i < w.len() - 1 {
            assert(!entry_before(w[i], w[w.len() - 1]));
        } else {
            T::before_irreflexive(w.last().0);
        }
    }
}

/// Propagation ends from every state whose pending changes are at heights up
/// to `level`, with a load of at most `budget` at that height: by induction on
/// the level, and at one level on the budget.
proof fn lemma_ends_induct<T: Timestamp>(
    plan: Plan<T>,
    order: Seq<Location>,
    height: spec_fn(T) -> nat,
    s: Ledger<T>,
    level: nat,
    budget: nat,
)
    requires
        plan.wf(),
        s.wf(plan),
        guided(plan, order),
        advancing::<T>(),
        falling(height),
        forall|n: nat| #[trigger] run(plan, s, n) is Some,
        below(s.worklist, height, level),
        s.worklist.len() > 0 && height(s.worklist.last().0) == level ==> burden(
            plan,
            order,
            s.worklist,
            s.worklist.last().0,
        ) <= budget,
    ensures
        settles(plan, s),
    decreases level, budget,
{
    if s.worklist.len() == 0 {
        assert(quiet_after(plan, s, 0));
    } else {
        let time = s.worklist.last().0;
        lemma_least_last(s.worklist);
        assert(height(s.worklist[s.worklist.len() - 1].0) <= level);
        if height(time) < level {
            lemma_below(s.worklist, height, time);
            lemma_ends_induct(
                plan,
                order,
                height,
                s,
                height(time),
                burden(plan, order, s.worklist, time),
            );
        } else {
            assert(run(plan, s, 1) is Some);
            assert(run(plan, s, 1) == step(plan, run(plan, s, 0).unwrap()));
            let next = step(plan, s).unwrap();
            lemma_step_fits(plan, s);
            lemma_pops_ascend(plan, s);
            lemma_step_load(plan, order, s);
            lemma_below(next.worklist, height, time);
            assert forall|n: nat| #[trigger] run(plan, next, n) is Some by {
                lemma_run_shift(plan, s, n);
                assert(run(plan, s, n + 1) is Some);
            }
            if next.worklist.len() > 0 && height(next.worklist.last().0) == level {
                let later = next.worklist.last().0;
                T::before_total(later, time);
                assert(later == time);
            }
            lemma_ends_induct(plan, order, height, next, level, (budget - 1) as nat);
            let n = choose|n: nat| quiet_after(plan, next, n);
            lemma_run_shift(plan, s, n);
            assert(quiet_after(plan, s, n + 1));
        }
    }
}

/// Propagation ends where the graph has no cycle, summaries but that of the
/// empty path change timestamps, and `height` falls as timestamps rise.
proof fn lemma_ends<T: Timestamp>(plan: Plan<T>, s: Ledger<T>, height: spec_fn(T) -> nat)
    requires
        plan.wf(),
        s.wf(plan),
        !has_cycle(plan.nodes, plan.edges, T::Summary::identity()),
        advancing::<T>(),
        falling(height),
        forall|n: nat| #[trigger] run(plan, s, n) is Some,
    ensures
        settles(plan, s),
{
    let order = lemma_sortable(
        plan.nodes,
        plan.edges,
        T::Summary::identity(),
        Set::empty(),
        Seq::empty(),
    );
    if s.worklist.len() == 0 {
        assert(quiet_after(plan, s, 0));
    } else {
        let time = s.worklist.last().0;
        lemma_least_last(s.worklist);
        lemma_below(s.worklist, height, time);
        lemma_ends_induct(plan, order, height, s, height(time), burden(plan, order, s.worklist, time));
    }
}

/// The height of timestamps.
pub open spec fn heights<T: Timestamp>() -> spec_fn(T) -> nat {
    |t: T| t.height()
}

/// Every summary but that of the empty path changes the timestamps that it
/// applies to, and the height of timestamps falls as they rise.
pub proof fn lemma_lawful<T: Timestamp>()
    ensures
        advancing::<T>(),
        falling(heights::<T>()),
{
    assert forall|x: T::Summary, t: T| x != T::Summary::identity() implies #[trigger] x.apply(t)
        != Some(t) by {
        <T::Summary as PathSummary<T>>::apply_changes(x, t);
    }
    assert forall|a: T, b: T| #[trigger] a.before(b) implies heights::<T>()(b) < heights::<T>()(a) by {
        T::height_falls(a, b);
    }
}

/// Propagation comes to an end in a graph in which no location passes
/// timestamps back to itself as they are: from every state from which no run
/// meets a count that does not fit, some run ends with nothing pending.
pub proof fn lemma_propagation_ends<T: Timestamp>(plan: Plan<T>, s: Ledger<T>)
    requires
        plan.wf(),
        s.wf(plan),
        !has_cycle(plan.nodes, plan.edges, T::Summary::identity()),
        forall|n: nat| #[trigger] run(plan, s, n) is Some,
    ensures
        settles(plan, s),
{
    lemma_lawful::<T>();
    lemma_ends(plan, s, heights::<T>());
}

} // verus!
